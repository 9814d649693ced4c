//! What travels between nodes, and its conversion from and to the model's tensors.
//!
//! The only payload between stages is the activation, in half precision: two bytes for each entry,
//! the least significant first. Caches have no form on the wire.

use vstd::arithmetic::power2::pow2;
use vstd::prelude::*;

use crate::double::{distance, single_magnitude};
use crate::golden::{cut, into_matrix};
use crate::halves::{
    halve, halved, halves_survive_the_wire, the_wire_keeps_eleven_bits, widen_half, widened_half,
};
use crate::stage::{Activation, ActivationView};
use crate::tensor::{Grid, Matrix};
use crate::verify::{flat, flatten};

verus! {

/// Token ids.
#[derive(Debug)]
pub struct TokenIds {
    pub ids: Vec<u32>,
}

/// A tensor `[n_tokens, d_model]` in half precision.
#[derive(Debug)]
pub struct WireActivation {
    pub n_tokens: u32,
    pub d_model: u32,
    pub data: Vec<u8>,
}

/// The input of a stage.
#[derive(Debug)]
pub enum Input {
    Ids(TokenIds),
    Activation(WireActivation),
}

/// A request to run a stage.
#[derive(Debug)]
pub struct ActivationStream {
    pub session: String,
    pub stage_id: u32,
    pub seq_pos: u64,
    pub input: Option<Input>,
}

/// The answer of a worker.
#[derive(Debug)]
pub struct StageResponse {
    pub output: Option<WireActivation>,
    pub is_logits: bool,
    pub commitment: String,
    pub nonce: String,
    pub flops: u64,
}

/// What can be wrong with a message.
#[derive(Debug, Clone, Copy, PartialEq, Eq, Structural)]
pub enum WireError {
    /// A request without input.
    MissingInput,
    /// A response without output.
    EmptyResponse,
    /// A tensor with another number of bytes than its shape has.
    Length { bytes: usize, rows: usize, cols: usize },
}

/// The contents of a tensor on the wire.
#[verifier::ext_equal]
pub struct WireView {
    pub n_tokens: u32,
    pub d_model: u32,
    pub data: Seq<u8>,
}

impl View for WireActivation {
    type V = WireView;

    open spec fn view(&self) -> WireView {
        WireView { n_tokens: self.n_tokens, d_model: self.d_model, data: self.data@ }
    }
}

/// The contents of a stage's input on the wire.
#[verifier::ext_equal]
pub enum InputView {
    Ids(Seq<u32>),
    Activation(WireView),
}

impl View for Input {
    type V = InputView;

    open spec fn view(&self) -> InputView {
        match *self {
            Input::Ids(t) => InputView::Ids(t.ids@),
            Input::Activation(a) => InputView::Activation(a@),
        }
    }
}

/// The contents of a request.
#[verifier::ext_equal]
pub struct RequestView {
    pub session: Seq<char>,
    pub stage_id: u32,
    pub seq_pos: u64,
    pub input: Option<InputView>,
}

impl View for ActivationStream {
    type V = RequestView;

    open spec fn view(&self) -> RequestView {
        RequestView {
            session: self.session@,
            stage_id: self.stage_id,
            seq_pos: self.seq_pos,
            input: match self.input {
                Some(input) => Some(input@),
                None => None,
            },
        }
    }
}

/// The bytes of singles in half precision, two for each, the least significant first.
pub open spec fn half_bytes(xs: Seq<u32>) -> Seq<u8> {
    Seq::new(
        2 * xs.len(),
        |i: int|
            (if i % 2 == 0 {
                halved(xs[i / 2]) % 0x100
            } else {
                halved(xs[i / 2]) / 0x100
            }) as u8,
    )
}

/// The half that two bytes spell.
pub open spec fn half_at(bytes: Seq<u8>, i: int) -> u16 {
    (bytes[2 * i] + 0x100 * bytes[2 * i + 1]) as u16
}

/// The singles of halves in a blob.
pub open spec fn singles_of(bytes: Seq<u8>) -> Seq<u32> {
    Seq::new(bytes.len() / 2, |i: int| widened_half(half_at(bytes, i)))
}

/// A matrix on the wire.
pub open spec fn wired(g: Grid) -> WireView {
    WireView {
        n_tokens: g.rows.len() as u32,
        d_model: g.cols as u32,
        data: half_bytes(flat(g.rows)),
    }
}

/// Whether a tensor has as many bytes as its shape asks for.
pub open spec fn has_length(a: WireView) -> bool {
    a.data.len() == a.n_tokens * a.d_model * 2
}

/// The matrix of a tensor on the wire.
pub open spec fn unwired(a: WireView) -> Grid {
    cut(singles_of(a.data), a.n_tokens as nat, a.d_model as nat)
}

/// An activation on the wire.
pub open spec fn wired_input(input: ActivationView) -> InputView {
    match input {
        ActivationView::Ids(ids) => InputView::Ids(ids.map_values(|id: usize| id as u32)),
        ActivationView::Hidden(h) => InputView::Activation(wired(h)),
    }
}

/// The activation of a stage's input on the wire.
pub open spec fn unwired_input(input: InputView) -> ActivationView {
    match input {
        InputView::Ids(ids) => ActivationView::Ids(ids.map_values(|id: u32| id as usize)),
        InputView::Activation(a) => ActivationView::Hidden(unwired(a)),
    }
}

/// A matrix on the wire, in half precision.
pub fn array2_to_proto(a: &Matrix) -> (out: WireActivation)
    ensures
        out@ == wired(a@),
{
    let entries: Vec<u32> = flatten(a);
    let mut data: Vec<u8> = Vec::new();
    let mut i: usize = 0;
    while i < entries.len()
        invariant
            i <= entries@.len(),
            data@ == half_bytes(entries@.take(i as int)),
        decreases entries@.len() - i,
    {
        let h: u16 = halve(entries[i]);
        let ghost before = data@;
        data.push((h % 0x100) as u8);
        data.push((h / 0x100) as u8);
        proof {
            let all = half_bytes(entries@.take(i + 1));
            assert(data@.len() == all.len());
            assert forall|b: int| 0 <= b < all.len() implies data@[b] == all[b] by {
                if b < 2 * i {
                    assert(entries@.take(i + 1)[b / 2] == entries@.take(i as int)[b / 2]);
                } else {
                    assert(b / 2 == i);
                }
            }
            assert(data@ =~= all);
        }
        i = i + 1;
    }
    assert(entries@.take(i as int) =~= entries@);
    #[verifier::truncate]
    let n_tokens: u32 = a.nrows() as u32;
    #[verifier::truncate]
    let d_model: u32 = a.ncols() as u32;
    WireActivation { n_tokens, d_model, data }
}

/// A matrix from the wire.
pub fn proto_to_array2(a: &WireActivation) -> (out: Result<Matrix, WireError>)
    ensures
        out is Ok <==> has_length(a@),
        out matches Ok(m) ==> m@ == unwired(a@),
        out matches Err(e) ==> e == (WireError::Length {
            bytes: a@.data.len() as usize,
            rows: a.n_tokens as usize,
            cols: a.d_model as usize,
        }),
{
    let rows: usize = a.n_tokens as usize;
    let cols: usize = a.d_model as usize;
    proof {
        assert(rows * cols <= 0xffff_ffff * 0xffff_ffff) by (nonlinear_arith)
            requires
                rows <= 0xffff_ffff,
                cols <= 0xffff_ffff,
        ;
    }
    let size: u128 = rows as u128 * cols as u128 * 2;
    if a.data.len() as u128 != size {
        return Err(WireError::Length { bytes: a.data.len(), rows, cols });
    }
    let count: usize = a.data.len() / 2;
    let mut entries: Vec<u32> = Vec::new();
    let mut i: usize = 0;
    while i < count
        invariant
            i <= count,
            count == a.data@.len() / 2,
            count <= usize::MAX / 2,
            entries@ == singles_of(a.data@).take(i as int),
        decreases count - i,
    {
        let h: u16 = a.data[2 * i] as u16 + 0x100 * a.data[2 * i + 1] as u16;
        entries.push(widen_half(h));
        assert(entries@ =~= singles_of(a.data@).take(i + 1));
        i = i + 1;
    }
    assert(singles_of(a.data@).take(i as int) =~= singles_of(a.data@));
    Ok(into_matrix(&entries, rows, cols))
}

/// A request to run a stage on the current activation.
pub fn stage_request(session: &str, stage_id: usize, seq_pos: u64, input: &Activation) -> (request:
    ActivationStream)
    ensures
        request@ == (RequestView {
            session: session@,
            stage_id: stage_id as u32,
            seq_pos,
            input: Some(wired_input(input@)),
        }),
{
    let wire: Input = match input {
        Activation::Ids(ids) => {
            let mut list: Vec<u32> = Vec::new();
            let mut i: usize = 0;
            while i < ids.len()
                invariant
                    i <= ids@.len(),
                    list@ == ids@.take(i as int).map_values(|id: usize| id as u32),
                decreases ids@.len() - i,
            {
                #[verifier::truncate]
                let id: u32 = ids[i] as u32;
                list.push(id);
                assert(list@ =~= ids@.take(i + 1).map_values(|id: usize| id as u32));
                i = i + 1;
            }
            assert(ids@.take(i as int) =~= ids@);
            Input::Ids(TokenIds { ids: list })
        },
        Activation::Hidden(h) => Input::Activation(array2_to_proto(h)),
    };
    #[verifier::truncate]
    let stage_id: u32 = stage_id as u32;
    ActivationStream { session: session.to_owned(), stage_id, seq_pos, input: Some(wire) }
}

/// The activation that a request asks to run a stage on.
pub fn request_input_to_model(req: &ActivationStream) -> (out: Result<Activation, WireError>)
    ensures
        req@.input is None ==> out == Err::<Activation, WireError>(WireError::MissingInput),
        req@.input matches Some(InputView::Ids(ids)) ==> out matches Ok(a) && a@ == unwired_input(
            InputView::Ids(ids),
        ),
        req@.input matches Some(InputView::Activation(wire)) ==> {
            &&& out is Ok <==> has_length(wire)
            &&& out matches Ok(a) ==> a@ == unwired_input(InputView::Activation(wire))
            &&& out matches Err(e) ==> e == (WireError::Length {
                bytes: wire.data.len() as usize,
                rows: wire.n_tokens as usize,
                cols: wire.d_model as usize,
            })
        },
{
    match &req.input {
        None => Err(WireError::MissingInput),
        Some(Input::Ids(t)) => {
            let mut list: Vec<usize> = Vec::new();
            let mut i: usize = 0;
            while i < t.ids.len()
                invariant
                    i <= t.ids@.len(),
                    list@ == t.ids@.take(i as int).map_values(|id: u32| id as usize),
                decreases t.ids@.len() - i,
            {
                list.push(t.ids[i] as usize);
                assert(list@ =~= t.ids@.take(i + 1).map_values(|id: u32| id as usize));
                i = i + 1;
            }
            assert(t.ids@.take(i as int) =~= t.ids@);
            Ok(Activation::Ids(list))
        },
        Some(Input::Activation(a)) => match proto_to_array2(a) {
            Ok(m) => Ok(Activation::Hidden(m)),
            Err(e) => Err(e),
        },
    }
}

/// A matrix with every entry rounded to half precision.
pub open spec fn half_precision(g: Grid) -> Grid {
    Grid {
        cols: g.cols,
        rows: g.rows.map_values(
            |row: Seq<u32>| row.map_values(|x: u32| widened_half(halved(x))),
        ),
    }
}

/// Where an entry is in the list of all entries.
proof fn lemma_flat(rows: Seq<Seq<u32>>, cols: nat)
    requires
        forall|r: int| 0 <= r < rows.len() ==> (#[trigger] rows[r]).len() == cols,
    ensures
        flat(rows).len() == rows.len() * cols,
        forall|r: int, c: int|
            0 <= r < rows.len() && 0 <= c < cols ==> #[trigger] rows[r][c] == flat(rows)[r * cols
                + c],
    decreases rows.len(),
{
    if rows.len() == 0 {
        assert(0 * cols == 0) by (nonlinear_arith);
    } else {
        let before = rows.drop_last();
        let n = before.len();
        assert forall|r: int| 0 <= r < n implies (#[trigger] before[r]).len() == cols by {
            assert(before[r] == rows[r]);
        }
        lemma_flat(before, cols);
        assert(rows[n as int].len() == cols);
        assert((n + 1) * cols == n * cols + cols) by (nonlinear_arith);
        assert forall|r: int, c: int| 0 <= r < rows.len() && 0 <= c < cols implies #[trigger]
            rows[r][c] == flat(rows)[r * cols + c] by {
            if r < n {
                assert(before[r][c] == flat(before)[r * cols + c]);
                assert(r * cols + c < n * cols) by (nonlinear_arith)
                    requires
                        r + 1 <= n,
                        c < cols,
                        cols >= 0,
                ;
                assert(0 <= r * cols) by (nonlinear_arith)
                    requires
                        r >= 0,
                        cols >= 0,
                ;
            }
        }
    }
}

/// An activation arrives in half precision: the same shape, every entry rounded. It takes two bytes
/// for each entry, half of what its singles would take.
pub proof fn activations_arrive_in_half_precision(g: Grid)
    requires
        g.wf(),
        g.rows.len() <= u32::MAX,
        g.cols <= u32::MAX,
    ensures
        wired(g).data.len() == 2 * g.size(),
        has_length(wired(g)),
        unwired(wired(g)) == half_precision(g),
{
    let xs = flat(g.rows);
    let data = wired(g).data;
    lemma_flat(g.rows, g.cols);
    assert forall|i: int| 0 <= i < xs.len() implies #[trigger] singles_of(data)[i] == widened_half(
        halved(xs[i]),
    ) by {
        assert(data[2 * i] == (halved(xs[i]) % 0x100) as u8) by {
            assert((2 * i) / 2 == i && (2 * i) % 2 == 0);
        }
        assert(data[2 * i + 1] == (halved(xs[i]) / 0x100) as u8) by {
            assert((2 * i + 1) / 2 == i && (2 * i + 1) % 2 == 1);
        }
        assert(half_at(data, i) == halved(xs[i]));
    }
    let back = unwired(wired(g));
    let want = half_precision(g);
    assert(back.rows.len() == want.rows.len());
    assert forall|r: int| 0 <= r < back.rows.len() implies #[trigger] back.rows[r]
        == want.rows[r] by {
        let cols = g.cols as int;
        assert(g.rows[r].len() == g.cols);
        assert((r + 1) * cols == r * cols + cols) by (nonlinear_arith);
        assert(0 <= r * cols && r * cols + cols <= g.rows.len() * cols) by (nonlinear_arith)
            requires
                0 <= r < g.rows.len(),
                cols >= 0,
        ;
        assert(back.rows[r].len() == want.rows[r].len());
        assert forall|c: int| 0 <= c < cols implies #[trigger] back.rows[r][c]
            == want.rows[r][c] by {
            assert(g.rows[r][c] == xs[r * cols + c]);
            assert(singles_of(data)[r * cols + c] == widened_half(halved(xs[r * cols + c])));
        }
        assert(back.rows[r] =~= want.rows[r]);
    }
    assert(back.rows =~= want.rows);
}

/// How much the entries of an activation lose on the wire: from 2^-14 to 65504 at most a 2048th of
/// their size, and below that at most half of the smallest half. All keep their signs.
pub proof fn entries_keep_eleven_bits(g: Grid, r: int, c: int)
    requires
        g.wf(),
        g.rows.len() <= u32::MAX,
        g.cols <= u32::MAX,
        0 <= r < g.rows.len(),
        0 <= c < g.cols,
        g.rows[r][c] % 0x8000_0000 <= 0x477f_e000,
    ensures
        ({
            let x = g.rows[r][c];
            let y = unwired(wired(g)).rows[r][c];
            let size = single_magnitude(x);
            let error = distance(size, single_magnitude(y));
            &&& (y >= 0x8000_0000) == (x >= 0x8000_0000)
            &&& x % 0x8000_0000 >= 0x3880_0000 ==> 2048 * error <= size
            &&& x % 0x8000_0000 < 0x3880_0000 ==> 2 * error <= pow2(125)
        }),
{
    activations_arrive_in_half_precision(g);
    assert(g.rows[r].len() == g.cols);
    the_wire_keeps_eleven_bits(g.rows[r][c]);
}

/// Token ids arrive as they were sent.
pub proof fn ids_arrive_as_sent(ids: Seq<usize>)
    requires
        forall|i: int| 0 <= i < ids.len() ==> #[trigger] ids[i] <= u32::MAX,
    ensures
        unwired_input(wired_input(ActivationView::Ids(ids))) == ActivationView::Ids(ids),
{
    let back = unwired_input(wired_input(ActivationView::Ids(ids)))->Ids_0;
    assert forall|i: int| 0 <= i < ids.len() implies #[trigger] back[i] == ids[i] by {
        assert(ids[i] <= u32::MAX);
    }
    assert(back =~= ids);
}

/// What arrives can be sent on as it came: the same shape and the same bytes. Only what is not a number
/// and lacks its quiet bit gets it.
pub proof fn arrivals_travel_on_unchanged(a: WireView)
    requires
        a.data.len() == a.n_tokens * a.d_model * 2,
    ensures
        ({
            let on = wired(unwired(a));
            &&& on.n_tokens == a.n_tokens
            &&& on.d_model == a.d_model
            &&& on.data.len() == a.data.len()
            &&& forall|i: int|
                #![trigger on.data[2 * i]]
                0 <= i < a.n_tokens * a.d_model && {
                    let half = (a.data[2 * i] + 0x100 * a.data[2 * i + 1]) % 0x8000;
                    half <= 0x7c00 || half >= 0x7e00
                } ==> on.data[2 * i] == a.data[2 * i] && on.data[2 * i + 1] == a.data[2 * i + 1]
        }),
{
    let g = unwired(a);
    let cols = a.d_model as int;
    let xs = singles_of(a.data);
    let size = a.n_tokens * a.d_model;
    assert(size >= 0) by (nonlinear_arith)
        requires
            size == a.n_tokens * a.d_model,
    ;
    assert(xs.len() == size);
    assert forall|r: int| 0 <= r < g.rows.len() implies (#[trigger] g.rows[r]).len()
        == g.cols by {
        lemma_row_fits(r, a.n_tokens as int, cols);
    }
    lemma_flat(g.rows, g.cols);
    let ys = flat(g.rows);
    assert(ys.len() == size);
    assert(ys =~= xs) by {
        assert forall|i: int| 0 <= i < size implies ys[i] == xs[i] by {
            let (r, c) = (i / cols, i % cols);
            vstd::arithmetic::div_mod::lemma_fundamental_div_mod(i, cols);
            assert(cols * r == r * cols) by (nonlinear_arith);
            assert(0 <= r < a.n_tokens) by (nonlinear_arith)
                requires
                    0 <= i < a.n_tokens * cols,
                    r == i / cols,
                    cols > 0,
            ;
            lemma_row_fits(r, a.n_tokens as int, cols);
            assert(g.rows[r][c] == ys[r * cols + c]);
            assert(g.rows[r] =~= xs.subrange(r * cols, (r + 1) * cols));
            assert(g.rows[r][c] == xs[r * cols + c]);
        }
    }
    let on = wired(g);
    assert forall|i: int|
        #![trigger on.data[2 * i]]
        0 <= i < size && {
            let half = (a.data[2 * i] + 0x100 * a.data[2 * i + 1]) % 0x8000;
            half <= 0x7c00 || half >= 0x7e00
        } implies on.data[2 * i] == a.data[2 * i] && on.data[2 * i + 1] == a.data[2 * i + 1] by {
        let h = half_at(a.data, i);
        halves_survive_the_wire(h);
        assert(ys[i] == widened_half(h));
        assert((2 * i) / 2 == i && (2 * i) % 2 == 0);
        assert((2 * i + 1) / 2 == i && (2 * i + 1) % 2 == 1);
        assert(on.data[2 * i] == (halved(ys[i]) % 0x100) as u8);
        assert(on.data[2 * i + 1] == (halved(ys[i]) / 0x100) as u8);
    }
}

/// What arrives is read row by row, two bytes for each entry, the least significant first.
pub proof fn arrivals_are_read_row_by_row(a: WireView, r: int, c: int)
    requires
        a.data.len() == a.n_tokens * a.d_model * 2,
        0 <= r < a.n_tokens,
        0 <= c < a.d_model,
    ensures
        ({
            let i = r * a.d_model + c;
            &&& unwired(a).cols == a.d_model
            &&& unwired(a).rows.len() == a.n_tokens
            &&& unwired(a).rows[r].len() == a.d_model
            &&& unwired(a).rows[r][c] == widened_half(
                (a.data[2 * i] + 0x100 * a.data[2 * i + 1]) as u16,
            )
        }),
{
    let cols = a.d_model as int;
    lemma_row_fits(r, a.n_tokens as int, cols);
    assert(singles_of(a.data).len() == a.n_tokens * a.d_model);
    assert(unwired(a).rows[r] =~= singles_of(a.data).subrange(r * cols, (r + 1) * cols));
}

/// A row of a matrix of `rows` rows and `cols` columns is within its entries.
proof fn lemma_row_fits(r: int, rows: int, cols: int)
    requires
        0 <= r < rows,
        0 <= cols,
    ensures
        0 <= r * cols,
        r * cols + cols == (r + 1) * cols,
        r * cols + cols <= rows * cols,
{
    assert(0 <= r * cols && r * cols + cols == (r + 1) * cols && r * cols + cols <= rows * cols)
        by (nonlinear_arith)
        requires
            0 <= r < rows,
            0 <= cols,
    ;
}

} // verus!
