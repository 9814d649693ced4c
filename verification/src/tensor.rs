//! Tensors of single-precision bit patterns, and the ways their entries move.
//!
//! Reshaping, slicing and concatenating move entries without touching them. Whatever computes
//! with the entries is left to the numeric backend.

use vstd::prelude::*;

use crate::error::ModelError;

verus! {

/// The contents of a matrix: its rows, each of them `cols` long.
#[verifier::ext_equal]
pub struct Grid {
    pub cols: nat,
    pub rows: Seq<Seq<u32>>,
}

/// The contents of a per-head tensor: for every head the rows of its tokens, each `width` long.
#[verifier::ext_equal]
pub struct Cube {
    pub tokens: nat,
    pub width: nat,
    pub heads: Seq<Seq<Seq<u32>>>,
}

/// A matrix of bit patterns, row by row.
#[derive(Debug)]
pub struct Matrix {
    pub cols: usize,
    pub rows: Vec<Vec<u32>>,
}

/// A tensor `[heads, tokens, width]` of bit patterns.
#[derive(Debug)]
pub struct Heads {
    pub tokens: usize,
    pub width: usize,
    pub heads: Vec<Vec<Vec<u32>>>,
}

/// The rows of a list of vectors.
pub open spec fn rows_of(rows: Seq<Vec<u32>>) -> Seq<Seq<u32>> {
    rows.map_values(|row: Vec<u32>| row@)
}

/// The rows of a list of heads.
pub open spec fn heads_of(heads: Seq<Vec<Vec<u32>>>) -> Seq<Seq<Seq<u32>>> {
    heads.map_values(|head: Vec<Vec<u32>>| rows_of(head@))
}

pub broadcast proof fn lemma_rows_of_push(rows: Seq<Vec<u32>>, row: Vec<u32>)
    ensures
        #[trigger] rows_of(rows.push(row)) == rows_of(rows).push(row@),
{
    assert(rows_of(rows.push(row)) =~= rows_of(rows).push(row@));
}

pub broadcast proof fn lemma_heads_of_push(heads: Seq<Vec<Vec<u32>>>, head: Vec<Vec<u32>>)
    ensures
        #[trigger] heads_of(heads.push(head)) == heads_of(heads).push(rows_of(head@)),
{
    assert(heads_of(heads.push(head)) =~= heads_of(heads).push(rows_of(head@)));
}

impl View for Matrix {
    type V = Grid;

    open spec fn view(&self) -> Grid {
        Grid { cols: self.cols as nat, rows: rows_of(self.rows@) }
    }
}

impl View for Heads {
    type V = Cube;

    open spec fn view(&self) -> Cube {
        Cube {
            tokens: self.tokens as nat,
            width: self.width as nat,
            heads: heads_of(self.heads@),
        }
    }
}

impl Grid {
    /// Every row has `cols` entries.
    pub open spec fn wf(self) -> bool {
        forall|i: int| 0 <= i < self.rows.len() ==> (#[trigger] self.rows[i]).len() == self.cols
    }

    /// The number of entries.
    pub open spec fn size(self) -> nat {
        self.rows.len() * self.cols
    }

    /// The columns `from..to` of every row.
    pub open spec fn columns(self, from: int, to: int) -> Grid {
        Grid {
            cols: (to - from) as nat,
            rows: self.rows.map_values(|row: Seq<u32>| row.subrange(from, to)),
        }
    }

    /// Every row cut into `count` pieces of `width` entries, the pieces gathered by head.
    pub open spec fn by_head(self, count: nat, width: nat) -> Cube {
        Cube {
            tokens: self.rows.len(),
            width,
            heads: Seq::new(
                count,
                |h: int|
                    self.rows.map_values(
                        |row: Seq<u32>| row.subrange(h * width, h * width + width),
                    ),
            ),
        }
    }
}

impl Cube {
    /// Every head has a row of `width` entries for each token.
    pub open spec fn wf(self) -> bool {
        forall|h: int|
            #![trigger self.heads[h]]
            0 <= h < self.heads.len() ==> {
                &&& self.heads[h].len() == self.tokens
                &&& forall|i: int|
                    0 <= i < self.tokens ==> (#[trigger] self.heads[h][i]).len() == self.width
            }
    }

    /// The number of entries.
    pub open spec fn size(self) -> nat {
        self.heads.len() * self.tokens * self.width
    }

    /// The rows of token `i` in the first `count` heads, one after the other.
    pub open spec fn joined(self, i: int, count: nat) -> Seq<u32>
        decreases count,
    {
        if count == 0 {
            Seq::empty()
        } else {
            self.joined(i, (count - 1) as nat) + self.heads[count - 1][i]
        }
    }

    /// For every token the rows of all its heads, one after the other.
    pub open spec fn by_token(self) -> Seq<Seq<u32>> {
        Seq::new(self.tokens, |i: int| self.joined(i, self.heads.len()))
    }

    /// This tensor with the tokens of `next` behind its own.
    pub open spec fn followed_by(self, next: Cube) -> Cube {
        Cube {
            tokens: self.tokens + next.tokens,
            width: self.width,
            heads: Seq::new(self.heads.len(), |h: int| self.heads[h] + next.heads[h]),
        }
    }

    /// Whether the tokens of `next` can stand behind these.
    pub open spec fn fits(self, next: Cube) -> bool {
        self.heads.len() == next.heads.len() && self.width == next.width
    }
}

/// A second vector equal to `row`.
pub fn copy_row(row: &Vec<u32>) -> (out: Vec<u32>)
    ensures
        out@ == row@,
{
    vstd::slice::slice_to_vec(row.as_slice())
}

/// A second list of rows equal to `rows`.
pub fn copy_rows(rows: &Vec<Vec<u32>>) -> (out: Vec<Vec<u32>>)
    ensures
        rows_of(out@) == rows_of(rows@),
        out@.len() == rows@.len(),
{
    let mut out: Vec<Vec<u32>> = Vec::new();
    let mut i: usize = 0;
    while i < rows.len()
        invariant
            i <= rows@.len(),
            rows_of(out@) =~= rows_of(rows@).take(i as int),
        decreases rows@.len() - i,
    {
        broadcast use {lemma_rows_of_push, lemma_heads_of_push};

        out.push(copy_row(&rows[i]));
        i = i + 1;
    }
    assert(rows_of(out@) =~= rows_of(rows@));
    assert(rows_of(out@).len() == out@.len());
    out
}

/// Appends copies of the rows of `more`.
pub fn append_rows(rows: &mut Vec<Vec<u32>>, more: &Vec<Vec<u32>>)
    ensures
        rows_of(final(rows)@) == rows_of(old(rows)@) + rows_of(more@),
{
    let ghost before = rows@;
    let mut i: usize = 0;
    while i < more.len()
        invariant
            i <= more@.len(),
            rows@.len() == before.len() + i,
            forall|j: int| 0 <= j < before.len() ==> #[trigger] rows@[j] == before[j],
            forall|j: int|
                before.len() <= j < rows@.len() ==> (#[trigger] rows@[j])@ == more@[j
                    - before.len()]@,
        decreases more@.len() - i,
    {
        rows.push(copy_row(&more[i]));
        i = i + 1;
    }
    assert(rows_of(rows@) =~= rows_of(before) + rows_of(more@));
}

/// The contents of a list of matrices.
pub open spec fn grids_of(list: Seq<Matrix>) -> Seq<Grid> {
    list.map_values(|m: Matrix| m@)
}

/// Whether all matrices have the same number of columns.
pub open spec fn one_width(grids: Seq<Grid>) -> bool {
    forall|i: int| 0 <= i < grids.len() ==> (#[trigger] grids[i]).cols == grids[0].cols
}

/// Matrices below each other.
pub open spec fn stacked(grids: Seq<Grid>) -> Grid
    decreases grids.len(),
{
    if grids.len() <= 1 {
        grids[0]
    } else {
        let above = stacked(grids.drop_last());
        Grid { cols: above.cols, rows: above.rows + grids.last().rows }
    }
}

/// Puts matrices below each other. They must have the same number of columns, and there must be
/// one.
pub fn stack(list: &Vec<Matrix>) -> (out: Result<Matrix, ModelError>)
    ensures
        out is Ok <==> list@.len() > 0 && one_width(grids_of(list@)),
        out matches Ok(all) ==> all@ == stacked(grids_of(list@)),
        out matches Err(e) ==> e == ModelError::Shape,
{
    let ghost views = grids_of(list@);
    if list.len() == 0 {
        return Err(ModelError::Shape);
    }
    let mut all: Matrix = list[0].copied();
    let mut i: usize = 1;
    while i < list.len()
        invariant
            1 <= i <= list@.len(),
            views == grids_of(list@),
            one_width(views.take(i as int)),
            all@ == stacked(views.take(i as int)),
            all@.cols == views[0].cols,
        decreases list@.len() - i,
    {
        let ghost front = views.take(i as int);
        let ghost next = views.take(i + 1);
        assert(views[i as int] == list@[i as int]@);
        assert(next.drop_last() =~= front);
        if list[i].cols != all.cols {
            return Err(ModelError::Shape);
        }
        append_rows(&mut all.rows, &list[i].rows);
        assert forall|j: int| 0 <= j < next.len() implies (#[trigger] next[j]).cols
            == next[0].cols by {
            if j < i {
                assert(front[j].cols == front[0].cols);
            }
        }
        i = i + 1;
    }
    assert(views.take(i as int) =~= views);
    Ok(all)
}

impl Matrix {
    /// The number of rows.
    pub fn nrows(&self) -> (n: usize)
        ensures
            n == self@.rows.len(),
    {
        self.rows.len()
    }

    /// The number of columns.
    pub fn ncols(&self) -> (n: usize)
        ensures
            n == self@.cols,
    {
        self.cols
    }

    /// The number of entries.
    pub fn len(&self) -> (n: usize)
        requires
            self@.size() <= usize::MAX,
        ensures
            n == self@.size(),
    {
        self.rows.len() * self.cols
    }

    /// The number of entries, if it fits a machine word.
    pub fn checked_len(&self) -> (n: Option<usize>)
        ensures
            n is Some <==> self@.size() <= usize::MAX,
            n matches Some(entries) ==> entries == self@.size(),
    {
        self.rows.len().checked_mul(self.cols)
    }

    /// A second matrix equal to this one.
    pub fn copied(&self) -> (out: Matrix)
        ensures
            out@ == self@,
    {
        Matrix { cols: self.cols, rows: copy_rows(&self.rows) }
    }

    /// The columns `from..to`.
    pub fn columns(&self, from: usize, to: usize) -> (out: Matrix)
        requires
            self@.wf(),
            from <= to <= self.cols,
        ensures
            out@ == self@.columns(from as int, to as int),
            out@.wf(),
    {
        let mut rows: Vec<Vec<u32>> = Vec::new();
        let mut i: usize = 0;
        while i < self.rows.len()
            invariant
                i <= self.rows@.len(),
                self@.wf(),
                from <= to <= self.cols,
                rows_of(rows@) =~= self@.columns(from as int, to as int).rows.take(i as int),
            decreases self.rows@.len() - i,
        {
            broadcast use {lemma_rows_of_push, lemma_heads_of_push};

            assert(self@.rows[i as int].len() == self@.cols);
            rows.push(
                vstd::slice::slice_to_vec(
                    vstd::slice::slice_subrange(self.rows[i].as_slice(), from, to),
                ),
            );
            i = i + 1;
        }
        let out = Matrix { cols: to - from, rows };
        assert(out@ =~= self@.columns(from as int, to as int));
        assert forall|j: int| 0 <= j < out@.rows.len() implies (#[trigger] out@.rows[j]).len()
            == out@.cols by {
            assert(self@.rows[j].len() == self@.cols);
        }
        out
    }
}

/// The product of two machine words fits twice the width.
pub proof fn lemma_product_fits(a: usize, b: usize)
    ensures
        0 <= a * b <= u128::MAX,
{
    assert(0 <= a * b <= u128::MAX) by (nonlinear_arith)
        requires
            0 <= a <= 0xffff_ffff_ffff_ffff,
            0 <= b <= 0xffff_ffff_ffff_ffff,
    ;
}

/// One entry's place in a cut row: piece `h` of `width` entries ends within the row.
pub proof fn lemma_piece_fits(h: int, count: int, width: int)
    requires
        0 <= h < count,
        0 <= width,
    ensures
        0 <= h * width,
        h * width + width <= count * width,
{
    assert(0 <= h * width && h * width + width <= count * width) by (nonlinear_arith)
        requires
            0 <= h < count,
            0 <= width,
    ;
}

/// Reshapes `[n, count * width]` into `[count, n, width]`.
pub fn to_heads(t: &Matrix, count: usize, width: usize) -> (out: Result<Heads, ModelError>)
    requires
        t@.wf(),
    ensures
        out is Ok <==> t@.rows.len() == 0 || t@.cols == count * width,
        out matches Ok(heads) ==> heads@ == t@.by_head(count as nat, width as nat) && heads@.wf(),
        out matches Err(e) ==> e == ModelError::Shape,
{
    proof {
        lemma_product_fits(count, width);
    }
    let whole: u128 = (count as u128) * (width as u128);
    if t.rows.len() != 0 && whole != t.cols as u128 {
        return Err(ModelError::Shape);
    }
    let ghost want = t@.by_head(count as nat, width as nat);
    let mut heads: Vec<Vec<Vec<u32>>> = Vec::new();
    let mut h: usize = 0;
    while h < count
        invariant
            h <= count,
            t@.wf(),
            t@.rows.len() == 0 || t@.cols == count * width,
            want == t@.by_head(count as nat, width as nat),
            heads_of(heads@) =~= want.heads.take(h as int),
        decreases count - h,
    {
        broadcast use {lemma_rows_of_push, lemma_heads_of_push};

        let mut rows: Vec<Vec<u32>> = Vec::new();
        let mut i: usize = 0;
        while i < t.rows.len()
            invariant
                h < count,
                i <= t.rows@.len(),
                t@.wf(),
                t@.rows.len() == 0 || t@.cols == count * width,
                want == t@.by_head(count as nat, width as nat),
                rows_of(rows@) =~= want.heads[h as int].take(i as int),
            decreases t.rows@.len() - i,
        {
            broadcast use {lemma_rows_of_push, lemma_heads_of_push};

            proof {
                lemma_piece_fits(h as int, count as int, width as int);
            }
            assert(t@.rows[i as int].len() == t@.cols);
            let from: usize = h * width;
            rows.push(
                vstd::slice::slice_to_vec(
                    vstd::slice::slice_subrange(t.rows[i].as_slice(), from, from + width),
                ),
            );
            i = i + 1;
        }
        assert(rows_of(rows@) =~= want.heads[h as int]);
        heads.push(rows);
        h = h + 1;
    }
    let out = Heads { tokens: t.rows.len(), width, heads };
    assert(out@.heads =~= want.heads);
    proof {
        lemma_by_head_wf(t@, count as nat, width as nat);
    }
    Ok(out)
}

/// Cutting rows of the right length into heads gives a well-formed tensor.
pub proof fn lemma_by_head_wf(t: Grid, count: nat, width: nat)
    requires
        t.wf(),
        t.rows.len() == 0 || t.cols == count * width,
    ensures
        t.by_head(count, width).wf(),
{
    let c = t.by_head(count, width);
    assert forall|h: int| #![trigger c.heads[h]] 0 <= h < c.heads.len() implies {
        &&& c.heads[h].len() == c.tokens
        &&& forall|i: int| 0 <= i < c.tokens ==> (#[trigger] c.heads[h][i]).len() == c.width
    } by {
        lemma_piece_fits(h, count as int, width as int);
        assert forall|i: int| 0 <= i < c.tokens implies (#[trigger] c.heads[h][i]).len()
            == c.width by {
            assert(t.rows[i].len() == t.cols);
        }
    }
}

/// The joined row of a token is as long as its pieces.
pub proof fn lemma_joined_len(c: Cube, i: int, count: nat)
    requires
        c.wf(),
        0 <= i < c.tokens,
        count <= c.heads.len(),
    ensures
        c.joined(i, count).len() == count * c.width,
    decreases count,
{
    if count > 0 {
        lemma_joined_len(c, i, (count - 1) as nat);
        assert(c.heads[count - 1][i].len() == c.width);
        assert((count - 1) * c.width + c.width == count * c.width) by (nonlinear_arith);
    } else {
        assert(0 * c.width == 0);
    }
}

/// The inverse of [`to_heads`]: `[count, n, width]` back to `[n, cols]`.
pub fn from_heads(ctx: &Heads, cols: usize) -> (out: Result<Matrix, ModelError>)
    requires
        ctx@.wf(),
    ensures
        out is Ok <==> ctx@.tokens == 0 || ctx@.heads.len() * ctx@.width == cols,
        out matches Ok(m) ==> m@ == (Grid { cols: cols as nat, rows: ctx@.by_token() }) && m@.wf(),
        out matches Err(e) ==> e == ModelError::Shape,
{
    let count = ctx.heads.len();
    proof {
        lemma_product_fits(count, ctx.width);
    }
    let whole: u128 = (count as u128) * (ctx.width as u128);
    if ctx.tokens != 0 && whole != cols as u128 {
        return Err(ModelError::Shape);
    }
    let mut rows: Vec<Vec<u32>> = Vec::new();
    let mut i: usize = 0;
    while i < ctx.tokens
        invariant
            i <= ctx.tokens,
            ctx@.wf(),
            rows_of(rows@) =~= ctx@.by_token().take(i as int),
        decreases ctx.tokens - i,
    {
        broadcast use {lemma_rows_of_push, lemma_heads_of_push};

        let mut row: Vec<u32> = Vec::new();
        let mut h: usize = 0;
        while h < ctx.heads.len()
            invariant
                i < ctx.tokens,
                h <= ctx.heads@.len(),
                ctx@.wf(),
                row@ == ctx@.joined(i as int, h as nat),
            decreases ctx.heads@.len() - h,
        {
            broadcast use {lemma_rows_of_push, lemma_heads_of_push};

            assert(ctx@.heads[h as int] == rows_of(ctx.heads@[h as int]@));
            assert(ctx@.heads[h as int][i as int] == ctx.heads@[h as int]@[i as int]@);
            let mut piece = copy_row(&ctx.heads[h][i]);
            row.append(&mut piece);
            h = h + 1;
        }
        rows.push(row);
        i = i + 1;
    }
    let out = Matrix { cols, rows };
    assert(out@.rows =~= ctx@.by_token());
    assert forall|j: int| 0 <= j < out@.rows.len() implies (#[trigger] out@.rows[j]).len()
        == out@.cols by {
        lemma_joined_len(ctx@, j, ctx@.heads.len());
    }
    Ok(out)
}

impl Heads {
    /// The number of entries.
    pub fn len(&self) -> (n: usize)
        requires
            self@.wf(),
            self@.size() <= usize::MAX,
            self@.heads.len() * self@.tokens <= usize::MAX,
        ensures
            n == self@.size(),
    {
        self.heads.len() * self.tokens * self.width
    }

    /// A second tensor equal to this one.
    pub fn copied(&self) -> (out: Heads)
        ensures
            out@ == self@,
    {
        let mut heads: Vec<Vec<Vec<u32>>> = Vec::new();
        let mut h: usize = 0;
        while h < self.heads.len()
            invariant
                h <= self.heads@.len(),
                heads_of(heads@) =~= self@.heads.take(
                    h as int,
                ),
            decreases self.heads@.len() - h,
        {
            broadcast use {lemma_rows_of_push, lemma_heads_of_push};

            heads.push(copy_rows(&self.heads[h]));
            h = h + 1;
        }
        let out = Heads { tokens: self.tokens, width: self.width, heads };
        assert(out@.heads =~= self@.heads);
        out
    }

    /// This tensor with the tokens of `next` behind its own, head by head.
    pub fn followed_by(&self, next: &Heads) -> (out: Result<Heads, ModelError>)
        requires
            self@.wf(),
            next@.wf(),
            self@.tokens + next@.tokens <= usize::MAX,
        ensures
            out is Ok <==> self@.fits(next@),
            out matches Ok(heads) ==> heads@ == self@.followed_by(next@) && heads@.wf(),
            out matches Err(e) ==> e == ModelError::Shape,
    {
        if self.heads.len() != next.heads.len() || self.width != next.width {
            return Err(ModelError::Shape);
        }
        let ghost want = self@.followed_by(next@);
        let mut heads: Vec<Vec<Vec<u32>>> = Vec::new();
        let mut h: usize = 0;
        while h < self.heads.len()
            invariant
                h <= self.heads@.len(),
                self.heads@.len() == next.heads@.len(),
                want == self@.followed_by(next@),
                heads_of(heads@) =~= want.heads.take(
                    h as int,
                ),
            decreases self.heads@.len() - h,
        {
            broadcast use {lemma_rows_of_push, lemma_heads_of_push};

            let mut rows = copy_rows(&self.heads[h]);
            let mut more = copy_rows(&next.heads[h]);
            let ghost (r, m) = (rows@, more@);
            rows.append(&mut more);
            proof {
                assert(self@.heads[h as int] == rows_of(self.heads@[h as int]@));
                assert(next@.heads[h as int] == rows_of(next.heads@[h as int]@));
                assert(rows_of(rows@) =~= rows_of(r) + rows_of(m));
            }
            heads.push(rows);
            h = h + 1;
        }
        let out = Heads { tokens: self.tokens + next.tokens, width: self.width, heads };
        assert(out@.heads =~= want.heads);
        proof {
            lemma_followed_by_wf(self@, next@);
        }
        Ok(out)
    }
}

/// Appending tokens to a well-formed tensor gives a well-formed one.
pub proof fn lemma_followed_by_wf(c: Cube, next: Cube)
    requires
        c.wf(),
        next.wf(),
        c.fits(next),
    ensures
        c.followed_by(next).wf(),
{
    let out = c.followed_by(next);
    assert forall|h: int| #![trigger out.heads[h]] 0 <= h < out.heads.len() implies {
        &&& out.heads[h].len() == out.tokens
        &&& forall|i: int| 0 <= i < out.tokens ==> (#[trigger] out.heads[h][i]).len() == out.width
    } by {
        assert(c.heads[h].len() == c.tokens);
        assert(next.heads[h].len() == next.tokens);
        assert forall|i: int| 0 <= i < out.tokens implies (#[trigger] out.heads[h][i]).len()
            == out.width by {
            if i < c.tokens {
                assert(c.heads[h][i].len() == c.width);
            } else {
                assert(next.heads[h][i - c.tokens].len() == next.width);
            }
        }
    }
}

/// The first heads of a token, one after the other, are the beginning of its row.
proof fn lemma_joined_is_prefix(g: Grid, count: nat, width: nat, i: int, c: nat)
    requires
        g.wf(),
        g.cols == count * width,
        0 <= i < g.rows.len(),
        c <= count,
    ensures
        c * width <= g.cols,
        g.by_head(count, width).joined(i, c) == g.rows[i].take((c * width) as int),
    decreases c,
{
    assert(c * width <= count * width) by (nonlinear_arith)
        requires
            c <= count,
    ;
    let row = g.rows[i];
    assert(row.len() == g.cols);
    if c == 0 {
        assert(0 * width == 0);
        assert(row.take(0) =~= Seq::empty());
    } else {
        let before = (c - 1) as nat;
        lemma_joined_is_prefix(g, count, width, i, before);
        assert(c * width == before * width + width) by (nonlinear_arith)
            requires
                c == before + 1,
        ;
        let from = (before * width) as int;
        assert(row.take((c * width) as int) =~= row.take(from) + row.subrange(from, from + width));
    }
}

/// Joining heads undoes cutting rows into them.
pub proof fn joining_undoes_cutting(g: Grid, count: nat, width: nat)
    requires
        g.wf(),
        g.rows.len() == 0 || g.cols == count * width,
    ensures
        g.by_head(count, width).by_token() == g.rows,
{
    let back = g.by_head(count, width).by_token();
    assert forall|i: int| 0 <= i < g.rows.len() implies #[trigger] back[i] == g.rows[i] by {
        lemma_joined_is_prefix(g, count, width, i, count);
        assert(g.rows[i].len() == g.cols);
        assert(g.rows[i].take(g.cols as int) =~= g.rows[i]);
    }
    assert(back =~= g.rows);
}

/// The entries of a token's heads, joined: those of head `h` stand behind those of the heads before it.
pub proof fn joined_heads_stand_in_order(t: Cube, i: int, h: int, c: int)
    requires
        t.wf(),
        0 <= i < t.tokens,
        0 <= h < t.heads.len(),
        0 <= c < t.width,
    ensures
        t.by_token().len() == t.tokens,
        t.by_token()[i].len() == t.heads.len() * t.width,
        t.by_token()[i][h * t.width + c] == t.heads[h][i][c],
{
    lemma_joined_entry(t, i, h, c, t.heads.len());
}

proof fn lemma_joined_entry(t: Cube, i: int, h: int, c: int, n: nat)
    requires
        t.wf(),
        0 <= i < t.tokens,
        0 <= h < t.heads.len(),
        0 <= c < t.width,
        n <= t.heads.len(),
    ensures
        t.joined(i, n).len() == n * t.width,
        h < n ==> t.joined(i, n)[h * t.width + c] == t.heads[h][i][c],
    decreases n,
{
    if n == 0 {
        assert(0 * t.width == 0);
    } else {
        lemma_joined_entry(t, i, h, c, (n - 1) as nat);
        let w = t.width as int;
        assert(t.heads[n - 1][i].len() == w);
        assert(n * w == (n - 1) * w + w) by (nonlinear_arith);
        if h < n - 1 {
            lemma_piece_fits(h, n - 1, w);
        }
    }
}

/// Matrices below each other keep all of their rows, in order, however they are grouped.
pub proof fn stacking_keeps_all_rows(above: Seq<Grid>, below: Seq<Grid>)
    requires
        above.len() > 0,
        below.len() > 0,
    ensures
        stacked(above + below).rows == stacked(above).rows + stacked(below).rows,
        stacked(above + below).cols == stacked(above).cols,
        above.len() == 1 ==> stacked(above) == above[0],
    decreases below.len(),
{
    let all = above + below;
    assert(all.drop_last() =~= above + below.drop_last());
    assert(all.last() == below.last());
    if below.len() == 1 {
        assert(above + below.drop_last() =~= above);
    } else {
        stacking_keeps_all_rows(above, below.drop_last());
        assert(stacked(all).rows =~= stacked(above).rows + stacked(below).rows);
    }
}

/// Tokens behind others: the rows of every head stay as they were, and those of the second tensor come
/// behind them.
pub proof fn later_tokens_come_behind(a: Cube, b: Cube, h: int, i: int)
    requires
        a.wf(),
        b.wf(),
        a.heads.len() == b.heads.len(),
        a.width == b.width,
        0 <= h < a.heads.len(),
        0 <= i < a.tokens + b.tokens,
    ensures
        a.fits(b),
        a.followed_by(b).wf(),
        a.followed_by(b).tokens == a.tokens + b.tokens,
        a.followed_by(b).heads[h][i] == if i < a.tokens {
            a.heads[h][i]
        } else {
            b.heads[h][i - a.tokens]
        },
{
    let both = a.followed_by(b);
    assert forall|g: int| #![trigger both.heads[g]] 0 <= g < both.heads.len() implies {
        &&& both.heads[g].len() == both.tokens
        &&& forall|j: int| 0 <= j < both.tokens ==> (#[trigger] both.heads[g][j]).len() == both.width
    } by {
        assert(a.heads[g].len() == a.tokens && b.heads[g].len() == b.tokens);
        assert forall|j: int| 0 <= j < both.tokens implies (#[trigger] both.heads[g][j]).len()
            == both.width by {
            if j < a.tokens {
                assert(both.heads[g][j] == a.heads[g][j]);
            } else {
                assert(both.heads[g][j] == b.heads[g][j - a.tokens]);
            }
        }
    }
    assert(a.heads[h].len() == a.tokens);
}

/// A matrix has as many entries as its rows have together, and a tensor as its heads have.
pub proof fn sizes_count_every_entry(g: Grid, t: Cube)
    ensures
        g.size() == g.rows.len() * g.cols,
        t.size() == t.heads.len() * (t.tokens * t.width),
{
    assert(t.heads.len() * t.tokens * t.width == t.heads.len() * (t.tokens * t.width))
        by (nonlinear_arith);
}

} // verus!
