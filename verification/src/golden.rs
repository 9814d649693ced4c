//! Model files: a manifest that describes every tensor, and one little-endian blob for each.
//!
//! Reading the manifest and the blobs is left to the caller; here they are checked and taken apart.

use vstd::prelude::*;

use crate::config::ModelConfig;
use crate::error::ModelError;
use crate::stage::{Activation, ActivationView};
use crate::tensor::{Grid, Matrix};
use crate::text::{
    all_digits, decimal_of, decimal_padded, numeral, numerals_stand_for_their_number,
    padding_keeps_the_number, value_of, zero_padded,
};
use crate::weights::{LayerWeights, Weights};

verus! {

/// One tensor of a manifest. The path is relative to the manifest's directory.
#[derive(Debug)]
pub struct TensorDesc {
    pub name: String,
    pub shape: Vec<usize>,
    pub dtype: String,
    pub path: String,
    pub n_elements: usize,
}

/// The model of a manifest.
#[derive(Debug)]
pub struct ModelMeta {
    pub name: String,
    pub model_hash: String,
    pub vocab_size: usize,
    pub d_model: usize,
    pub n_layer: usize,
    pub n_head: usize,
    pub head_dim: usize,
    pub d_ff: usize,
    pub max_seq: usize,
    /// The bit pattern of the single-precision norm epsilon.
    pub eps: u32,
}

/// One captured step of a stage.
#[derive(Debug)]
pub struct StepDesc {
    pub index: usize,
    pub kind: String,
    pub base_pos: usize,
    pub n_tokens: usize,
    pub input: TensorDesc,
    pub output: TensorDesc,
}

/// A whole captured session of a stage, online and stateless.
#[derive(Debug)]
pub struct Cumulative {
    pub input: TensorDesc,
    pub output_online: TensorDesc,
    pub output_stateless: TensorDesc,
    /// The bit pattern of a double.
    pub audit_rel_l2: u64,
}

/// A captured stage.
#[derive(Debug)]
pub struct StageDesc {
    pub label: String,
    pub stage_id: usize,
    pub layer_lo: usize,
    pub layer_hi: usize,
    pub n_layers: usize,
    pub is_first: bool,
    pub is_last: bool,
    pub input_kind: String,
    pub output_kind: String,
    pub n_params: usize,
    pub steps: Vec<StepDesc>,
    pub cumulative: Cumulative,
}

/// A manifest.
#[derive(Debug)]
pub struct Manifest {
    pub model: ModelMeta,
    pub weights: Vec<TensorDesc>,
    pub stages: Vec<StageDesc>,
}

/// A manifest and the directory that it is in.
#[derive(Debug)]
pub struct Golden {
    pub dir: String,
    pub manifest: Manifest,
}

/// The number that four bytes spell, the least significant first.
pub open spec fn word_at(bytes: Seq<u8>, i: int) -> u32 {
    (bytes[4 * i] + 0x100 * bytes[4 * i + 1] + 0x1_0000 * bytes[4 * i + 2] + 0x100_0000 * bytes[4
        * i + 3]) as u32
}

/// The number that eight bytes spell, the least significant first.
pub open spec fn long_at(bytes: Seq<u8>, i: int) -> u64 {
    (word_at(bytes, 2 * i) + 0x1_0000_0000 * word_at(bytes, 2 * i + 1)) as u64
}

/// The numbers of four bytes each in a blob.
pub open spec fn words_of(bytes: Seq<u8>) -> Seq<u32> {
    Seq::new(bytes.len() / 4, |i: int| word_at(bytes, i))
}

/// The numbers of eight bytes each in a blob, as ids: a negative number is a very large id.
pub open spec fn ids_of(bytes: Seq<u8>) -> Seq<usize> {
    Seq::new(bytes.len() / 8, |i: int| long_at(bytes, i) as usize)
}

/// Consecutive rows of `cols` entries each.
pub open spec fn cut(entries: Seq<u32>, rows: nat, cols: nat) -> Grid {
    Grid {
        cols,
        rows: Seq::new(rows, |r: int| entries.subrange(r * cols, (r + 1) * cols)),
    }
}

/// What reading a tensor of type `dtype` with `width` bytes for each element fails with.
pub open spec fn read_error(desc: TensorDesc, dtype: Seq<char>, width: nat, size: nat, e: ModelError) -> bool {
    if desc.dtype@ != dtype {
        e matches ModelError::BadDtype { name, dtype: found } && name@ == desc.name@ && found@
            == desc.dtype@
    } else {
        &&& size != desc.n_elements * width
        &&& e matches ModelError::TensorSize { name, expected, got } && name@ == desc.name@
            && expected == desc.n_elements * width && got == size
    }
}

/// Whether a blob of `size` bytes is a tensor of type `dtype` with `width` bytes for each element.
pub open spec fn reads(desc: TensorDesc, dtype: Seq<char>, width: nat, size: nat) -> bool {
    desc.dtype@ == dtype && size == desc.n_elements * width
}

/// Whether entries fill the shape of a matrix, none of whose sides exceeds an address range.
pub open spec fn fills(desc: TensorDesc, entries: nat) -> bool {
    &&& desc.shape@[0] * desc.shape@[1] == entries
    &&& desc.shape@[0] <= isize::MAX
    &&& desc.shape@[1] <= isize::MAX
}

/// Whether a tensor of type `dtype` has a size that fits a machine word.
pub open spec fn sized(desc: TensorDesc, dtype: Seq<char>, width: nat) -> bool {
    desc.dtype@ == dtype ==> desc.n_elements * width <= usize::MAX
}

/// Whether a blob that can be read as singles is that of a tensor with two sides.
pub open spec fn two_sided(desc: TensorDesc, size: nat) -> bool {
    reads(desc, "f32"@, 4, size) ==> desc.shape@.len() >= 2
}

impl TensorDesc {
    /// Checks the type of the tensor before its blob is read.
    pub fn check_dtype(&self, dtype: &str) -> (out: Result<(), ModelError>)
        ensures
            out is Ok <==> self.dtype@ == dtype@,
            out matches Err(e) ==> e matches ModelError::BadDtype { name, dtype: found } && name@
                == self.name@ && found@ == self.dtype@,
    {
        let wanted: String = dtype.to_owned();
        if self.dtype == wanted {
            Ok(())
        } else {
            Err(ModelError::BadDtype { name: self.name.clone(), dtype: self.dtype.clone() })
        }
    }

    /// Checks the size of the tensor's blob.
    fn check_size(&self, width: usize, size: usize) -> (out: Result<(), ModelError>)
        requires
            self.n_elements * width <= usize::MAX,
        ensures
            out is Ok <==> size == self.n_elements * width,
            out matches Err(e) ==> e matches ModelError::TensorSize { name, expected, got } && name@
                == self.name@ && expected == self.n_elements * width && got == size,
    {
        if size == self.n_elements * width {
            Ok(())
        } else {
            Err(
                ModelError::TensorSize {
                    name: self.name.clone(),
                    expected: self.n_elements * width,
                    got: size,
                },
            )
        }
    }
}

fn word(bytes: &[u8], i: usize) -> (out: u32)
    requires
        4 * i + 3 < bytes@.len(),
    ensures
        out == word_at(bytes@, i as int),
{
    let size: usize = bytes.len();
    assert(4 * i + 3 < size);
    bytes[4 * i] as u32 + 0x100 * bytes[4 * i + 1] as u32 + 0x1_0000 * bytes[4 * i + 2] as u32
        + 0x100_0000 * bytes[4 * i + 3] as u32
}

/// The singles of a tensor, as bit patterns.
fn read_singles(desc: &TensorDesc, bytes: &[u8]) -> (out: Result<Vec<u32>, ModelError>)
    requires
        sized(*desc, "f32"@, 4),
    ensures
        out is Ok <==> reads(*desc, "f32"@, 4, bytes@.len()),
        out matches Ok(entries) ==> entries@ == words_of(bytes@),
        out matches Err(e) ==> read_error(*desc, "f32"@, 4, bytes@.len(), e),
{
    match desc.check_dtype("f32") {
        Ok(()) => {},
        Err(e) => {
            return Err(e);
        },
    }
    match desc.check_size(4, bytes.len()) {
        Ok(()) => {},
        Err(e) => {
            return Err(e);
        },
    }
    let mut out: Vec<u32> = Vec::new();
    let mut i: usize = 0;
    while i < desc.n_elements
        invariant
            i <= desc.n_elements,
            bytes@.len() == desc.n_elements * 4,
            out@ == words_of(bytes@).take(i as int),
        decreases desc.n_elements - i,
    {
        out.push(word(bytes, i));
        assert(out@ =~= words_of(bytes@).take(i + 1));
        i = i + 1;
    }
    assert(words_of(bytes@).take(i as int) =~= words_of(bytes@));
    Ok(out)
}

/// The ids of a tensor.
fn read_longs(desc: &TensorDesc, bytes: &[u8]) -> (out: Result<Vec<usize>, ModelError>)
    requires
        sized(*desc, "i64"@, 8),
    ensures
        out is Ok <==> reads(*desc, "i64"@, 8, bytes@.len()),
        out matches Ok(ids) ==> ids@ == ids_of(bytes@),
        out matches Err(e) ==> read_error(*desc, "i64"@, 8, bytes@.len(), e),
{
    match desc.check_dtype("i64") {
        Ok(()) => {},
        Err(e) => {
            return Err(e);
        },
    }
    match desc.check_size(8, bytes.len()) {
        Ok(()) => {},
        Err(e) => {
            return Err(e);
        },
    }
    let mut out: Vec<usize> = Vec::new();
    let mut i: usize = 0;
    while i < desc.n_elements
        invariant
            i <= desc.n_elements,
            desc.n_elements * 8 <= usize::MAX,
            bytes@.len() == desc.n_elements * 8,
            out@ == ids_of(bytes@).take(i as int),
        decreases desc.n_elements - i,
    {
        let long: u64 = word(bytes, 2 * i) as u64 + 0x1_0000_0000 * word(bytes, 2 * i + 1) as u64;
        #[verifier::truncate]
        let id: usize = long as usize;
        out.push(id);
        assert(out@ =~= ids_of(bytes@).take(i + 1));
        i = i + 1;
    }
    assert(ids_of(bytes@).take(i as int) =~= ids_of(bytes@));
    Ok(out)
}

/// Cuts entries into rows.
pub fn into_matrix(entries: &Vec<u32>, rows: usize, cols: usize) -> (out: Matrix)
    requires
        rows * cols == entries@.len(),
    ensures
        out@ == cut(entries@, rows as nat, cols as nat),
{
    let size: usize = entries.len();
    let mut list: Vec<Vec<u32>> = Vec::new();
    let mut r: usize = 0;
    while r < rows
        invariant
            r <= rows,
            rows * cols == entries@.len(),
            rows * cols == size,
            list@.len() == r,
            forall|j: int|
                0 <= j < r ==> (#[trigger] list@[j])@ == entries@.subrange(j * cols, (j + 1) * cols),
        decreases rows - r,
    {
        proof {
            assert(r * cols + cols <= rows * cols) by (nonlinear_arith)
                requires
                    r < rows,
            ;
            assert((r + 1) * cols == r * cols + cols) by (nonlinear_arith);
        }
        let piece: &[u32] = vstd::slice::slice_subrange(
            entries.as_slice(),
            r * cols,
            r * cols + cols,
        );
        list.push(vstd::slice::slice_to_vec(piece));
        r = r + 1;
    }
    let out = Matrix { cols, rows: list };
    assert(out@.rows =~= cut(entries@, rows as nat, cols as nat).rows);
    out
}

impl Golden {
    /// The configuration of the manifest's model.
    pub fn config(&self) -> (cfg: ModelConfig)
        ensures
            cfg.name@ == self.manifest.model.name@,
            cfg.vocab_size == self.manifest.model.vocab_size,
            cfg.d_model == self.manifest.model.d_model,
            cfg.n_layer == self.manifest.model.n_layer,
            cfg.n_head == self.manifest.model.n_head,
            cfg.d_ff == self.manifest.model.d_ff,
            cfg.max_seq == self.manifest.model.max_seq,
            cfg.eps == self.manifest.model.eps,
    {
        let m = &self.manifest.model;
        ModelConfig {
            name: m.name.clone(),
            vocab_size: m.vocab_size,
            d_model: m.d_model,
            n_layer: m.n_layer,
            n_head: m.n_head,
            d_ff: m.d_ff,
            max_seq: m.max_seq,
            eps: m.eps,
        }
    }

    /// A matrix from its blob.
    pub fn array2(desc: &TensorDesc, bytes: &[u8]) -> (out: Result<Matrix, ModelError>)
        requires
            sized(*desc, "f32"@, 4),
            two_sided(*desc, bytes@.len()),
        ensures
            out is Ok <==> reads(*desc, "f32"@, 4, bytes@.len()) && fills(
                *desc,
                desc.n_elements as nat,
            ),
            out matches Ok(m) ==> m@ == cut(
                words_of(bytes@),
                desc.shape@[0] as nat,
                desc.shape@[1] as nat,
            ),
            out matches Err(e) ==> if reads(*desc, "f32"@, 4, bytes@.len()) {
                e == ModelError::Shape
            } else {
                read_error(*desc, "f32"@, 4, bytes@.len(), e)
            },
    {
        match read_singles(desc, bytes) {
            Ok(entries) => {
                let rows: usize = desc.shape[0];
                let cols: usize = desc.shape[1];
                match rows.checked_mul(cols) {
                    Some(size) => if size == entries.len() && rows <= isize::MAX as usize && cols
                        <= isize::MAX as usize {
                        Ok(into_matrix(&entries, rows, cols))
                    } else {
                        Err(ModelError::Shape)
                    },
                    None => Err(ModelError::Shape),
                }
            },
            Err(e) => Err(e),
        }
    }

    /// A norm gain from its blob.
    pub fn array1(desc: &TensorDesc, bytes: &[u8]) -> (out: Result<Vec<u32>, ModelError>)
        requires
            sized(*desc, "f32"@, 4),
        ensures
            out is Ok <==> reads(*desc, "f32"@, 4, bytes@.len()),
            out matches Ok(entries) ==> entries@ == words_of(bytes@),
            out matches Err(e) ==> read_error(*desc, "f32"@, 4, bytes@.len(), e),
    {
        read_singles(desc, bytes)
    }

    /// Token ids from their blob.
    pub fn ids(desc: &TensorDesc, bytes: &[u8]) -> (out: Result<Vec<usize>, ModelError>)
        requires
            sized(*desc, "i64"@, 8),
        ensures
            out is Ok <==> reads(*desc, "i64"@, 8, bytes@.len()),
            out matches Ok(ids) ==> ids@ == ids_of(bytes@),
            out matches Err(e) ==> read_error(*desc, "i64"@, 8, bytes@.len(), e),
    {
        read_longs(desc, bytes)
    }

    /// An activation from its blob: ids where the type says so, a hidden state otherwise.
    pub fn activation(desc: &TensorDesc, bytes: &[u8]) -> (out: Result<Activation, ModelError>)
        requires
            sized(*desc, "i64"@, 8),
            sized(*desc, "f32"@, 4),
            two_sided(*desc, bytes@.len()),
        ensures
            desc.dtype@ == "i64"@ ==> {
                &&& out is Ok <==> bytes@.len() == desc.n_elements * 8
                &&& out matches Ok(a) ==> a@ == ActivationView::Ids(ids_of(bytes@))
                &&& out matches Err(e) ==> read_error(*desc, "i64"@, 8, bytes@.len(), e)
            },
            desc.dtype@ != "i64"@ ==> {
                &&& out is Ok <==> reads(*desc, "f32"@, 4, bytes@.len()) && fills(
                    *desc,
                    desc.n_elements as nat,
                )
                &&& out matches Ok(a) ==> a@ == ActivationView::Hidden(
                    cut(words_of(bytes@), desc.shape@[0] as nat, desc.shape@[1] as nat),
                )
                &&& out matches Err(e) ==> if reads(*desc, "f32"@, 4, bytes@.len()) {
                    e == ModelError::Shape
                } else {
                    read_error(*desc, "f32"@, 4, bytes@.len(), e)
                }
            },
    {
        let long: String = "i64".to_owned();
        if desc.dtype == long {
            match Golden::ids(desc, bytes) {
                Ok(ids) => Ok(Activation::Ids(ids)),
                Err(e) => Err(e),
            }
        } else {
            match Golden::array2(desc, bytes) {
                Ok(m) => Ok(Activation::Hidden(m)),
                Err(e) => Err(e),
            }
        }
    }
}

/// How many tensors a model of `n_layer` layers has.
pub open spec fn tensor_count(n_layer: nat) -> nat {
    6 * n_layer + 3
}

/// The end of the name of a layer's tensor.
pub open spec fn part_name(part: int) -> Seq<char> {
    if part == 0 {
        ".wqkv"@
    } else if part == 1 {
        ".wo"@
    } else if part == 2 {
        ".g1"@
    } else if part == 3 {
        ".g2"@
    } else if part == 4 {
        ".w1"@
    } else {
        ".w2"@
    }
}

/// The name of a model's tensor: those of the layers in order, the embeddings and the final gain.
pub open spec fn tensor_name(n_layer: nat, i: int) -> Seq<char> {
    if i < 6 * n_layer {
        "layer_"@ + zero_padded(decimal_of((i / 6) as nat), 2) + part_name(i % 6)
    } else if i == 6 * n_layer {
        "tok_emb"@
    } else if i == 6 * n_layer + 1 {
        "pos_emb"@
    } else {
        "final_g"@
    }
}

/// Whether a model's tensor is a norm gain and not a matrix.
pub open spec fn is_gain(n_layer: nat, i: int) -> bool {
    if i < 6 * n_layer {
        i % 6 == 2 || i % 6 == 3
    } else {
        i == 6 * n_layer + 2
    }
}

/// Whether some tensor of a list has this name.
pub open spec fn is_named(list: Seq<TensorDesc>, name: Seq<char>) -> bool {
    exists|i: int| 0 <= i < list.len() && (#[trigger] list[i]).name@ == name
}

/// Whether the tensor at `at` is the one of this name: the last, where there are several.
pub open spec fn is_last_named(list: Seq<TensorDesc>, name: Seq<char>, at: int) -> bool {
    &&& 0 <= at < list.len()
    &&& list[at].name@ == name
    &&& forall|i: int| at < i < list.len() ==> (#[trigger] list[i]).name@ != name
}

/// A loaded tensor.
pub enum TensorView {
    Matrix(Grid),
    Gain(Seq<u32>),
}

/// The contents of a loader: the tensors so far.
#[verifier::ext_equal]
pub struct LoaderView {
    pub manifest: Manifest,
    pub tensors: Seq<TensorView>,
}

impl LoaderView {
    /// The number of layers of the model.
    pub open spec fn layers(self) -> nat {
        self.manifest.model.n_layer as nat
    }

    /// The name of the next tensor.
    pub open spec fn next_name(self) -> Seq<char> {
        tensor_name(self.layers(), self.tensors.len() as int)
    }

    /// Whether all tensors are there.
    pub open spec fn complete(self) -> bool {
        self.tensors.len() == tensor_count(self.layers())
    }

    /// Whether the next tensor is a norm gain.
    pub open spec fn next_is_gain(self) -> bool {
        is_gain(self.layers(), self.tensors.len() as int)
    }
}

/// Takes the tensors of a model in, one blob after the other.
#[derive(Debug)]
pub struct WeightsLoader<'m> {
    manifest: &'m Manifest,
    at: usize,
    layers: Vec<LayerWeights>,
    part: LayerWeights,
    tok_emb: Matrix,
    pos_emb: Matrix,
    final_g: Vec<u32>,
}

/// A tensor of a layer.
pub open spec fn layer_tensor(layer: LayerWeights, part: int) -> TensorView {
    if part == 0 {
        TensorView::Matrix(layer.wqkv@)
    } else if part == 1 {
        TensorView::Matrix(layer.wo@)
    } else if part == 2 {
        TensorView::Gain(layer.g1@)
    } else if part == 3 {
        TensorView::Gain(layer.g2@)
    } else if part == 4 {
        TensorView::Matrix(layer.w1@)
    } else {
        TensorView::Matrix(layer.w2@)
    }
}

/// A tensor of a model.
pub open spec fn weight_tensor(w: Weights, i: int) -> TensorView {
    let n = 6 * w.layers@.len();
    if i < n {
        layer_tensor(w.layers@[i / 6], i % 6)
    } else if i == n {
        TensorView::Matrix(w.tok_emb@)
    } else if i == n + 1 {
        TensorView::Matrix(w.pos_emb@)
    } else {
        TensorView::Gain(w.final_g@)
    }
}

fn blank_matrix() -> (m: Matrix)
    ensures
        m@ == (Grid { cols: 0, rows: Seq::empty() }),
{
    let m = Matrix { cols: 0, rows: Vec::new() };
    assert(m@.rows =~= Seq::empty());
    m
}

/// A layer without weights.
fn blank_layer() -> (layer: LayerWeights)
    ensures
        layer.wqkv@ == (Grid { cols: 0, rows: Seq::empty() }),
        layer.wo@ == (Grid { cols: 0, rows: Seq::empty() }),
        layer.g1@ == Seq::<u32>::empty(),
        layer.g2@ == Seq::<u32>::empty(),
        layer.w1@ == (Grid { cols: 0, rows: Seq::empty() }),
        layer.w2@ == (Grid { cols: 0, rows: Seq::empty() }),
{
    LayerWeights {
        wqkv: blank_matrix(),
        wo: blank_matrix(),
        g1: Vec::new(),
        g2: Vec::new(),
        w1: blank_matrix(),
        w2: blank_matrix(),
    }
}

impl<'m> View for WeightsLoader<'m> {
    type V = LoaderView;

    closed spec fn view(&self) -> LoaderView {
        LoaderView {
            manifest: *self.manifest,
            tensors: Seq::new(self.at as nat, |i: int| self.tensor(i)),
        }
    }
}

impl<'m> WeightsLoader<'m> {
    spec fn tensor(&self, i: int) -> TensorView {
        let n = 6 * self.manifest.model.n_layer;
        if i < 6 * self.layers@.len() {
            layer_tensor(self.layers@[i / 6], i % 6)
        } else if i < n {
            layer_tensor(self.part, i % 6)
        } else if i == n {
            TensorView::Matrix(self.tok_emb@)
        } else if i == n + 1 {
            TensorView::Matrix(self.pos_emb@)
        } else {
            TensorView::Gain(self.final_g@)
        }
    }

    /// Whether the layers that are there are those that the tensors so far fill.
    pub closed spec fn wf(&self) -> bool {
        let n = self.manifest.model.n_layer;
        &&& tensor_count(n as nat) <= usize::MAX
        &&& self.at <= tensor_count(n as nat)
        &&& self.layers@.len() == if self.at < 6 * n {
            (self.at / 6) as nat
        } else {
            n as nat
        }
    }

    /// A loader without tensors.
    pub fn new(manifest: &'m Manifest) -> (loader: Self)
        requires
            tensor_count(manifest.model.n_layer as nat) <= usize::MAX,
        ensures
            loader.wf(),
            loader@ == (LoaderView { manifest: *manifest, tensors: Seq::empty() }),
    {
        let loader = WeightsLoader {
            manifest,
            at: 0,
            layers: Vec::new(),
            part: blank_layer(),
            tok_emb: blank_matrix(),
            pos_emb: blank_matrix(),
            final_g: Vec::new(),
        };
        assert(loader@.tensors =~= Seq::empty());
        loader
    }

    /// The name of the next tensor.
    fn next_name(&self) -> (name: String)
        requires
            self.wf(),
            !self@.complete(),
        ensures
            name@ == self@.next_name(),
    {
        let n: usize = self.manifest.model.n_layer;
        if self.at < 6 * n {
            let mut name: String = "layer_".to_owned();
            name.append(decimal_padded((self.at / 6) as u64, 2).as_str());
            let part: usize = self.at % 6;
            if part == 0 {
                name.append(".wqkv");
            } else if part == 1 {
                name.append(".wo");
            } else if part == 2 {
                name.append(".g1");
            } else if part == 3 {
                name.append(".g2");
            } else if part == 4 {
                name.append(".w1");
            } else {
                name.append(".w2");
            }
            name
        } else if self.at == 6 * n {
            "tok_emb".to_owned()
        } else if self.at == 6 * n + 1 {
            "pos_emb".to_owned()
        } else {
            "final_g".to_owned()
        }
    }

    /// Which tensor of the manifest is to be taken in next, if any is left. Fails if it is missing.
    pub fn next(&self) -> (out: Result<Option<usize>, ModelError>)
        requires
            self.wf(),
        ensures
            self@.complete() <==> out == Ok::<Option<usize>, ModelError>(None),
            out matches Ok(Some(at)) ==> is_last_named(
                self@.manifest.weights@,
                self@.next_name(),
                at as int,
            ),
            out is Err <==> !self@.complete() && !is_named(
                self@.manifest.weights@,
                self@.next_name(),
            ),
            out matches Err(e) ==> e matches ModelError::MissingTensor(name) && name@
                == self@.next_name(),
    {
        if self.at == 6 * self.manifest.model.n_layer + 3 {
            return Ok(None);
        }
        let name: String = self.next_name();
        let list: &Vec<TensorDesc> = &self.manifest.weights;
        let mut i: usize = list.len();
        while i > 0
            invariant
                i <= list@.len(),
                self.wf(),
                !self@.complete(),
                *list == self@.manifest.weights,
                name@ == self@.next_name(),
                forall|j: int| i <= j < list@.len() ==> (#[trigger] list@[j]).name@ != name@,
            decreases i,
        {
            i = i - 1;
            if list[i].name == name {
                return Ok(Some(i));
            }
        }
        Err(ModelError::MissingTensor(name))
    }

    /// Whether the next tensor is a norm gain.
    pub fn next_is_gain(&self) -> (gain: bool)
        requires
            self.wf(),
        ensures
            gain == self@.next_is_gain(),
    {
        let n: usize = self.manifest.model.n_layer;
        if self.at < 6 * n {
            self.at % 6 == 2 || self.at % 6 == 3
        } else {
            self.at == 6 * n + 2
        }
    }

    /// Takes the blob of the next tensor in.
    pub fn feed(&mut self, at: usize, bytes: &[u8]) -> (out: Result<(), ModelError>)
        requires
            old(self).wf(),
            !old(self)@.complete(),
            at < old(self)@.manifest.weights@.len(),
            sized(old(self)@.manifest.weights@[at as int], "f32"@, 4),
            !old(self)@.next_is_gain() ==> two_sided(
                old(self)@.manifest.weights@[at as int],
                bytes@.len(),
            ),
        ensures
            final(self).wf(),
            ({
                let desc = old(self)@.manifest.weights@[at as int];
                let gain = old(self)@.next_is_gain();
                let read = reads(desc, "f32"@, 4, bytes@.len());
                let words = words_of(bytes@);
                &&& out is Ok <==> read && (gain || fills(desc, desc.n_elements as nat))
                &&& out is Ok ==> final(self)@ == (LoaderView {
                    tensors: old(self)@.tensors.push(
                        if gain {
                            TensorView::Gain(words)
                        } else {
                            TensorView::Matrix(
                                cut(words, desc.shape@[0] as nat, desc.shape@[1] as nat),
                            )
                        },
                    ),
                    ..old(self)@
                })
                &&& out matches Err(e) ==> final(self)@ == old(self)@ && if read {
                    e == ModelError::Shape
                } else {
                    read_error(desc, "f32"@, 4, bytes@.len(), e)
                }
            }),
    {
        let ghost before = *self;
        let n: usize = self.manifest.model.n_layer;
        let desc: &TensorDesc = &self.manifest.weights[at];
        if self.next_is_gain() {
            let gain: Vec<u32> = match Golden::array1(desc, bytes) {
                Ok(gain) => gain,
                Err(e) => {
                    return Err(e);
                },
            };
            if self.at >= 6 * n {
                self.final_g = gain;
            } else if self.at % 6 == 2 {
                self.part.g1 = gain;
            } else {
                self.part.g2 = gain;
            }
            self.at = self.at + 1;
        } else {
            let m: Matrix = match Golden::array2(desc, bytes) {
                Ok(m) => m,
                Err(e) => {
                    return Err(e);
                },
            };
            if self.at == 6 * n {
                self.tok_emb = m;
            } else if self.at > 6 * n {
                self.pos_emb = m;
            } else if self.at % 6 == 0 {
                self.part.wqkv = m;
            } else if self.at % 6 == 1 {
                self.part.wo = m;
            } else if self.at % 6 == 4 {
                self.part.w1 = m;
            } else {
                self.part.w2 = m;
                let mut filled: LayerWeights = blank_layer();
                std::mem::swap(&mut filled, &mut self.part);
                self.layers.push(filled);
            }
            self.at = self.at + 1;
        }
        proof {
            let now = self@.tensors;
            let was = before@.tensors;
            assert forall|i: int| 0 <= i < was.len() implies #[trigger] now[i] == was[i] by {
                assert(was[i] == before.tensor(i));
                assert(now[i] == self.tensor(i));
                if i < 6 * before.layers@.len() {
                    assert(self.layers@[i / 6] == before.layers@[i / 6]);
                } else if i < 6 * n {
                    assert(i / 6 == before.at / 6);
                }
            }
            let last = before.at as int;
            assert(now[last] == self.tensor(last));
            assert(now =~= was.push(now[last]));
        }
        Ok(())
    }

    /// The weights, once all tensors are there.
    pub fn finish(self) -> (weights: Weights)
        requires
            self.wf(),
            self@.complete(),
        ensures
            weights.layers@.len() == self@.layers(),
            forall|i: int|
                0 <= i < self@.tensors.len() ==> weight_tensor(weights, i)
                    == #[trigger] self@.tensors[i],
    {
        let ghost view = self@;
        let weights = Weights {
            tok_emb: self.tok_emb,
            pos_emb: self.pos_emb,
            final_g: self.final_g,
            layers: self.layers,
        };
        assert forall|i: int| 0 <= i < view.tensors.len() implies weight_tensor(weights, i)
            == #[trigger] view.tensors[i] by {
            assert(view.tensors[i] == self.tensor(i));
        }
        weights
    }
}

impl Golden {
    /// A loader for the weights of the manifest's model.
    pub fn weights(&self) -> (loader: WeightsLoader<'_>)
        requires
            tensor_count(self.manifest.model.n_layer as nat) <= usize::MAX,
        ensures
            loader.wf(),
            loader@ == (LoaderView { manifest: self.manifest, tensors: Seq::empty() }),
    {
        WeightsLoader::new(&self.manifest)
    }
}

/// A tensor of a layer is named after its layer: `layer_`, the number of the layer in decimal with at
/// least two digits, and the name of its part. Each part stands in the weights where its name says.
pub proof fn layer_tensors_are_named_after_their_layer(w: Weights, l: int, part: int)
    requires
        0 <= l < w.layers@.len(),
        0 <= part < 6,
    ensures
        ({
            let n = w.layers@.len();
            let name = tensor_name(n, 6 * l + part);
            let end = name.len() - if part == 0 {
                5int
            } else {
                3int
            };
            let number = name.subrange(6, end);
            let layer = w.layers@[l];
            &&& name.take(6) == "layer_"@
            &&& number.len() >= 2
            &&& l < 100 ==> number.len() == 2
            &&& all_digits(number, 10)
            &&& value_of(number, 10) == l
            &&& part == 0 ==> name.skip(end) == ".wqkv"@ && weight_tensor(w, 6 * l + part)
                == TensorView::Matrix(layer.wqkv@)
            &&& part == 1 ==> name.skip(end) == ".wo"@ && weight_tensor(w, 6 * l + part)
                == TensorView::Matrix(layer.wo@)
            &&& part == 2 ==> name.skip(end) == ".g1"@ && weight_tensor(w, 6 * l + part)
                == TensorView::Gain(layer.g1@)
            &&& part == 3 ==> name.skip(end) == ".g2"@ && weight_tensor(w, 6 * l + part)
                == TensorView::Gain(layer.g2@)
            &&& part == 4 ==> name.skip(end) == ".w1"@ && weight_tensor(w, 6 * l + part)
                == TensorView::Matrix(layer.w1@)
            &&& part == 5 ==> name.skip(end) == ".w2"@ && weight_tensor(w, 6 * l + part)
                == TensorView::Matrix(layer.w2@)
            &&& is_gain(n, 6 * l + part) == (weight_tensor(w, 6 * l + part) is Gain)
        }),
{
    let n = w.layers@.len();
    let i = 6 * l + part;
    assert(i / 6 == l && i % 6 == part);
    assert(i < 6 * n);
    reveal_strlit("layer_");
    reveal_strlit(".wqkv");
    reveal_strlit(".wo");
    reveal_strlit(".g1");
    reveal_strlit(".g2");
    reveal_strlit(".w1");
    reveal_strlit(".w2");
    let number = zero_padded(decimal_of(l as nat), 2);
    numerals_stand_for_their_number(l as nat, 10);
    padding_keeps_the_number(decimal_of(l as nat), 2, 10);
    if l < 100 {
        lemma_two_digits(l as nat);
    }
    let name = tensor_name(n, i);
    let ending = part_name(part);
    assert(name =~= "layer_"@ + number + ending);
    let end = name.len() - ending.len();
    assert(name.take(6) =~= "layer_"@);
    assert(name.subrange(6, end) =~= number);
    assert(name.skip(end) =~= ending);
}

proof fn lemma_two_digits(n: nat)
    requires
        n < 100,
    ensures
        decimal_of(n).len() <= 2,
{
    reveal_with_fuel(numeral, 2);
}

/// The tensors behind those of the layers: both embeddings and the final gain.
pub proof fn shared_tensors_come_last(w: Weights)
    ensures
        ({
            let n = w.layers@.len();
            let behind = 6 * n as int;
            &&& tensor_count(n) == 6 * n + 3
            &&& tensor_name(n, behind) == "tok_emb"@
            &&& weight_tensor(w, behind) == TensorView::Matrix(w.tok_emb@)
            &&& tensor_name(n, behind + 1) == "pos_emb"@
            &&& weight_tensor(w, behind + 1) == TensorView::Matrix(w.pos_emb@)
            &&& tensor_name(n, behind + 2) == "final_g"@
            &&& weight_tensor(w, behind + 2) == TensorView::Gain(w.final_g@)
            &&& !is_gain(n, behind) && !is_gain(n, behind + 1) && is_gain(n, behind + 2)
        }),
{
}

/// No two tensors of a model have the same name.
pub proof fn tensor_names_differ(n_layer: nat, i: int, j: int)
    requires
        0 <= i < 6 * n_layer + 3,
        0 <= j < 6 * n_layer + 3,
        tensor_name(n_layer, i) == tensor_name(n_layer, j),
    ensures
        i == j,
{
    reveal_strlit("layer_");
    reveal_strlit("tok_emb");
    reveal_strlit("pos_emb");
    reveal_strlit("final_g");
    let (a, b) = (tensor_name(n_layer, i), tensor_name(n_layer, j));
    assert(a[0] == b[0]);
    if i < 6 * n_layer {
        lemma_layer_name(n_layer, i);
    }
    if j < 6 * n_layer {
        lemma_layer_name(n_layer, j);
    }
    if i < 6 * n_layer && j < 6 * n_layer {
        let (s, t) = (
            zero_padded(decimal_of((i / 6) as nat), 2),
            zero_padded(decimal_of((j / 6) as nat), 2),
        );
        let (p, q) = (part_name(i % 6), part_name(j % 6));
        // Both names have one dot, at the same place.
        if s.len() < t.len() {
            assert(a[6 + s.len() as int] == p[0]);
            assert(b[6 + s.len() as int] == t[s.len() as int]);
        } else if t.len() < s.len() {
            assert(b[6 + t.len() as int] == q[0]);
            assert(a[6 + t.len() as int] == s[t.len() as int]);
        }
        assert(s =~= t) by {
            assert forall|k: int| 0 <= k < s.len() implies s[k] == t[k] by {
                assert(a[6 + k] == s[k] && b[6 + k] == t[k]);
            }
        }
        assert(p =~= q) by {
            assert(a.len() == 6 + s.len() + p.len());
            assert(b.len() == 6 + t.len() + q.len());
            assert(p.len() == q.len());
            assert forall|k: int| 0 <= k < p.len() implies p[k] == q[k] by {
                assert(a[6 + s.len() + k] == p[k] && b[6 + t.len() + k] == q[k]);
            }
        }
        reveal_strlit(".wqkv");
        reveal_strlit(".wo");
        reveal_strlit(".g1");
        reveal_strlit(".g2");
        reveal_strlit(".w1");
        reveal_strlit(".w2");
        assert(i % 6 == j % 6) by {
            assert(p.len() == q.len());
            assert(p[1] == q[1]);
            assert(p[2] == q[2]);
        }
        assert(i / 6 == j / 6);
    }
}

/// The name of a layer's tensor: its pieces, and the number that stands in it.
proof fn lemma_layer_name(n_layer: nat, i: int)
    requires
        0 <= i < 6 * n_layer,
    ensures
        ({
            let s = zero_padded(decimal_of((i / 6) as nat), 2);
            let p = part_name(i % 6);
            &&& tensor_name(n_layer, i) == "layer_"@ + s + p
            &&& "layer_"@.len() == 6
            &&& "layer_"@[0] == 'l'
            &&& value_of(s, 10) == i / 6
            &&& all_digits(s, 10)
            &&& forall|k: int| 0 <= k < s.len() ==> #[trigger] s[k] != '.'
            &&& p.len() >= 3
            &&& p[0] == '.'
        }),
{
    reveal_strlit("layer_");
    reveal_strlit(".wqkv");
    reveal_strlit(".wo");
    reveal_strlit(".g1");
    reveal_strlit(".g2");
    reveal_strlit(".w1");
    reveal_strlit(".w2");
    numerals_stand_for_their_number((i / 6) as nat, 10);
    padding_keeps_the_number(decimal_of((i / 6) as nat), 2, 10);
}

/// Every blob is read for one tensor only: two steps of a loader never take the same one.
pub proof fn no_blob_is_read_twice(list: Seq<TensorDesc>, n_layer: nat, i: int, j: int, at: int, other: int)
    requires
        0 <= i < 6 * n_layer + 3,
        0 <= j < 6 * n_layer + 3,
        i != j,
        is_last_named(list, tensor_name(n_layer, i), at),
        is_last_named(list, tensor_name(n_layer, j), other),
    ensures
        at != other,
        list[at].name@ == tensor_name(n_layer, i),
{
    if at == other {
        tensor_names_differ(n_layer, i, j);
    }
}

/// Blobs are read in order, the least significant byte of each number first.
pub proof fn blobs_are_little_endian(bytes: Seq<u8>, i: int)
    requires
        0 <= i,
        4 * i + 4 <= bytes.len(),
    ensures
        words_of(bytes).len() == bytes.len() / 4,
        words_of(bytes)[i] % 0x100 == bytes[4 * i],
        words_of(bytes)[i] / 0x100 % 0x100 == bytes[4 * i + 1],
        words_of(bytes)[i] / 0x1_0000 % 0x100 == bytes[4 * i + 2],
        words_of(bytes)[i] / 0x100_0000 == bytes[4 * i + 3],
{
    let (a, b, c, d) = (
        bytes[4 * i] as int,
        bytes[4 * i + 1] as int,
        bytes[4 * i + 2] as int,
        bytes[4 * i + 3] as int,
    );
    assert(words_of(bytes)[i] == a + 0x100 * b + 0x1_0000 * c + 0x100_0000 * d);
}

/// Matrices are filled row by row.
pub proof fn matrices_are_filled_row_by_row(entries: Seq<u32>, rows: nat, cols: nat, r: int, c: int)
    requires
        0 <= r < rows,
        0 <= c < cols,
        entries.len() == rows * cols,
    ensures
        cut(entries, rows, cols).cols == cols,
        cut(entries, rows, cols).rows.len() == rows,
        cut(entries, rows, cols).rows[r].len() == cols,
        cut(entries, rows, cols).rows[r][c] == entries[r * cols + c],
{
    assert(0 <= r * cols && r * cols + cols == (r + 1) * cols && r * cols + cols <= rows * cols)
        by (nonlinear_arith)
        requires
            0 <= r < rows,
            0 <= cols,
    ;
}

/// Ids are read from eight bytes each.
pub proof fn ids_are_little_endian(bytes: Seq<u8>, i: int)
    requires
        0 <= i,
        8 * i + 8 <= bytes.len(),
        bytes[8 * i + 4] == 0 && bytes[8 * i + 5] == 0 && bytes[8 * i + 6] == 0 && bytes[8 * i + 7]
            == 0,
    ensures
        ids_of(bytes)[i] % 0x100 == bytes[8 * i],
        ids_of(bytes)[i] / 0x100 % 0x100 == bytes[8 * i + 1],
        ids_of(bytes)[i] / 0x1_0000 % 0x100 == bytes[8 * i + 2],
        ids_of(bytes)[i] / 0x100_0000 == bytes[8 * i + 3],
{
    let (a, b, c, d) = (
        bytes[8 * i] as int,
        bytes[8 * i + 1] as int,
        bytes[8 * i + 2] as int,
        bytes[8 * i + 3] as int,
    );
    assert(word_at(bytes, 2 * i + 1) == 0);
    assert(word_at(bytes, 2 * i) == a + 0x100 * b + 0x1_0000 * c + 0x100_0000 * d);
}

} // verus!
