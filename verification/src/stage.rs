//! A contiguous block of transformer layers, owned by one node.
//!
//! A stage takes in and gives out a small `[n_tokens, d_model]` activation, the only thing that
//! ever crosses the wire. The first stage also owns the embeddings, and takes token ids; the last
//! owns the final norm and the output head, and gives logits.
//!
//! [`Stage::forward`] starts a [`StagePass`]: a sequence of numeric tasks, each of which names its
//! operands. The numeric backend works one task off after the other and hands the result back;
//! the pass moves the entries between tasks, keeps the caches and decides what comes next. With
//! caches it is an online step, which extends them; without, a stateless run over all its input.

use vstd::prelude::*;

use crate::cache::{
    bytes_of, caches_of, checked_total_bytes, measurable, positions, CacheView, KVCache,
};
use crate::config::ModelConfig;
use crate::error::ModelError;
use crate::tensor::{append_rows, copy_row, from_heads, rows_of, to_heads, Cube, Grid, Heads, Matrix};
use crate::weights::{lemma_params_of_ordered, params_of, LayerWeights, Weights};

verus! {

/// The input of a stage.
#[derive(Debug)]
pub enum Activation {
    /// Token ids, for the first stage only.
    Ids(Vec<usize>),
    /// A hidden state `[n_tokens, d_model]`, for every other stage.
    Hidden(Matrix),
}

/// The contents of an activation.
#[verifier::ext_equal]
pub enum ActivationView {
    Ids(Seq<usize>),
    Hidden(Grid),
}

impl View for Activation {
    type V = ActivationView;

    open spec fn view(&self) -> ActivationView {
        match *self {
            Activation::Ids(ids) => ActivationView::Ids(ids@),
            Activation::Hidden(h) => ActivationView::Hidden(h@),
        }
    }
}

impl ActivationView {
    /// The number of tokens that the activation carries.
    pub open spec fn tokens(self) -> nat {
        match self {
            ActivationView::Ids(ids) => ids.len(),
            ActivationView::Hidden(h) => h.rows.len(),
        }
    }

    /// Whether a hidden state is well-formed.
    pub open spec fn wf(self) -> bool {
        match self {
            ActivationView::Ids(ids) => true,
            ActivationView::Hidden(h) => h.wf(),
        }
    }

    /// Whether two activations are of the same kind, and hidden states of the same width.
    pub open spec fn same_kind(self, next: ActivationView) -> bool {
        match (self, next) {
            (ActivationView::Ids(_), ActivationView::Ids(_)) => true,
            (ActivationView::Hidden(a), ActivationView::Hidden(b)) => a.cols == b.cols,
            _ => false,
        }
    }

    /// The tokens of this activation and those of `next` behind them.
    pub open spec fn followed_by(self, next: ActivationView) -> ActivationView {
        match (self, next) {
            (ActivationView::Ids(a), ActivationView::Ids(b)) => ActivationView::Ids(a + b),
            (ActivationView::Hidden(a), ActivationView::Hidden(b)) => ActivationView::Hidden(
                Grid { cols: a.cols, rows: a.rows + b.rows },
            ),
            _ => self,
        }
    }

    /// An activation of this kind without tokens.
    pub open spec fn blank(self) -> ActivationView {
        match self {
            ActivationView::Ids(_) => ActivationView::Ids(Seq::empty()),
            ActivationView::Hidden(h) => ActivationView::Hidden(
                Grid { cols: h.cols, rows: Seq::empty() },
            ),
        }
    }
}

/// All steps of a session as one activation.
pub open spec fn concatenated(steps: Seq<ActivationView>) -> ActivationView
    decreases steps.len(),
{
    if steps.len() <= 1 {
        steps[0]
    } else {
        concatenated(steps.drop_last()).followed_by(steps.last())
    }
}

/// The contents of a list of activations.
pub open spec fn activations_of(list: Seq<Activation>) -> Seq<ActivationView> {
    list.map_values(|a: Activation| a@)
}

/// Whether all activations are of one kind.
pub open spec fn one_kind(steps: Seq<ActivationView>) -> bool {
    forall|i: int| 0 <= i < steps.len() ==> steps[0].same_kind(#[trigger] steps[i])
}

/// A second list of ids equal to `ids`.
pub fn copy_ids(ids: &Vec<usize>) -> (out: Vec<usize>)
    ensures
        out@ == ids@,
{
    vstd::slice::slice_to_vec(ids.as_slice())
}

impl Activation {
    /// The number of tokens that this activation carries.
    pub fn n_tokens(&self) -> (n: usize)
        ensures
            n == self@.tokens(),
    {
        match self {
            Activation::Ids(ids) => ids.len(),
            Activation::Hidden(h) => h.nrows(),
        }
    }

    /// A second activation equal to this one.
    pub fn copied(&self) -> (out: Activation)
        ensures
            out@ == self@,
    {
        match self {
            Activation::Ids(ids) => Activation::Ids(copy_ids(ids)),
            Activation::Hidden(h) => Activation::Hidden(h.copied()),
        }
    }
}

impl Activation {
    /// Appends the tokens of `next`, if it is of the same kind.
    fn extend(&mut self, next: &Activation) -> (fits: bool)
        ensures
            fits == old(self)@.same_kind(next@),
            fits ==> final(self)@ == old(self)@.followed_by(next@),
    {
        match self {
            Activation::Ids(ids) => match next {
                Activation::Ids(more) => {
                    let ghost before = ids@;
                    let mut i: usize = 0;
                    while i < more.len()
                        invariant
                            i <= more@.len(),
                            ids@ == before + more@.take(i as int),
                        decreases more@.len() - i,
                    {
                        ids.push(more[i]);
                        assert(more@.take(i + 1) =~= more@.take(i as int).push(more@[i as int]));
                        assert(ids@ =~= before + more@.take(i + 1));
                        i = i + 1;
                    }
                    assert(more@.take(i as int) =~= more@);
                    true
                },
                Activation::Hidden(_) => false,
            },
            Activation::Hidden(h) => match next {
                Activation::Hidden(more) => {
                    if h.cols != more.cols {
                        return false;
                    }
                    append_rows(&mut h.rows, &more.rows);
                    true
                },
                Activation::Ids(_) => false,
            },
        }
    }

    /// All steps of a session as one activation. They must be of one kind, and there must be one.
    pub fn concat(steps: &Vec<Activation>) -> (out: Result<Activation, ModelError>)
        ensures
            out is Ok <==> steps@.len() > 0 && one_kind(activations_of(steps@)),
            out matches Ok(all) ==> all@ == concatenated(activations_of(steps@)),
            out matches Err(e) ==> e == ModelError::Shape,
    {
        let ghost views = activations_of(steps@);
        if steps.len() == 0 {
            return Err(ModelError::Shape);
        }
        let mut all: Activation = steps[0].copied();
        assert(views.take(1)[0] == views[0]);
        let mut i: usize = 1;
        while i < steps.len()
            invariant
                1 <= i <= steps@.len(),
                views == activations_of(steps@),
                one_kind(views.take(i as int)),
                all@ == concatenated(views.take(i as int)),
                views[0].same_kind(all@),
            decreases steps@.len() - i,
        {
            let ghost front = views.take(i as int);
            let ghost next = views.take(i + 1);
            assert(views[i as int] == steps@[i as int]@);
            assert(next.drop_last() =~= front);
            if !all.extend(&steps[i]) {
                assert(!views[0].same_kind(views[i as int]));
                return Err(ModelError::Shape);
            }
            assert forall|j: int| 0 <= j < next.len() implies next[0].same_kind(
                #[trigger] next[j],
            ) by {
                if j < i {
                    assert(front[0].same_kind(front[j]));
                }
            }
            i = i + 1;
        }
        assert(views.take(i as int) =~= views);
        Ok(all)
    }
}

/// What a pass needs to know of its stage.
#[derive(Debug, Clone, Copy)]
pub struct Layout {
    pub lo: usize,
    pub hi: usize,
    pub is_last: bool,
    pub n_head: usize,
    pub head_dim: usize,
    pub d_model: usize,
    /// The number of tokens of the vocabulary: rows of the token embedding.
    pub vocab: usize,
}

/// One piece of numeric work, with its operands: `M` are matrices, `H` per-head tensors and `N`
/// numbers of visible keys. `x` is the residual stream.
#[derive(Debug)]
pub enum Task<M, H, N> {
    /// The sum of token and position embeddings.
    Embed { tokens: M, positions: M },
    /// The norm of `x` with the layer's attention gain.
    NormAttention { layer: usize, x: M },
    /// The product of `normed` and the layer's query/key/value projection.
    ProjectQkv { layer: usize, x: M, normed: M },
    /// For every head and token the attention over the keys and values that the token sees: the
    /// first `visible` of them.
    Attend { layer: usize, x: M, q: H, k: H, v: H, visible: N },
    /// The product of `merged` and the layer's output projection.
    ProjectOut { layer: usize, x: M, merged: M },
    /// The sum of `x` and `delta`.
    AddAttention { layer: usize, x: M, delta: M },
    /// The norm of `x` with the layer's feed-forward gain.
    NormMlp { layer: usize, x: M },
    /// The product of `normed` and the layer's up projection.
    Expand { layer: usize, x: M, normed: M },
    /// The activation function of every entry of `hidden`.
    Activate { layer: usize, x: M, hidden: M },
    /// The product of `hidden` and the layer's down projection.
    Contract { layer: usize, x: M, hidden: M },
    /// The sum of `x` and `delta`.
    AddMlp { layer: usize, x: M, delta: M },
    /// The norm of `x` with the final gain.
    NormFinal { x: M },
    /// The product of `normed` and the transposed token embedding.
    Unembed { normed: M },
    /// Nothing: the pass is over.
    Done { out: M },
}

/// A task as the backend sees it.
pub type PassTask = Task<Matrix, Heads, Vec<usize>>;

/// The contents of a task.
pub type TaskView = Task<Grid, Cube, Seq<usize>>;

/// What the backend computed.
#[derive(Debug)]
pub enum Reply {
    Rows(Matrix),
    Heads(Heads),
}

/// The contents of a reply.
pub enum ReplyView {
    Rows(Grid),
    Heads(Cube),
}

impl View for Reply {
    type V = ReplyView;

    open spec fn view(&self) -> ReplyView {
        match *self {
            Reply::Rows(m) => ReplyView::Rows(m@),
            Reply::Heads(h) => ReplyView::Heads(h@),
        }
    }
}

/// The contents of the operands of a task.
pub open spec fn task_of(task: PassTask) -> TaskView {
    match task {
        Task::Embed { tokens, positions } => Task::Embed { tokens: tokens@, positions: positions@ },
        Task::NormAttention { layer, x } => Task::NormAttention { layer, x: x@ },
        Task::ProjectQkv { layer, x, normed } => Task::ProjectQkv { layer, x: x@, normed: normed@ },
        Task::Attend { layer, x, q, k, v, visible } => Task::Attend {
            layer,
            x: x@,
            q: q@,
            k: k@,
            v: v@,
            visible: visible@,
        },
        Task::ProjectOut { layer, x, merged } => Task::ProjectOut { layer, x: x@, merged: merged@ },
        Task::AddAttention { layer, x, delta } => Task::AddAttention {
            layer,
            x: x@,
            delta: delta@,
        },
        Task::NormMlp { layer, x } => Task::NormMlp { layer, x: x@ },
        Task::Expand { layer, x, normed } => Task::Expand { layer, x: x@, normed: normed@ },
        Task::Activate { layer, x, hidden } => Task::Activate { layer, x: x@, hidden: hidden@ },
        Task::Contract { layer, x, hidden } => Task::Contract { layer, x: x@, hidden: hidden@ },
        Task::AddMlp { layer, x, delta } => Task::AddMlp { layer, x: x@, delta: delta@ },
        Task::NormFinal { x } => Task::NormFinal { x: x@ },
        Task::Unembed { normed } => Task::Unembed { normed: normed@ },
        Task::Done { out } => Task::Done { out: out@ },
    }
}

/// The matrix whose rows are the tokens of the pass.
pub open spec fn stream_of(task: TaskView) -> Grid {
    match task {
        Task::Embed { tokens, .. } => tokens,
        Task::NormAttention { x, .. } => x,
        Task::ProjectQkv { x, .. } => x,
        Task::Attend { x, .. } => x,
        Task::ProjectOut { x, .. } => x,
        Task::AddAttention { x, .. } => x,
        Task::NormMlp { x, .. } => x,
        Task::Expand { x, .. } => x,
        Task::Activate { x, .. } => x,
        Task::Contract { x, .. } => x,
        Task::AddMlp { x, .. } => x,
        Task::NormFinal { x } => x,
        Task::Unembed { normed } => normed,
        Task::Done { out } => out,
    }
}

/// A running pass: its stage, the position of its first token, the caches of an online step and
/// the task that is to be worked off.
#[verifier::ext_equal]
pub struct PassView {
    pub layout: Layout,
    pub base_pos: usize,
    pub caches: Option<Seq<CacheView>>,
    pub task: TaskView,
}

/// Whether `g` is a matrix of `n` rows of `cols` entries.
pub open spec fn shaped(g: Grid, n: nat, cols: nat) -> bool {
    g.wf() && g.rows.len() == n && g.cols == cols
}

/// What comes once the residual stream `x` has gone through every layer below `layer`.
pub open spec fn task_at(layout: Layout, layer: int, x: Grid) -> TaskView {
    if layer < layout.hi {
        Task::NormAttention { layer: layer as usize, x }
    } else if layout.is_last {
        Task::NormFinal { x }
    } else {
        Task::Done { out: x }
    }
}

/// The number of keys that the token `i` of a pass sees: those at its own position or before.
pub open spec fn visible_keys(base_pos: int, keys: nat, i: int) -> usize {
    if base_pos + i + 1 < keys {
        (base_pos + i + 1) as usize
    } else {
        keys as usize
    }
}

/// The numbers of visible keys of all tokens of a pass.
pub open spec fn visible_of(base_pos: int, keys: nat, tokens: nat) -> Seq<usize> {
    Seq::new(tokens, |i: int| visible_keys(base_pos, keys, i))
}

impl PassView {
    /// Whether the pass is over.
    pub open spec fn done(self) -> bool {
        self.task is Done
    }

    /// Whether `r` has the shape of a result of the current task.
    pub open spec fn fits(self, r: ReplyView) -> bool {
        let n = stream_of(self.task).rows.len();
        let cols = stream_of(self.task).cols;
        match (self.task, r) {
            (Task::ProjectQkv { .. }, ReplyView::Rows(g)) => shaped(
                g,
                n,
                3 * self.layout.d_model as nat,
            ),
            (Task::Attend { .. }, ReplyView::Heads(c)) => {
                &&& c.wf()
                &&& c.tokens == n
                &&& c.heads.len() == self.layout.n_head
                &&& c.width == self.layout.head_dim
            },
            (Task::Attend { .. }, ReplyView::Rows(_)) => false,
            (Task::Expand { .. }, ReplyView::Rows(g)) => shaped(g, n, g.cols),
            (Task::Unembed { .. }, ReplyView::Rows(g)) => shaped(g, n, self.layout.vocab as nat),
            (Task::Activate { hidden, .. }, ReplyView::Rows(g)) => shaped(g, n, hidden.cols),
            (Task::Done { .. }, _) => false,
            (_, ReplyView::Rows(g)) => shaped(g, n, cols),
            (_, ReplyView::Heads(_)) => false,
        }
    }

    /// The queries, keys and values of a fused projection, by head.
    pub open spec fn split(self, qkv: Grid) -> (Cube, Cube, Cube) {
        let d = self.layout.d_model as int;
        let (h, w) = (self.layout.n_head as nat, self.layout.head_dim as nat);
        (
            qkv.columns(0, d).by_head(h, w),
            qkv.columns(d, 2 * d).by_head(h, w),
            qkv.columns(2 * d, 3 * d).by_head(h, w),
        )
    }

    /// Whether a fused projection can be cut into heads.
    pub open spec fn splits(self, qkv: Grid) -> bool {
        qkv.rows.len() == 0 || self.layout.d_model == self.layout.n_head * self.layout.head_dim
    }

    /// The cache of `layer`.
    pub open spec fn cache_at(self, layer: int) -> CacheView {
        self.caches->0[layer - self.layout.lo]
    }

    /// Whether this result of the current task lets the pass go on: it has the right shape, and
    /// a projection can be cut into heads and fits the cache.
    pub open spec fn accepts(self, r: ReplyView) -> bool {
        &&& self.fits(r)
        &&& match (self.task, r) {
            (Task::ProjectQkv { layer, .. }, ReplyView::Rows(qkv)) => {
                &&& self.splits(qkv)
                &&& self.caches is Some ==> self.cache_at(layer as int).accepts(
                    self.split(qkv).1,
                    self.split(qkv).2,
                )
            },
            (Task::Attend { .. }, ReplyView::Heads(c)) => c.tokens == 0 || self.layout.d_model
                == self.layout.n_head * self.layout.head_dim,
            _ => true,
        }
    }

    /// The caches once the result `r` of the current task was taken in.
    pub open spec fn caches_after(self, r: ReplyView) -> Option<Seq<CacheView>> {
        match (self.task, r) {
            (Task::ProjectQkv { layer, .. }, ReplyView::Rows(qkv)) => if self.fits(r) && self.splits(
                qkv,
            ) && self.caches is Some {
                Some(
                    self.caches->0.update(
                        layer - self.layout.lo,
                        self.cache_at(layer as int).appended(self.split(qkv).1, self.split(qkv).2),
                    ),
                )
            } else {
                self.caches
            },
            _ => self.caches,
        }
    }

    /// The task after the current one, given its result `r`.
    pub open spec fn task_after(self, r: ReplyView) -> TaskView {
        let rows = r->Rows_0;
        match self.task {
            Task::Embed { .. } => task_at(self.layout, self.layout.lo as int, rows),
            Task::NormAttention { layer, x } => Task::ProjectQkv { layer, x, normed: rows },
            Task::ProjectQkv { layer, x, .. } => {
                let (q, k, v) = self.split(rows);
                let (k_all, v_all) = if self.caches is Some {
                    let cache = self.cache_at(layer as int).appended(k, v);
                    (cache.k->0, cache.v->0)
                } else {
                    (k, v)
                };
                Task::Attend {
                    layer,
                    x,
                    q,
                    k: k_all,
                    v: v_all,
                    visible: visible_of(self.base_pos as int, k_all.tokens, x.rows.len()),
                }
            },
            Task::Attend { layer, x, .. } => Task::ProjectOut {
                layer,
                x,
                merged: Grid {
                    cols: self.layout.d_model as nat,
                    rows: r->Heads_0.by_token(),
                },
            },
            Task::ProjectOut { layer, x, .. } => Task::AddAttention { layer, x, delta: rows },
            Task::AddAttention { layer, .. } => Task::NormMlp { layer, x: rows },
            Task::NormMlp { layer, x } => Task::Expand { layer, x, normed: rows },
            Task::Expand { layer, x, .. } => Task::Activate { layer, x, hidden: rows },
            Task::Activate { layer, x, .. } => Task::Contract { layer, x, hidden: rows },
            Task::Contract { layer, x, .. } => Task::AddMlp { layer, x, delta: rows },
            Task::AddMlp { layer, .. } => task_at(self.layout, layer + 1, rows),
            Task::NormFinal { .. } => Task::Unembed { normed: rows },
            Task::Unembed { .. } => Task::Done { out: rows },
            Task::Done { out } => Task::Done { out },
        }
    }

    /// The pass once the result `r` of the current task was taken in: a result that it does not
    /// accept leaves the task as it is.
    pub open spec fn after(self, r: ReplyView) -> PassView {
        PassView {
            layout: self.layout,
            base_pos: self.base_pos,
            caches: self.caches_after(r),
            task: if self.accepts(r) {
                self.task_after(r)
            } else {
                self.task
            },
        }
    }

    /// The layer of the current task.
    pub open spec fn layer(self) -> int {
        match self.task {
            Task::NormAttention { layer, .. } => layer as int,
            Task::ProjectQkv { layer, .. } => layer as int,
            Task::Attend { layer, .. } => layer as int,
            Task::ProjectOut { layer, .. } => layer as int,
            Task::AddAttention { layer, .. } => layer as int,
            Task::NormMlp { layer, .. } => layer as int,
            Task::Expand { layer, .. } => layer as int,
            Task::Activate { layer, .. } => layer as int,
            Task::Contract { layer, .. } => layer as int,
            Task::AddMlp { layer, .. } => layer as int,
            Task::Embed { .. } => self.layout.lo as int,
            _ => self.layout.hi as int,
        }
    }

    /// Whether all caches are in order.
    pub open spec fn sound(self) -> bool {
        self.caches matches Some(caches) ==> forall|i: int|
            0 <= i < caches.len() ==> (#[trigger] caches[i]).wf()
    }

    /// What every running pass keeps: matrices of the right shape, a layer of the stage, and a
    /// cache with room for the tokens of the pass for every layer.
    pub open spec fn wf(self) -> bool {
        let n = stream_of(self.task).rows.len();
        &&& stream_of(self.task).wf()
        &&& self.layout.lo <= self.layout.hi
        &&& self.layout.lo <= self.layer()
        &&& self.layer() < self.layout.hi || self.task is Embed || self.task is NormFinal
            || self.task is Unembed || self.task is Done
        &&& 3 * self.layout.d_model <= usize::MAX
        &&& self.base_pos + n <= usize::MAX
        &&& self.base_pos + n <= i64::MAX
        &&& n <= usize::MAX
        &&& match self.task {
            Task::Attend { q, k, v, visible, .. } => {
                &&& q.wf() && k.wf() && v.wf()
                &&& visible.len() == n
            },
            Task::Activate { hidden, .. } => hidden.wf() && hidden.rows.len() == n,
            Task::Contract { hidden, .. } => hidden.wf() && hidden.rows.len() == n,
            _ => true,
        }
        &&& self.caches matches Some(caches) ==> {
            &&& caches.len() >= self.layout.hi - self.layout.lo
            &&& forall|i: int|
                0 <= i < caches.len() ==> {
                    &&& (#[trigger] caches[i]).wf()
                    &&& self.layer() < self.layout.lo + i || (self.layer() == self.layout.lo + i && (
                    self.task is Embed || self.task is NormAttention || self.task is ProjectQkv))
                        ==> {
                        &&& positions(caches[i].k) + n <= usize::MAX
                        &&& positions(caches[i].v) + n <= usize::MAX
                    }
                }
        }
    }
}

/// A pass of a stage over one activation.
#[derive(Debug)]
pub struct StagePass {
    layout: Layout,
    base_pos: usize,
    caches: Option<Vec<KVCache>>,
    task: PassTask,
}

/// The contents of optional caches.
pub open spec fn optional_caches_of(caches: Option<Vec<KVCache>>) -> Option<Seq<CacheView>> {
    match caches {
        Some(list) => Some(caches_of(list@)),
        None => None,
    }
}

impl View for StagePass {
    type V = PassView;

    closed spec fn view(&self) -> PassView {
        PassView {
            layout: self.layout,
            base_pos: self.base_pos,
            caches: optional_caches_of(self.caches),
            task: task_of(self.task),
        }
    }
}

/// Whether `m` is a matrix of `n` rows of `cols` entries.
pub fn is_shaped(m: &Matrix, n: usize, cols: usize) -> (ok: bool)
    ensures
        ok == shaped(m@, n as nat, cols as nat),
{
    if m.cols != cols || m.rows.len() != n {
        return false;
    }
    let mut i: usize = 0;
    while i < m.rows.len()
        invariant
            i <= m.rows@.len(),
            forall|j: int| 0 <= j < i ==> (#[trigger] m@.rows[j]).len() == m@.cols,
        decreases m.rows@.len() - i,
    {
        assert(m@.rows[i as int] == m.rows@[i as int]@);
        if m.rows[i].len() != m.cols {
            return false;
        }
        i = i + 1;
    }
    true
}

/// Whether `t` is a tensor of `count` heads with `n` rows of `width` entries each.
pub fn is_cubed(t: &Heads, count: usize, n: usize, width: usize) -> (ok: bool)
    ensures
        ok == (t@.wf() && t@.tokens == n && t@.heads.len() == count && t@.width == width),
{
    if t.heads.len() != count || t.tokens != n || t.width != width {
        return false;
    }
    let mut h: usize = 0;
    while h < t.heads.len()
        invariant
            h <= t.heads@.len(),
            t.tokens == n,
            t.width == width,
            forall|j: int|
                #![trigger t@.heads[j]]
                0 <= j < h ==> {
                    &&& t@.heads[j].len() == t@.tokens
                    &&& forall|i: int|
                        0 <= i < t@.tokens ==> (#[trigger] t@.heads[j][i]).len() == t@.width
                },
        decreases t.heads@.len() - h,
    {
        let ghost rows = t@.heads[h as int];
        assert(rows == rows_of(t.heads@[h as int]@));
        if t.heads[h].len() != n {
            return false;
        }
        let mut i: usize = 0;
        while i < n
            invariant
                i <= n,
                h < t.heads@.len(),
                t.heads@[h as int]@.len() == n,
                t.tokens == n,
                t.width == width,
                rows == t@.heads[h as int],
                rows == rows_of(t.heads@[h as int]@),
                forall|k: int| 0 <= k < i ==> (#[trigger] t@.heads[h as int][k]).len() == width,
            decreases n - i,
        {
            assert(rows[i as int] == t.heads@[h as int]@[i as int]@);
            if t.heads[h][i].len() != width {
                return false;
            }
            i = i + 1;
        }
        h = h + 1;
    }
    true
}

/// The numbers of visible keys of all tokens of a pass.
fn visible(base_pos: usize, keys: usize, tokens: usize) -> (out: Vec<usize>)
    requires
        base_pos + tokens <= usize::MAX,
    ensures
        out@ == visible_of(base_pos as int, keys as nat, tokens as nat),
{
    let mut out: Vec<usize> = Vec::new();
    let mut i: usize = 0;
    while i < tokens
        invariant
            i <= tokens,
            base_pos + tokens <= usize::MAX,
            out@ =~= visible_of(base_pos as int, keys as nat, tokens as nat).take(i as int),
        decreases tokens - i,
    {
        let own: usize = base_pos + i + 1;
        out.push(
            if own < keys {
                own
            } else {
                keys
            },
        );
        i = i + 1;
    }
    assert(out@ =~= visible_of(base_pos as int, keys as nat, tokens as nat));
    out
}

/// What comes once the residual stream `x` has gone through every layer below `layer`.
fn task_from(layout: &Layout, layer: usize, x: Matrix) -> (task: PassTask)
    ensures
        task_of(task) == task_at(*layout, layer as int, x@),
{
    if layer < layout.hi {
        Task::NormAttention { layer, x }
    } else if layout.is_last {
        Task::NormFinal { x }
    } else {
        Task::Done { out: x }
    }
}

impl StagePass {
    /// The task that is to be worked off.
    pub fn task(&self) -> (task: &PassTask)
        ensures
            task_of(*task) == self@.task,
    {
        &self.task
    }

    /// Whether the pass is over.
    pub fn is_done(&self) -> (done: bool)
        ensures
            done == self@.done(),
    {
        match &self.task {
            Task::Done { .. } => true,
            _ => false,
        }
    }

    fn has_shape(&self, reply: &Reply) -> (ok: bool)
        requires
            self@.wf(),
        ensures
            ok == self@.fits(reply@),
    {
        match reply {
            Reply::Heads(t) => match &self.task {
                Task::Attend { x, .. } => is_cubed(
                    t,
                    self.layout.n_head,
                    x.nrows(),
                    self.layout.head_dim,
                ),
                _ => false,
            },
            Reply::Rows(m) => match &self.task {
                Task::Embed { tokens, .. } => is_shaped(m, tokens.nrows(), tokens.cols),
                Task::NormAttention { x, .. } => is_shaped(m, x.nrows(), x.cols),
                Task::ProjectQkv { x, .. } => is_shaped(m, x.nrows(), 3 * self.layout.d_model),
                Task::Attend { .. } => false,
                Task::ProjectOut { x, .. } => is_shaped(m, x.nrows(), x.cols),
                Task::AddAttention { x, .. } => is_shaped(m, x.nrows(), x.cols),
                Task::NormMlp { x, .. } => is_shaped(m, x.nrows(), x.cols),
                Task::Expand { x, .. } => is_shaped(m, x.nrows(), m.cols),
                Task::Activate { x, hidden, .. } => is_shaped(m, x.nrows(), hidden.cols),
                Task::Contract { x, .. } => is_shaped(m, x.nrows(), x.cols),
                Task::AddMlp { x, .. } => is_shaped(m, x.nrows(), x.cols),
                Task::NormFinal { x } => is_shaped(m, x.nrows(), x.cols),
                Task::Unembed { normed } => is_shaped(m, normed.nrows(), self.layout.vocab),
                Task::Done { .. } => false,
            },
        }
    }
}

impl StagePass {
    /// Cuts a fused projection into heads, extends the cache of `layer` and gives the queries with
    /// all keys and values.
    fn take_projection(&mut self, layer: usize, qkv: &Matrix) -> (out: Result<
        (Heads, Heads, Heads),
        ModelError,
    >)
        requires
            old(self)@.wf(),
            old(self)@.task is ProjectQkv,
            old(self)@.layer() == layer,
            old(self)@.fits(ReplyView::Rows(qkv@)),
        ensures
            out is Ok <==> old(self)@.accepts(ReplyView::Rows(qkv@)),
            out matches Err(e) ==> e == ModelError::Shape,
            final(self)@ == (PassView {
                caches: old(self)@.caches_after(ReplyView::Rows(qkv@)),
                ..old(self)@
            }),
            final(self).task == old(self).task,
            final(self)@.caches matches Some(caches) ==> forall|i: int|
                0 <= i < caches.len() ==> (#[trigger] caches[i]).wf(),
            out matches Ok(t) ==> {
                let next = old(self)@.task_after(ReplyView::Rows(qkv@));
                &&& t.0@.wf() && t.1@.wf() && t.2@.wf()
                &&& next->q == t.0@
                &&& next->Attend_k == t.1@
                &&& next->Attend_v == t.2@
            },
    {
        let d: usize = self.layout.d_model;
        let (count, width) = (self.layout.n_head, self.layout.head_dim);
        let ghost p = self@;
        let ghost (sq, sk, sv) = p.split(qkv@);
        let q = match to_heads(&qkv.columns(0, d), count, width) {
            Ok(t) => t,
            Err(e) => {
                return Err(e);
            },
        };
        let k = match to_heads(&qkv.columns(d, 2 * d), count, width) {
            Ok(t) => t,
            Err(e) => {
                return Err(e);
            },
        };
        let v = match to_heads(&qkv.columns(2 * d, 3 * d), count, width) {
            Ok(t) => t,
            Err(e) => {
                return Err(e);
            },
        };
        assert(q@ == sq && k@ == sk && v@ == sv);
        match &mut self.caches {
            None => Ok((q, k, v)),
            Some(list) => {
                let at: usize = layer - self.layout.lo;
                let ghost before = list@;
                let cache: &mut KVCache = &mut list[at];
                let done = cache.append(&k, &v);
                match done {
                    Err(e) => {
                        assert(caches_of(list@) =~= caches_of(before).update(
                            at as int,
                            caches_of(before)[at as int].appended(k@, v@),
                        ));
                        Err(e)
                    },
                    Ok(()) => {
                        let k_all = match cache.k() {
                            Some(t) => t.copied(),
                            None => k,
                        };
                        let v_all = match cache.v() {
                            Some(t) => t.copied(),
                            None => v,
                        };
                        assert(caches_of(list@) =~= caches_of(before).update(
                            at as int,
                            caches_of(before)[at as int].appended(k@, v@),
                        ));
                        Ok((q, k_all, v_all))
                    },
                }
            },
        }
    }
}

impl StagePass {
    /// Takes in the result of the current task and goes on to the next. A result of the wrong
    /// shape, or one that cannot be cut into heads or appended to the cache, is an error, and the
    /// task stays.
    pub fn feed(&mut self, reply: Reply) -> (out: Result<(), ModelError>)
        requires
            old(self)@.wf(),
        ensures
            out is Ok <==> old(self)@.accepts(reply@),
            out matches Err(e) ==> e == ModelError::Shape,
            final(self)@ == old(self)@.after(reply@),
            out is Ok ==> final(self)@.wf(),
            final(self)@.sound(),
    {
        if !self.has_shape(&reply) {
            return Err(ModelError::Shape);
        }
        let ghost p = self@;
        let mut task: PassTask = Task::Done { out: Matrix { cols: 0, rows: Vec::new() } };
        match reply {
            Reply::Heads(t) => {
                let merged = match from_heads(&t, self.layout.d_model) {
                    Ok(m) => m,
                    Err(e) => {
                        return Err(e);
                    },
                };
                std::mem::swap(&mut task, &mut self.task);
                self.task = match task {
                    Task::Attend { layer, x, .. } => Task::ProjectOut { layer, x, merged },
                    other => other,
                };
                Ok(())
            },
            Reply::Rows(m) => {
                let mut projected: Option<(Heads, Heads, Heads)> = None;
                if let Task::ProjectQkv { layer, .. } = &self.task {
                    let layer: usize = *layer;
                    match self.take_projection(layer, &m) {
                        Ok(t) => {
                            projected = Some(t);
                        },
                        Err(e) => {
                            return Err(e);
                        },
                    }
                }
                std::mem::swap(&mut task, &mut self.task);
                self.task = match task {
                    Task::Embed { .. } => task_from(&self.layout, self.layout.lo, m),
                    Task::NormAttention { layer, x } => Task::ProjectQkv { layer, x, normed: m },
                    Task::ProjectQkv { layer, x, normed } => match projected {
                        Some((q, k, v)) => {
                            let seen = visible(self.base_pos, k.tokens, x.nrows());
                            Task::Attend { layer, x, q, k, v, visible: seen }
                        },
                        None => Task::ProjectQkv { layer, x, normed },
                    },
                    Task::ProjectOut { layer, x, .. } => Task::AddAttention { layer, x, delta: m },
                    Task::AddAttention { layer, .. } => Task::NormMlp { layer, x: m },
                    Task::NormMlp { layer, x } => Task::Expand { layer, x, normed: m },
                    Task::Expand { layer, x, .. } => Task::Activate { layer, x, hidden: m },
                    Task::Activate { layer, x, .. } => Task::Contract { layer, x, hidden: m },
                    Task::Contract { layer, x, .. } => Task::AddMlp { layer, x, delta: m },
                    Task::AddMlp { layer, .. } => task_from(&self.layout, layer + 1, m),
                    Task::NormFinal { .. } => Task::Unembed { normed: m },
                    Task::Unembed { .. } => Task::Done { out: m },
                    other => other,
                };
                Ok(())
            },
        }
    }

    /// The size of the caches of the pass in bytes, if it fits a machine word.
    pub fn checked_bytes(&self) -> (n: Option<usize>)
        requires
            self@.sound(),
        ensures
            n is Some <==> self@.caches is None || measurable(self@.caches->0),
            n matches Some(bytes) ==> bytes == match self@.caches {
                Some(caches) => bytes_of(caches),
                None => 0,
            },
    {
        match &self.caches {
            Some(caches) => {
                let ghost views = caches_of(caches@);
                assert(self@.caches == Some(views));
                assert forall|i: int| 0 <= i < caches@.len() implies (
                #[trigger] caches@[i])@.wf() by {
                    assert(views[i] == caches@[i]@);
                    assert(self@.caches->0[i].wf());
                }
                checked_total_bytes(caches)
            },
            None => Some(0),
        }
    }

    /// The caches of a pass that is given up.
    pub fn into_caches(self) -> (caches: Option<Vec<KVCache>>)
        ensures
            optional_caches_of(caches) == self@.caches,
    {
        self.caches
    }

    /// The output and the caches of a pass that is over.
    pub fn finish(self) -> (out: (Matrix, Option<Vec<KVCache>>))
        requires
            self@.done(),
        ensures
            self@.task == (Task::Done::<Grid, Cube, Seq<usize>> { out: out.0@ }),
            optional_caches_of(out.1) == self@.caches,
    {
        match self.task {
            Task::Done { out } => (out, self.caches),
            _ => (Matrix { cols: 0, rows: Vec::new() }, self.caches),
        }
    }
}

/// A contiguous layer range `lo..hi` of the model, hosted by one node.
#[derive(Debug)]
pub struct Stage<'w> {
    cfg: ModelConfig,
    w: &'w Weights,
    lo: usize,
    hi: usize,
    is_first: bool,
    is_last: bool,
}

/// The rows of `m` that `ids` names, in their order.
pub open spec fn selected(m: Grid, ids: Seq<usize>) -> Grid {
    Grid { cols: m.cols, rows: ids.map_values(|id: usize| m.rows[id as int]) }
}

/// The rows `from..from + n` of `m`.
pub open spec fn row_range(m: Grid, from: int, n: nat) -> Grid {
    Grid { cols: m.cols, rows: m.rows.subrange(from, from + n) }
}

fn select(m: &Matrix, ids: &Vec<usize>) -> (out: Matrix)
    requires
        m@.wf(),
        forall|i: int| 0 <= i < ids@.len() ==> #[trigger] ids@[i] < m@.rows.len(),
    ensures
        out@ == selected(m@, ids@),
        out@.wf(),
{
    let mut rows: Vec<Vec<u32>> = Vec::new();
    let mut i: usize = 0;
    while i < ids.len()
        invariant
            i <= ids@.len(),
            m@.wf(),
            forall|j: int| 0 <= j < ids@.len() ==> #[trigger] ids@[j] < m@.rows.len(),
            rows@.len() == i,
            forall|j: int| 0 <= j < i ==> (#[trigger] rows@[j])@ == m@.rows[ids@[j] as int],
        decreases ids@.len() - i,
    {
        assert(m@.rows[ids@[i as int] as int] == m.rows@[ids@[i as int] as int]@);
        rows.push(copy_row(&m.rows[ids[i]]));
        i = i + 1;
    }
    let out = Matrix { cols: m.cols, rows };
    assert(out@.rows =~= selected(m@, ids@).rows);
    assert forall|j: int| 0 <= j < out@.rows.len() implies (#[trigger] out@.rows[j]).len()
        == out@.cols by {
        assert(m@.rows[ids@[j] as int].len() == m@.cols);
    }
    out
}

fn rows_from(m: &Matrix, from: usize, n: usize) -> (out: Matrix)
    requires
        m@.wf(),
        from + n <= m@.rows.len(),
    ensures
        out@ == row_range(m@, from as int, n as nat),
        out@.wf(),
{
    let mut rows: Vec<Vec<u32>> = Vec::new();
    let mut i: usize = 0;
    while i < n
        invariant
            i <= n,
            m@.wf(),
            from + n <= m@.rows.len(),
            rows@.len() == i,
            forall|j: int| 0 <= j < i ==> (#[trigger] rows@[j])@ == m@.rows[from + j],
        decreases n - i,
    {
        assert(m@.rows.len() == m.rows.len());
        assert(m@.rows[from + i] == m.rows@[from + i]@);
        rows.push(copy_row(&m.rows[from + i]));
        i = i + 1;
    }
    let out = Matrix { cols: m.cols, rows };
    assert(out@.rows =~= row_range(m@, from as int, n as nat).rows);
    assert forall|j: int| 0 <= j < out@.rows.len() implies (#[trigger] out@.rows[j]).len()
        == out@.cols by {
        assert(m@.rows[from + j].len() == m@.cols);
    }
    out
}

impl<'w> Stage<'w> {
    /// The configuration of the model.
    pub closed spec fn config(&self) -> ModelConfig {
        self.cfg
    }

    /// The weights of the model.
    pub closed spec fn weights(&self) -> Weights {
        *self.w
    }

    /// The first layer of the stage.
    pub closed spec fn first_layer(&self) -> usize {
        self.lo
    }

    /// The layer behind the last one of the stage.
    pub closed spec fn end_layer(&self) -> usize {
        self.hi
    }

    /// Whether the stage owns the embeddings.
    pub closed spec fn owns_embeddings(&self) -> bool {
        self.is_first
    }

    /// Whether the stage owns the final norm and the output head.
    pub closed spec fn owns_head(&self) -> bool {
        self.is_last
    }

    /// What a pass needs to know of the stage.
    pub open spec fn layout(&self) -> Layout {
        let cfg = self.config();
        Layout {
            lo: self.first_layer(),
            hi: self.end_layer(),
            is_last: self.owns_head(),
            n_head: cfg.n_head,
            head_dim: (cfg.d_model / cfg.n_head),
            d_model: cfg.d_model,
            vocab: self.weights().tok_emb@.rows.len() as usize,
        }
    }

    /// A stage that can run: its layers exist, and embeddings that it owns are as wide as the model.
    pub open spec fn runnable(&self) -> bool {
        let cfg = self.config();
        let w = self.weights();
        &&& self.first_layer() <= self.end_layer() <= w.layers@.len()
        &&& cfg.n_head > 0
        &&& 3 * cfg.d_model <= usize::MAX
        &&& self.owns_embeddings() ==> {
            &&& w.tok_emb@.wf() && w.tok_emb@.cols == cfg.d_model
            &&& w.pos_emb@.wf() && w.pos_emb@.cols == cfg.d_model
        }
    }

    /// The number of parameters of the stage.
    pub open spec fn params(&self) -> nat {
        params_of(
            self.weights().layers@,
            self.first_layer() as int,
            self.end_layer() as int,
        ) + if self.owns_embeddings() {
            self.weights().tok_emb@.size() + self.weights().pos_emb@.size()
        } else {
            0
        } + if self.owns_head() {
            self.weights().final_g@.len()
        } else {
            0
        }
    }

    /// Whether the operations of a forward pass fit a machine word.
    pub open spec fn countable(&self, n_tokens: nat) -> bool {
        &&& self.first_layer() <= self.end_layer() <= self.weights().layers@.len()
        &&& 2 * self.params() <= usize::MAX
        &&& 2 * self.params() * n_tokens <= usize::MAX
    }

    /// Whether the stage takes inputs of this kind: ids for the first, a hidden state for others.
    pub open spec fn takes(&self, input: ActivationView) -> bool {
        self.owns_embeddings() == (input is Ids)
    }

    /// Whether the tokens of an input of the right kind are within the embeddings, or as wide as
    /// the model.
    pub open spec fn in_range(&self, input: ActivationView, base_pos: usize) -> bool {
        match input {
            ActivationView::Ids(ids) => {
                &&& forall|i: int|
                    0 <= i < ids.len() ==> #[trigger] ids[i] < self.weights().tok_emb@.rows.len()
                &&& base_pos + ids.len() <= self.weights().pos_emb@.rows.len()
            },
            ActivationView::Hidden(h) => h.wf() && h.cols == self.config().d_model,
        }
    }

    /// Whether the stage can run on this input from `base_pos` on: it is complete, an input of the
    /// right kind is in range, and there is a cache with room for the tokens for every layer.
    pub open spec fn admits(
        &self,
        input: ActivationView,
        caches: Option<Seq<CacheView>>,
        base_pos: usize,
    ) -> bool {
        &&& self.runnable()
        &&& self.takes(input) ==> self.in_range(input, base_pos)
        &&& base_pos + input.tokens() <= usize::MAX
        &&& base_pos + input.tokens() <= i64::MAX
        &&& caches matches Some(list) ==> {
            &&& list.len() >= self.end_layer() - self.first_layer()
            &&& forall|i: int|
                0 <= i < list.len() ==> {
                    &&& (#[trigger] list[i]).wf()
                    &&& positions(list[i].k) + input.tokens() <= usize::MAX
                    &&& positions(list[i].v) + input.tokens() <= usize::MAX
                }
        }
    }

    /// The first task of a pass.
    pub open spec fn first_task(&self, input: ActivationView, base_pos: usize) -> TaskView {
        match input {
            ActivationView::Ids(ids) => Task::Embed {
                tokens: selected(self.weights().tok_emb@, ids),
                positions: row_range(self.weights().pos_emb@, base_pos as int, ids.len()),
            },
            ActivationView::Hidden(h) => task_at(self.layout(), self.first_layer() as int, h),
        }
    }

    /// A pass at its start.
    pub open spec fn pass(
        &self,
        input: ActivationView,
        caches: Option<Seq<CacheView>>,
        base_pos: usize,
    ) -> PassView {
        PassView {
            layout: self.layout(),
            base_pos,
            caches,
            task: self.first_task(input, base_pos),
        }
    }

    /// The stage over the layers `lo..hi`.
    pub closed spec fn over(cfg: ModelConfig, w: &'w Weights, lo: usize, hi: usize) -> Stage<'w> {
        Stage { cfg, w, lo, hi, is_first: lo == 0, is_last: hi == cfg.n_layer }
    }

    /// What the stage over a range of layers is made of.
    pub broadcast proof fn lemma_over(cfg: ModelConfig, w: &'w Weights, lo: usize, hi: usize)
        ensures
            #![trigger Stage::over(cfg, w, lo, hi)]
            Stage::over(cfg, w, lo, hi).config() == cfg,
            Stage::over(cfg, w, lo, hi).weights() == *w,
            Stage::over(cfg, w, lo, hi).first_layer() == lo,
            Stage::over(cfg, w, lo, hi).end_layer() == hi,
            Stage::over(cfg, w, lo, hi).owns_embeddings() == (lo == 0),
            Stage::over(cfg, w, lo, hi).owns_head() == (hi == cfg.n_layer),
    {
    }

    /// Builds a stage over the layers `lo..hi`. The one that begins at layer zero owns the
    /// embeddings, the one that ends with the last layer the final norm and the output head.
    pub fn new(cfg: ModelConfig, w: &'w Weights, lo: usize, hi: usize) -> (stage: Self)
        ensures
            stage == Stage::over(cfg, w, lo, hi),
            stage.config() == cfg,
            stage.weights() == *w,
            stage.first_layer() == lo,
            stage.end_layer() == hi,
            stage.owns_embeddings() == (lo == 0),
            stage.owns_head() == (hi == cfg.n_layer),
    {
        let is_first: bool = lo == 0;
        let is_last: bool = hi == cfg.n_layer;
        Stage { cfg, w, lo, hi, is_first, is_last }
    }

    /// Whether this stage owns the embeddings, and takes token ids.
    pub fn is_first(&self) -> (first: bool)
        ensures
            first == self.owns_embeddings(),
    {
        self.is_first
    }

    /// Whether this stage owns the final norm and the output head, and gives logits.
    pub fn is_last(&self) -> (last: bool)
        ensures
            last == self.owns_head(),
    {
        self.is_last
    }

    /// The layer range that this stage hosts.
    pub fn layer_range(&self) -> (range: (usize, usize))
        ensures
            range.0 == self.first_layer(),
            range.1 == self.end_layer(),
    {
        (self.lo, self.hi)
    }

    /// The number of parameters of this stage: its layers, and the embeddings or the final norm
    /// that it owns.
    pub fn n_params(&self) -> (n: usize)
        requires
            self.first_layer() <= self.end_layer() <= self.weights().layers@.len(),
            self.params() <= usize::MAX,
        ensures
            n == self.params(),
    {
        let mut p: usize = 0;
        let mut i: usize = self.lo;
        while i < self.hi
            invariant
                self.lo <= i <= self.hi <= self.w.layers@.len(),
                self.params() <= usize::MAX,
                p == params_of(self.w.layers@, self.lo as int, i as int),
            decreases self.hi - i,
        {
            proof {
                lemma_params_of_ordered(
                    self.w.layers@,
                    self.lo as int,
                    i + 1,
                    self.hi as int,
                );
            }
            p = p + self.w.layers[i].n_params();
            i = i + 1;
        }
        if self.is_first {
            p = p + (self.w.tok_emb.len() + self.w.pos_emb.len());
        }
        if self.is_last {
            p = p + self.w.final_g.len();
        }
        p
    }

    /// The standard estimate of a forward pass: two operations for each parameter and token.
    pub fn flops(&self, n_tokens: usize) -> (n: usize)
        requires
            self.countable(n_tokens as nat),
        ensures
            n == 2 * self.params() * n_tokens,
    {
        2 * self.n_params() * n_tokens
    }

    /// The number of parameters of this stage, if it fits a machine word.
    fn checked_params(&self) -> (n: Option<usize>)
        requires
            self.first_layer() <= self.end_layer() <= self.weights().layers@.len(),
        ensures
            n is Some <==> self.params() <= usize::MAX,
            n matches Some(p) ==> p == self.params(),
    {
        let mut p: usize = 0;
        let mut i: usize = self.lo;
        while i < self.hi
            invariant
                self.lo <= i <= self.hi <= self.w.layers@.len(),
                p == params_of(self.w.layers@, self.lo as int, i as int),
            decreases self.hi - i,
        {
            proof {
                lemma_params_of_ordered(self.w.layers@, self.lo as int, i + 1, self.hi as int);
            }
            let layer: usize = match self.w.layers[i].checked_params() {
                Some(n) => n,
                None => {
                    return None;
                },
            };
            if layer > usize::MAX - p {
                return None;
            }
            p = p + layer;
            i = i + 1;
        }
        if self.is_first {
            match (self.w.tok_emb.checked_len(), self.w.pos_emb.checked_len()) {
                (Some(tok), Some(pos)) => {
                    if tok > usize::MAX - p || pos > usize::MAX - p - tok {
                        return None;
                    }
                    p = p + tok + pos;
                },
                _ => {
                    return None;
                },
            }
        }
        if self.is_last {
            if self.w.final_g.len() > usize::MAX - p {
                return None;
            }
            p = p + self.w.final_g.len();
        }
        Some(p)
    }

    /// The operations of a forward pass, if they fit a machine word.
    pub fn checked_flops(&self, n_tokens: usize) -> (n: Option<usize>)
        ensures
            n is Some <==> self.countable(n_tokens as nat),
            n matches Some(flops) ==> flops == 2 * self.params() * n_tokens,
    {
        if self.lo > self.hi || self.hi > self.w.layers.len() {
            return None;
        }
        match self.checked_params() {
            Some(p) => {
                if p > usize::MAX / 2 {
                    None
                } else {
                    (2 * p).checked_mul(n_tokens)
                }
            },
            None => None,
        }
    }

    /// Whether the layers of this stage exist and embeddings that it owns are as wide as the model.
    pub fn is_runnable(&self) -> (ok: bool)
        ensures
            ok == self.runnable(),
    {
        let d: usize = self.cfg.d_model;
        self.lo <= self.hi && self.hi <= self.w.layers.len() && self.cfg.n_head > 0 && d
            <= usize::MAX / 3 && (!self.is_first || (is_shaped(
            &self.w.tok_emb,
            self.w.tok_emb.rows.len(),
            d,
        ) && is_shaped(&self.w.pos_emb, self.w.pos_emb.rows.len(), d)))
    }

    /// Whether an input of the right kind is within the embeddings, or as wide as the model.
    fn is_in_range(&self, input: &Activation, base_pos: usize) -> (ok: bool)
        ensures
            ok == self.in_range(input@, base_pos),
    {
        match input {
            Activation::Ids(ids) => {
                let mut i: usize = 0;
                while i < ids.len()
                    invariant
                        i <= ids@.len(),
                        input@ == ActivationView::Ids(ids@),
                        forall|j: int|
                            0 <= j < i ==> #[trigger] ids@[j] < self.weights().tok_emb@.rows.len(),
                    decreases ids@.len() - i,
                {
                    assert(self.weights().tok_emb@.rows.len() == self.w.tok_emb.rows@.len());
                    if ids[i] >= self.w.tok_emb.rows.len() {
                        assert(!(ids@[i as int] < self.weights().tok_emb@.rows.len()));
                        return false;
                    }
                    i = i + 1;
                }
                assert(self.weights().pos_emb@.rows.len() == self.w.pos_emb.rows@.len());
                let limit: usize = self.w.pos_emb.rows.len();
                base_pos <= limit && ids.len() <= limit - base_pos
            },
            Activation::Hidden(h) => is_shaped(h, h.rows.len(), self.cfg.d_model),
        }
    }

    /// Whether the stage can run on this input from `base_pos` on, with caches that are in order.
    pub fn can_run(
        &self,
        input: &Activation,
        caches: Option<&Vec<KVCache>>,
        base_pos: usize,
    ) -> (ok: bool)
        requires
            caches matches Some(list) ==> forall|i: int|
                0 <= i < list@.len() ==> (#[trigger] list@[i])@.wf(),
        ensures
            ok == self.admits(
                input@,
                match caches {
                    Some(list) => Some(caches_of(list@)),
                    None => None,
                },
                base_pos,
            ),
    {
        let n: usize = input.n_tokens();
        if !self.is_runnable() || n > usize::MAX - base_pos || n as u64
            > 0x7fff_ffff_ffff_ffff || base_pos as u64 > 0x7fff_ffff_ffff_ffff - n as u64 {
            return false;
        }
        let right_kind: bool = match input {
            Activation::Ids(_) => self.is_first,
            Activation::Hidden(_) => !self.is_first,
        };
        if right_kind && !self.is_in_range(input, base_pos) {
            return false;
        }
        match caches {
            Some(list) => {
                if list.len() < self.hi - self.lo {
                    return false;
                }
                let ghost views = caches_of(list@);
                let mut i: usize = 0;
                while i < list.len()
                    invariant
                        i <= list@.len(),
                        n == input@.tokens(),
                        caches == Some(list),
                        views == caches_of(list@),
                        forall|j: int| 0 <= j < list@.len() ==> (#[trigger] list@[j])@.wf(),
                        forall|j: int|
                            0 <= j < i ==> {
                                &&& (#[trigger] views[j]).wf()
                                &&& positions(views[j].k) + n <= usize::MAX
                                &&& positions(views[j].v) + n <= usize::MAX
                            },
                    decreases list@.len() - i,
                {
                    assert(views[i as int] == list@[i as int]@);
                    let k_positions: usize = match list[i].k() {
                        Some(heads) => heads.tokens,
                        None => 0,
                    };
                    let v_positions: usize = match list[i].v() {
                        Some(heads) => heads.tokens,
                        None => 0,
                    };
                    if k_positions > usize::MAX - n || v_positions > usize::MAX - n {
                        assert(!(positions(views[i as int].k) + n <= usize::MAX) || !(positions(
                            views[i as int].v,
                        ) + n <= usize::MAX));
                        return false;
                    }
                    i = i + 1;
                }
                true
            },
            None => true,
        }
    }

    /// Starts a pass over `input`, whose first token is at `base_pos`. With caches it is an online
    /// step that extends them, one for each layer of the stage; without, a stateless run over the
    /// whole input.
    pub fn forward(
        &self,
        input: Activation,
        caches: Option<Vec<KVCache>>,
        base_pos: usize,
    ) -> (out: Result<StagePass, ModelError>)
        requires
            self.admits(input@, optional_caches_of(caches), base_pos),
        ensures
            out is Ok <==> self.takes(input@),
            out matches Ok(pass) ==> pass@ == self.pass(input@, optional_caches_of(caches), base_pos)
                && pass@.wf(),
            out matches Err(e) ==> e == if input@ is Ids {
                ModelError::ExpectedHidden
            } else {
                ModelError::ExpectedIds
            },
    {
        let layout = Layout {
            lo: self.lo,
            hi: self.hi,
            is_last: self.is_last,
            n_head: self.cfg.n_head,
            head_dim: self.cfg.head_dim(),
            d_model: self.cfg.d_model,
            vocab: self.w.tok_emb.rows.len(),
        };
        let task: PassTask = match input {
            Activation::Ids(ids) => {
                if !self.is_first {
                    return Err(ModelError::ExpectedHidden);
                }
                Task::Embed {
                    tokens: select(&self.w.tok_emb, &ids),
                    positions: rows_from(&self.w.pos_emb, base_pos, ids.len()),
                }
            },
            Activation::Hidden(h) => {
                if self.is_first {
                    return Err(ModelError::ExpectedIds);
                }
                task_from(&layout, self.lo, h)
            },
        };
        Ok(StagePass { layout, base_pos, caches, task })
    }
}

/// Every task hands on one row per token, and all but the output head rows of the same width: what
/// leaves a stage has the shape of what entered it, or is a row of logits for each token.
pub proof fn passes_keep_one_row_per_token(pass: PassView, reply: ReplyView)
    requires
        pass.accepts(reply),
    ensures
        stream_of(pass.after(reply).task).rows.len() == stream_of(pass.task).rows.len(),
        !(pass.task is Unembed) ==> stream_of(pass.after(reply).task).cols == stream_of(
            pass.task,
        ).cols,
{
}

/// A pass once a list of results was taken in.
pub open spec fn replied(pass: PassView, replies: Seq<ReplyView>) -> PassView
    decreases replies.len(),
{
    if replies.len() == 0 {
        pass
    } else {
        replied(pass, replies.drop_last()).after(replies.last())
    }
}

/// Whether a pass accepts a list of results, one after the other.
pub open spec fn accepts_all(pass: PassView, replies: Seq<ReplyView>) -> bool
    decreases replies.len(),
{
    replies.len() > 0 ==> {
        &&& accepts_all(pass, replies.drop_last())
        &&& replied(pass, replies.drop_last()).accepts(replies.last())
    }
}

/// What a stage gives out has one row for each token that entered, whatever the backend computes
/// and however much the caches hold. It is as wide as the model, and the logits of the last stage
/// are as wide as the vocabulary.
pub proof fn outputs_have_one_row_per_token(
    stage: Stage,
    input: ActivationView,
    caches: Option<Seq<CacheView>>,
    base_pos: usize,
    replies: Seq<ReplyView>,
)
    requires
        stage.admits(input, caches, base_pos),
        stage.takes(input),
        accepts_all(stage.pass(input, caches, base_pos), replies),
    ensures
        ({
            let task = replied(stage.pass(input, caches, base_pos), replies).task;
            &&& stream_of(task).wf()
            &&& stream_of(task).rows.len() == input.tokens()
            &&& !stage.owns_head() ==> {
                &&& stream_of(task).cols == stage.config().d_model
                &&& !(task is NormFinal)
                &&& !(task is Unembed)
            }
            &&& stage.owns_head() ==> stream_of(task).cols == if task is Done {
                stage.weights().tok_emb@.rows.len()
            } else {
                stage.config().d_model as nat
            }
        }),
    decreases replies.len(),
{
    let start = stage.pass(input, caches, base_pos);
    assert(stage.weights().tok_emb@.rows.len() == stage.weights().tok_emb.rows.len());
    if replies.len() > 0 {
        outputs_have_one_row_per_token(stage, input, caches, base_pos, replies.drop_last());
        lemma_same_layout(start, replies.drop_last());
        passes_keep_one_row_per_token(replied(start, replies.drop_last()), replies.last());
    } else if input is Ids {
        let tokens = stream_of(start.task);
        assert forall|i: int| 0 <= i < tokens.rows.len() implies (#[trigger] tokens.rows[i]).len()
            == tokens.cols by {
            let id = input->Ids_0[i];
            assert(id < stage.weights().tok_emb@.rows.len());
            assert(stage.weights().tok_emb@.rows[id as int].len() == tokens.cols);
        }
    }
}

proof fn lemma_same_layout(pass: PassView, replies: Seq<ReplyView>)
    ensures
        replied(pass, replies).layout == pass.layout,
    decreases replies.len(),
{
    if replies.len() > 0 {
        lemma_same_layout(pass, replies.drop_last());
    }
}

/// What attention is given. A row of the fused projection holds, side by side, the queries, the keys
/// and the values of a token, each as wide as the model and head by head. The queries are those of
/// the pass alone; keys and values stand behind those that the cache of the layer held, which stay
/// as they were, and the cache then holds exactly what attention is given. No other cache changes.
pub proof fn projections_hold_queries_then_keys_then_values(
    pass: PassView,
    qkv: Grid,
    i: int,
    h: int,
    c: int,
)
    requires
        pass.task is ProjectQkv,
        pass.wf(),
        pass.accepts(ReplyView::Rows(qkv)),
        0 <= i < qkv.rows.len(),
        0 <= h < pass.layout.n_head,
        0 <= c < pass.layout.head_dim,
    ensures
        ({
            let layer = pass.task->ProjectQkv_layer;
            let at = layer - pass.layout.lo;
            let next = pass.after(ReplyView::Rows(qkv));
            let (d, w) = (pass.layout.d_model as int, pass.layout.head_dim as int);
            let row = qkv.rows[i];
            let (old_k, old_v) = match pass.caches {
                Some(caches) => (caches[at].k, caches[at].v),
                None => (None, None),
            };
            let past_k = if old_k is Some {
                old_k->0.tokens
            } else {
                0
            };
            let past_v = if old_v is Some {
                old_v->0.tokens
            } else {
                0
            };
            &&& next.task is Attend
            &&& next.task->Attend_layer == layer
            &&& next.task->Attend_x == pass.task->ProjectQkv_x
            &&& next.task->q.heads[h][i][c] == row[h * w + c]
            &&& next.task->Attend_k.heads[h][past_k + i][c] == row[d + h * w + c]
            &&& next.task->Attend_v.heads[h][past_v + i][c] == row[2 * d + h * w + c]
            &&& next.task->Attend_k.tokens == past_k + qkv.rows.len()
            &&& next.task->Attend_v.tokens == past_v + qkv.rows.len()
            &&& forall|j: int|
                0 <= j < past_k ==> #[trigger] next.task->Attend_k.heads[h][j]
                    == old_k->0.heads[h][j]
            &&& forall|j: int|
                0 <= j < past_v ==> #[trigger] next.task->Attend_v.heads[h][j]
                    == old_v->0.heads[h][j]
            &&& next.caches is Some == pass.caches is Some
            &&& pass.caches is Some ==> {
                &&& next.caches->0.len() == pass.caches->0.len()
                &&& next.caches->0[at].k == Some(next.task->Attend_k)
                &&& next.caches->0[at].v == Some(next.task->Attend_v)
                &&& forall|j: int|
                    0 <= j < pass.caches->0.len() && j != at ==> #[trigger] next.caches->0[j]
                        == pass.caches->0[j]
            }
        }),
{
    let (d, w) = (pass.layout.d_model as int, pass.layout.head_dim as int);
    let n = pass.layout.n_head as int;
    assert(0 <= h * w && h * w + w <= d) by (nonlinear_arith)
        requires
            0 <= h < n,
            0 <= w,
            d == n * w,
    ;
    assert(qkv.rows[i].len() == qkv.cols);
    let next = pass.after(ReplyView::Rows(qkv));
    let layer = pass.task->ProjectQkv_layer;
    let at = layer - pass.layout.lo;
    if pass.caches is Some {
        let cache = pass.caches->0[at];
        assert(cache.wf());
        let (_, k, v) = pass.split(qkv);
        assert(k.heads[h].len() == qkv.rows.len() && v.heads[h].len() == qkv.rows.len());
    }
}

/// How many keys a token may look at: those of the tokens before it, in the cache or in the pass, and
/// its own. `k` has room for all of them where the cache holds exactly the tokens before the pass.
pub proof fn tokens_see_themselves_and_what_came_before(pass: PassView, qkv: Grid, i: int)
    requires
        pass.task is ProjectQkv,
        pass.wf(),
        pass.accepts(ReplyView::Rows(qkv)),
        0 <= i < qkv.rows.len(),
        match pass.caches {
            Some(caches) => match caches[pass.task->ProjectQkv_layer - pass.layout.lo].k {
                Some(k) => k.tokens == pass.base_pos,
                None => pass.base_pos == 0,
            },
            None => pass.base_pos == 0,
        },
    ensures
        ({
            let next = pass.after(ReplyView::Rows(qkv)).task;
            &&& next->visible.len() == qkv.rows.len()
            &&& next->visible[i] == pass.base_pos + i + 1
            &&& next->visible[i] <= next->Attend_k.tokens
        }),
{
}

/// What attention gives out is merged head by head: the entry of a head stands in the token's row
/// behind the entries of all heads before it.
pub proof fn heads_are_merged_in_order(pass: PassView, heads: Cube, i: int, h: int, c: int)
    requires
        pass.task is Attend,
        pass.accepts(ReplyView::Heads(heads)),
        0 <= i < heads.tokens,
        0 <= h < pass.layout.n_head,
        0 <= c < pass.layout.head_dim,
    ensures
        ({
            let next = pass.after(ReplyView::Heads(heads)).task;
            &&& next is ProjectOut
            &&& next->ProjectOut_layer == pass.task->Attend_layer
            &&& next->ProjectOut_x == pass.task->Attend_x
            &&& next->merged.cols == pass.layout.d_model
            &&& next->merged.rows.len() == heads.tokens
            &&& next->merged.rows[i].len() == pass.layout.d_model
            &&& next->merged.rows[i][h * pass.layout.head_dim + c] == heads.heads[h][i][c]
        }),
{
    crate::tensor::joined_heads_stand_in_order(heads, i, h, c);
}

/// What a layer does to the residual stream, step by step: `x` is normed, projected, attended, projected
/// again and added; the sum is normed, expanded, activated, contracted and added; and that goes on to
/// the next layer. Every step takes in what the one before it gave out, whatever that was.
pub proof fn a_layer_takes_ten_steps(pass: PassView, layer: usize, x: Grid, r: Seq<ReplyView>)
    requires
        pass.task == (Task::NormAttention::<Grid, Cube, Seq<usize>> { layer, x }),
        r.len() == 10,
        accepts_all(pass, r),
    ensures
        ({
            let at = |n: int| replied(pass, r.take(n)).task;
            let rows = |n: int| r[n]->Rows_0;
            &&& at(1) == (Task::ProjectQkv::<Grid, Cube, Seq<usize>> { layer, x, normed: rows(0) })
            &&& at(2) is Attend && at(2)->Attend_layer == layer && at(2)->Attend_x == x
            &&& at(3) is ProjectOut && at(3)->ProjectOut_layer == layer && at(3)->ProjectOut_x == x
            &&& at(4) == (Task::AddAttention::<Grid, Cube, Seq<usize>> { layer, x, delta: rows(3) })
            &&& at(5) == (Task::NormMlp::<Grid, Cube, Seq<usize>> { layer, x: rows(4) })
            &&& at(6) == (Task::Expand::<Grid, Cube, Seq<usize>> {
                layer,
                x: rows(4),
                normed: rows(5),
            })
            &&& at(7) == (Task::Activate::<Grid, Cube, Seq<usize>> {
                layer,
                x: rows(4),
                hidden: rows(6),
            })
            &&& at(8) == (Task::Contract::<Grid, Cube, Seq<usize>> {
                layer,
                x: rows(4),
                hidden: rows(7),
            })
            &&& at(9) == (Task::AddMlp::<Grid, Cube, Seq<usize>> {
                layer,
                x: rows(4),
                delta: rows(8),
            })
            &&& layer + 1 < pass.layout.hi ==> at(10) == (Task::NormAttention::<
                Grid,
                Cube,
                Seq<usize>,
            > { layer: (layer + 1) as usize, x: rows(9) })
            &&& layer + 1 >= pass.layout.hi && pass.layout.is_last ==> at(10) == (Task::NormFinal::<
                Grid,
                Cube,
                Seq<usize>,
            > { x: rows(9) })
            &&& layer + 1 >= pass.layout.hi && !pass.layout.is_last ==> at(10) == (Task::Done::<
                Grid,
                Cube,
                Seq<usize>,
            > { out: rows(9) })
        }),
{
    assert(r.take(0) =~= Seq::empty());
    assert(replied(pass, r.take(0)) == pass);
    lemma_replied_one(pass, r, 0);
    lemma_replied_one(pass, r, 1);
    lemma_replied_one(pass, r, 2);
    lemma_replied_one(pass, r, 3);
    lemma_replied_one(pass, r, 4);
    lemma_replied_one(pass, r, 5);
    lemma_replied_one(pass, r, 6);
    lemma_replied_one(pass, r, 7);
    lemma_replied_one(pass, r, 8);
    lemma_replied_one(pass, r, 9);
    lemma_same_layout(pass, r.take(9));
    lemma_same_layout(pass, r.take(1));
    lemma_same_layout(pass, r.take(2));
}

/// One result more was accepted and taken in.
proof fn lemma_replied_one(pass: PassView, r: Seq<ReplyView>, n: int)
    requires
        0 <= n < r.len(),
        accepts_all(pass, r),
    ensures
        replied(pass, r.take(n + 1)) == replied(pass, r.take(n)).after(r[n]),
        replied(pass, r.take(n)).accepts(r[n]),
        accepts_all(pass, r.take(n)),
    decreases r.len(),
{
    if n < r.len() - 1 {
        lemma_replied_one(pass, r.drop_last(), n);
        assert(r.drop_last().take(n + 1) =~= r.take(n + 1));
        assert(r.drop_last().take(n) =~= r.take(n));
    } else {
        assert(r.take(n + 1) =~= r);
        assert(r.take(n) =~= r.drop_last());
    }
    assert(r.take(n + 1).drop_last() =~= r.take(n));
}

/// A stage runs all of its layers once, in order, and no other: after ten results for each of the first
/// `k` layers it is about to norm what the last of them gave for the next layer. Once there is none
/// left the last stage goes on to the final norm, and the others are done.
pub proof fn stages_run_their_layers_in_order(
    stage: Stage,
    h: Grid,
    caches: Option<Seq<CacheView>>,
    base_pos: usize,
    r: Seq<ReplyView>,
    k: nat,
)
    requires
        stage.first_layer() <= stage.end_layer(),
        k <= stage.end_layer() - stage.first_layer(),
        r.len() == 10 * k,
        accepts_all(stage.pass(ActivationView::Hidden(h), caches, base_pos), r),
    ensures
        ({
            let task = replied(stage.pass(ActivationView::Hidden(h), caches, base_pos), r).task;
            let x = if k == 0 {
                h
            } else {
                r.last()->Rows_0
            };
            let layer = stage.first_layer() + k;
            &&& layer < stage.end_layer() ==> task == (Task::NormAttention::<
                Grid,
                Cube,
                Seq<usize>,
            > { layer: layer as usize, x })
            &&& layer == stage.end_layer() && stage.owns_head() ==> task == (Task::NormFinal::<
                Grid,
                Cube,
                Seq<usize>,
            > { x })
            &&& layer == stage.end_layer() && !stage.owns_head() ==> task == (Task::Done::<
                Grid,
                Cube,
                Seq<usize>,
            > { out: x })
        }),
    decreases k,
{
    let start = stage.pass(ActivationView::Hidden(h), caches, base_pos);
    if k > 0 {
        let before = r.take(10 * (k - 1));
        let more = r.skip(10 * (k - 1));
        assert(r =~= before + more);
        lemma_replied_in_parts(start, before, more);
        stages_run_their_layers_in_order(stage, h, caches, base_pos, before, (k - 1) as nat);
        lemma_same_layout(start, before);
        let mid = replied(start, before);
        a_layer_takes_ten_steps(mid, mid.task->NormAttention_layer, mid.task->NormAttention_x, more);
        assert(more.take(10) =~= more);
        assert(more[9] == r.last());
    }
}

/// Results that are taken in part by part.
proof fn lemma_replied_in_parts(pass: PassView, a: Seq<ReplyView>, b: Seq<ReplyView>)
    requires
        accepts_all(pass, a + b),
    ensures
        accepts_all(pass, a),
        accepts_all(replied(pass, a), b),
        replied(pass, a + b) == replied(replied(pass, a), b),
    decreases b.len(),
{
    if b.len() == 0 {
        assert(a + b =~= a);
    } else {
        assert((a + b).drop_last() =~= a + b.drop_last());
        lemma_replied_in_parts(pass, a, b.drop_last());
    }
}

/// The first stage begins with one embedding for each token: that of its id, and that of its position,
/// counted from the position of the pass. Their sum is what the layers run on. The last stage ends
/// with the final norm and the logits.
pub proof fn stages_begin_with_embeddings_and_end_with_logits(
    stage: Stage,
    ids: Seq<usize>,
    caches: Option<Seq<CacheView>>,
    base_pos: usize,
    r: ReplyView,
    last: PassView,
    normed: ReplyView,
    logits: ReplyView,
    i: int,
)
    requires
        stage.admits(ActivationView::Ids(ids), caches, base_pos),
        stage.owns_embeddings(),
        stage.pass(ActivationView::Ids(ids), caches, base_pos).accepts(r),
        0 <= i < ids.len(),
        last.task is NormFinal,
        last.accepts(normed),
        last.after(normed).accepts(logits),
    ensures
        ({
            let w = stage.weights();
            let start = stage.pass(ActivationView::Ids(ids), caches, base_pos);
            let next = start.after(r).task;
            &&& start.task is Embed
            &&& start.task->tokens.rows.len() == ids.len()
            &&& start.task->positions.rows.len() == ids.len()
            &&& start.task->tokens.rows[i] == w.tok_emb@.rows[ids[i] as int]
            &&& start.task->positions.rows[i] == w.pos_emb@.rows[base_pos + i]
            &&& start.caches == caches
            &&& stage.first_layer() < stage.end_layer() ==> next == (Task::NormAttention::<
                Grid,
                Cube,
                Seq<usize>,
            > { layer: stage.first_layer(), x: r->Rows_0 })
            &&& last.after(normed).task == (Task::Unembed::<Grid, Cube, Seq<usize>> {
                normed: normed->Rows_0,
            })
            &&& last.after(normed).after(logits).task == (Task::Done::<Grid, Cube, Seq<usize>> {
                out: logits->Rows_0,
            })
        }),
{
}

/// Steps of ids, put together, are all of their ids in order, and steps of hidden states all of their rows,
/// however the steps are grouped.
pub proof fn steps_join_in_order(early: Seq<ActivationView>, late: Seq<ActivationView>)
    requires
        early.len() > 0,
        late.len() > 0,
        one_kind(early + late),
    ensures
        concatenated(early + late) is Ids == early[0] is Ids,
        early[0] is Ids ==> concatenated(early + late)->Ids_0 == concatenated(early)->Ids_0
            + concatenated(late)->Ids_0,
        early[0] is Hidden ==> {
            &&& concatenated(early + late)->Hidden_0.rows == concatenated(early)->Hidden_0.rows
                + concatenated(late)->Hidden_0.rows
            &&& concatenated(early + late)->Hidden_0.cols == early[0]->Hidden_0.cols
        },
        concatenated(early).tokens() + concatenated(late).tokens() == concatenated(
            early + late,
        ).tokens(),
        early.len() == 1 ==> concatenated(early) == early[0],
    decreases late.len(),
{
    let all = early + late;
    assert(all.drop_last() =~= early + late.drop_last());
    assert(all.last() == late.last());
    assert(all[0].same_kind(all[all.len() - 1]));
    assert(one_kind(early)) by {
        assert forall|i: int| 0 <= i < early.len() implies early[0].same_kind(#[trigger] early[i]) by {
            assert(all[i] == early[i]);
        }
    }
    assert(one_kind(late)) by {
        assert forall|i: int| 0 <= i < late.len() implies late[0].same_kind(#[trigger] late[i]) by {
            assert(all[0].same_kind(all[early.len() + i]));
            assert(all[0].same_kind(all[early.len() as int]));
        }
    }
    lemma_joined_kind(early);
    lemma_joined_kind(late);
    assert(all[0].same_kind(all[early.len() as int]));
    if late.len() == 1 {
        assert(early + late.drop_last() =~= early);
    } else {
        assert(one_kind(early + late.drop_last())) by {
            let some = early + late.drop_last();
            assert forall|i: int| 0 <= i < some.len() implies some[0].same_kind(
                #[trigger] some[i],
            ) by {
                assert(all[i] == some[i]);
            }
        }
        steps_join_in_order(early, late.drop_last());
        if early[0] is Ids {
            assert(concatenated(all)->Ids_0 =~= concatenated(early)->Ids_0 + concatenated(
                late,
            )->Ids_0);
        } else {
            assert(concatenated(all)->Hidden_0.rows =~= concatenated(early)->Hidden_0.rows
                + concatenated(late)->Hidden_0.rows);
        }
    }
}

proof fn lemma_joined_kind(steps: Seq<ActivationView>)
    requires
        steps.len() > 0,
        one_kind(steps),
    ensures
        steps[0].same_kind(concatenated(steps)),
    decreases steps.len(),
{
    if steps.len() > 1 {
        let before = steps.drop_last();
        assert forall|i: int| 0 <= i < before.len() implies before[0].same_kind(
            #[trigger] before[i],
        ) by {
            assert(before[i] == steps[i]);
        }
        lemma_joined_kind(before);
        assert(steps[0].same_kind(steps[steps.len() - 1]));
    }
}

/// Every layer counts once: stages that a model is cut into have as many parameters together as one stage
/// over all of their layers.
pub proof fn parameters_add_up(cfg: ModelConfig, w: &Weights, lo: usize, mid: usize, hi: usize)
    requires
        lo <= mid <= hi,
        0 < mid < cfg.n_layer,
    ensures
        Stage::over(cfg, w, lo, mid).params() + Stage::over(cfg, w, mid, hi).params()
            == Stage::over(cfg, w, lo, hi).params(),
{
    broadcast use Stage::lemma_over;

    lemma_params_split(w.layers@, lo as int, mid as int, hi as int);
}

/// What a layer counts for: every entry of its four matrices and of its two gains. The stage with the first
/// layer has the embeddings besides, and the one with the last the final gain.
pub proof fn a_layer_counts_every_entry(cfg: ModelConfig, w: &Weights, l: usize)
    requires
        l < w.layers@.len(),
        l < cfg.n_layer,
    ensures
        ({
            let layer = w.layers@[l as int];
            let entries = |m: Matrix| m.rows@.len() * m.cols;
            Stage::over(cfg, w, l, (l + 1) as usize).params() == entries(layer.wqkv) + entries(
                layer.wo,
            ) + layer.g1@.len() + layer.g2@.len() + entries(layer.w1) + entries(layer.w2) + if l == 0 {
                entries(w.tok_emb) + entries(w.pos_emb)
            } else {
                0
            } + if l + 1 == cfg.n_layer {
                w.final_g@.len() as int
            } else {
                0
            }
        }),
{
    broadcast use Stage::lemma_over;

    assert(params_of(w.layers@, l as int, l as int) == 0);
    assert(params_of(w.layers@, l as int, l + 1) == w.layers@[l as int].params());
}

proof fn lemma_params_split(layers: Seq<LayerWeights>, lo: int, mid: int, hi: int)
    requires
        lo <= mid <= hi,
    ensures
        params_of(layers, lo, mid) + params_of(layers, mid, hi) == params_of(layers, lo, hi),
    decreases hi - mid,
{
    if mid < hi {
        lemma_params_split(layers, lo, mid, hi - 1);
    }
}

/// A result of the wrong kind or the wrong length is refused: heads where rows are asked for, rows where heads
/// are, anything once the pass is over, and rows that are not one for each token.
pub proof fn unfit_results_are_refused(pass: PassView, g: Grid, c: Cube)
    ensures
        pass.accepts(ReplyView::Heads(c)) ==> pass.task is Attend,
        pass.accepts(ReplyView::Rows(g)) ==> !(pass.task is Attend) && !(pass.task is Done),
        pass.accepts(ReplyView::Rows(g)) ==> g.rows.len() == stream_of(pass.task).rows.len(),
        pass.accepts(ReplyView::Heads(c)) ==> c.tokens == stream_of(pass.task).rows.len()
            && c.heads.len() == pass.layout.n_head && c.width == pass.layout.head_dim,
        pass.accepts(ReplyView::Rows(g)) && pass.task is ProjectQkv ==> forall|i: int|
            0 <= i < g.rows.len() ==> (#[trigger] g.rows[i]).len() == 3 * pass.layout.d_model,
        pass.accepts(ReplyView::Rows(g)) && pass.task is Unembed ==> forall|i: int|
            0 <= i < g.rows.len() ==> (#[trigger] g.rows[i]).len() == pass.layout.vocab,
{
}

} // verus!
