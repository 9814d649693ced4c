//! The audit invariant: an online run with caches is a memoized stateless run.
//!
//! Re-execution audits compare what a worker gave out step by step, from its caches, with one
//! stateless run over the whole input. Both are passes of the same stage. Here the numeric backend
//! is any set of kernels that work row by row; for every such backend the two runs give the same
//! rows, entry by entry.

use vstd::prelude::*;

use crate::cache::{positions, CacheView};
use crate::config::ModelConfig;
use crate::stage::{
    concatenated, one_kind, row_range, selected, shaped, stream_of, task_at, visible_of,
    ActivationView, Layout, PassView, ReplyView, Stage, Task, TaskView,
};
use crate::tensor::{Cube, Grid};
use crate::weights::Weights;

verus! {

/// Which norm gain.
pub enum Gain {
    Attention(usize),
    Mlp(usize),
    Final,
}

/// Which weight matrix.
pub enum Projection {
    Qkv(usize),
    Out(usize),
    Up(usize),
    Down(usize),
    Head,
}

/// A numeric backend that works row by row.
pub struct Kernels {
    pub add: spec_fn(Seq<u32>, Seq<u32>) -> Seq<u32>,
    pub norm: spec_fn(Gain, Seq<u32>) -> Seq<u32>,
    pub mul: spec_fn(Projection, Seq<u32>) -> Seq<u32>,
    pub activate: spec_fn(Seq<u32>) -> Seq<u32>,
    pub attend: spec_fn(Seq<u32>, Seq<Seq<u32>>, Seq<Seq<u32>>) -> Seq<u32>,
    /// The width of a feed-forward row.
    pub inner: nat,
    /// The width of a row of logits.
    pub vocab: nat,
}

impl Kernels {
    /// Kernels whose results have the widths that the stage's weights give them.
    pub open spec fn sized_for(self, layout: Layout) -> bool {
        let d = layout.d_model as nat;
        &&& self.vocab == layout.vocab
        &&& forall|a: Seq<u32>, b: Seq<u32>| (#[trigger] (self.add)(a, b)).len() == a.len()
        &&& forall|g: Gain, a: Seq<u32>| (#[trigger] (self.norm)(g, a)).len() == a.len()
        &&& forall|a: Seq<u32>| (#[trigger] (self.activate)(a)).len() == a.len()
        &&& forall|l: usize, a: Seq<u32>|
            (#[trigger] (self.mul)(Projection::Qkv(l), a)).len() == 3 * d
        &&& forall|l: usize, a: Seq<u32>| (#[trigger] (self.mul)(Projection::Out(l), a)).len() == d
        &&& forall|l: usize, a: Seq<u32>| (#[trigger] (self.mul)(Projection::Down(l), a)).len() == d
        &&& forall|l: usize, a: Seq<u32>|
            (#[trigger] (self.mul)(Projection::Up(l), a)).len() == self.inner
        &&& forall|a: Seq<u32>| (#[trigger] (self.mul)(Projection::Head, a)).len() == self.vocab
        &&& forall|q: Seq<u32>, k: Seq<Seq<u32>>, v: Seq<Seq<u32>>|
            (#[trigger] (self.attend)(q, k, v)).len() == layout.head_dim
    }

    /// The sums of the rows of two matrices.
    pub open spec fn sums(self, a: Grid, b: Grid) -> Grid {
        Grid {
            cols: a.cols,
            rows: Seq::new(a.rows.len(), |i: int| (self.add)(a.rows[i], b.rows[i])),
        }
    }

    /// The norms of the rows of a matrix.
    pub open spec fn norms(self, gain: Gain, a: Grid) -> Grid {
        Grid { cols: a.cols, rows: a.rows.map_values(|r: Seq<u32>| (self.norm)(gain, r)) }
    }

    /// The products of the rows of a matrix and a weight matrix of `cols` columns.
    pub open spec fn products(self, weight: Projection, a: Grid, cols: nat) -> Grid {
        Grid { cols, rows: a.rows.map_values(|r: Seq<u32>| (self.mul)(weight, r)) }
    }

    /// The attention of every head and token over the keys and values that the token sees.
    pub open spec fn attention(self, q: Cube, k: Cube, v: Cube, visible: Seq<usize>) -> Cube {
        Cube {
            tokens: q.tokens,
            width: q.width,
            heads: Seq::new(
                q.heads.len(),
                |h: int|
                    Seq::new(
                        q.tokens,
                        |i: int|
                            (self.attend)(
                                q.heads[h][i],
                                k.heads[h].take(visible[i] as int),
                                v.heads[h].take(visible[i] as int),
                            ),
                    ),
            ),
        }
    }

    /// What this backend computes for a task of a stage of this layout.
    pub open spec fn answer(self, layout: Layout, task: TaskView) -> ReplyView {
        let d = layout.d_model as nat;
        match task {
            Task::Embed { tokens, positions } => ReplyView::Rows(self.sums(tokens, positions)),
            Task::NormAttention { layer, x } => ReplyView::Rows(
                self.norms(Gain::Attention(layer), x),
            ),
            Task::ProjectQkv { layer, normed, .. } => ReplyView::Rows(
                self.products(Projection::Qkv(layer), normed, 3 * d),
            ),
            Task::Attend { q, k, v, visible, .. } => ReplyView::Heads(
                self.attention(q, k, v, visible),
            ),
            Task::ProjectOut { layer, merged, .. } => ReplyView::Rows(
                self.products(Projection::Out(layer), merged, d),
            ),
            Task::AddAttention { x, delta, .. } => ReplyView::Rows(self.sums(x, delta)),
            Task::NormMlp { layer, x } => ReplyView::Rows(self.norms(Gain::Mlp(layer), x)),
            Task::Expand { layer, normed, .. } => ReplyView::Rows(
                self.products(Projection::Up(layer), normed, self.inner),
            ),
            Task::Activate { hidden, .. } => ReplyView::Rows(
                Grid {
                    cols: hidden.cols,
                    rows: hidden.rows.map_values(|r: Seq<u32>| (self.activate)(r)),
                },
            ),
            Task::Contract { layer, hidden, .. } => ReplyView::Rows(
                self.products(Projection::Down(layer), hidden, d),
            ),
            Task::AddMlp { x, delta, .. } => ReplyView::Rows(self.sums(x, delta)),
            Task::NormFinal { x } => ReplyView::Rows(self.norms(Gain::Final, x)),
            Task::Unembed { normed } => ReplyView::Rows(
                self.products(Projection::Head, normed, self.vocab),
            ),
            Task::Done { out } => ReplyView::Rows(out),
        }
    }

    /// The fused projections of the rows that enter `layer`.
    pub open spec fn projected(self, layout: Layout, layer: usize, xs: Seq<Seq<u32>>) -> Grid {
        Grid {
            cols: 3 * layout.d_model as nat,
            rows: xs.map_values(
                |r: Seq<u32>|
                    (self.mul)(Projection::Qkv(layer), (self.norm)(Gain::Attention(layer), r)),
            ),
        }
    }

    /// The queries of the rows that enter `layer`.
    pub open spec fn queries(self, layout: Layout, layer: usize, xs: Seq<Seq<u32>>) -> Cube {
        self.projected(layout, layer, xs).columns(0, layout.d_model as int).by_head(
            layout.n_head as nat,
            layout.head_dim as nat,
        )
    }

    /// The keys of the rows that enter `layer`.
    pub open spec fn keys(self, layout: Layout, layer: usize, xs: Seq<Seq<u32>>) -> Cube {
        let d = layout.d_model as int;
        self.projected(layout, layer, xs).columns(d, 2 * d).by_head(
            layout.n_head as nat,
            layout.head_dim as nat,
        )
    }

    /// The values of the rows that enter `layer`.
    pub open spec fn values(self, layout: Layout, layer: usize, xs: Seq<Seq<u32>>) -> Cube {
        let d = layout.d_model as int;
        self.projected(layout, layer, xs).columns(2 * d, 3 * d).by_head(
            layout.n_head as nat,
            layout.head_dim as nat,
        )
    }

    /// What becomes of a row behind the attention of `layer`.
    pub open spec fn finished(self, layer: usize, x: Seq<u32>, context: Seq<u32>) -> Seq<u32> {
        let mid = (self.add)(x, (self.mul)(Projection::Out(layer), context));
        (self.add)(
            mid,
            (self.mul)(
                Projection::Down(layer),
                (self.activate)(
                    (self.mul)(Projection::Up(layer), (self.norm)(Gain::Mlp(layer), mid)),
                ),
            ),
        )
    }

    /// The rows that `layer` makes of `xs`, whose first is at `base`, given all keys and values.
    pub open spec fn layer_rows(
        self,
        layout: Layout,
        layer: usize,
        xs: Seq<Seq<u32>>,
        k: Cube,
        v: Cube,
        base: int,
    ) -> Seq<Seq<u32>> {
        let context = self.attention(
            self.queries(layout, layer, xs),
            k,
            v,
            visible_of(base, k.tokens, xs.len()),
        ).by_token();
        Seq::new(xs.len(), |i: int| self.finished(layer, xs[i], context[i]))
    }

    /// The rows that `layer` makes of a whole input.
    pub open spec fn whole_layer(self, layout: Layout, layer: usize, xs: Seq<Seq<u32>>) -> Seq<
        Seq<u32>,
    > {
        self.layer_rows(
            layout,
            layer,
            xs,
            self.keys(layout, layer, xs),
            self.values(layout, layer, xs),
            0,
        )
    }

    /// The rows that enter `layer` when the whole input `xs` enters the stage.
    pub open spec fn entering(self, layout: Layout, layer: int, xs: Seq<Seq<u32>>) -> Seq<Seq<u32>>
        decreases layer - layout.lo,
    {
        if layer <= layout.lo {
            xs
        } else {
            self.whole_layer(
                layout,
                (layer - 1) as usize,
                self.entering(layout, layer - 1, xs),
            )
        }
    }

    /// What the stage gives out for rows that have gone through all its layers.
    pub open spec fn leaving(self, layout: Layout, xs: Seq<Seq<u32>>) -> Seq<Seq<u32>> {
        if layout.is_last {
            xs.map_values(
                |r: Seq<u32>| (self.mul)(Projection::Head, (self.norm)(Gain::Final, r)),
            )
        } else {
            xs
        }
    }
}

/// The number of tasks between a pass and its end.
pub open spec fn tasks_left(p: PassView) -> nat {
    let layers = if p.layer() <= p.layout.hi {
        10 * (p.layout.hi - p.layer())
    } else {
        0
    };
    (match p.task {
        Task::Embed { .. } => layers + 3,
        Task::NormAttention { .. } => layers + 2,
        Task::ProjectQkv { .. } => layers + 1,
        Task::Attend { .. } => layers,
        Task::ProjectOut { .. } => layers - 1,
        Task::AddAttention { .. } => layers - 2,
        Task::NormMlp { .. } => layers - 3,
        Task::Expand { .. } => layers - 4,
        Task::Activate { .. } => layers - 5,
        Task::Contract { .. } => layers - 6,
        Task::AddMlp { .. } => layers - 7,
        Task::NormFinal { .. } => 2,
        Task::Unembed { .. } => 1,
        Task::Done { .. } => 0,
    }) as nat
}

/// Whether the layer of the current task is one of the stage's.
pub open spec fn placed(p: PassView) -> bool {
    &&& p.layout.lo <= p.layout.hi
    &&& p.layout.lo <= p.layer()
    &&& p.task is Embed || p.task is NormFinal || p.task is Unembed || p.task is Done || p.layer()
        < p.layout.hi
}

/// Where a pass ends when the backend works its tasks off.
pub open spec fn settled(k: Kernels, p: PassView) -> PassView
    decreases tasks_left(p),
{
    let r = k.answer(p.layout, p.task);
    if p.done() || !p.accepts(r) || !placed(p) {
        p
    } else {
        settled(k, p.after(r))
    }
}

/// What a cache holds once the rows `xs` went through `layer`.
pub open spec fn remembers(
    k: Kernels,
    layout: Layout,
    layer: usize,
    cache: CacheView,
    xs: Seq<Seq<u32>>,
) -> bool {
    ||| xs.len() == 0 && cache == CacheView::empty()
    ||| cache == (CacheView {
        k: Some(k.keys(layout, layer, xs)),
        v: Some(k.values(layout, layer, xs)),
    })
}

/// A layer's cache before the current pass, or nothing for a stateless one.
pub open spec fn cache_before(p: PassView, layer: usize) -> CacheView {
    if p.caches is Some {
        p.cache_at(layer as int)
    } else {
        CacheView::empty()
    }
}

/// Whether a pass is about to take the rows `xs` into `layer`, with caches that fit.
pub open spec fn at_layer(k: Kernels, p: PassView, layer: usize, xs: Seq<Seq<u32>>) -> bool {
    let d = p.layout.d_model as nat;
    &&& k.sized_for(p.layout)
    &&& p.layout.lo <= layer < p.layout.hi
    &&& d == p.layout.n_head * p.layout.head_dim
    &&& p.task == (Task::NormAttention::<Grid, Cube, Seq<usize>> {
        layer,
        x: Grid { cols: d, rows: xs },
    })
    &&& (Grid { cols: d, rows: xs }).wf()
    &&& p.caches matches Some(caches) ==> layer - p.layout.lo < caches.len()
    &&& cache_before(p, layer).accepts(
        k.keys(p.layout, layer, xs),
        k.values(p.layout, layer, xs),
    )
}

/// The pass behind `layer`.
pub open spec fn behind_layer(k: Kernels, p: PassView, layer: usize, xs: Seq<Seq<u32>>) -> PassView {
    let cache = cache_before(p, layer).appended(
        k.keys(p.layout, layer, xs),
        k.values(p.layout, layer, xs),
    );
    let rows = k.layer_rows(p.layout, layer, xs, cache.k->0, cache.v->0, p.base_pos as int);
    PassView {
        layout: p.layout,
        base_pos: p.base_pos,
        caches: if p.caches is Some {
            Some(p.caches->0.update(layer - p.layout.lo, cache))
        } else {
            None
        },
        task: task_at(p.layout, layer + 1, Grid { cols: p.layout.d_model as nat, rows }),
    }
}

proof fn lemma_attention_wf(k: Kernels, layout: Layout, q: Cube, keys: Cube, values: Cube, vis: Seq<usize>)
    requires
        k.sized_for(layout),
        q.width == layout.head_dim,
    ensures
        k.attention(q, keys, values, vis).wf(),
{
}

/// One layer of a pass, worked off by the backend.
pub proof fn lemma_layer(k: Kernels, p: PassView, layer: usize, xs: Seq<Seq<u32>>)
    requires
        at_layer(k, p, layer, xs),
    ensures
        settled(k, p) == settled(k, behind_layer(k, p, layer, xs)),
{
    let d = p.layout.d_model as nat;
    let n = xs.len();
    let x = Grid { cols: d, rows: xs };
    let normed = k.norms(Gain::Attention(layer), x);
    let p1 = PassView { task: Task::ProjectQkv { layer, x, normed }, ..p };
    assert(settled(k, p) == settled(k, p1)) by {
        assert(p.after(k.answer(p.layout, p.task)) == p1);
    }
    let qkv = k.products(Projection::Qkv(layer), normed, 3 * d);
    assert(qkv =~= k.projected(p.layout, layer, xs)) by {
        assert(qkv.rows =~= k.projected(p.layout, layer, xs).rows);
    }
    let (q, ks, vs) = p1.split(qkv);
    assert(q == k.queries(p.layout, layer, xs));
    assert(ks == k.keys(p.layout, layer, xs));
    assert(vs == k.values(p.layout, layer, xs));
    let cache = cache_before(p, layer).appended(ks, vs);
    let vis = visible_of(p.base_pos as int, cache.k->0.tokens, n);
    let caches = if p.caches is Some {
        Some(p.caches->0.update(layer - p.layout.lo, cache))
    } else {
        None
    };
    let p2 = PassView {
        caches,
        task: Task::Attend { layer, x, q, k: cache.k->0, v: cache.v->0, visible: vis },
        ..p
    };
    assert(settled(k, p1) == settled(k, p2)) by {
        assert(qkv.wf());
        assert(p1.cache_at(layer as int) == p.cache_at(layer as int));
        assert(p1.after(k.answer(p.layout, p1.task)) == p2);
    }
    let ctx = k.attention(q, cache.k->0, cache.v->0, vis);
    lemma_attention_wf(k, p.layout, q, cache.k->0, cache.v->0, vis);
    let merged = Grid { cols: d, rows: ctx.by_token() };
    let p3 = PassView { task: Task::ProjectOut { layer, x, merged }, ..p2 };
    assert(settled(k, p2) == settled(k, p3)) by {
        assert(p2.after(k.answer(p.layout, p2.task)) == p3);
    }
    let out = k.products(Projection::Out(layer), merged, d);
    let p4 = PassView { task: Task::AddAttention { layer, x, delta: out }, ..p2 };
    assert(settled(k, p3) == settled(k, p4)) by {
        assert(p3.after(k.answer(p.layout, p3.task)) == p4);
    }
    let mid = k.sums(x, out);
    assert(mid.wf()) by {
        assert forall|i: int| 0 <= i < mid.rows.len() implies (#[trigger] mid.rows[i]).len()
            == mid.cols by {
            assert(x.rows[i].len() == d);
        }
    }
    let p5 = PassView { task: Task::NormMlp { layer, x: mid }, ..p2 };
    assert(settled(k, p4) == settled(k, p5)) by {
        assert(p4.after(k.answer(p.layout, p4.task)) == p5);
    }
    let normed2 = k.norms(Gain::Mlp(layer), mid);
    assert(normed2.wf()) by {
        assert forall|i: int| 0 <= i < normed2.rows.len() implies (#[trigger] normed2.rows[i]).len()
            == normed2.cols by {
            assert(mid.rows[i].len() == d);
        }
    }
    let p6 = PassView { task: Task::Expand { layer, x: mid, normed: normed2 }, ..p2 };
    assert(settled(k, p5) == settled(k, p6)) by {
        assert(p5.after(k.answer(p.layout, p5.task)) == p6);
    }
    let up = k.products(Projection::Up(layer), normed2, k.inner);
    assert(up.wf());
    let p7 = PassView { task: Task::Activate { layer, x: mid, hidden: up }, ..p2 };
    assert(settled(k, p6) == settled(k, p7)) by {
        assert(p6.after(k.answer(p.layout, p6.task)) == p7);
    }
    let act = Grid { cols: up.cols, rows: up.rows.map_values(|r: Seq<u32>| (k.activate)(r)) };
    assert(act.wf()) by {
        assert forall|i: int| 0 <= i < act.rows.len() implies (#[trigger] act.rows[i]).len()
            == act.cols by {
            assert(up.rows[i].len() == up.cols);
        }
    }
    let p8 = PassView { task: Task::Contract { layer, x: mid, hidden: act }, ..p2 };
    assert(settled(k, p7) == settled(k, p8)) by {
        assert(p7.after(k.answer(p.layout, p7.task)) == p8);
    }
    let down = k.products(Projection::Down(layer), act, d);
    let p9 = PassView { task: Task::AddMlp { layer, x: mid, delta: down }, ..p2 };
    assert(settled(k, p8) == settled(k, p9)) by {
        assert(p8.after(k.answer(p.layout, p8.task)) == p9);
    }
    let fin = k.sums(mid, down);
    assert(fin.wf()) by {
        assert forall|i: int| 0 <= i < fin.rows.len() implies (#[trigger] fin.rows[i]).len()
            == fin.cols by {
            assert(mid.rows[i].len() == d);
        }
    }
    let q10 = behind_layer(k, p, layer, xs);
    assert(fin.rows =~= k.layer_rows(
        p.layout,
        layer,
        xs,
        cache.k->0,
        cache.v->0,
        p.base_pos as int,
    ));
    assert(settled(k, p9) == settled(k, q10)) by {
        assert(p9.after(k.answer(p.layout, p9.task)) == q10);
    }
}

proof fn lemma_joined_agree(a: Cube, i: int, b: Cube, j: int, count: nat)
    requires
        forall|h: int| 0 <= h < count ==> #[trigger] a.heads[h][i] == b.heads[h][j],
    ensures
        a.joined(i, count) == b.joined(j, count),
    decreases count,
{
    if count > 0 {
        lemma_joined_agree(a, i, b, j, (count - 1) as nat);
        assert(a.heads[count - 1][i] == b.heads[count - 1][j]);
    }
}

/// The queries, keys and values of two runs of rows, one behind the other.
proof fn lemma_projections_append(
    k: Kernels,
    layout: Layout,
    layer: usize,
    ys: Seq<Seq<u32>>,
    zs: Seq<Seq<u32>>,
)
    ensures
        k.keys(layout, layer, ys).fits(k.keys(layout, layer, zs)),
        k.values(layout, layer, ys).fits(k.values(layout, layer, zs)),
        k.keys(layout, layer, ys).followed_by(k.keys(layout, layer, zs)) == k.keys(
            layout,
            layer,
            ys + zs,
        ),
        k.values(layout, layer, ys).followed_by(k.values(layout, layer, zs)) == k.values(
            layout,
            layer,
            ys + zs,
        ),
{
    let all = k.keys(layout, layer, ys + zs);
    let parts = k.keys(layout, layer, ys).followed_by(k.keys(layout, layer, zs));
    assert forall|h: int| 0 <= h < all.heads.len() implies #[trigger] parts.heads[h]
        == all.heads[h] by {
        assert(parts.heads[h] =~= all.heads[h]);
    }
    assert(parts.heads =~= all.heads);
    let all = k.values(layout, layer, ys + zs);
    let parts = k.values(layout, layer, ys).followed_by(k.values(layout, layer, zs));
    assert forall|h: int| 0 <= h < all.heads.len() implies #[trigger] parts.heads[h]
        == all.heads[h] by {
        assert(parts.heads[h] =~= all.heads[h]);
    }
    assert(parts.heads =~= all.heads);
}

/// A layer that remembers `ys` takes `zs` in as if both came at once.
proof fn lemma_online_layer(
    k: Kernels,
    layout: Layout,
    layer: usize,
    cache: CacheView,
    ys: Seq<Seq<u32>>,
    zs: Seq<Seq<u32>>,
)
    requires
        remembers(k, layout, layer, cache, ys),
        ys.len() + zs.len() <= usize::MAX,
    ensures
        ({
            let (ks, vs) = (k.keys(layout, layer, zs), k.values(layout, layer, zs));
            let after = cache.appended(ks, vs);
            let rows = k.layer_rows(
                layout,
                layer,
                zs,
                after.k->0,
                after.v->0,
                ys.len() as int,
            );
            &&& cache.accepts(ks, vs)
            &&& after.k is Some && after.v is Some
            &&& remembers(k, layout, layer, after, ys + zs)
            &&& rows == k.whole_layer(layout, layer, ys + zs).skip(ys.len() as int)
        }),
{
    lemma_projections_append(k, layout, layer, ys, zs);
    let m = ys.len() as int;
    let all = ys + zs;
    let (ks, vs) = (k.keys(layout, layer, zs), k.values(layout, layer, zs));
    let after = cache.appended(ks, vs);
    if cache == CacheView::empty() && ys.len() == 0 {
        assert(all =~= zs);
    }
    assert(after.k == Some(k.keys(layout, layer, all)));
    assert(after.v == Some(k.values(layout, layer, all)));
    let (ka, va) = (k.keys(layout, layer, all), k.values(layout, layer, all));
    let online = k.attention(
        k.queries(layout, layer, zs),
        ka,
        va,
        visible_of(m, ka.tokens, zs.len()),
    );
    let whole = k.attention(
        k.queries(layout, layer, all),
        ka,
        va,
        visible_of(0, ka.tokens, all.len()),
    );
    let rows = k.layer_rows(layout, layer, zs, ka, va, m);
    let want = k.whole_layer(layout, layer, all).skip(m);
    assert forall|i: int| 0 <= i < zs.len() implies #[trigger] rows[i] == want[i] by {
        assert forall|h: int| 0 <= h < online.heads.len() implies #[trigger] online.heads[h][i]
            == whole.heads[h][m + i] by {
            assert(visible_of(m, ka.tokens, zs.len())[i] == visible_of(0, ka.tokens, all.len())[m
                + i]);
            assert(k.queries(layout, layer, zs).heads[h][i] == k.queries(
                layout,
                layer,
                all,
            ).heads[h][m + i]);
        }
        lemma_joined_agree(online, i, whole, m + i, online.heads.len());
        assert(all[m + i] == zs[i]);
    }
    assert(rows =~= want);
}

/// What a layer makes of the rows `ys` does not depend on the rows behind them.
proof fn lemma_causal_layer(
    k: Kernels,
    layout: Layout,
    layer: usize,
    ys: Seq<Seq<u32>>,
    zs: Seq<Seq<u32>>,
)
    requires
        ys.len() + zs.len() <= usize::MAX,
    ensures
        k.whole_layer(layout, layer, ys + zs).take(ys.len() as int) == k.whole_layer(
            layout,
            layer,
            ys,
        ),
{
    let all = ys + zs;
    lemma_projections_append(k, layout, layer, ys, zs);
    let (kp, vp) = (k.keys(layout, layer, ys), k.values(layout, layer, ys));
    let (ka, va) = (k.keys(layout, layer, all), k.values(layout, layer, all));
    let part = k.attention(
        k.queries(layout, layer, ys),
        kp,
        vp,
        visible_of(0, kp.tokens, ys.len()),
    );
    let whole = k.attention(
        k.queries(layout, layer, all),
        ka,
        va,
        visible_of(0, ka.tokens, all.len()),
    );
    let rows = k.whole_layer(layout, layer, all).take(ys.len() as int);
    let want = k.whole_layer(layout, layer, ys);
    assert forall|i: int| 0 <= i < ys.len() implies #[trigger] rows[i] == want[i] by {
        assert forall|h: int| 0 <= h < part.heads.len() implies #[trigger] part.heads[h][i]
            == whole.heads[h][i] by {
            assert(visible_of(0, kp.tokens, ys.len())[i] == (i + 1) as usize);
            assert(visible_of(0, ka.tokens, all.len())[i] == (i + 1) as usize);
            assert(k.queries(layout, layer, ys).heads[h][i] == k.queries(
                layout,
                layer,
                all,
            ).heads[h][i]);
            assert(kp.heads[h].take(i + 1) =~= ka.heads[h].take(i + 1));
            assert(vp.heads[h].take(i + 1) =~= va.heads[h].take(i + 1));
        }
        lemma_joined_agree(part, i, whole, i, part.heads.len());
        assert(all[i] == ys[i]);
    }
    assert(rows =~= want);
}

/// The rows that enter a layer keep their number, and the first of them do not depend on the
/// rest.
proof fn lemma_causal(k: Kernels, layout: Layout, layer: int, ys: Seq<Seq<u32>>, zs: Seq<Seq<u32>>)
    requires
        ys.len() + zs.len() <= usize::MAX,
    ensures
        k.entering(layout, layer, ys + zs).len() == ys.len() + zs.len(),
        k.entering(layout, layer, ys).len() == ys.len(),
        k.entering(layout, layer, ys + zs).take(ys.len() as int) == k.entering(layout, layer, ys),
    decreases layer - layout.lo,
{
    if layer <= layout.lo {
        assert((ys + zs).take(ys.len() as int) =~= ys);
    } else {
        lemma_causal(k, layout, layer - 1, ys, zs);
        let all = k.entering(layout, layer - 1, ys + zs);
        let head = k.entering(layout, layer - 1, ys);
        let tail = all.skip(ys.len() as int);
        assert(all =~= head + tail);
        lemma_causal_layer(k, layout, (layer - 1) as usize, head, tail);
    }
}

/// Every row that enters a layer is as wide as the model.
pub proof fn lemma_entering_wf(k: Kernels, layout: Layout, layer: int, xs: Seq<Seq<u32>>)
    requires
        k.sized_for(layout),
        (Grid { cols: layout.d_model as nat, rows: xs }).wf(),
    ensures
        (Grid { cols: layout.d_model as nat, rows: k.entering(layout, layer, xs) }).wf(),
        k.entering(layout, layer, xs).len() == xs.len(),
    decreases layer - layout.lo,
{
    if layer > layout.lo {
        lemma_entering_wf(k, layout, layer - 1, xs);
        let before = k.entering(layout, layer - 1, xs);
        let g = Grid { cols: layout.d_model as nat, rows: before };
        let rows = k.entering(layout, layer, xs);
        assert forall|i: int| 0 <= i < rows.len() implies (#[trigger] rows[i]).len()
            == layout.d_model by {
            assert(g.rows[i].len() == layout.d_model);
        }
    }
}

/// What the caches `from..` of a stage hold once the whole input `xs` entered it.
spec fn hold_from(
    k: Kernels,
    layout: Layout,
    caches: Seq<CacheView>,
    from: int,
    to: int,
    xs: Seq<Seq<u32>>,
) -> bool {
    forall|i: int|
        from <= i < to ==> remembers(
            k,
            layout,
            (layout.lo + i) as usize,
            #[trigger] caches[i],
            k.entering(layout, layout.lo + i, xs),
        )
}

/// Whether a pass is about to take into `layer` what `zs` has become, with `ys` remembered there
/// and behind, and both remembered before.
spec fn midway(k: Kernels, p: PassView, layer: int, ys: Seq<Seq<u32>>, zs: Seq<Seq<u32>>) -> bool {
    let layout = p.layout;
    let d = layout.d_model as nat;
    let rows = k.entering(layout, layer, ys + zs).skip(ys.len() as int);
    &&& k.sized_for(layout)
    &&& d == layout.n_head * layout.head_dim
    &&& layout.lo <= layer <= layout.hi
    &&& p.base_pos == ys.len()
    &&& (Grid { cols: d, rows: ys + zs }).wf()
    &&& ys.len() + zs.len() <= usize::MAX
    &&& p.task == task_at(layout, layer, Grid { cols: d, rows })
    &&& match p.caches {
        Some(caches) => {
            &&& caches.len() >= layout.hi - layout.lo
            &&& hold_from(k, layout, caches, 0, layer - layout.lo, ys + zs)
            &&& hold_from(k, layout, caches, layer - layout.lo, layout.hi - layout.lo, ys)
        },
        None => ys.len() == 0,
    }
}

/// Whether a pass has ended with what the whole input `ys + zs` gives for `zs`, and with caches
/// that remember both.
spec fn at_end(k: Kernels, q: PassView, p: PassView, ys: Seq<Seq<u32>>, zs: Seq<Seq<u32>>) -> bool {
    let layout = p.layout;
    let cols = if layout.is_last {
        k.vocab
    } else {
        layout.d_model as nat
    };
    let rows = k.leaving(layout, k.entering(layout, layout.hi as int, ys + zs));
    &&& q.task == (Task::Done::<Grid, Cube, Seq<usize>> {
        out: Grid { cols, rows: rows.skip(ys.len() as int) },
    })
    &&& match p.caches {
        Some(caches) => {
            &&& q.caches matches Some(after) && after.len() == caches.len() && hold_from(
                k,
                layout,
                after,
                0,
                layout.hi - layout.lo,
                ys + zs,
            )
        },
        None => q.caches is None,
    }
}

proof fn lemma_tail(k: Kernels, p: PassView, ys: Seq<Seq<u32>>, zs: Seq<Seq<u32>>)
    requires
        midway(k, p, p.layout.hi as int, ys, zs),
    ensures
        at_end(k, settled(k, p), p, ys, zs),
{
    let layout = p.layout;
    let d = layout.d_model as nat;
    let m = ys.len() as int;
    let whole = k.entering(layout, layout.hi as int, ys + zs);
    lemma_causal(k, layout, layout.hi as int, ys, zs);
    let x = Grid { cols: d, rows: whole.skip(m) };
    lemma_entering_wf(k, layout, layout.hi as int, ys + zs);
    assert(x.wf()) by {
        let g = Grid { cols: d, rows: whole };
        assert forall|i: int| 0 <= i < x.rows.len() implies (#[trigger] x.rows[i]).len()
            == x.cols by {
            assert(g.rows[m + i].len() == d);
        }
    }
    if layout.is_last {
        let normed = k.norms(Gain::Final, x);
        assert(normed.wf()) by {
            assert forall|i: int| 0 <= i < normed.rows.len() implies (
            #[trigger] normed.rows[i]).len() == normed.cols by {
                assert(x.rows[i].len() == d);
            }
        }
        let p1 = PassView { task: Task::Unembed { normed }, ..p };
        assert(p.after(k.answer(layout, p.task)) == p1);
        assert(settled(k, p) == settled(k, p1));
        let logits = k.products(Projection::Head, normed, k.vocab);
        assert(logits.wf());
        let p2 = PassView { task: Task::Done { out: logits }, ..p };
        assert(p1.after(k.answer(layout, p1.task)) == p2);
        assert(settled(k, p1) == settled(k, p2));
        assert(settled(k, p2) == p2);
        assert(logits.rows =~= k.leaving(layout, whole).skip(m));
    } else {
        assert(settled(k, p) == p);
    }
}

/// All layers of a pass, worked off by the backend.
proof fn lemma_run(k: Kernels, p: PassView, layer: int, ys: Seq<Seq<u32>>, zs: Seq<Seq<u32>>)
    requires
        midway(k, p, layer, ys, zs),
    ensures
        at_end(k, settled(k, p), p, ys, zs),
    decreases p.layout.hi - layer,
{
    let layout = p.layout;
    let d = layout.d_model as nat;
    let m = ys.len() as int;
    if layer == layout.hi {
        lemma_tail(k, p, ys, zs);
    } else {
        let at = layer - layout.lo;
        let l = layer as usize;
        let whole = k.entering(layout, layer, ys + zs);
        let head = k.entering(layout, layer, ys);
        let tail = whole.skip(m);
        lemma_causal(k, layout, layer, ys, zs);
        assert(whole =~= head + tail);
        lemma_entering_wf(k, layout, layer, ys + zs);
        assert((Grid { cols: d, rows: tail }).wf()) by {
            let g = Grid { cols: d, rows: whole };
            assert forall|i: int| 0 <= i < tail.len() implies (#[trigger] tail[i]).len() == d by {
                assert(g.rows[m + i].len() == d);
            }
        }
        let cache = cache_before(p, l);
        assert(remembers(k, layout, l, cache, head)) by {
            if p.caches is Some {
                assert(layout.lo + at == layer);
                assert(cache == p.caches->0[at]);
            }
        }
        lemma_online_layer(k, layout, l, cache, head, tail);
        assert(at_layer(k, p, l, tail));
        lemma_layer(k, p, l, tail);
        let next = behind_layer(k, p, l, tail);
        assert(k.entering(layout, layer + 1, ys + zs) == k.whole_layer(layout, l, whole));
        if p.caches is Some {
            let before = p.caches->0;
            let after = next.caches->0;
            assert forall|i: int| 0 <= i < at + 1 implies remembers(
                k,
                layout,
                (layout.lo + i) as usize,
                #[trigger] after[i],
                k.entering(layout, layout.lo + i, ys + zs),
            ) by {
                if i < at {
                    assert(after[i] == before[i]);
                }
            }
            assert forall|i: int| at + 1 <= i < layout.hi - layout.lo implies remembers(
                k,
                layout,
                (layout.lo + i) as usize,
                #[trigger] after[i],
                k.entering(layout, layout.lo + i, ys),
            ) by {
                assert(after[i] == before[i]);
            }
        }
        assert(midway(k, next, layer + 1, ys, zs));
        lemma_run(k, next, layer + 1, ys, zs);
    }
}

/// The rows that a stage makes of its input before the first layer: embedded ids, or the hidden
/// state as it is.
pub open spec fn entry(k: Kernels, stage: Stage, input: ActivationView, base: int) -> Seq<Seq<u32>> {
    match input {
        ActivationView::Ids(ids) => Seq::new(
            ids.len(),
            |i: int|
                (k.add)(
                    stage.weights().tok_emb@.rows[ids[i] as int],
                    stage.weights().pos_emb@.rows[base + i],
                ),
        ),
        ActivationView::Hidden(h) => h.rows,
    }
}

/// Whether the caches of a stage hold what the input `past`, from position zero on, left in them.
pub open spec fn hold(k: Kernels, stage: Stage, caches: Seq<CacheView>, past: ActivationView) -> bool {
    let layout = stage.layout();
    &&& caches.len() >= layout.hi - layout.lo
    &&& forall|i: int|
        0 <= i < layout.hi - layout.lo ==> remembers(
            k,
            layout,
            (layout.lo + i) as usize,
            #[trigger] caches[i],
            k.entering(layout, layout.lo + i, entry(k, stage, past, 0)),
        )
}

/// Whether a row-wise backend can run this stage on `input` from position zero on.
pub open spec fn replayable(k: Kernels, stage: Stage, input: ActivationView) -> bool {
    let layout = stage.layout();
    &&& stage.runnable()
    &&& k.sized_for(layout)
    &&& layout.d_model == layout.n_head * layout.head_dim
    &&& stage.takes(input)
    &&& stage.in_range(input, 0)
    &&& input.tokens() <= usize::MAX
}

/// The rows before the first layer: one per token, as wide as the model.
pub proof fn lemma_entry_wf(k: Kernels, stage: Stage, input: ActivationView)
    requires
        replayable(k, stage, input),
    ensures
        entry(k, stage, input, 0).len() == input.tokens(),
        (Grid { cols: stage.layout().d_model as nat, rows: entry(k, stage, input, 0) }).wf(),
{
    let rows = entry(k, stage, input, 0);
    assert forall|i: int| 0 <= i < rows.len() implies (#[trigger] rows[i]).len()
        == stage.layout().d_model by {
        match input {
            ActivationView::Ids(ids) => {
                assert(ids[i] < stage.weights().tok_emb@.rows.len());
                assert(stage.weights().tok_emb@.rows[ids[i] as int].len()
                    == stage.weights().tok_emb@.cols);
            },
            ActivationView::Hidden(h) => {
                assert(h.rows[i].len() == h.cols);
            },
        }
    }
}

/// The rows that a stateless run of the stage over `input` gives out.
pub open spec fn stateless_rows(k: Kernels, stage: Stage, input: ActivationView) -> Seq<Seq<u32>> {
    stream_of(settled(k, stage.pass(input, None, 0)).task).rows
}

/// A pass that begins with an input of the right kind.
proof fn lemma_begin(
    k: Kernels,
    stage: Stage,
    past: ActivationView,
    next: ActivationView,
    caches: Option<Seq<CacheView>>,
)
    requires
        replayable(k, stage, past.followed_by(next)),
        stage.takes(past),
        past.same_kind(next),
        match caches {
            Some(list) => hold(k, stage, list, past),
            None => past.tokens() == 0,
        },
    ensures
        ({
            let layout = stage.layout();
            let base = past.tokens() as usize;
            let p = stage.pass(next, caches, base);
            let ys = entry(k, stage, past, 0);
            let zs = entry(k, stage, next, base as int);
            let q = PassView {
                task: task_at(
                    layout,
                    layout.lo as int,
                    Grid { cols: layout.d_model as nat, rows: zs },
                ),
                ..p
            };
            &&& entry(k, stage, past.followed_by(next), 0) == ys + zs
            &&& ys.len() == past.tokens()
            &&& settled(k, p) == settled(k, q)
            &&& midway(k, q, layout.lo as int, ys, zs)
        }),
{
    let layout = stage.layout();
    let d = layout.d_model as nat;
    let base = past.tokens() as usize;
    let both = past.followed_by(next);
    let p = stage.pass(next, caches, base);
    let ys = entry(k, stage, past, 0);
    let zs = entry(k, stage, next, base as int);
    assert(entry(k, stage, both, 0) =~= ys + zs);
    let x = Grid { cols: d, rows: zs };
    let q = PassView { task: task_at(layout, layout.lo as int, x), ..p };
    assert((Grid { cols: d, rows: ys + zs }).wf()) by {
        let g = Grid { cols: d, rows: ys + zs };
        assert forall|i: int| 0 <= i < g.rows.len() implies (#[trigger] g.rows[i]).len() == d by {
            match both {
                ActivationView::Ids(ids) => {
                    assert(ids[i] < stage.weights().tok_emb@.rows.len());
                    assert(stage.weights().tok_emb@.rows[ids[i] as int].len() == d);
                },
                ActivationView::Hidden(h) => {
                    assert(h.rows[i].len() == d);
                },
            }
        }
    }
    match next {
        ActivationView::Ids(ids) => {
            let tokens = selected(stage.weights().tok_emb@, ids);
            let positions = row_range(stage.weights().pos_emb@, base as int, ids.len());
            let sum = k.sums(tokens, positions);
            assert(sum.rows =~= zs) by {
                assert forall|i: int| 0 <= i < ids.len() implies #[trigger] sum.rows[i] == zs[i] by {
                    assert(tokens.rows[i] == stage.weights().tok_emb@.rows[ids[i] as int]);
                    assert(positions.rows[i] == stage.weights().pos_emb@.rows[base + i]);
                }
            }
            assert(shaped(sum, ids.len(), d)) by {
                assert forall|i: int| 0 <= i < sum.rows.len() implies (
                #[trigger] sum.rows[i]).len() == sum.cols by {
                    assert((Grid { cols: d, rows: ys + zs }).rows[base + i].len() == d);
                }
            }
            assert(p.after(k.answer(layout, p.task)) == q);
            assert(settled(k, p) == settled(k, q));
        },
        ActivationView::Hidden(h) => {
            assert(p == q);
        },
    }
    assert(k.entering(layout, layout.lo as int, ys + zs).skip(ys.len() as int) =~= zs);
    if caches is Some {
        assert(hold_from(k, layout, caches->0, 0, layout.hi - layout.lo, ys));
    }
}

/// What can be replayed as a whole can be replayed up to a step.
proof fn lemma_replayable_past(
    k: Kernels,
    stage: Stage,
    past: ActivationView,
    next: ActivationView,
)
    requires
        replayable(k, stage, past.followed_by(next)),
        past.same_kind(next),
    ensures
        replayable(k, stage, past),
{
    let both = past.followed_by(next);
    if past is Hidden {
        let g = past->Hidden_0;
        assert forall|i: int| 0 <= i < g.rows.len() implies (#[trigger] g.rows[i]).len()
            == g.cols by {
            assert(both->Hidden_0.rows[i].len() == both->Hidden_0.cols);
        }
    } else {
        assert forall|i: int| 0 <= i < past->Ids_0.len() implies #[trigger] past->Ids_0[i]
            < stage.weights().tok_emb@.rows.len() by {
            assert(both->Ids_0[i] < stage.weights().tok_emb@.rows.len());
        }
    }
}

/// The audit invariant for one step: caches that hold the past of a session let an online step
/// give exactly the rows that one stateless run over past and step gives at the end, and then hold
/// both. The rows that the stateless run gives before them are those that it gave for the past
/// alone.
pub proof fn online_steps_equal_the_stateless_run(
    k: Kernels,
    stage: Stage,
    past: ActivationView,
    next: ActivationView,
    caches: Seq<CacheView>,
)
    requires
        replayable(k, stage, past.followed_by(next)),
        stage.takes(past),
        past.same_kind(next),
        hold(k, stage, caches, past),
    ensures
        ({
            let online = settled(k, stage.pass(next, Some(caches), past.tokens() as usize));
            let both = past.followed_by(next);
            let n = past.tokens() as int;
            &&& online.done()
            &&& settled(k, stage.pass(both, None, 0)).done()
            &&& stateless_rows(k, stage, both).len() == both.tokens()
            &&& stream_of(online.task).rows == stateless_rows(k, stage, both).skip(n)
            &&& stream_of(online.task).cols == stream_of(
                settled(k, stage.pass(both, None, 0)).task,
            ).cols
            &&& stateless_rows(k, stage, past) == stateless_rows(k, stage, both).take(n)
            &&& online.caches is Some
            &&& online.caches->0.len() == caches.len()
            &&& hold(k, stage, online.caches->0, both)
        }),
{
    let layout = stage.layout();
    let both = past.followed_by(next);
    let none = past.blank();
    let ys = entry(k, stage, past, 0);
    let zs = entry(k, stage, next, past.tokens() as int);
    let lo = layout.lo as int;
    let hi = layout.hi as int;

    lemma_begin(k, stage, past, next, Some(caches));
    let online = stage.pass(next, Some(caches), past.tokens() as usize);
    let d = layout.d_model as nat;
    lemma_run(
        k,
        PassView { task: task_at(layout, lo, Grid { cols: d, rows: zs }), ..online },
        lo,
        ys,
        zs,
    );

    assert(none.followed_by(both) =~= both);
    lemma_begin(k, stage, none, both, None);
    let whole = stage.pass(both, None, 0);
    let nothing = entry(k, stage, none, 0);
    assert(nothing =~= Seq::empty());
    assert(nothing + (ys + zs) =~= ys + zs);
    lemma_run(
        k,
        PassView { task: task_at(layout, lo, Grid { cols: d, rows: ys + zs }), ..whole },
        lo,
        nothing,
        ys + zs,
    );

    assert(none.followed_by(past) =~= past);
    lemma_replayable_past(k, stage, past, next);
    lemma_begin(k, stage, none, past, None);
    let first = stage.pass(past, None, 0);
    assert(nothing + ys =~= ys);
    lemma_run(
        k,
        PassView { task: task_at(layout, lo, Grid { cols: d, rows: ys }), ..first },
        lo,
        nothing,
        ys,
    );

    lemma_entering_wf(k, layout, hi, ys + zs);
    lemma_causal(k, layout, hi, ys, zs);
    let out = k.leaving(layout, k.entering(layout, hi, ys + zs));
    assert(out.skip(0) =~= out);
    let early = k.leaving(layout, k.entering(layout, hi, ys));
    assert(early.skip(0) =~= early);
    assert(early =~= out.take(past.tokens() as int));
    let after = settled(k, online).caches->0;
    assert(hold_from(k, layout, after, 0, hi - lo, ys + zs));
}

/// A session on one node: its steps run online one after the other, each from the position that
/// the first cache has reached. Gives all rows that came out, and the caches.
pub open spec fn session(k: Kernels, stage: Stage, steps: Seq<ActivationView>) -> (
    Seq<Seq<u32>>,
    Seq<CacheView>,
)
    decreases steps.len(),
{
    let layout = stage.layout();
    if steps.len() == 0 {
        (Seq::empty(), Seq::new((layout.hi - layout.lo) as nat, |i: int| CacheView::empty()))
    } else {
        let (rows, caches) = session(k, stage, steps.drop_last());
        let online = settled(
            k,
            stage.pass(steps.last(), Some(caches), caches[0].length() as usize),
        );
        (rows + stream_of(online.task).rows, online.caches->0)
    }
}

/// A cache has as many positions as rows went into it.
pub proof fn lemma_remembered_length(
    k: Kernels,
    layout: Layout,
    layer: usize,
    cache: CacheView,
    xs: Seq<Seq<u32>>,
)
    requires
        remembers(k, layout, layer, cache, xs),
    ensures
        cache.length() == xs.len(),
{
}

/// Empty caches hold an input without tokens.
pub proof fn lemma_fresh_caches_hold_nothing(
    k: Kernels,
    stage: Stage,
    none: ActivationView,
    caches: Seq<CacheView>,
)
    requires
        k.sized_for(stage.layout()),
        stage.layout().d_model == stage.layout().n_head * stage.layout().head_dim,
        none.tokens() == 0,
        caches.len() >= stage.end_layer() - stage.first_layer(),
        forall|i: int| 0 <= i < caches.len() ==> #[trigger] caches[i] == CacheView::empty(),
    ensures
        hold(k, stage, caches, none),
{
    let layout = stage.layout();
    let nothing = entry(k, stage, none, 0);
    assert(nothing =~= Seq::empty());
    assert forall|i: int| 0 <= i < layout.hi - layout.lo implies remembers(
        k,
        layout,
        (layout.lo + i) as usize,
        #[trigger] caches[i],
        k.entering(layout, layout.lo + i, nothing),
    ) by {
        lemma_entering_wf(k, layout, layout.lo + i, nothing);
    }
}

/// The audit invariant: whatever the steps of a session were, the rows that its node gave out
/// online, taken together, are the rows of one stateless run over the whole input.
pub proof fn sessions_equal_the_stateless_run(
    k: Kernels,
    stage: Stage,
    steps: Seq<ActivationView>,
)
    requires
        steps.len() > 0,
        forall|i: int| 0 <= i < steps.len() ==> steps[0].same_kind(#[trigger] steps[i]),
        replayable(k, stage, concatenated(steps)),
        stage.first_layer() < stage.end_layer(),
    ensures
        session(k, stage, steps).0 == stateless_rows(k, stage, concatenated(steps)),
        hold(k, stage, session(k, stage, steps).1, concatenated(steps)),
    decreases steps.len(),
{
    reveal_with_fuel(session, 2);
    let layout = stage.layout();
    let next = steps.last();
    let before = steps.drop_last();
    let (rows, caches) = session(k, stage, before);
    let past = if steps.len() == 1 {
        steps[0].blank()
    } else {
        concatenated(before)
    };
    let both = concatenated(steps);
    lemma_kind(steps);
    if steps.len() == 1 {
        assert(past.followed_by(next) =~= both);
        lemma_fresh_caches_hold_nothing(k, stage, past, caches);
        online_steps_equal_the_stateless_run(k, stage, past, next, caches);
    } else {
        assert(before[0] == steps[0]);
        assert forall|i: int| 0 <= i < before.len() implies before[0].same_kind(
            #[trigger] before[i],
        ) by {
            assert(before[i] == steps[i]);
        }
        lemma_kind(before);
        lemma_replayable_past(k, stage, past, next);
        sessions_equal_the_stateless_run(k, stage, before);
        online_steps_equal_the_stateless_run(k, stage, past, next, caches);
    }
    assert(k.entering(layout, layout.lo + 0, entry(k, stage, past, 0)) == entry(
        k,
        stage,
        past,
        0,
    ));
    lemma_remembered_length(k, layout, layout.lo, caches[0], entry(k, stage, past, 0));
    assert(caches[0].length() == past.tokens());
    let all = stateless_rows(k, stage, both);
    assert(all.take(past.tokens() as int) + all.skip(past.tokens() as int) =~= all);
    if steps.len() == 1 {
        assert(all.take(0) =~= Seq::empty());
    }
}

/// Steps of one kind make an input of that kind.
proof fn lemma_kind(steps: Seq<ActivationView>)
    requires
        steps.len() > 0,
        forall|i: int| 0 <= i < steps.len() ==> steps[0].same_kind(#[trigger] steps[i]),
    ensures
        steps[0].same_kind(concatenated(steps)),
    decreases steps.len(),
{
    if steps.len() > 1 {
        let before = steps.drop_last();
        assert forall|i: int| 0 <= i < before.len() implies before[0].same_kind(
            #[trigger] before[i],
        ) by {
            assert(before[i] == steps[i]);
        }
        lemma_kind(before);
        assert(steps[0].same_kind(steps.last()));
    }
}

/// The positions of a head that a tensor holds.
spec fn head_of(t: Option<Cube>, h: int) -> Seq<Seq<u32>> {
    match t {
        Some(cube) => cube.heads[h],
        None => Seq::empty(),
    }
}

/// What a token sees of the keys and values: those that were cached, and those of the rows up to its
/// own.
proof fn lemma_seen(
    k: Kernels,
    layout: Layout,
    layer: usize,
    cache: CacheView,
    xs: Seq<Seq<u32>>,
    i: int,
    h: int,
)
    requires
        0 <= i < xs.len(),
        0 <= h < layout.n_head,
        cache.wf(),
        cache.accepts(k.keys(layout, layer, xs), k.values(layout, layer, xs)),
        positions(cache.v) == positions(cache.k),
    ensures
        ({
            let after = cache.appended(k.keys(layout, layer, xs), k.values(layout, layer, xs));
            let n = positions(cache.k) + i + 1;
            let early = xs.take(i + 1);
            &&& after.k->0.heads[h].take(n) == head_of(cache.k, h) + k.keys(
                layout,
                layer,
                early,
            ).heads[h]
            &&& after.v->0.heads[h].take(n) == head_of(cache.v, h) + k.values(
                layout,
                layer,
                early,
            ).heads[h]
        }),
{
    let (early, late) = (xs.take(i + 1), xs.skip(i + 1));
    assert(early + late =~= xs);
    lemma_projections_append(k, layout, layer, early, late);
    let after = cache.appended(k.keys(layout, layer, xs), k.values(layout, layer, xs));
    let n = positions(cache.k) + i + 1;
    assert(k.keys(layout, layer, early).heads[h].len() == i + 1);
    assert(k.values(layout, layer, early).heads[h].len() == i + 1);
    assert(head_of(cache.k, h).len() == positions(cache.k));
    assert(head_of(cache.v, h).len() == positions(cache.v));
    assert(after.k->0.heads[h] =~= head_of(cache.k, h) + k.keys(layout, layer, xs).heads[h]);
    assert(after.v->0.heads[h] =~= head_of(cache.v, h) + k.values(layout, layer, xs).heads[h]);
    assert(after.k->0.heads[h].take(n) =~= head_of(cache.k, h) + k.keys(
        layout,
        layer,
        early,
    ).heads[h]);
    assert(after.v->0.heads[h].take(n) =~= head_of(cache.v, h) + k.values(
        layout,
        layer,
        early,
    ).heads[h]);
}

/// A layer is causal: a row that leaves it depends on the cached positions and on the rows up to its
/// own, and never on later rows. The pass `p` takes the rows `xs` in, online from the position that
/// the caches have reached or statelessly from position zero; `others` agree with them up to row
/// `i`.
pub proof fn layers_look_at_no_later_row(
    k: Kernels,
    p: PassView,
    layer: usize,
    xs: Seq<Seq<u32>>,
    others: Seq<Seq<u32>>,
    i: int,
)
    requires
        at_layer(k, p, layer, xs),
        others.len() == xs.len(),
        0 <= i < xs.len(),
        others.take(i + 1) == xs.take(i + 1),
        cache_before(p, layer).wf(),
        positions(cache_before(p, layer).k) == p.base_pos,
        positions(cache_before(p, layer).v) == p.base_pos,
        p.base_pos + xs.len() <= usize::MAX,
    ensures
        settled(k, p) == settled(k, behind_layer(k, p, layer, xs)),
        stream_of(behind_layer(k, p, layer, xs).task).rows[i] == stream_of(
            behind_layer(k, p, layer, others).task,
        ).rows[i],
{
    lemma_layer(k, p, layer, xs);
    let layout = p.layout;
    let cache = cache_before(p, layer);
    let a = cache.appended(k.keys(layout, layer, xs), k.values(layout, layer, xs));
    let b = cache.appended(k.keys(layout, layer, others), k.values(layout, layer, others));
    let base = p.base_pos as int;
    let ctx_a = k.attention(
        k.queries(layout, layer, xs),
        a.k->0,
        a.v->0,
        visible_of(base, a.k->0.tokens, xs.len()),
    );
    let ctx_b = k.attention(
        k.queries(layout, layer, others),
        b.k->0,
        b.v->0,
        visible_of(base, b.k->0.tokens, others.len()),
    );
    assert(xs[i] == xs.take(i + 1)[i]);
    assert(others[i] == others.take(i + 1)[i]);
    assert forall|h: int| 0 <= h < ctx_a.heads.len() implies #[trigger] ctx_a.heads[h][i]
        == ctx_b.heads[h][i] by {
        lemma_seen(k, layout, layer, cache, xs, i, h);
        lemma_seen(k, layout, layer, cache, others, i, h);
        assert(visible_of(base, a.k->0.tokens, xs.len())[i] == (base + i + 1) as usize);
        assert(visible_of(base, b.k->0.tokens, others.len())[i] == (base + i + 1) as usize);
        assert(k.queries(layout, layer, xs).heads[h][i] == k.queries(
            layout,
            layer,
            others,
        ).heads[h][i]);
    }
    lemma_joined_agree(ctx_a, i, ctx_b, i, ctx_a.heads.len());
}

/// What a stateless run of a stage gives out.
proof fn lemma_stateless(k: Kernels, stage: Stage, input: ActivationView)
    requires
        replayable(k, stage, input),
    ensures
        ({
            let layout = stage.layout();
            let xs = entry(k, stage, input, 0);
            settled(k, stage.pass(input, None, 0)).task == (Task::Done::<Grid, Cube, Seq<usize>> {
                out: Grid {
                    cols: if layout.is_last {
                        layout.vocab as nat
                    } else {
                        layout.d_model as nat
                    },
                    rows: k.leaving(layout, k.entering(layout, layout.hi as int, xs)),
                },
            })
        }),
{
    let layout = stage.layout();
    let none = input.blank();
    let xs = entry(k, stage, input, 0);
    assert(none.followed_by(input) =~= input);
    lemma_begin(k, stage, none, input, None);
    let nothing = entry(k, stage, none, 0);
    assert(nothing =~= Seq::empty());
    assert(nothing + xs =~= xs);
    let whole = stage.pass(input, None, 0);
    let x = Grid { cols: layout.d_model as nat, rows: xs };
    lemma_run(
        k,
        PassView { task: task_at(layout, layout.lo as int, x), ..whole },
        layout.lo as int,
        nothing,
        xs,
    );
    let out = k.leaving(layout, k.entering(layout, layout.hi as int, xs));
    assert(out.skip(0) =~= out);
}

/// Whether stages can be cut at these layers: from the first to behind the last, with one stage
/// alone that has the first layer and one that has the last. A stage between them may be empty.
pub open spec fn are_cuts(cuts: Seq<usize>, n_layer: usize) -> bool {
    &&& cuts.len() >= 2
    &&& cuts[0] == 0
    &&& cuts.last() == n_layer
    &&& forall|i: int, j: int| 0 <= i <= j < cuts.len() ==> cuts[i] <= cuts[j]
    &&& forall|i: int| 0 < i < cuts.len() - 1 ==> 0 < #[trigger] cuts[i] < n_layer
}

/// What comes out of the first `n` stages that are cut at these layers: each takes statelessly what
/// the one before it gives out.
pub open spec fn relayed(
    k: Kernels,
    cfg: ModelConfig,
    w: &Weights,
    cuts: Seq<usize>,
    ids: Seq<usize>,
    n: nat,
) -> ActivationView
    decreases n,
{
    if n == 0 {
        ActivationView::Ids(ids)
    } else {
        let input = relayed(k, cfg, w, cuts, ids, (n - 1) as nat);
        let stage = Stage::over(cfg, w, cuts[n - 1], cuts[n as int]);
        ActivationView::Hidden(stream_of(settled(k, stage.pass(input, None, 0)).task))
    }
}

/// The rows that enter a layer are the same whichever stages they have gone through.
proof fn lemma_entering_in_parts(
    k: Kernels,
    whole: Layout,
    part: Layout,
    layer: int,
    xs: Seq<Seq<u32>>,
)
    requires
        whole.lo <= part.lo <= layer,
        part.d_model == whole.d_model,
        part.n_head == whole.n_head,
        part.head_dim == whole.head_dim,
    ensures
        k.entering(part, layer, k.entering(whole, part.lo as int, xs)) == k.entering(
            whole,
            layer,
            xs,
        ),
    decreases layer,
{
    if layer > part.lo {
        lemma_entering_in_parts(k, whole, part, layer - 1, xs);
        let rows = k.entering(whole, layer - 1, xs);
        let l = (layer - 1) as usize;
        assert(k.projected(part, l, rows) == k.projected(whole, l, rows));
        assert(k.whole_layer(part, l, rows) == k.whole_layer(whole, l, rows));
    }
}

/// What the first stages of a cut model give out are the rows that enter the next layer of the whole
/// model, or its logits.
proof fn lemma_relayed(
    k: Kernels,
    cfg: ModelConfig,
    w: &Weights,
    cuts: Seq<usize>,
    ids: Seq<usize>,
    n: nat,
)
    requires
        are_cuts(cuts, cfg.n_layer),
        replayable(k, Stage::over(cfg, w, 0, cfg.n_layer), ActivationView::Ids(ids)),
        0 < n < cuts.len(),
    ensures
        ({
            let whole = Stage::over(cfg, w, 0, cfg.n_layer);
            let xs = entry(k, whole, ActivationView::Ids(ids), 0);
            let layout = Layout { is_last: n == cuts.len() - 1, ..whole.layout() };
            relayed(k, cfg, w, cuts, ids, n) == ActivationView::Hidden(
                Grid {
                    cols: if layout.is_last {
                        layout.vocab as nat
                    } else {
                        layout.d_model as nat
                    },
                    rows: k.leaving(layout, k.entering(layout, cuts[n as int] as int, xs)),
                },
            )
        }),
        replayable(
            k,
            Stage::over(cfg, w, cuts[n - 1], cuts[n as int]),
            relayed(k, cfg, w, cuts, ids, (n - 1) as nat),
        ),
    decreases n,
{
    broadcast use Stage::lemma_over;

    let whole = Stage::over(cfg, w, 0, cfg.n_layer);
    let first = ActivationView::Ids(ids);
    let xs = entry(k, whole, first, 0);
    let all = whole.layout();
    let stage = Stage::over(cfg, w, cuts[n - 1], cuts[n as int]);
    let part = stage.layout();
    let input = relayed(k, cfg, w, cuts, ids, (n - 1) as nat);
    let before = k.entering(all, part.lo as int, xs);
    assert(cuts[n - 1] <= cuts[n as int] <= cfg.n_layer);
    assert(part.is_last == (n == cuts.len() - 1));
    assert(entry(k, stage, input, 0) == before && replayable(k, stage, input)) by {
        lemma_entry_wf(k, whole, first);
        if n == 1 {
            assert(entry(k, stage, input, 0) =~= xs);
        } else {
            lemma_relayed(k, cfg, w, cuts, ids, (n - 1) as nat);
            let earlier = Layout { is_last: false, ..all };
            lemma_same_entering(k, all, earlier, cuts[n - 1] as int, xs);
            lemma_entering_wf(k, all, cuts[n - 1] as int, xs);
            assert(0 < cuts[n - 1]);
        }
    }
    lemma_stateless(k, stage, input);
    lemma_entering_in_parts(k, all, part, part.hi as int, xs);
    let layout = Layout { is_last: n == cuts.len() - 1, ..all };
    lemma_same_entering(k, all, layout, part.hi as int, xs);
}

/// Whether a stage owns the output head is nothing to the rows that enter its layers.
proof fn lemma_same_entering(k: Kernels, a: Layout, b: Layout, layer: int, xs: Seq<Seq<u32>>)
    requires
        b == (Layout { is_last: b.is_last, ..a }),
    ensures
        k.entering(a, layer, xs) == k.entering(b, layer, xs),
    decreases layer - a.lo,
{
    if layer > a.lo {
        lemma_same_entering(k, a, b, layer - 1, xs);
        let rows = k.entering(a, layer - 1, xs);
        let l = (layer - 1) as usize;
        assert(k.projected(a, l, rows) == k.projected(b, l, rows));
        assert(k.whole_layer(a, l, rows) == k.whole_layer(b, l, rows));
    }
}

/// How the layers are cut into stages does not change the result: the logits that come out of the
/// last stage are those of one stage that has all layers.
pub proof fn cuts_do_not_change_the_logits(
    k: Kernels,
    cfg: ModelConfig,
    w: &Weights,
    cuts: Seq<usize>,
    ids: Seq<usize>,
)
    requires
        are_cuts(cuts, cfg.n_layer),
        replayable(k, Stage::over(cfg, w, 0, cfg.n_layer), ActivationView::Ids(ids)),
    ensures
        relayed(k, cfg, w, cuts, ids, (cuts.len() - 1) as nat) == ActivationView::Hidden(
            stream_of(
                settled(
                    k,
                    Stage::over(cfg, w, 0, cfg.n_layer).pass(ActivationView::Ids(ids), None, 0),
                ).task,
            ),
        ),
{
    broadcast use Stage::lemma_over;

    lemma_relayed(k, cfg, w, cuts, ids, (cuts.len() - 1) as nat);
    lemma_stateless(
        k,
        Stage::over(cfg, w, 0, cfg.n_layer),
        ActivationView::Ids(ids),
    );
}

/// What a node gives out for the last of these steps, having run the ones before it online.
pub open spec fn online_output(k: Kernels, stage: Stage, steps: Seq<ActivationView>) -> Grid {
    let caches = session(k, stage, steps.drop_last()).1;
    stream_of(
        settled(k, stage.pass(steps.last(), Some(caches), caches[0].length() as usize)).task,
    )
}

/// What a node gives out for each of these steps.
pub open spec fn online_outputs(k: Kernels, stage: Stage, steps: Seq<ActivationView>) -> Seq<
    ActivationView,
> {
    Seq::new(
        steps.len(),
        |i: int| ActivationView::Hidden(online_output(k, stage, steps.take(i + 1))),
    )
}

/// The output of a step is the end of the output of one stateless run over all steps.
proof fn lemma_last_output(k: Kernels, stage: Stage, steps: Seq<ActivationView>)
    requires
        steps.len() > 0,
        one_kind(steps),
        replayable(k, stage, concatenated(steps)),
        stage.first_layer() < stage.end_layer(),
    ensures
        ({
            let before = steps.drop_last();
            let out = online_output(k, stage, steps);
            let whole = stream_of(settled(k, stage.pass(concatenated(steps), None, 0)).task);
            &&& out.cols == whole.cols
            &&& out.rows.len() == steps.last().tokens()
            &&& steps.len() == 1 ==> out.rows == whole.rows
            &&& steps.len() > 1 ==> {
                let past = stream_of(settled(k, stage.pass(concatenated(before), None, 0)).task);
                &&& one_kind(before)
                &&& replayable(k, stage, concatenated(before))
                &&& past.cols == whole.cols
                &&& past.rows + out.rows == whole.rows
            }
        }),
{
    let layout = stage.layout();
    let next = steps.last();
    let before = steps.drop_last();
    let caches = session(k, stage, before).1;
    let past = if steps.len() == 1 {
        steps[0].blank()
    } else {
        concatenated(before)
    };
    let both = concatenated(steps);
    lemma_kind(steps);
    assert(steps[0].same_kind(steps[steps.len() - 1]));
    if steps.len() == 1 {
        assert(past.followed_by(next) =~= both);
        lemma_fresh_caches_hold_nothing(k, stage, past, caches);
    } else {
        assert forall|i: int| 0 <= i < before.len() implies before[0].same_kind(
            #[trigger] before[i],
        ) by {
            assert(before[i] == steps[i]);
        }
        lemma_kind(before);
        lemma_replayable_past(k, stage, past, next);
        sessions_equal_the_stateless_run(k, stage, before);
        lemma_stateless(k, stage, past);
    }
    online_steps_equal_the_stateless_run(k, stage, past, next, caches);
    lemma_stateless(k, stage, both);
    assert(k.entering(layout, layout.lo + 0, entry(k, stage, past, 0)) == entry(
        k,
        stage,
        past,
        0,
    ));
    lemma_remembered_length(k, layout, layout.lo, caches[0], entry(k, stage, past, 0));
    let all = stateless_rows(k, stage, both);
    let n = past.tokens() as int;
    assert(all.take(n) + all.skip(n) =~= all);
    if steps.len() == 1 {
        assert(all.skip(0) =~= all);
    }
}

/// The outputs of a session, step by step, make the output of one stateless run.
proof fn lemma_online_outputs(k: Kernels, stage: Stage, steps: Seq<ActivationView>)
    requires
        steps.len() > 0,
        one_kind(steps),
        replayable(k, stage, concatenated(steps)),
        stage.first_layer() < stage.end_layer(),
    ensures
        ({
            let outs = online_outputs(k, stage, steps);
            &&& one_kind(outs)
            &&& concatenated(outs) == ActivationView::Hidden(
                stream_of(settled(k, stage.pass(concatenated(steps), None, 0)).task),
            )
            &&& forall|i: int|
                0 <= i < steps.len() ==> (#[trigger] outs[i]).tokens() == steps[i].tokens()
        }),
    decreases steps.len(),
{
    let before = steps.drop_last();
    let outs = online_outputs(k, stage, steps);
    let earlier = online_outputs(k, stage, before);
    let last = steps.len() - 1;
    assert(steps.take(last + 1) =~= steps);
    lemma_last_output(k, stage, steps);
    if steps.len() > 1 {
        assert(outs.drop_last() =~= earlier) by {
            assert forall|i: int| 0 <= i < last implies #[trigger] outs[i] == earlier[i] by {
                assert(steps.take(i + 1) =~= before.take(i + 1));
            }
        }
        lemma_online_outputs(k, stage, before);
        lemma_kind(earlier);
        assert forall|i: int| 0 <= i < outs.len() implies outs[0].same_kind(#[trigger] outs[i])
            && outs[i].tokens() == steps[i].tokens() by {
            assert(outs[0] == earlier[0]);
            if i < last {
                assert(outs[i] == earlier[i]);
                assert(before[i] == steps[i]);
            }
        }
    }
}

/// What the first `n` stages that are cut at these layers give out for each step of a session: each
/// stage runs online on what the one before it gives out.
pub open spec fn streamed(
    k: Kernels,
    cfg: ModelConfig,
    w: &Weights,
    cuts: Seq<usize>,
    steps: Seq<ActivationView>,
    n: nat,
) -> Seq<ActivationView>
    decreases n,
{
    if n == 0 {
        steps
    } else {
        online_outputs(
            k,
            Stage::over(cfg, w, cuts[n - 1], cuts[n as int]),
            streamed(k, cfg, w, cuts, steps, (n - 1) as nat),
        )
    }
}

/// What stages give out for earlier steps does not depend on the last one.
pub proof fn lemma_streamed_before(
    k: Kernels,
    cfg: ModelConfig,
    w: &Weights,
    cuts: Seq<usize>,
    steps: Seq<ActivationView>,
    n: nat,
)
    requires
        steps.len() > 0,
    ensures
        streamed(k, cfg, w, cuts, steps, n).len() == steps.len(),
        streamed(k, cfg, w, cuts, steps.drop_last(), n) == streamed(
            k,
            cfg,
            w,
            cuts,
            steps,
            n,
        ).drop_last(),
    decreases n,
{
    if n > 0 {
        lemma_streamed_before(k, cfg, w, cuts, steps, (n - 1) as nat);
        let all = streamed(k, cfg, w, cuts, steps, (n - 1) as nat);
        let before = streamed(k, cfg, w, cuts, steps.drop_last(), (n - 1) as nat);
        let stage = Stage::over(cfg, w, cuts[n - 1], cuts[n as int]);
        let (a, b) = (online_outputs(k, stage, all), online_outputs(k, stage, before));
        assert forall|i: int| 0 <= i < before.len() implies #[trigger] a[i] == b[i] by {
            assert(all.take(i + 1) =~= before.take(i + 1));
        }
        assert(a.drop_last() =~= b);
    }
}

/// Whether every stage that is cut at these layers has a layer.
pub open spec fn all_have_layers(cuts: Seq<usize>) -> bool {
    forall|i: int| 0 <= i < cuts.len() - 1 ==> #[trigger] cuts[i] < cuts[i + 1]
}

/// The audit invariant for a whole pipeline: whatever the steps of a session were and wherever the
/// layers are cut, what its stages give out online, taken together, is what they give out
/// statelessly for the whole input.
pub proof fn pipelines_equal_the_stateless_run(
    k: Kernels,
    cfg: ModelConfig,
    w: &Weights,
    cuts: Seq<usize>,
    steps: Seq<ActivationView>,
    n: nat,
)
    requires
        are_cuts(cuts, cfg.n_layer),
        all_have_layers(cuts),
        n < cuts.len(),
        steps.len() > 0,
        steps[0] is Ids,
        one_kind(steps),
        replayable(k, Stage::over(cfg, w, 0, cfg.n_layer), concatenated(steps)),
    ensures
        concatenated(streamed(k, cfg, w, cuts, steps, n)) == relayed(
            k,
            cfg,
            w,
            cuts,
            concatenated(steps)->Ids_0,
            n,
        ),
        one_kind(streamed(k, cfg, w, cuts, steps, n)),
        streamed(k, cfg, w, cuts, steps, n).len() == steps.len(),
        forall|i: int|
            0 <= i < steps.len() ==> (#[trigger] streamed(k, cfg, w, cuts, steps, n)[i]).tokens()
                == steps[i].tokens(),
    decreases n,
{
    broadcast use Stage::lemma_over;

    lemma_kind(steps);
    if n > 0 {
        let ids = concatenated(steps)->Ids_0;
        pipelines_equal_the_stateless_run(k, cfg, w, cuts, steps, (n - 1) as nat);
        lemma_relayed(k, cfg, w, cuts, ids, n);
        let stage = Stage::over(cfg, w, cuts[n - 1], cuts[n as int]);
        let before = streamed(k, cfg, w, cuts, steps, (n - 1) as nat);
        assert(cuts[n - 1] < cuts[n - 1 + 1]);
        lemma_online_outputs(k, stage, before);
        assert forall|i: int| 0 <= i < steps.len() implies (#[trigger] streamed(
            k,
            cfg,
            w,
            cuts,
            steps,
            n,
        )[i]).tokens() == steps[i].tokens() by {
            assert(before[i].tokens() == steps[i].tokens());
        }
    }
}

} // verus!
