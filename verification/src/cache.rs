//! The key/value cache of one layer of one session.
//!
//! It never crosses the network: it lives on the node that owns the layer and grows with the
//! context, while only the small activation travels. There is no serialized form of it.

use vstd::prelude::*;

use crate::error::ModelError;
use crate::tensor::{Cube, Heads};

verus! {

/// The contents of a cache.
#[verifier::ext_equal]
pub struct CacheView {
    pub k: Option<Cube>,
    pub v: Option<Cube>,
}

/// Cached keys and values, each `[heads, positions, width]`. The positions grow as tokens are
/// appended.
#[derive(Debug)]
pub struct KVCache {
    k: Option<Heads>,
    v: Option<Heads>,
}

/// The contents of an optional tensor.
pub open spec fn cube_of(t: Option<Heads>) -> Option<Cube> {
    match t {
        Some(heads) => Some(heads@),
        None => None,
    }
}

/// Whether `next` can be appended to what is there.
pub open spec fn appendable(prev: Option<Cube>, next: Cube) -> bool {
    match prev {
        Some(cube) => cube.fits(next),
        None => true,
    }
}

/// What is there once `next` was appended: nothing where it does not fit.
pub open spec fn extended(prev: Option<Cube>, next: Cube) -> Option<Cube> {
    match prev {
        Some(cube) => if cube.fits(next) {
            Some(cube.followed_by(next))
        } else {
            None
        },
        None => Some(next),
    }
}

impl View for KVCache {
    type V = CacheView;

    closed spec fn view(&self) -> CacheView {
        CacheView { k: cube_of(self.k), v: cube_of(self.v) }
    }
}

/// The number of positions of an optional tensor.
pub open spec fn positions(t: Option<Cube>) -> nat {
    match t {
        Some(cube) => cube.tokens,
        None => 0,
    }
}

/// Whether an optional tensor is well-formed.
pub open spec fn cube_wf(t: Option<Cube>) -> bool {
    match t {
        Some(cube) => cube.wf(),
        None => true,
    }
}

/// The number of entries of an optional tensor.
pub open spec fn entries(t: Option<Cube>) -> nat {
    match t {
        Some(cube) => cube.size(),
        None => 0,
    }
}

impl CacheView {
    /// Whether the cached tensors are well-formed.
    pub open spec fn wf(self) -> bool {
        cube_wf(self.k) && cube_wf(self.v)
    }

    /// A cache with nothing in it.
    pub open spec fn empty() -> CacheView {
        CacheView { k: None, v: None }
    }

    /// The number of cached positions.
    pub open spec fn length(self) -> nat {
        positions(self.k)
    }

    /// Whether one step's keys and values can be appended.
    pub open spec fn accepts(self, k: Cube, v: Cube) -> bool {
        appendable(self.k, k) && appendable(self.v, v)
    }

    /// The cache after one step's keys and values: a tensor that does not fit leaves nothing in
    /// its place, and keys that do not fit leave the values alone.
    pub open spec fn appended(self, k: Cube, v: Cube) -> CacheView {
        CacheView {
            k: extended(self.k, k),
            v: if appendable(self.k, k) {
                extended(self.v, v)
            } else {
                self.v
            },
        }
    }

    /// The size of the cache in bytes, four for every entry.
    pub open spec fn bytes(self) -> nat {
        entries(self.k) * 4 + entries(self.v) * 4
    }

    /// Whether the size of the cache fits a machine word.
    pub open spec fn measurable(self) -> bool {
        &&& self.bytes() <= usize::MAX
        &&& self.k matches Some(cube) ==> cube.heads.len() * cube.tokens <= usize::MAX
        &&& self.v matches Some(cube) ==> cube.heads.len() * cube.tokens <= usize::MAX
    }
}

fn copy_option(t: &Option<Heads>) -> (out: Option<Heads>)
    ensures
        cube_of(out) == cube_of(*t),
{
    match t {
        Some(heads) => Some(heads.copied()),
        None => None,
    }
}

impl KVCache {
    /// An empty cache.
    pub fn new() -> (cache: Self)
        ensures
            cache@ == CacheView::empty(),
            cache@.wf(),
    {
        KVCache { k: None, v: None }
    }

    /// The number of cached positions.
    pub fn length(&self) -> (n: usize)
        ensures
            n == self@.length(),
    {
        match &self.k {
            Some(heads) => heads.tokens,
            None => 0,
        }
    }

    /// Appends one step's keys and values behind the cached positions.
    pub fn append(&mut self, k: &Heads, v: &Heads) -> (out: Result<(), ModelError>)
        requires
            old(self)@.wf(),
            k@.wf(),
            v@.wf(),
            positions(old(self)@.k) + k@.tokens <= usize::MAX,
            positions(old(self)@.v) + v@.tokens <= usize::MAX,
        ensures
            out is Ok <==> old(self)@.accepts(k@, v@),
            out matches Err(e) ==> e == ModelError::Shape,
            final(self)@ == old(self)@.appended(k@, v@),
            final(self)@.wf(),
    {
        match self.k.take() {
            None => {
                self.k = Some(k.copied());
            },
            Some(prev) => {
                match prev.followed_by(k) {
                    Ok(all) => {
                        self.k = Some(all);
                    },
                    Err(e) => {
                        return Err(e);
                    },
                }
            },
        }
        match self.v.take() {
            None => {
                self.v = Some(v.copied());
            },
            Some(prev) => {
                match prev.followed_by(v) {
                    Ok(all) => {
                        self.v = Some(all);
                    },
                    Err(e) => {
                        return Err(e);
                    },
                }
            },
        }
        Ok(())
    }

    /// The cached keys, once any were appended.
    pub fn k(&self) -> (out: Option<&Heads>)
        ensures
            out is Some <==> self@.k is Some,
            out matches Some(heads) ==> Some(heads@) == self@.k,
    {
        self.k.as_ref()
    }

    /// The cached values, once any were appended.
    pub fn v(&self) -> (out: Option<&Heads>)
        ensures
            out is Some <==> self@.v is Some,
            out matches Some(heads) ==> Some(heads@) == self@.v,
    {
        self.v.as_ref()
    }

    /// A second cache equal to this one.
    pub fn copied(&self) -> (out: KVCache)
        ensures
            out@ == self@,
    {
        KVCache { k: copy_option(&self.k), v: copy_option(&self.v) }
    }

    /// The size of the cache in bytes, four for every entry.
    pub fn bytes(&self) -> (n: usize)
        requires
            self@.wf(),
            self@.measurable(),
        ensures
            n == self@.bytes(),
    {
        let k_entries: usize = match &self.k {
            Some(heads) => heads.len(),
            None => 0,
        };
        let v_entries: usize = match &self.v {
            Some(heads) => heads.len(),
            None => 0,
        };
        k_entries * 4 + v_entries * 4
    }
}

/// The number of entries of an optional tensor in order, if it fits a machine word.
fn checked_entries(t: Option<&Heads>) -> (n: Option<usize>)
    requires
        t matches Some(heads) ==> heads@.wf(),
    ensures
        ({
            let view = match t {
                Some(heads) => Some(heads@),
                None => None,
            };
            &&& n is Some <==> entries(view) <= usize::MAX && (view matches Some(cube)
                ==> cube.heads.len() * cube.tokens <= usize::MAX)
            &&& n matches Some(count) ==> count == entries(view)
        }),
{
    match t {
        Some(heads) => match heads.heads.len().checked_mul(heads.tokens) {
            Some(rows) => rows.checked_mul(heads.width),
            None => None,
        },
        None => Some(0),
    }
}

impl KVCache {
    /// The size of the cache in bytes, if it fits a machine word.
    pub fn checked_bytes(&self) -> (n: Option<usize>)
        requires
            self@.wf(),
        ensures
            n is Some <==> self@.measurable(),
            n matches Some(bytes) ==> bytes == self@.bytes(),
    {
        match (checked_entries(self.k()), checked_entries(self.v())) {
            (Some(k), Some(v)) => {
                if k > usize::MAX / 4 || v > (usize::MAX - 4 * k) / 4 {
                    None
                } else {
                    Some(k * 4 + v * 4)
                }
            },
            _ => None,
        }
    }
}

impl Default for KVCache {
    fn default() -> (cache: Self)
        ensures
            cache@ == CacheView::empty(),
    {
        KVCache::new()
    }
}

/// The contents of a list of caches.
pub open spec fn caches_of(caches: Seq<KVCache>) -> Seq<CacheView> {
    caches.map_values(|cache: KVCache| cache@)
}

/// A second list of caches equal to `caches`.
pub fn copy_caches(caches: &Vec<KVCache>) -> (out: Vec<KVCache>)
    ensures
        caches_of(out@) == caches_of(caches@),
        out@.len() == caches@.len(),
{
    let mut out: Vec<KVCache> = Vec::new();
    let mut i: usize = 0;
    while i < caches.len()
        invariant
            i <= caches@.len(),
            out@.len() == i,
            forall|j: int| 0 <= j < i ==> (#[trigger] out@[j])@ == caches@[j]@,
        decreases caches@.len() - i,
    {
        out.push(caches[i].copied());
        i = i + 1;
    }
    assert(caches_of(out@) =~= caches_of(caches@));
    out
}

/// `n` empty caches, one for each layer of a stage.
pub fn empty_caches(n: usize) -> (out: Vec<KVCache>)
    ensures
        caches_of(out@) == Seq::new(n as nat, |i: int| CacheView::empty()),
{
    let mut out: Vec<KVCache> = Vec::new();
    let mut i: usize = 0;
    while i < n
        invariant
            i <= n,
            out@.len() == i,
            forall|j: int| 0 <= j < i ==> (#[trigger] out@[j])@ == CacheView::empty(),
        decreases n - i,
    {
        out.push(KVCache::new());
        i = i + 1;
    }
    assert(caches_of(out@) =~= Seq::new(n as nat, |i: int| CacheView::empty()));
    out
}

/// The size of all caches in bytes, four for every entry.
pub open spec fn bytes_of(caches: Seq<CacheView>) -> nat
    decreases caches.len(),
{
    if caches.len() == 0 {
        0
    } else {
        bytes_of(caches.drop_last()) + caches.last().bytes()
    }
}

proof fn lemma_bytes_ordered(caches: Seq<CacheView>, n: int)
    requires
        0 <= n <= caches.len(),
    ensures
        bytes_of(caches.take(n)) <= bytes_of(caches),
    decreases caches.len(),
{
    if n == caches.len() {
        assert(caches.take(n) =~= caches);
    } else {
        lemma_bytes_ordered(caches.drop_last(), n);
        assert(caches.drop_last().take(n) =~= caches.take(n));
    }
}

/// Whether the size of all caches fits a machine word.
pub open spec fn measurable(caches: Seq<CacheView>) -> bool {
    &&& bytes_of(caches) <= usize::MAX
    &&& forall|i: int| 0 <= i < caches.len() ==> (#[trigger] caches[i]).measurable()
}

/// The size of all caches in bytes.
pub fn total_bytes(caches: &Vec<KVCache>) -> (n: usize)
    requires
        forall|i: int| 0 <= i < caches@.len() ==> (#[trigger] caches@[i])@.wf(),
        measurable(caches_of(caches@)),
    ensures
        n == bytes_of(caches_of(caches@)),
{
    let ghost views = caches_of(caches@);
    let mut total: usize = 0;
    let mut i: usize = 0;
    while i < caches.len()
        invariant
            i <= caches@.len(),
            views == caches_of(caches@),
            measurable(views),
            forall|j: int| 0 <= j < caches@.len() ==> (#[trigger] caches@[j])@.wf(),
            total == bytes_of(views.take(i as int)),
        decreases caches@.len() - i,
    {
        assert(views[i as int] == caches@[i as int]@);
        proof {
            lemma_bytes_ordered(views, i + 1);
            assert(views.take(i + 1).drop_last() =~= views.take(i as int));
        }
        total = total + caches[i].bytes();
        i = i + 1;
    }
    assert(views.take(i as int) =~= views);
    total
}

/// The size of all caches in bytes, if it fits a machine word.
pub fn checked_total_bytes(caches: &Vec<KVCache>) -> (n: Option<usize>)
    requires
        forall|i: int| 0 <= i < caches@.len() ==> (#[trigger] caches@[i])@.wf(),
    ensures
        n is Some <==> measurable(caches_of(caches@)),
        n matches Some(total) ==> total == bytes_of(caches_of(caches@)),
{
    let ghost views = caches_of(caches@);
    let mut total: usize = 0;
    let mut i: usize = 0;
    while i < caches.len()
        invariant
            i <= caches@.len(),
            views == caches_of(caches@),
            forall|j: int| 0 <= j < caches@.len() ==> (#[trigger] caches@[j])@.wf(),
            forall|j: int| 0 <= j < i ==> (#[trigger] views[j]).measurable(),
            total == bytes_of(views.take(i as int)),
        decreases caches@.len() - i,
    {
        assert(views[i as int] == caches@[i as int]@);
        proof {
            lemma_bytes_ordered(views, i + 1);
            assert(views.take(i + 1).drop_last() =~= views.take(i as int));
        }
        match caches[i].checked_bytes() {
            Some(bytes) => {
                if bytes > usize::MAX - total {
                    return None;
                }
                total = total + bytes;
            },
            None => {
                assert(!views[i as int].measurable());
                return None;
            },
        }
        i = i + 1;
    }
    assert(views.take(i as int) =~= views);
    Some(total)
}

/// Appending a step that fits adds its positions to the cached ones, and nothing that was cached
/// moves.
pub proof fn appending_keeps_the_past(cache: CacheView, k: Cube, v: Cube, h: int, i: int)
    requires
        cache.wf(),
        k.wf(),
        cache.accepts(k, v),
        cache.k is Some,
        0 <= h < cache.k->0.heads.len(),
        0 <= i < cache.length(),
    ensures
        cache.appended(k, v).length() == cache.length() + k.tokens,
        cache.appended(k, v).k->0.heads[h][i] == cache.k->0.heads[h][i],
{
    assert(cache.k->0.heads[h].len() == cache.k->0.tokens);
}

/// The size of a cache: four bytes for every entry of its keys and of its values. The caches of several
/// layers take what each takes.
pub proof fn every_cached_entry_takes_four_bytes(cache: CacheView, k: Cube, v: Cube, others: Seq<CacheView>)
    requires
        cache.k == Some(k),
        cache.v == Some(v),
    ensures
        cache.bytes() == 4 * (k.heads.len() * k.tokens * k.width + v.heads.len() * v.tokens * v.width),
        cache.length() == k.tokens,
        CacheView::empty().bytes() == 0,
        CacheView::empty().length() == 0,
        bytes_of(others.push(cache)) == bytes_of(others) + cache.bytes(),
        bytes_of(Seq::empty()) == 0,
{
    assert(others.push(cache).drop_last() =~= others);
}

} // verus!
