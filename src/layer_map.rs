//! The layer map of a timeline: the open layer, the frozen layers waiting to
//! be flushed, and the historic layers, with the queries the read path,
//! image creation, compaction and garbage collection make on them.
use vstd::prelude::*;
use crate::value::{Key, Lsn};
use crate::layer::{HistoricLayer, LayerModel};
use crate::inmemory_layer::{InMemoryLayer, InMemoryModel, inmem_wf};

verus! {

pub struct LayerMap {
    /// The single writable layer, if any.
    pub open_layer: Option<InMemoryLayer>,
    /// Frozen layers waiting to be flushed, oldest first.
    pub frozen_layers: Vec<InMemoryLayer>,
    /// Immutable on-disk layers.
    pub historic: Vec<HistoricLayer>,
    /// LSN at which the next open layer starts.
    pub next_open_layer_at: Option<Lsn>,
}

/// Model of the layer map.
pub struct LayerMapModel {
    pub open_layer: Option<InMemoryModel>,
    pub frozen_layers: Seq<InMemoryModel>,
    pub historic: Seq<LayerModel>,
    pub next_open_layer_at: Option<Lsn>,
}

impl View for LayerMap {
    type V = LayerMapModel;

    open spec fn view(&self) -> LayerMapModel {
        LayerMapModel {
            open_layer: match self.open_layer {
                Some(l) => Some(l@),
                None => None,
            },
            frozen_layers: self.frozen_layers@.map_values(|l: InMemoryLayer| l@),
            historic: self.historic@.map_values(|l: HistoricLayer| l@),
            next_open_layer_at: self.next_open_layer_at,
        }
    }
}

/// Every in-memory layer of the map keeps its versions ordered.
pub open spec fn map_wf(m: LayerMapModel) -> bool {
    &&& (m.open_layer.is_some() ==> inmem_wf(m.open_layer.unwrap()))
    &&& forall|i: int| 0 <= i < m.frozen_layers.len() ==> inmem_wf(#[trigger] m.frozen_layers[i])
}

/// Layer `l` can answer a read of `key` that continues below `cont`: it holds
/// the key and starts below `cont`.
pub open spec fn search_candidate(l: LayerModel, key: Key, cont: Lsn) -> bool {
    l.key_range.0 <= key && key < l.key_range.1 && l.lsn_range.0 < cont
}

/// `a` is preferred over `b`: it ends later, or ends at the same LSN and is an
/// image where `b` is a delta.
pub open spec fn search_better(a: LayerModel, b: LayerModel) -> bool {
    a.lsn_range.1 > b.lsn_range.1 || (a.lsn_range.1 == b.lsn_range.1 && a.is_image && !b.is_image)
}

/// Among `hs[..n]`, the first of the most preferred candidates for `(key, cont)`.
pub open spec fn search_spec(hs: Seq<LayerModel>, n: int, key: Key, cont: Lsn) -> Option<int>
    decreases n,
{
    if n <= 0 {
        None
    } else {
        let best = search_spec(hs, n - 1, key, cont);
        if search_candidate(hs[n - 1], key, cont) && (best.is_none() || search_better(hs[n - 1], hs[best.unwrap()])) {
            Some(n - 1)
        } else {
            best
        }
    }
}

/// What `search_spec` picks is a candidate that no other candidate is preferred
/// over; it picks nothing only where there is no candidate.
pub proof fn lemma_search_picks_greatest(hs: Seq<LayerModel>, n: int, key: Key, cont: Lsn)
    requires
        0 <= n <= hs.len(),
    ensures
        search_spec(hs, n, key, cont) is Some ==> {
            let i = search_spec(hs, n, key, cont).unwrap();
            &&& 0 <= i < n
            &&& search_candidate(hs[i], key, cont)
            &&& forall|j: int| 0 <= j < n && #[trigger] search_candidate(hs[j], key, cont) ==> !search_better(hs[j], hs[i])
        },
        search_spec(hs, n, key, cont) is None ==> forall|j: int| 0 <= j < n ==> !#[trigger] search_candidate(hs[j], key, cont),
    decreases n,
{
    if n > 0 {
        lemma_search_picks_greatest(hs, n - 1, key, cont);
    }
}

/// An image layer covers all of `[ks, ke)` at an LSN in `(lo, hi]`.
pub open spec fn image_covers(l: LayerModel, ks: Key, ke: Key, lo: Lsn, hi: Lsn) -> bool {
    l.is_image && l.key_range.0 <= ks && ke <= l.key_range.1 && lo < l.lsn_range.0 && l.lsn_range.0 <= hi
}

/// Delta layer `l` overlaps `[ks, ke)` and `[lo, hi)`.
pub open spec fn delta_overlaps(l: LayerModel, ks: Key, ke: Key, lo: Lsn, hi: Lsn) -> bool {
    !l.is_image && l.key_range.0 < ke && ks < l.key_range.1 && l.lsn_range.0 < hi && lo < l.lsn_range.1
}

/// Number of layers in `hs[..n]` that `delta_overlaps`.
pub open spec fn count_deltas_spec(hs: Seq<LayerModel>, n: int, ks: Key, ke: Key, lo: Lsn, hi: Lsn) -> nat
    decreases n,
{
    if n <= 0 {
        0
    } else {
        count_deltas_spec(hs, n - 1, ks, ke, lo, hi) + if delta_overlaps(hs[n - 1], ks, ke, lo, hi) { 1nat } else { 0nat }
    }
}

pub proof fn lemma_count_bounded(hs: Seq<LayerModel>, n: int, ks: Key, ke: Key, lo: Lsn, hi: Lsn)
    requires
        0 <= n,
    ensures
        count_deltas_spec(hs, n, ks, ke, lo, hi) <= n,
    decreases n,
{
    if n > 0 {
        lemma_count_bounded(hs, n - 1, ks, ke, lo, hi);
    }
}

/// The layers of `hs[..n]` not marked, in order.
pub open spec fn kept_layers(hs: Seq<LayerModel>, rm: Seq<bool>, n: int) -> Seq<LayerModel>
    decreases n,
{
    if n <= 0 {
        Seq::empty()
    } else if rm[n - 1] {
        kept_layers(hs, rm, n - 1)
    } else {
        kept_layers(hs, rm, n - 1).push(hs[n - 1])
    }
}

/// The layers of `hs[..n]` marked, in order.
pub open spec fn removed_layers(hs: Seq<LayerModel>, rm: Seq<bool>, n: int) -> Seq<LayerModel>
    decreases n,
{
    if n <= 0 {
        Seq::empty()
    } else if rm[n - 1] {
        removed_layers(hs, rm, n - 1).push(hs[n - 1])
    } else {
        removed_layers(hs, rm, n - 1)
    }
}

/// Models of a list of layers.
pub open spec fn layers_view(v: Seq<HistoricLayer>) -> Seq<LayerModel> {
    v.map_values(|l: HistoricLayer| l@)
}

/// Number of level-0 deltas in `hs[..n]`.
pub open spec fn count_level0(hs: Seq<LayerModel>, n: int) -> nat
    decreases n,
{
    if n <= 0 {
        0
    } else {
        count_level0(hs, n - 1) + if hs[n - 1].level0 && !hs[n - 1].is_image { 1nat } else { 0nat }
    }
}

/// The smallest key boundary, strictly between `cur` and `ke`, of the layers
/// of `hs[..n]` that start at or below `lsn`; `ke` where there is none.
pub open spec fn next_point(hs: Seq<LayerModel>, n: int, lsn: Lsn, cur: Key, ke: Key) -> Key
    decreases n,
{
    if n <= 0 {
        ke
    } else {
        let p = next_point(hs, n - 1, lsn, cur, ke);
        let l = hs[n - 1];
        if l.lsn_range.0 > lsn {
            p
        } else {
            let p1 = if cur < l.key_range.0 && l.key_range.0 < p { l.key_range.0 } else { p };
            if cur < l.key_range.1 && l.key_range.1 < p1 { l.key_range.1 } else { p1 }
        }
    }
}

proof fn lemma_next_point_bounds(hs: Seq<LayerModel>, n: int, lsn: Lsn, cur: Key, ke: Key)
    requires
        cur < ke,
    ensures
        cur < next_point(hs, n, lsn, cur, ke) <= ke,
    decreases n,
{
    if n > 0 {
        lemma_next_point_bounds(hs, n - 1, lsn, cur, ke);
    }
}

/// Start and end LSN of the latest image layer of `hs[..n]` holding `key` at
/// or below `lsn` (the first of equally late ones).
pub open spec fn latest_image(hs: Seq<LayerModel>, n: int, key: Key, lsn: Lsn) -> Option<(Lsn, Lsn)>
    decreases n,
{
    if n <= 0 {
        None
    } else {
        let p = latest_image(hs, n - 1, key, lsn);
        let l = hs[n - 1];
        if l.is_image && l.key_range.0 <= key && key < l.key_range.1 && l.lsn_range.0 <= lsn
            && (p.is_none() || l.lsn_range.0 > p.unwrap().0) {
            Some((l.lsn_range.0, l.lsn_range.1))
        } else {
            p
        }
    }
}

/// End LSN of the latest image layer holding `key` at or below `lsn`; 0 where none.
pub open spec fn image_end_at(hs: Seq<LayerModel>, key: Key, lsn: Lsn) -> Lsn {
    match latest_image(hs, hs.len() as int, key, lsn) {
        Some(p) => p.1,
        None => 0,
    }
}

/// `[cur, ke)` cut at every key boundary of a layer that starts at or below
/// `lsn`; each piece `(start, end, i)` with `i` the end LSN of the latest image
/// layer covering it (0 where none).
pub open spec fn coverage(hs: Seq<LayerModel>, cur: Key, ke: Key, lsn: Lsn) -> Seq<(Key, Key, Lsn)>
    decreases ke - cur,
{
    if cur >= ke {
        Seq::empty()
    } else {
        let e = next_point(hs, hs.len() as int, lsn, cur, ke);
        if e <= cur || e > ke {
            Seq::empty()
        } else {
            seq![(cur, e, image_end_at(hs, cur, lsn))] + coverage(hs, e, ke, lsn)
        }
    }
}

impl LayerMap {
    /// `[ks, ke)` cut into pieces by the latest image layer at or below `lsn`
    /// covering each (see `coverage`).
    pub fn image_coverage(&self, ks: Key, ke: Key, lsn: Lsn) -> (r: Vec<(Key, Key, Lsn)>)
        ensures
            r@ == coverage(self@.historic, ks, ke, lsn),
    {
        let ghost hs = self@.historic;
        let mut r: Vec<(Key, Key, Lsn)> = Vec::new();
        let mut cur = ks;
        assert(r@ + coverage(hs, cur, ke, lsn) =~= coverage(hs, ks, ke, lsn));
        while cur < ke
            invariant
                hs == self@.historic,
                r@ + coverage(hs, cur, ke, lsn) == coverage(hs, ks, ke, lsn),
            decreases ke - cur,
        {
            let mut e = ke;
            let mut best: Option<(Lsn, Lsn)> = None;
            let mut n: usize = 0;
            while n < self.historic.len()
                invariant
                    hs == self@.historic,
                    n <= hs.len(),
                    cur < ke,
                    e == next_point(hs, n as int, lsn, cur, ke),
                    best == latest_image(hs, n as int, cur, lsn),
                decreases hs.len() - n,
            {
                let l = &self.historic[n];
                assert(hs[n as int] == l@);
                if l.lsn_start <= lsn {
                    if cur < l.key_start && l.key_start < e {
                        e = l.key_start;
                    }
                    if cur < l.key_end && l.key_end < e {
                        e = l.key_end;
                    }
                }
                if l.is_image && l.key_start <= cur && cur < l.key_end && l.lsn_start <= lsn
                    && (best.is_none() || l.lsn_start > best.unwrap().0) {
                    best = Some((l.lsn_start, l.lsn_end));
                }
                n = n + 1;
            }
            proof { lemma_next_point_bounds(hs, hs.len() as int, lsn, cur, ke); }
            let i = match best {
                Some(p) => p.1,
                None => 0,
            };
            let ghost before = r@;
            r.push((cur, e, i));
            assert(r@ + coverage(hs, e, ke, lsn) =~= before + coverage(hs, cur, ke, lsn));
            cur = e;
        }
        assert(coverage(hs, cur, ke, lsn) =~= Seq::<(Key, Key, Lsn)>::empty());
        assert(r@ =~= r@ + coverage(hs, cur, ke, lsn));
        r
    }

    /// Splits the historic layers by `marks`: the marked ones are taken out and
    /// returned, the others stay, each list in map order.
    pub fn partition_historic(&mut self, marks: Vec<bool>) -> (r: Vec<HistoricLayer>)
        requires
            marks@.len() == old(self)@.historic.len(),
        ensures
            final(self)@ == (LayerMapModel { historic: kept_layers(old(self)@.historic, marks@, marks@.len() as int), ..old(self)@ }),
            layers_view(r@) == removed_layers(old(self)@.historic, marks@, marks@.len() as int),
            r@.len() <= marks@.len(),
    {
        let ghost hs = self@.historic;
        let n = marks.len();
        let mut old_layers: Vec<HistoricLayer> = Vec::new();
        core::mem::swap(&mut old_layers, &mut self.historic);
        assert(layers_view(old_layers@) =~= hs.skip(0));
        let mut kept: Vec<HistoricLayer> = Vec::new();
        let mut removed: Vec<HistoricLayer> = Vec::new();
        let mut idx: usize = 0;
        assert(layers_view(kept@) =~= Seq::<LayerModel>::empty());
        assert(layers_view(removed@) =~= Seq::<LayerModel>::empty());
        while idx < n
            invariant
                n == hs.len(),
                marks@.len() == n,
                idx <= n,
                layers_view(old_layers@) == hs.skip(idx as int),
                layers_view(kept@) == kept_layers(hs, marks@, idx as int),
                layers_view(removed@) == removed_layers(hs, marks@, idx as int),
                removed@.len() <= idx,
            decreases n - idx,
        {
            let ghost before_old = layers_view(old_layers@);
            assert(before_old.len() == n - idx);
            let x = old_layers.remove(0);
            assert(x@ == hs[idx as int]) by {
                assert(before_old[0] == hs.skip(idx as int)[0]);
            }
            assert(layers_view(old_layers@) =~= before_old.subrange(1, before_old.len() as int));
            assert(layers_view(old_layers@) =~= hs.skip(idx as int + 1));
            if marks[idx] {
                let ghost rb = layers_view(removed@);
                removed.push(x);
                assert(layers_view(removed@) =~= rb.push(hs[idx as int]));
            } else {
                let ghost kb = layers_view(kept@);
                kept.push(x);
                assert(layers_view(kept@) =~= kb.push(hs[idx as int]));
            }
            idx = idx + 1;
        }
        let ghost before_map = self@;
        self.historic = kept;
        assert(self@ =~= LayerMapModel { historic: kept_layers(hs, marks@, n as int), ..before_map });
        removed
    }


    /// An empty map whose next open layer starts at `next_open_layer_at`.
    pub fn new(next_open_layer_at: Option<Lsn>) -> (r: LayerMap)
        ensures
            r@.open_layer.is_none(),
            r@.frozen_layers.len() == 0,
            r@.historic.len() == 0,
            r@.next_open_layer_at == next_open_layer_at,
            map_wf(r@),
    {
        LayerMap { open_layer: None, frozen_layers: Vec::new(), historic: Vec::new(), next_open_layer_at }
    }

    /// Adds a historic layer.
    pub fn insert_historic(&mut self, l: HistoricLayer)
        ensures
            final(self)@ == (LayerMapModel { historic: old(self)@.historic.push(l@), ..old(self)@ }),
    {
        self.historic.push(l);
        assert(self@.historic =~= old(self)@.historic.push(l@));
    }

    /// Removes and returns the historic layer at `i`.
    pub fn remove_historic(&mut self, i: usize) -> (r: HistoricLayer)
        requires
            i < old(self)@.historic.len(),
        ensures
            r@ == old(self)@.historic[i as int],
            final(self)@ == (LayerMapModel { historic: old(self)@.historic.remove(i as int), ..old(self)@ }),
    {
        let r = self.historic.remove(i);
        assert(self@.historic =~= old(self)@.historic.remove(i as int));
        r
    }

    /// The historic layer to read next for `key` below `cont`: among the layers
    /// that hold `key` and start below `cont`, the one that ends latest, an
    /// image winning a tie with a delta. Its `lsn_floor` is its start LSN.
    pub fn search(&self, key: Key, cont: Lsn) -> (r: Option<usize>)
        ensures
            r is Some ==> search_spec(self@.historic, self@.historic.len() as int, key, cont) == Some(r.unwrap() as int),
            r is None ==> search_spec(self@.historic, self@.historic.len() as int, key, cont) is None,
            r is Some ==> {
                let i = r.unwrap() as int;
                &&& i < self@.historic.len()
                &&& search_candidate(self@.historic[i], key, cont)
                &&& forall|j: int| 0 <= j < self@.historic.len() && #[trigger] search_candidate(self@.historic[j], key, cont)
                        ==> !search_better(self@.historic[j], self@.historic[i])
            },
            r is None ==> forall|j: int| 0 <= j < self@.historic.len() ==> !#[trigger] search_candidate(self@.historic[j], key, cont),
    {
        let ghost hs = self@.historic;
        let mut best: Option<usize> = None;
        let mut n: usize = 0;
        while n < self.historic.len()
            invariant
                n <= hs.len(),
                hs == self@.historic,
                best == (match search_spec(hs, n as int, key, cont) {
                    Some(i) => Some(i as usize),
                    None => None::<usize>,
                }),
                best is Some ==> best.unwrap() < n,
            decreases hs.len() - n,
        {
            proof { lemma_search_picks_greatest(hs, n as int, key, cont); }
            let l = &self.historic[n];
            assert(hs[n as int] == l@);
            let cand = l.key_start <= key && key < l.key_end && l.lsn_start < cont;
            if cand {
                match best {
                    None => { best = Some(n); },
                    Some(b) => {
                        let bl = &self.historic[b];
                        assert(hs[b as int] == bl@);
                        if l.lsn_end > bl.lsn_end || (l.lsn_end == bl.lsn_end && l.is_image && !bl.is_image) {
                            best = Some(n);
                        }
                    },
                }
            }
            n = n + 1;
        }
        proof { lemma_search_picks_greatest(hs, hs.len() as int, key, cont); }
        best
    }

    /// Whether an image layer covers all of `[ks, ke)` at an LSN in `(lo, hi]`.
    pub fn image_layer_exists(&self, ks: Key, ke: Key, lo: Lsn, hi: Lsn) -> (r: bool)
        ensures
            r == exists|i: int| 0 <= i < self@.historic.len() && #[trigger] image_covers(self@.historic[i], ks, ke, lo, hi),
    {
        let ghost hs = self@.historic;
        let mut n: usize = 0;
        while n < self.historic.len()
            invariant
                n <= hs.len(),
                hs == self@.historic,
                forall|i: int| 0 <= i < n ==> !#[trigger] image_covers(hs[i], ks, ke, lo, hi),
            decreases hs.len() - n,
        {
            let l = &self.historic[n];
            assert(hs[n as int] == l@);
            if l.is_image && l.key_start <= ks && ke <= l.key_end && lo < l.lsn_start && l.lsn_start <= hi {
                assert(image_covers(hs[n as int], ks, ke, lo, hi));
                return true;
            }
            n = n + 1;
        }
        false
    }

    /// Number of delta layers that overlap both `[ks, ke)` and `[lo, hi)`.
    pub fn count_deltas(&self, ks: Key, ke: Key, lo: Lsn, hi: Lsn) -> (r: usize)
        ensures
            r == count_deltas_spec(self@.historic, self@.historic.len() as int, ks, ke, lo, hi),
    {
        let ghost hs = self@.historic;
        let mut count: usize = 0;
        let mut n: usize = 0;
        while n < self.historic.len()
            invariant
                n <= hs.len(),
                hs == self@.historic,
                count == count_deltas_spec(hs, n as int, ks, ke, lo, hi),
            decreases hs.len() - n,
        {
            proof { lemma_count_bounded(hs, n as int, ks, ke, lo, hi); }
            let l = &self.historic[n];
            assert(hs[n as int] == l@);
            if !l.is_image && l.key_start < ke && ks < l.key_end && l.lsn_start < hi && lo < l.lsn_end {
                count = count + 1;
            }
            n = n + 1;
        }
        count
    }

    /// Indices of the level-0 delta layers, in map order.
    pub fn get_level0_deltas(&self) -> (r: Vec<usize>)
        ensures
            forall|i: int| 0 <= i < r@.len() ==> (r@[i] as int) < self@.historic.len() && self@.historic[#[trigger] r@[i] as int].level0
                && !self@.historic[r@[i] as int].is_image,
            forall|j: int| 0 <= j < self@.historic.len() && self@.historic[j].level0 && !self@.historic[j].is_image
                ==> #[trigger] r@.contains(j as usize),
            forall|a: int, b: int| 0 <= a < b < r@.len() ==> r@[a] < r@[b],
            r@.len() == count_level0(self@.historic, self@.historic.len() as int),
    {
        let ghost hs = self@.historic;
        let mut r: Vec<usize> = Vec::new();
        let mut n: usize = 0;
        while n < self.historic.len()
            invariant
                n <= hs.len(),
                hs == self@.historic,
                forall|i: int| 0 <= i < r@.len() ==> (r@[i] as int) < n && hs[#[trigger] r@[i] as int].level0 && !hs[r@[i] as int].is_image,
                forall|j: int| 0 <= j < n && hs[j].level0 && !hs[j].is_image ==> #[trigger] r@.contains(j as usize),
                forall|a: int, b: int| 0 <= a < b < r@.len() ==> r@[a] < r@[b],
                r@.len() == count_level0(hs, n as int),
            decreases hs.len() - n,
        {
            let l = &self.historic[n];
            assert(hs[n as int] == l@);
            if l.level0 && !l.is_image {
                let ghost before = r@;
                r.push(n);
                assert forall|j: int| 0 <= j < n + 1 && hs[j].level0 && !hs[j].is_image implies #[trigger] r@.contains(j as usize) by {
                    if j < n {
                        assert(before.contains(j as usize));
                        let k = choose|k: int| 0 <= k < before.len() && before[k] == j as usize;
                        assert(r@[k] == j as usize);
                    } else {
                        assert(r@[before.len() as int] == n);
                    }
                }
            }
            n = n + 1;
        }
        r
    }
}

} // verus!
