//! Garbage collection: which historic layers a GC pass removes, and the pass.
use vstd::prelude::*;
use crate::value::Lsn;
use crate::layer::{HistoricLayer, LayerModel};
use crate::layer_map::{LayerMapModel, image_covers, kept_layers, removed_layers, layers_view};
use crate::timeline::{LayeredTimeline, timeline_wf};

verus! {

/// Counts of what a GC pass found.
#[derive(PartialEq, Eq, Structural, Clone, Copy, Debug)]
pub struct GcResult {
    pub layers_total: u64,
    pub layers_needed_by_cutoff: u64,
    pub layers_needed_by_pitr: u64,
    pub layers_needed_by_branches: u64,
    pub layers_not_updated: u64,
    pub layers_removed: u64,
}

/// Layer `l` of `hs` may go: it ends at or below both cutoffs, every retained
/// LSN is before its start, and an image layer covers its whole key range at
/// an LSN in `(end, new_cutoff]`.
pub open spec fn gc_removable(l: LayerModel, hs: Seq<LayerModel>, horizon: Lsn, pitr: Lsn, retain: Seq<Lsn>, new_cutoff: Lsn) -> bool {
    &&& l.lsn_range.1 <= horizon
    &&& l.lsn_range.1 <= pitr
    &&& forall|k: int| 0 <= k < retain.len() ==> l.lsn_range.0 > #[trigger] retain[k]
    &&& exists|i: int| 0 <= i < hs.len() && #[trigger] image_covers(hs[i], l.key_range.0, l.key_range.1, l.lsn_range.1, new_cutoff)
}

/// For each layer of `hs`, whether it may go.
pub open spec fn gc_marks(hs: Seq<LayerModel>, horizon: Lsn, pitr: Lsn, retain: Seq<Lsn>, new_cutoff: Lsn) -> Seq<bool> {
    Seq::new(hs.len(), |i: int| gc_removable(hs[i], hs, horizon, pitr, retain, new_cutoff))
}

/// The cutoff a GC pass moves to: the lesser of the horizon and PITR cutoffs.
pub open spec fn new_gc_cutoff(t: LayeredTimeline) -> Lsn {
    if t.gc_info.horizon_cutoff <= t.gc_info.pitr_cutoff { t.gc_info.horizon_cutoff } else { t.gc_info.pitr_cutoff }
}

/// Why a GC pass keeps layer `l`, checked in order: 1, it ends after the
/// horizon cutoff; 2, after the PITR cutoff; 3, a retained LSN is at or after
/// its start; 4, no newer image covers it; else 5, it is removed.
pub open spec fn gc_class(l: LayerModel, hs: Seq<LayerModel>, horizon: Lsn, pitr: Lsn, retain: Seq<Lsn>, new_cutoff: Lsn) -> int {
    if l.lsn_range.1 > horizon {
        1
    } else if l.lsn_range.1 > pitr {
        2
    } else if exists|k: int| 0 <= k < retain.len() && l.lsn_range.0 <= #[trigger] retain[k] {
        3
    } else if !exists|i: int| 0 <= i < hs.len() && #[trigger] image_covers(hs[i], l.key_range.0, l.key_range.1, l.lsn_range.1, new_cutoff) {
        4
    } else {
        5
    }
}

/// Number of layers of `hs[..n]` of class `c`.
pub open spec fn count_class(hs: Seq<LayerModel>, n: int, c: int, horizon: Lsn, pitr: Lsn, retain: Seq<Lsn>, new_cutoff: Lsn) -> nat
    decreases n,
{
    if n <= 0 {
        0
    } else {
        count_class(hs, n - 1, c, horizon, pitr, retain, new_cutoff)
            + if gc_class(hs[n - 1], hs, horizon, pitr, retain, new_cutoff) == c { 1nat } else { 0nat }
    }
}

proof fn lemma_count_class_bounded(hs: Seq<LayerModel>, n: int, c: int, horizon: Lsn, pitr: Lsn, retain: Seq<Lsn>, new_cutoff: Lsn)
    requires
        0 <= n,
    ensures
        count_class(hs, n, c, horizon, pitr, retain, new_cutoff) <= n,
    decreases n,
{
    if n > 0 {
        lemma_count_class_bounded(hs, n - 1, c, horizon, pitr, retain, new_cutoff);
    }
}

/// A layer that a GC pass removes has no retained LSN in its LSN range.
pub proof fn lemma_gc_keeps_retained(hs: Seq<LayerModel>, horizon: Lsn, pitr: Lsn, retain: Seq<Lsn>, new_cutoff: Lsn, n: int, x: LayerModel)
    requires
        0 <= n <= hs.len(),
        removed_layers(hs, gc_marks(hs, horizon, pitr, retain, new_cutoff), n).contains(x),
    ensures
        forall|k: int| 0 <= k < retain.len() ==> !(x.lsn_range.0 <= #[trigger] retain[k] && retain[k] < x.lsn_range.1),
    decreases n,
{
    let rm = gc_marks(hs, horizon, pitr, retain, new_cutoff);
    if n > 0 {
        let prev = removed_layers(hs, rm, n - 1);
        if rm[n - 1] {
            if prev.contains(x) {
                lemma_gc_keeps_retained(hs, horizon, pitr, retain, new_cutoff, n - 1, x);
            } else {
                let cur = prev.push(hs[n - 1]);
                assert(cur.contains(x));
                let w = choose|w: int| 0 <= w < cur.len() && #[trigger] cur[w] == x;
                if w < prev.len() {
                    assert(prev[w] == x);
                }
                assert(x == hs[n - 1]);
                assert(gc_removable(hs[n - 1], hs, horizon, pitr, retain, new_cutoff));
            }
        } else {
            lemma_gc_keeps_retained(hs, horizon, pitr, retain, new_cutoff, n - 1, x);
        }
    }
}

/// A layer that a GC pass removes ends at or below the new cutoff, and an
/// image layer of the map covers its whole key range at an LSN after its end
/// and at or below the new cutoff.
pub proof fn lemma_gc_removes_only_superseded(hs: Seq<LayerModel>, horizon: Lsn, pitr: Lsn, retain: Seq<Lsn>, new_cutoff: Lsn, n: int, x: LayerModel)
    requires
        0 <= n <= hs.len(),
        new_cutoff == (if horizon <= pitr { horizon } else { pitr }),
        removed_layers(hs, gc_marks(hs, horizon, pitr, retain, new_cutoff), n).contains(x),
    ensures
        x.lsn_range.1 <= new_cutoff,
        exists|i: int| 0 <= i < hs.len() && #[trigger] image_covers(hs[i], x.key_range.0, x.key_range.1, x.lsn_range.1, new_cutoff),
    decreases n,
{
    let rm = gc_marks(hs, horizon, pitr, retain, new_cutoff);
    if n > 0 {
        let prev = removed_layers(hs, rm, n - 1);
        if rm[n - 1] && !prev.contains(x) {
            let cur = prev.push(hs[n - 1]);
            assert(cur.contains(x));
            let w = choose|w: int| 0 <= w < cur.len() && #[trigger] cur[w] == x;
            if w < prev.len() {
                assert(prev[w] == x);
            }
            assert(x == hs[n - 1]);
            assert(gc_removable(hs[n - 1], hs, horizon, pitr, retain, new_cutoff));
        } else {
            lemma_gc_removes_only_superseded(hs, horizon, pitr, retain, new_cutoff, n - 1, x);
        }
    }
}

impl LayeredTimeline {
    /// Removes the historic layers that no read at or after the new GC cutoff
    /// can need. Returns the counts and the removed layers, whose files the
    /// caller deletes. Does nothing where the cutoff would not advance.
    pub fn gc(&mut self) -> (r: (GcResult, Vec<HistoricLayer>))
        requires
            timeline_wf(*old(self)),
        ensures
            timeline_wf(*final(self)),
            r.1@.len() <= old(self).layers@.historic.len(),
            ({
                let t = *old(self);
                let hs = t.layers@.historic;
                let nc = new_gc_cutoff(t);
                let h = t.gc_info.horizon_cutoff;
                let pc = t.gc_info.pitr_cutoff;
                let rl = t.gc_info.retain_lsns@;
                let rm = gc_marks(hs, h, pc, rl, nc);
                if t.latest_gc_cutoff_lsn >= nc {
                    &&& final(self).layers@ == t.layers@
                    &&& final(self).latest_gc_cutoff_lsn == t.latest_gc_cutoff_lsn
                    &&& r.1@.len() == 0
                    &&& r.0 == (GcResult { layers_total: 0, layers_needed_by_cutoff: 0, layers_needed_by_pitr: 0,
                            layers_needed_by_branches: 0, layers_not_updated: 0, layers_removed: 0 })
                } else {
                    &&& r.0.layers_total == hs.len()
                    &&& r.0.layers_needed_by_cutoff == count_class(hs, hs.len() as int, 1, h, pc, rl, nc)
                    &&& r.0.layers_needed_by_pitr == count_class(hs, hs.len() as int, 2, h, pc, rl, nc)
                    &&& r.0.layers_needed_by_branches == count_class(hs, hs.len() as int, 3, h, pc, rl, nc)
                    &&& r.0.layers_not_updated == count_class(hs, hs.len() as int, 4, h, pc, rl, nc)
                    &&& final(self).latest_gc_cutoff_lsn == nc
                    &&& final(self).layers@ == (LayerMapModel { historic: kept_layers(hs, rm, hs.len() as int), ..t.layers@ })
                    &&& layers_view(r.1@) == removed_layers(hs, rm, hs.len() as int)
                    &&& r.0.layers_removed == r.1@.len()
                }
            }),
            final(self).disk_consistent_lsn == old(self).disk_consistent_lsn,
            final(self).last_record_lsn == old(self).last_record_lsn,
            final(self).gc_info == old(self).gc_info,
            final(self).ancestor == old(self).ancestor,
            final(self).ancestor_lsn == old(self).ancestor_lsn,
    {
        let mut result = GcResult {
            layers_total: 0,
            layers_needed_by_cutoff: 0,
            layers_needed_by_pitr: 0,
            layers_needed_by_branches: 0,
            layers_not_updated: 0,
            layers_removed: 0,
        };
        let horizon_cutoff = self.gc_info.horizon_cutoff;
        let pitr_cutoff = self.gc_info.pitr_cutoff;
        let new_cutoff = if horizon_cutoff <= pitr_cutoff { horizon_cutoff } else { pitr_cutoff };
        if self.latest_gc_cutoff_lsn >= new_cutoff {
            return (result, Vec::new());
        }
        self.latest_gc_cutoff_lsn = new_cutoff;

        let ghost hs = self.layers@.historic;
        let ghost retain = self.gc_info.retain_lsns@;
        let ghost rm = gc_marks(hs, horizon_cutoff, pitr_cutoff, retain, new_cutoff);
        let n = self.layers.historic.len();
        let mut doomed: Vec<bool> = Vec::new();
        let mut i: usize = 0;
        while i < n
            invariant
                n == hs.len(),
                hs == self.layers@.historic,
                retain == self.gc_info.retain_lsns@,
                rm == gc_marks(hs, horizon_cutoff, pitr_cutoff, retain, new_cutoff),
                i <= n,
                doomed@.len() == i,
                forall|j: int| 0 <= j < i ==> doomed@[j] == rm[j],
                result.layers_total == i,
                result.layers_needed_by_cutoff == count_class(hs, i as int, 1, horizon_cutoff, pitr_cutoff, retain, new_cutoff),
                result.layers_needed_by_pitr == count_class(hs, i as int, 2, horizon_cutoff, pitr_cutoff, retain, new_cutoff),
                result.layers_needed_by_branches == count_class(hs, i as int, 3, horizon_cutoff, pitr_cutoff, retain, new_cutoff),
                result.layers_not_updated == count_class(hs, i as int, 4, horizon_cutoff, pitr_cutoff, retain, new_cutoff),
                result.layers_removed == 0,
            decreases n - i,
        {
            let l = &self.layers.historic[i];
            assert(hs[i as int] == l@);
            proof {
                lemma_count_class_bounded(hs, i as int, 1, horizon_cutoff, pitr_cutoff, retain, new_cutoff);
                lemma_count_class_bounded(hs, i as int, 2, horizon_cutoff, pitr_cutoff, retain, new_cutoff);
                lemma_count_class_bounded(hs, i as int, 3, horizon_cutoff, pitr_cutoff, retain, new_cutoff);
                lemma_count_class_bounded(hs, i as int, 4, horizon_cutoff, pitr_cutoff, retain, new_cutoff);
            }
            let ghost cls = gc_class(hs[i as int], hs, horizon_cutoff, pitr_cutoff, retain, new_cutoff);
            result.layers_total = result.layers_total + 1;
            let mut keep = false;
            if l.lsn_end > horizon_cutoff {
                result.layers_needed_by_cutoff = result.layers_needed_by_cutoff + 1;
                keep = true;
            } else if l.lsn_end > pitr_cutoff {
                result.layers_needed_by_pitr = result.layers_needed_by_pitr + 1;
                keep = true;
            } else {
                let mut k: usize = 0;
                let mut retained = false;
                while k < self.gc_info.retain_lsns.len()
                    invariant
                        retain == self.gc_info.retain_lsns@,
                        k <= retain.len(),
                        hs[i as int] == l@,
                        hs == self.layers@.historic,
                        !retained ==> forall|q: int| 0 <= q < k ==> l.lsn_start > #[trigger] retain[q],
                        retained ==> exists|q: int| 0 <= q < retain.len() && l.lsn_start <= #[trigger] retain[q],
                    decreases retain.len() - k,
                {
                    if l.lsn_start <= self.gc_info.retain_lsns[k] {
                        retained = true;
                    }
                    k = k + 1;
                }
                if retained {
                    assert(cls == 3);
                    result.layers_needed_by_branches = result.layers_needed_by_branches + 1;
                    keep = true;
                } else {
                    assert(!exists|q: int| 0 <= q < retain.len() && l.lsn_start <= #[trigger] retain[q]);
                    let covered = self.layers.image_layer_exists(l.key_start, l.key_end, l.lsn_end, new_cutoff);
                    if !covered {
                        assert(cls == 4);
                        result.layers_not_updated = result.layers_not_updated + 1;
                        keep = true;
                    } else {
                        let ghost li = hs[i as int];
                        let ghost w = choose|q: int| 0 <= q < self.layers@.historic.len()
                            && #[trigger] image_covers(self.layers@.historic[q], l.key_start, l.key_end, l.lsn_end, new_cutoff);
                        assert(image_covers(hs[w], li.key_range.0, li.key_range.1, li.lsn_range.1, new_cutoff));
                        assert(gc_removable(hs[i as int], hs, horizon_cutoff, pitr_cutoff, retain, new_cutoff));
                        assert(cls == 5);
                    }
                }
            }
            assert(rm[i as int] == gc_removable(hs[i as int], hs, horizon_cutoff, pitr_cutoff, retain, new_cutoff));
            assert(keep == !rm[i as int]);
            doomed.push(!keep);
            i = i + 1;
        }

        assert(doomed@ =~= rm);
        let removed = self.layers.partition_historic(doomed);
        result.layers_removed = removed.len() as u64;
        (result, removed)
    }
}

} // verus!
