//! Decisions of the timeline's background work: when to freeze, when a key
//! range needs a new image layer, where the PITR cutoff lies, and which layer
//! files found at startup are stale.
use vstd::prelude::*;
use crate::value::{Key, Lsn};
use crate::layer::{HistoricLayer, LayerModel};
use crate::layer_map::{LayerMapModel, count_deltas_spec, kept_layers, removed_layers, layers_view, map_wf};
use crate::timeline::{LayeredTimeline, timeline_wf, GcInfo};
use crate::compaction::level0_compaction;

verus! {

/// What a timestamp maps to in the WAL, as the commit-timestamp lookup reports it.
#[derive(PartialEq, Eq, Structural, Clone, Copy, Debug)]
pub enum LsnForTimestamp {
    Present(Lsn),
    Future(Lsn),
    Past(Lsn),
    NoData(Lsn),
}

/// Whether the open layer must be frozen: the WAL since the last freeze
/// reaches the checkpoint distance, the open layer outgrew it, or some WAL
/// came and the checkpoint timeout passed. The distance is negative right
/// after a freeze, which sets the freeze point past the last record.
pub open spec fn checkpoint_due(t: LayeredTimeline, timeout_elapsed: bool) -> bool {
    let distance = t.last_record_lsn.last - t.last_freeze_at;
    t.layers@.open_layer.is_some() && (
        distance >= t.conf.checkpoint_distance
        || t.layers@.open_layer.unwrap().size > t.conf.checkpoint_distance
        || (distance > 0 && timeout_elapsed))
}

/// A piece `(start, end, i)` of an image coverage needs a new image: its
/// latest image ends at `i` below `lsn`, and at least `threshold` delta layers
/// overlap the piece in `[i, lsn)`.
pub open spec fn piece_needs_image(hs: Seq<LayerModel>, p: (Key, Key, Lsn), lsn: Lsn, threshold: usize) -> bool {
    p.2 < lsn && count_deltas_spec(hs, hs.len() as int, p.0, p.1, p.2, lsn) >= threshold
}

/// A range needs a new image layer: some piece of its image coverage at
/// `lsn` (see `coverage`) does.
pub open spec fn range_needs_image(m: LayerMapModel, ks: Key, ke: Key, lsn: Lsn, threshold: usize) -> bool {
    let cov = crate::layer_map::coverage(m.historic, ks, ke, lsn);
    exists|j: int| 0 <= j < cov.len() && #[trigger] piece_needs_image(m.historic, cov[j], lsn, threshold)
}

/// A layer file past the durable watermark: an image above it, or a delta
/// ending after the LSN just above it.
pub open spec fn is_future_layer(l: LayerModel, disk_consistent_lsn: Lsn) -> bool {
    if l.is_image {
        l.lsn_range.0 > disk_consistent_lsn
    } else {
        l.lsn_range.1 > disk_consistent_lsn + 1
    }
}

/// Whether the key-space partitioning must be computed again at `lsn`: it
/// never was (`partitioned_at` is 0), or the LSN moved more than `threshold`
/// past the point where it was.
pub fn needs_repartition(partitioned_at: Lsn, lsn: Lsn, threshold: u64) -> (r: bool)
    ensures
        r == (partitioned_at == 0 || lsn - partitioned_at > threshold),
{
    partitioned_at == 0 || (lsn > partitioned_at && lsn - partitioned_at > threshold)
}

/// The lowest backup number not in `taken`, looking at `0..=taken.len()`;
/// `None` where all of those are taken.
pub fn backup_number(taken: &Vec<u32>) -> (r: Option<u32>)
    requires
        taken@.len() < u32::MAX,
    ensures
        r is Some ==> !taken@.contains(r.unwrap()) && forall|i: u32| i < r.unwrap() ==> taken@.contains(i),
        r is None ==> forall|i: u32| i <= taken@.len() ==> taken@.contains(i),
{
    let mut i: u32 = 0;
    while (i as usize) <= taken.len()
        invariant
            i as int <= taken@.len() + 1,
            taken@.len() < u32::MAX,
            forall|q: u32| q < i ==> taken@.contains(q),
        decreases taken@.len() + 1 - i,
    {
        let mut used = false;
        let mut k: usize = 0;
        while k < taken.len()
            invariant
                k <= taken@.len(),
                used == exists|y: int| 0 <= y < k && taken@[y] == i,
            decreases taken@.len() - k,
        {
            if taken[k] == i {
                used = true;
            }
            k = k + 1;
        }
        if !used {
            return Some(i);
        }
        assert(taken@.contains(i));
        i = i + 1;
    }
    None
}

impl LayeredTimeline {
    /// Freezes the open layer where a checkpoint is due (see `checkpoint_due`),
    /// then records the last record LSN as the last freeze point. Returns
    /// whether it froze; the caller then starts a flush.
    pub fn check_checkpoint_distance(&mut self, timeout_elapsed: bool) -> (r: bool)
        requires
            timeline_wf(*old(self)),
            old(self).last_record_lsn.last < u64::MAX,
        ensures
            timeline_wf(*final(self)),
            r == checkpoint_due(*old(self), timeout_elapsed),
            !r ==> *final(self) == *old(self),
            r ==> {
                let o = old(self).layers@.open_layer.unwrap();
                let end = (old(self).last_record_lsn.last + 1) as Lsn;
                &&& final(self).layers@.open_layer.is_none()
                &&& final(self).layers@.frozen_layers == old(self).layers@.frozen_layers.push(crate::inmemory_layer::InMemoryModel { end_lsn: Some(end), ..o })
                &&& final(self).layers@.historic == old(self).layers@.historic
                &&& final(self).layers@.next_open_layer_at == Some(end)
                &&& final(self).last_freeze_at == old(self).last_record_lsn.last
            },
            final(self).last_record_lsn == old(self).last_record_lsn,
    {
        let last_lsn = self.last_record_lsn.last;
        match &self.layers.open_layer {
            None => false,
            Some(o) => {
                let dist = self.conf.checkpoint_distance;
                let far = last_lsn >= self.last_freeze_at && last_lsn - self.last_freeze_at >= dist;
                let moved = last_lsn > self.last_freeze_at;
                if far || o.size > dist || (moved && timeout_elapsed) {
                    self.freeze_inmem_layer();
                    self.last_freeze_at = last_lsn;
                    true
                } else {
                    false
                }
            },
        }
    }

    /// Whether a partition, given as key ranges, needs a new image layer at
    /// `lsn`: for some piece of some range's image coverage, the delta layers
    /// since that piece's latest image number at least `image_creation_threshold`.
    pub fn time_for_new_image_layer(&self, ranges: &Vec<(Key, Key)>, lsn: Lsn) -> (r: bool)
        ensures
            r == exists|i: int| 0 <= i < ranges@.len() && #[trigger] range_needs_image(self.layers@, ranges@[i].0, ranges@[i].1, lsn, self.conf.image_creation_threshold),
    {
        let mut i: usize = 0;
        while i < ranges.len()
            invariant
                i <= ranges@.len(),
                forall|q: int| 0 <= q < i ==> !#[trigger] range_needs_image(self.layers@, ranges@[q].0, ranges@[q].1, lsn, self.conf.image_creation_threshold),
            decreases ranges@.len() - i,
        {
            let (ks, ke) = ranges[i];
            let cov = self.layers.image_coverage(ks, ke, lsn);
            let ghost hs = self.layers@.historic;
            let mut j: usize = 0;
            while j < cov.len()
                invariant
                    j <= cov@.len(),
                    hs == self.layers@.historic,
                    cov@ == crate::layer_map::coverage(hs, ks, ke, lsn),
                    i < ranges@.len(),
                    ks == ranges@[i as int].0,
                    ke == ranges@[i as int].1,
                    forall|q: int| 0 <= q < i ==> !#[trigger] range_needs_image(self.layers@, ranges@[q].0, ranges@[q].1, lsn, self.conf.image_creation_threshold),
                    forall|q: int| 0 <= q < j ==> !#[trigger] piece_needs_image(hs, cov@[q], lsn, self.conf.image_creation_threshold),
                decreases cov@.len() - j,
            {
                let (ps, pe, img) = cov[j];
                if img < lsn {
                    let n = self.layers.count_deltas(ps, pe, img, lsn);
                    if n >= self.conf.image_creation_threshold {
                        assert(piece_needs_image(hs, cov@[j as int], lsn, self.conf.image_creation_threshold));
                        assert(range_needs_image(self.layers@, ranges@[i as int].0, ranges@[i as int].1, lsn, self.conf.image_creation_threshold));
                        return true;
                    }
                }
                j = j + 1;
            }
            assert(!range_needs_image(self.layers@, ranges@[i as int].0, ranges@[i as int].1, lsn, self.conf.image_creation_threshold));
            i = i + 1;
        }
        false
    }

    /// Records what GC must keep: the retained LSNs, the horizon cutoff, and a
    /// PITR cutoff. Without a PITR interval the PITR cutoff is the horizon
    /// cutoff. With one, `lookup` is what the commit timestamp `now - pitr` maps
    /// to (`None` where that time is before the epoch): a present LSN is the
    /// cutoff, a future one gives the horizon cutoff, and anything else keeps
    /// the latest GC cutoff, removing nothing more.
    pub fn update_gc_info(&mut self, retain_lsns: Vec<Lsn>, cutoff_horizon: Lsn, pitr_is_zero: bool, lookup: Option<LsnForTimestamp>)
        ensures
            final(self).gc_info.retain_lsns@ == retain_lsns@,
            final(self).gc_info.horizon_cutoff == cutoff_horizon,
            final(self).gc_info.pitr_cutoff == if pitr_is_zero {
                cutoff_horizon
            } else {
                match lookup {
                    Some(LsnForTimestamp::Present(l)) => l,
                    Some(LsnForTimestamp::Future(_)) => cutoff_horizon,
                    _ => old(self).latest_gc_cutoff_lsn,
                }
            },
            final(self).layers == old(self).layers,
            final(self).latest_gc_cutoff_lsn == old(self).latest_gc_cutoff_lsn,
            final(self).disk_consistent_lsn == old(self).disk_consistent_lsn,
            final(self).last_record_lsn == old(self).last_record_lsn,
    {
        let pitr_cutoff = if pitr_is_zero {
            cutoff_horizon
        } else {
            match lookup {
                Some(LsnForTimestamp::Present(l)) => l,
                Some(LsnForTimestamp::Future(_)) => cutoff_horizon,
                _ => self.latest_gc_cutoff_lsn,
            }
        };
        self.gc_info = GcInfo { retain_lsns, horizon_cutoff: cutoff_horizon, pitr_cutoff };
    }

    /// Puts the layers found on disk into the map, except those past
    /// `disk_consistent_lsn` (see `is_future_layer`), which are returned for the
    /// caller to rename to backups. The next open layer starts at
    /// `disk_consistent_lsn + 1`.
    pub fn load_layer_map(&mut self, found: Vec<HistoricLayer>, disk_consistent_lsn: Lsn) -> (r: Vec<HistoricLayer>)
        requires
            disk_consistent_lsn < u64::MAX,
            old(self).layers@.open_layer.is_none(),
            map_wf(old(self).layers@),
        ensures
            timeline_wf(*final(self)),
            ({
                let fv = layers_view(found@);
                let marks = Seq::new(fv.len(), |i: int| is_future_layer(fv[i], disk_consistent_lsn));
                &&& final(self).layers@ == (LayerMapModel {
                        historic: old(self).layers@.historic + kept_layers(fv, marks, fv.len() as int),
                        next_open_layer_at: Some((disk_consistent_lsn + 1) as Lsn),
                        ..old(self).layers@
                    })
                &&& layers_view(r@) == removed_layers(fv, marks, fv.len() as int)
            }),
            final(self).last_record_lsn == old(self).last_record_lsn,
            final(self).disk_consistent_lsn == old(self).disk_consistent_lsn,
    {
        let ghost fv = layers_view(found@);
        let ghost marks = Seq::new(fv.len(), |i: int| is_future_layer(fv[i], disk_consistent_lsn));
        let ghost base = self.layers@;
        let mut rest = found;
        let mut backups: Vec<HistoricLayer> = Vec::new();
        let ghost mut t: int = 0;
        assert(layers_view(rest@) =~= fv.skip(0));
        assert(layers_view(backups@) =~= Seq::<LayerModel>::empty());
        assert(base.historic + kept_layers(fv, marks, 0) =~= base.historic);
        while rest.len() > 0
            invariant
                0 <= t <= fv.len(),
                disk_consistent_lsn < u64::MAX,
                marks.len() == fv.len(),
                forall|i: int| 0 <= i < fv.len() ==> marks[i] == is_future_layer(#[trigger] fv[i], disk_consistent_lsn),
                layers_view(rest@) == fv.skip(t),
                self.layers@ == (LayerMapModel { historic: base.historic + kept_layers(fv, marks, t), ..base }),
                layers_view(backups@) == removed_layers(fv, marks, t),
                self.last_record_lsn == old(self).last_record_lsn,
                self.disk_consistent_lsn == old(self).disk_consistent_lsn,
            decreases rest@.len(),
        {
            let ghost before = layers_view(rest@);
            assert(before.len() == rest@.len());
            let l = rest.remove(0);
            assert(l@ == fv[t]) by {
                assert(before[0] == fv.skip(t)[0]);
            }
            assert(layers_view(rest@) =~= before.subrange(1, before.len() as int));
            let future = if l.is_image { l.lsn_start > disk_consistent_lsn } else { l.lsn_end > disk_consistent_lsn + 1 };
            assert(future == marks[t]);
            if future {
                let ghost bb = layers_view(backups@);
                backups.push(l);
                assert(layers_view(backups@) =~= bb.push(fv[t]));
            } else {
                self.layers.insert_historic(l);
                assert(base.historic + kept_layers(fv, marks, t + 1) =~= (base.historic + kept_layers(fv, marks, t)).push(fv[t]));
            }
            proof { t = t + 1; }
            assert(layers_view(rest@) =~= fv.skip(t));
        }
        assert(fv.skip(t).len() == 0);
        self.layers.next_open_layer_at = Some(disk_consistent_lsn + 1);
        backups
    }
}

/// After `finish_write(new_lsn)`, `wait_lsn(new_lsn)` holds at once: the last
/// record LSN has reached `new_lsn`.
pub proof fn lemma_wait_after_finish_write(before: LayeredTimeline, after: LayeredTimeline, new_lsn: Lsn)
    requires
        after.last_record_lsn == (crate::timeline::RecordLsn { last: new_lsn, prev: before.last_record_lsn.last }),
    ensures
        after.last_record_lsn.last >= new_lsn,
{
}

/// Frozen layer `f` can be flushed against the watermark `dcl`: it is frozen
/// past `dcl` and every key in it has a successor.
pub open spec fn frozen_flushable(f: crate::inmemory_layer::InMemoryModel, dcl: Lsn) -> bool {
    &&& f.end_lsn.is_some()
    &&& f.end_lsn.unwrap() >= 1
    &&& f.end_lsn.unwrap() - 1 >= dcl
    &&& forall|i: int| 0 <= i < f.versions.len() ==> (#[trigger] f.versions[i]).0 <= crate::inmemory_layer::MAX_STORED_KEY
}

/// The oldest frozen layer can be flushed.
pub open spec fn flushable(t: LayeredTimeline) -> bool {
    frozen_flushable(t.layers@.frozen_layers[0], t.disk_consistent_lsn)
}

/// The layer map after a checkpoint froze the open layer and flushed every
/// frozen layer.
pub open spec fn flushed_map(t: LayeredTimeline) -> LayerMapModel {
    let fs = frozen_after_freeze(t);
    LayerMapModel {
        open_layer: None,
        frozen_layers: Seq::empty(),
        historic: t.layers@.historic + flushed_deltas(fs, fs.len() as int),
        next_open_layer_at: if t.layers@.open_layer.is_some() {
            Some((t.last_record_lsn.last + 1) as Lsn)
        } else {
            t.layers@.next_open_layer_at
        },
    }
}

/// The frozen layers once the open layer, if any, is frozen at the last record LSN plus one.
pub open spec fn frozen_after_freeze(t: LayeredTimeline) -> Seq<crate::inmemory_layer::InMemoryModel> {
    match t.layers@.open_layer {
        Some(o) => t.layers@.frozen_layers.push(crate::inmemory_layer::InMemoryModel {
            end_lsn: Some((t.last_record_lsn.last + 1) as Lsn),
            ..o
        }),
        None => t.layers@.frozen_layers,
    }
}

/// The level-0 delta that flushing frozen layer `f` adds, if it holds versions.
pub open spec fn flushed_delta(f: crate::inmemory_layer::InMemoryModel) -> LayerModel {
    LayerModel {
        is_image: false,
        level0: true,
        key_range: (f.versions[0].0, (f.versions.last().0 + 1) as Key),
        lsn_range: (f.start_lsn, f.end_lsn.unwrap()),
        versions: f.versions,
    }
}

/// The deltas that flushing `fs[..n]` in order adds.
pub open spec fn flushed_deltas(fs: Seq<crate::inmemory_layer::InMemoryModel>, n: int) -> Seq<LayerModel>
    decreases n,
{
    if n <= 0 {
        Seq::empty()
    } else if fs[n - 1].versions.len() == 0 {
        flushed_deltas(fs, n - 1)
    } else {
        flushed_deltas(fs, n - 1).push(flushed_delta(fs[n - 1]))
    }
}

impl LayeredTimeline {
    /// Whether the oldest frozen layer can be flushed (see `flushable`).
    pub fn front_is_flushable(&self) -> (r: bool)
        requires
            self.layers@.frozen_layers.len() > 0,
        ensures
            r == flushable(*self),
    {
        let f = &self.layers.frozen_layers[0];
        assert(self.layers@.frozen_layers[0] == f@);
        let end = match f.end_lsn {
            Some(e) => e,
            None => return false,
        };
        if end < 1 || end - 1 < self.disk_consistent_lsn {
            return false;
        }
        let mut i: usize = 0;
        while i < f.versions.len()
            invariant
                i <= f.versions@.len(),
                self.layers@.frozen_layers.len() > 0,
                self.layers@.frozen_layers[0] == f@,
                f.end_lsn == Some(end),
                end >= 1 && end - 1 >= self.disk_consistent_lsn,
                forall|q: int| 0 <= q < i ==> (#[trigger] f@.versions[q]).0 <= crate::inmemory_layer::MAX_STORED_KEY,
            decreases f.versions@.len() - i,
        {
            assert(f@.versions[i as int] == f.versions@[i as int]@);
            if f.versions[i].key > crate::inmemory_layer::MAX_STORED_KEY {
                assert(f@.versions[i as int].0 > crate::inmemory_layer::MAX_STORED_KEY);
                return false;
            }
            i = i + 1;
        }
        true
    }

    /// Flushes the frozen layers, oldest first, until none is left, and returns
    /// the metadata for a watermark at the end of the last one (`None` where
    /// there was none, or the watermark would not move). Every frozen layer
    /// must be flushable against the current watermark (see
    /// `frozen_flushable`); the first that is not stops the flush with
    /// `CorruptLayer`. The watermark itself is published by the caller.
    pub fn flush_frozen_layers(&mut self) -> (r: Result<Option<crate::timeline::TimelineMetadata>, crate::timeline::TimelineError>)
        requires
            timeline_wf(*old(self)),
        ensures
            timeline_wf(*final(self)),
            ({
                let fs = old(self).layers@.frozen_layers;
                &&& (r is Ok <==> forall|k: int| 0 <= k < fs.len() ==> #[trigger] frozen_flushable(fs[k], old(self).disk_consistent_lsn))
                &&& (r is Err ==> r == Err::<Option<crate::timeline::TimelineMetadata>, crate::timeline::TimelineError>(crate::timeline::TimelineError::CorruptLayer))
                &&& (r is Err ==> exists|k: int| 0 <= k < fs.len() && !#[trigger] frozen_flushable(fs[k], old(self).disk_consistent_lsn)
                        && (forall|j: int| 0 <= j < k ==> frozen_flushable(fs[j], old(self).disk_consistent_lsn))
                        && final(self).layers@.frozen_layers == fs.skip(k)
                        && final(self).layers@.historic == old(self).layers@.historic + flushed_deltas(fs, k))
                &&& (r is Ok ==> final(self).layers@.frozen_layers.len() == 0
                    && final(self).layers@.historic == old(self).layers@.historic + flushed_deltas(fs, fs.len() as int)
                    && r.unwrap() == (if fs.len() == 0 { None } else {
                        crate::timeline::flush_metadata(*old(self), (fs.last().end_lsn.unwrap() - 1) as Lsn)
                    }))
            }),
            final(self).layers@.open_layer == old(self).layers@.open_layer,
            final(self).layers@.next_open_layer_at == old(self).layers@.next_open_layer_at,
            final(self).disk_consistent_lsn == old(self).disk_consistent_lsn,
            final(self).last_record_lsn == old(self).last_record_lsn,
            final(self).latest_gc_cutoff_lsn == old(self).latest_gc_cutoff_lsn,
            final(self).ancestor == old(self).ancestor,
            final(self).ancestor_lsn == old(self).ancestor_lsn,
            final(self).conf == old(self).conf,
            final(self).gc_info == old(self).gc_info,
            final(self).initdb_lsn == old(self).initdb_lsn,
            final(self).ancestor_id == old(self).ancestor_id,
    {
        let mut last: Option<crate::timeline::TimelineMetadata> = None;
        let ghost fs = self.layers@.frozen_layers;
        let ghost mut k: int = 0;
        assert(fs.skip(0) =~= fs);
        assert(self.layers@.historic + flushed_deltas(fs, 0) =~= self.layers@.historic);
        while self.layers.frozen_layers.len() > 0
            invariant
                timeline_wf(*self),
                fs == old(self).layers@.frozen_layers,
                0 <= k <= fs.len(),
                self.layers@.frozen_layers == fs.skip(k),
                self.layers@.historic == old(self).layers@.historic + flushed_deltas(fs, k),
                forall|j: int| 0 <= j < k ==> #[trigger] frozen_flushable(fs[j], old(self).disk_consistent_lsn),
                last == (if k == 0 { None } else { crate::timeline::flush_metadata(*old(self), (fs[k - 1].end_lsn.unwrap() - 1) as Lsn) }),
                self.layers@.open_layer == old(self).layers@.open_layer,
                self.layers@.next_open_layer_at == old(self).layers@.next_open_layer_at,
                self.disk_consistent_lsn == old(self).disk_consistent_lsn,
                self.last_record_lsn == old(self).last_record_lsn,
                self.latest_gc_cutoff_lsn == old(self).latest_gc_cutoff_lsn,
                self.ancestor == old(self).ancestor,
                self.ancestor_lsn == old(self).ancestor_lsn,
                self.conf == old(self).conf,
                self.gc_info == old(self).gc_info,
                self.initdb_lsn == old(self).initdb_lsn,
                self.ancestor_id == old(self).ancestor_id,
            decreases self.layers@.frozen_layers.len(),
        {
            assert(self.layers@.frozen_layers[0] == fs[k]);
            if !self.front_is_flushable() {
                assert(!frozen_flushable(fs[k], old(self).disk_consistent_lsn));
                return Err(crate::timeline::TimelineError::CorruptLayer);
            }
            let ghost hb = self.layers@.historic;
            let md = self.flush_frozen_layer();
            last = md;
            proof {
                assert(self.layers@.frozen_layers =~= fs.skip(k + 1));
                if fs[k].versions.len() > 0 {
                    assert(self.layers@.historic =~= hb.push(flushed_delta(fs[k])));
                    assert(old(self).layers@.historic + flushed_deltas(fs, k + 1)
                        =~= (old(self).layers@.historic + flushed_deltas(fs, k)).push(flushed_delta(fs[k])));
                }
                k = k + 1;
            }
        }
        assert(fs.skip(k).len() == 0);
        assert(k == fs.len());
        Ok(last)
    }

    /// A checkpoint: the open layer is frozen at the last record LSN plus one
    /// and every frozen layer flushed (see `flush_frozen_layers`); a forced one
    /// then compacts level-0 deltas (see `level0_compaction`). Returns the
    /// metadata of the flush.
    pub fn checkpoint(&mut self, forced: bool) -> (r: Result<Option<crate::timeline::TimelineMetadata>, crate::timeline::TimelineError>)
        requires
            timeline_wf(*old(self)),
            old(self).last_record_lsn.last < u64::MAX,
        ensures
            timeline_wf(*final(self)),
            ({
                let fs = frozen_after_freeze(*old(self));
                let flushed_ok = forall|k: int| 0 <= k < fs.len() ==> #[trigger] frozen_flushable(fs[k], old(self).disk_consistent_lsn);
                let md = if fs.len() == 0 { None } else {
                    crate::timeline::flush_metadata(*old(self), (fs.last().end_lsn.unwrap() - 1) as Lsn)
                };
                let mid = flushed_map(*old(self));
                if !flushed_ok {
                    r == Err::<Option<crate::timeline::TimelineMetadata>, crate::timeline::TimelineError>(crate::timeline::TimelineError::CorruptLayer)
                } else if !forced {
                    r == Ok::<Option<crate::timeline::TimelineMetadata>, crate::timeline::TimelineError>(md) && final(self).layers@ == mid
                } else {
                    exists|c: Result<bool, crate::timeline::TimelineError>| #[trigger] level0_compaction(mid, final(self).layers@, old(self).conf.compaction_threshold, old(self).conf.compaction_target_size, c)
                        && r == (match c {
                            Ok(_) => Ok::<Option<crate::timeline::TimelineMetadata>, crate::timeline::TimelineError>(md),
                            Err(e) => Err(e),
                        })
                }
            }),
            final(self).disk_consistent_lsn == old(self).disk_consistent_lsn,
            final(self).last_record_lsn == old(self).last_record_lsn,
    {
        let ghost t0 = *self;
        self.freeze_inmem_layer();
        assert(self.layers@.frozen_layers == frozen_after_freeze(t0));
        let ghost t1 = *self;
        let md = self.flush_frozen_layers();
        proof {
            let fs = frozen_after_freeze(t0);
            if fs.len() > 0 {
                assert(crate::timeline::flush_metadata(t1, (fs.last().end_lsn.unwrap() - 1) as Lsn)
                    == crate::timeline::flush_metadata(t0, (fs.last().end_lsn.unwrap() - 1) as Lsn));
            }
        }
        if md.is_err() || !forced {
            proof {
                if md.is_ok() {
                    assert(self.layers@.frozen_layers =~= Seq::<crate::inmemory_layer::InMemoryModel>::empty());
                    assert(self.layers@ =~= (LayerMapModel {
                        open_layer: None,
                        frozen_layers: Seq::empty(),
                        historic: t0.layers@.historic + flushed_deltas(frozen_after_freeze(t0), frozen_after_freeze(t0).len() as int),
                        next_open_layer_at: if t0.layers@.open_layer.is_some() {
                            Some((t0.last_record_lsn.last + 1) as Lsn)
                        } else {
                            t0.layers@.next_open_layer_at
                        },
                    }));
                }
            }
            return md;
        }
        let ghost mid = self.layers@;
        assert(self.layers@.frozen_layers =~= Seq::<crate::inmemory_layer::InMemoryModel>::empty());
        let c = self.compact_level0();
        proof {
            assert(mid =~= (LayerMapModel {
                open_layer: None,
                frozen_layers: Seq::empty(),
                historic: t0.layers@.historic + flushed_deltas(frozen_after_freeze(t0), frozen_after_freeze(t0).len() as int),
                next_open_layer_at: if t0.layers@.open_layer.is_some() {
                    Some((t0.last_record_lsn.last + 1) as Lsn)
                } else {
                    t0.layers@.next_open_layer_at
                },
            }));
            assert(level0_compaction(mid, self.layers@, t0.conf.compaction_threshold, t0.conf.compaction_target_size, c));
        }
        let r = match c {
            Ok(_) => md,
            Err(e) => Err(e),
        };
        proof {
            let fs = frozen_after_freeze(*old(self));
            let mds = if fs.len() == 0 { None } else {
                crate::timeline::flush_metadata(*old(self), (fs.last().end_lsn.unwrap() - 1) as Lsn)
            };
            assert(md == Ok::<Option<crate::timeline::TimelineMetadata>, crate::timeline::TimelineError>(mds));
            assert(forall|k: int| 0 <= k < fs.len() ==> #[trigger] frozen_flushable(fs[k], old(self).disk_consistent_lsn));
            assert(mid == flushed_map(*old(self)));
            assert(level0_compaction(mid, self.layers@, old(self).conf.compaction_threshold, old(self).conf.compaction_target_size, c) && r == (match c {
                Ok(_) => Ok::<Option<crate::timeline::TimelineMetadata>, crate::timeline::TimelineError>(mds),
                Err(e) => Err(e),
            }));
        }
        r
    }
}

} // verus!
