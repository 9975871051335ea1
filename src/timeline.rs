//! A timeline: its layer map and LSN watermarks, the write path, freezing and
//! flushing, and the read path that walks layers, newest first, through the
//! timeline and its ancestors.
use vstd::prelude::*;
use crate::value::{Key, Lsn, Value, ValueReconstructResult, StateModel};
use crate::layer::{HistoricLayer, layer_read};
use crate::inmemory_layer::{InMemoryLayer, InMemoryModel, inmem_wf, put_into, MAX_STORED_KEY};
use crate::layer_map::{LayerMap, LayerMapModel, map_wf, search_spec};

verus! {

/// Errors of the timeline's operations.
#[derive(PartialEq, Eq, Structural, Clone, Copy, Debug)]
pub enum TimelineError {
    /// No data for the key at the LSN.
    NotFound,
    /// The LSN is before the latest GC cutoff.
    LsnOutOfScope,
    /// The WAL did not arrive in time.
    WaitTimeout,
    /// The WAL-redo collaborator failed.
    RedoFailed,
    /// The ancestor timeline is not loaded.
    AncestorNotLoaded,
    /// A write at or below the last record LSN.
    LsnNotAfterLast,
    /// The open layer starts after the LSN being written.
    OpenLayerInFuture,
    /// A layer's contents are out of order or out of its bounds.
    CorruptLayer,
}

/// The end of the last WAL record processed, and the start of that record.
#[derive(PartialEq, Eq, Structural, Clone, Copy, Debug)]
pub struct RecordLsn {
    pub last: Lsn,
    pub prev: Lsn,
}

/// Tunable limits of a timeline.
#[derive(PartialEq, Eq, Structural, Clone, Copy, Debug)]
pub struct TimelineConf {
    /// WAL distance or open-layer size that triggers a freeze.
    pub checkpoint_distance: u64,
    /// Desired size of a level-1 delta file.
    pub compaction_target_size: u64,
    /// Minimum number of level-0 deltas before compaction runs.
    pub compaction_threshold: usize,
    /// Minimum number of deltas over one range that calls for a new image layer.
    pub image_creation_threshold: usize,
}

/// How much history garbage collection must keep.
pub struct GcInfo {
    /// Fork points of child branches.
    pub retain_lsns: Vec<Lsn>,
    /// Keep everything newer than this.
    pub horizon_cutoff: Lsn,
    /// Keep everything newer than this, for point-in-time recovery.
    pub pitr_cutoff: Lsn,
}

/// The metadata persisted for a timeline.
#[derive(PartialEq, Eq, Structural, Clone, Copy, Debug)]
pub struct TimelineMetadata {
    pub disk_consistent_lsn: Lsn,
    pub prev_record_lsn: Option<Lsn>,
    pub ancestor_timeline: Option<u128>,
    pub ancestor_lsn: Lsn,
    pub latest_gc_cutoff_lsn: Lsn,
    pub initdb_lsn: Lsn,
}

/// What the WAL receiver last got for a timeline.
pub struct WalReceiverInfo {
    pub wal_source_connstr: String,
    pub last_received_msg_lsn: Lsn,
    pub last_received_msg_ts: u128,
}

pub struct LayeredTimeline {
    pub timeline_id: u128,
    pub layers: LayerMap,
    pub last_record_lsn: RecordLsn,
    /// Everything up to this LSN is durable on disk.
    pub disk_consistent_lsn: Lsn,
    pub last_freeze_at: Lsn,
    /// Index of the parent timeline in the repository, and its id.
    pub ancestor: Option<usize>,
    pub ancestor_id: Option<u128>,
    /// Fork point on the parent.
    pub ancestor_lsn: Lsn,
    pub latest_gc_cutoff_lsn: Lsn,
    pub gc_info: GcInfo,
    pub initdb_lsn: Lsn,
    pub conf: TimelineConf,
    pub current_logical_size: i64,
    /// The last message of the WAL receiver, if any came.
    pub last_received_wal: Option<WalReceiverInfo>,
}

/// The timeline's invariants: ordered in-memory layers, and a next open layer
/// start exactly when no layer is open.
pub open spec fn timeline_wf(t: LayeredTimeline) -> bool {
    &&& map_wf(t.layers@)
    &&& (t.layers@.open_layer.is_none() <==> t.layers@.next_open_layer_at.is_some())
    &&& (t.layers@.open_layer.is_some() ==> t.layers@.open_layer.unwrap().end_lsn.is_none())
}

pub open spec fn max_lsn(a: int, b: int) -> int {
    if a >= b { a } else { b }
}

/// `b` is `a` with, at most, another layer map.
pub open spec fn same_but_layers(a: LayeredTimeline, b: LayeredTimeline) -> bool {
    &&& b.timeline_id == a.timeline_id
    &&& b.last_record_lsn == a.last_record_lsn
    &&& b.disk_consistent_lsn == a.disk_consistent_lsn
    &&& b.last_freeze_at == a.last_freeze_at
    &&& b.ancestor == a.ancestor
    &&& b.ancestor_id == a.ancestor_id
    &&& b.ancestor_lsn == a.ancestor_lsn
    &&& b.latest_gc_cutoff_lsn == a.latest_gc_cutoff_lsn
    &&& b.gc_info == a.gc_info
    &&& b.initdb_lsn == a.initdb_lsn
    &&& b.conf == a.conf
    &&& b.current_logical_size == a.current_logical_size
    &&& b.last_received_wal == a.last_received_wal
}

/// The metadata that a flush up to `dcl` asks to persist: `None` where the
/// watermark would not move; the previous record LSN only where everything up
/// to the last record is durable.
pub open spec fn flush_metadata(t: LayeredTimeline, dcl: Lsn) -> Option<TimelineMetadata> {
    if dcl == t.disk_consistent_lsn {
        None
    } else {
        Some(TimelineMetadata {
            disk_consistent_lsn: dcl,
            prev_record_lsn: if dcl == t.last_record_lsn.last { Some(t.last_record_lsn.prev) } else { None },
            ancestor_timeline: t.ancestor_id,
            ancestor_lsn: t.ancestor_lsn,
            latest_gc_cutoff_lsn: t.latest_gc_cutoff_lsn,
            initdb_lsn: t.initdb_lsn,
        })
    }
}

/// Index of the newest layer in `fs[..n]` that starts below `cont`.
pub open spec fn frozen_pick(fs: Seq<InMemoryModel>, n: int, cont: Lsn) -> Option<int>
    decreases n,
{
    if n <= 0 {
        None
    } else if fs[n - 1].start_lsn < cont {
        Some(n - 1)
    } else {
        frozen_pick(fs, n - 1, cont)
    }
}

/// What an in-memory layer answers for `key` over `[floor, cont)`.
pub open spec fn inmem_read(m: InMemoryModel, key: Key, floor: Lsn, cont: Lsn, st: StateModel) -> (StateModel, ValueReconstructResult) {
    let (st2, complete) = crate::layer::scan_versions(m.versions, m.versions.len() as int, key, floor, cont, st);
    (st2, if complete { ValueReconstructResult::Complete } else { ValueReconstructResult::Continue })
}

/// One step of the read path on one timeline.
pub enum ReadStep {
    /// A layer was read: new state, its answer, and the LSN to continue below.
    Read(StateModel, ValueReconstructResult, Lsn),
    /// Nothing on this timeline: continue below this LSN on the ancestor.
    Ancestor(Lsn),
    /// Nothing anywhere.
    Nothing,
}

/// The layer consulted for `key` below `cont`: the open layer, then the frozen
/// layers newest first, then the historic layer that `search` picks; each read
/// from `max(cached + 1, start)` up.
pub open spec fn layer_step(m: LayerMapModel, has_ancestor: bool, ancestor_lsn: Lsn, key: Key, cont: Lsn, cached: Lsn, st: StateModel) -> ReadStep {
    if m.open_layer.is_some() && m.open_layer.unwrap().start_lsn < cont {
        let o = m.open_layer.unwrap();
        let floor = max_lsn(cached + 1, o.start_lsn as int) as Lsn;
        let (s, r) = inmem_read(o, key, floor, cont, st);
        ReadStep::Read(s, r, floor)
    } else {
        match frozen_pick(m.frozen_layers, m.frozen_layers.len() as int, cont) {
            Some(j) => {
                let f = m.frozen_layers[j];
                let floor = max_lsn(cached + 1, f.start_lsn as int) as Lsn;
                let (s, r) = inmem_read(f, key, floor, cont, st);
                ReadStep::Read(s, r, floor)
            },
            None => match search_spec(m.historic, m.historic.len() as int, key, cont) {
                Some(i) => {
                    let floor = max_lsn(cached + 1, m.historic[i].lsn_range.0 as int) as Lsn;
                    let (s, r) = layer_read(m.historic[i], key, floor, cont, st);
                    ReadStep::Read(s, r, floor)
                },
                None => if has_ancestor {
                    ReadStep::Ancestor((ancestor_lsn + 1) as Lsn)
                } else {
                    ReadStep::Nothing
                },
            },
        }
    }
}

/// The data the read path gathers for `key`, continuing below `cont` on
/// timeline `tl` of `tls`, with a cached image at `cached` (0: none): layers are
/// read newest first until one completes the page; below its fork point a
/// timeline hands over to its ancestor.
pub open spec fn traverse(tls: Seq<LayeredTimeline>, tl: int, key: Key, cont: Lsn, cached: Lsn, st: StateModel) -> Result<StateModel, TimelineError>
    decreases tl, cont,
{
    if !(0 <= tl < tls.len()) {
        Err(TimelineError::AncestorNotLoaded)
    } else if cont <= cached + 1 {
        Ok(st)
    } else {
        let t = tls[tl];
        if cont - 1 <= t.ancestor_lsn && t.ancestor.is_some() {
            let a = t.ancestor.unwrap() as int;
            if a < tl {
                traverse(tls, a, key, cont, cached, st)
            } else {
                Err(TimelineError::AncestorNotLoaded)
            }
        } else {
            match layer_step(t.layers@, t.ancestor.is_some(), t.ancestor_lsn, key, cont, cached, st) {
                ReadStep::Read(s, r, c2) => match r {
                    ValueReconstructResult::Complete => Ok(s),
                    ValueReconstructResult::Missing => Err(TimelineError::NotFound),
                    ValueReconstructResult::Continue => if c2 < cont {
                        traverse(tls, tl, key, c2, cached, s)
                    } else {
                        Err(TimelineError::NotFound)
                    },
                },
                ReadStep::Ancestor(c2) => if c2 < cont {
                    traverse(tls, tl, key, c2, cached, st)
                } else {
                    Err(TimelineError::NotFound)
                },
                ReadStep::Nothing => Err(TimelineError::NotFound),
            }
        }
    }
}

/// The layers a read consults, as `traverse` walks them: for each layer read,
/// the timeline, the LSN the read continues below afterwards, and the
/// layer's answer.
pub open spec fn traverse_path(tls: Seq<LayeredTimeline>, tl: int, key: Key, cont: Lsn, cached: Lsn, st: StateModel) -> Seq<(usize, Lsn, ValueReconstructResult)>
    decreases tl, cont,
{
    if !(0 <= tl < tls.len()) {
        Seq::empty()
    } else if cont <= cached + 1 {
        Seq::empty()
    } else {
        let t = tls[tl];
        if cont - 1 <= t.ancestor_lsn && t.ancestor.is_some() {
            let a = t.ancestor.unwrap() as int;
            if a < tl {
                traverse_path(tls, a, key, cont, cached, st)
            } else {
                Seq::empty()
            }
        } else {
            match layer_step(t.layers@, t.ancestor.is_some(), t.ancestor_lsn, key, cont, cached, st) {
                ReadStep::Read(s, r, c2) => {
                    let here = seq![(tl as usize, c2, r)];
                    if r == ValueReconstructResult::Continue && c2 < cont {
                        here + traverse_path(tls, tl, key, c2, cached, s)
                    } else {
                        here
                    }
                },
                ReadStep::Ancestor(c2) => if c2 < cont {
                    traverse_path(tls, tl, key, c2, cached, st)
                } else {
                    Seq::empty()
                },
                ReadStep::Nothing => Seq::empty(),
            }
        }
    }
}

/// LSN of the cached image in a state, 0 when there is none.
pub open spec fn cached_lsn_of(st: StateModel) -> Lsn {
    match st.img {
        Some(p) => p.0,
        None => 0,
    }
}

impl LayeredTimeline {
    /// The last record LSN.
    pub fn get_last_record_lsn(&self) -> (r: Lsn)
        ensures
            r == self.last_record_lsn.last,
    {
        self.last_record_lsn.last
    }

    /// The start of the last record.
    pub fn get_prev_record_lsn(&self) -> (r: Lsn)
        ensures
            r == self.last_record_lsn.prev,
    {
        self.last_record_lsn.prev
    }

    /// The last and previous record LSNs.
    pub fn get_last_record_rlsn(&self) -> (r: RecordLsn)
        ensures
            r == self.last_record_lsn,
    {
        self.last_record_lsn
    }

    /// The durable watermark.
    pub fn get_disk_consistent_lsn(&self) -> (r: Lsn)
        ensures
            r == self.disk_consistent_lsn,
    {
        self.disk_consistent_lsn
    }

    /// The fork point on the parent.
    pub fn get_ancestor_lsn(&self) -> (r: Lsn)
        ensures
            r == self.ancestor_lsn,
    {
        self.ancestor_lsn
    }

    /// The parent's id.
    pub fn get_ancestor_timeline_id(&self) -> (r: Option<u128>)
        ensures
            r == self.ancestor_id,
    {
        self.ancestor_id
    }

    /// The latest GC cutoff.
    pub fn get_latest_gc_cutoff_lsn(&self) -> (r: Lsn)
        ensures
            r == self.latest_gc_cutoff_lsn,
    {
        self.latest_gc_cutoff_lsn
    }

    /// Rejects a read at an LSN before the latest GC cutoff.
    pub fn check_lsn_is_in_scope(&self, lsn: Lsn) -> (r: Result<(), TimelineError>)
        ensures
            r is Ok <==> lsn >= self.latest_gc_cutoff_lsn,
            r is Err ==> r == Err::<(), TimelineError>(TimelineError::LsnOutOfScope),
    {
        if lsn >= self.latest_gc_cutoff_lsn {
            Ok(())
        } else {
            Err(TimelineError::LsnOutOfScope)
        }
    }

    /// One step of waiting for WAL up to `lsn`: `Ok(true)` once it has arrived,
    /// `Ok(false)` to keep waiting, `WaitTimeout` once the wait's deadline
    /// passed without it.
    pub fn wait_lsn_step(&self, lsn: Lsn, deadline_passed: bool) -> (r: Result<bool, TimelineError>)
        ensures
            self.last_record_lsn.last >= lsn ==> r == Ok::<bool, TimelineError>(true),
            self.last_record_lsn.last < lsn && !deadline_passed ==> r == Ok::<bool, TimelineError>(false),
            self.last_record_lsn.last < lsn && deadline_passed ==> r == Err::<bool, TimelineError>(TimelineError::WaitTimeout),
    {
        if self.last_record_lsn.last >= lsn {
            Ok(true)
        } else if deadline_passed {
            Err(TimelineError::WaitTimeout)
        } else {
            Ok(false)
        }
    }

    /// How far the last record LSN must move past the last partitioning
    /// before the key space is partitioned again: a tenth of the checkpoint distance.
    pub fn repartition_threshold(&self) -> (r: u64)
        ensures
            r == self.conf.checkpoint_distance / 10,
    {
        self.conf.checkpoint_distance / 10
    }

    /// Whether a wait for `lsn` is over: WAL has arrived up to it.
    pub fn wait_lsn(&self, lsn: Lsn) -> (r: bool)
        ensures
            r == (self.last_record_lsn.last >= lsn),
    {
        self.last_record_lsn.last >= lsn
    }

    /// The layer to write at `lsn`: the open layer, created at
    /// `next_open_layer_at` where none is open.
    fn get_layer_for_write(&mut self, lsn: Lsn) -> (r: Result<(), TimelineError>)
        requires
            timeline_wf(*old(self)),
        ensures
            timeline_wf(*final(self)),
            r is Ok <==> (lsn > old(self).last_record_lsn.last && !(old(self).layers@.open_layer.is_some()
                && old(self).layers@.open_layer.unwrap().start_lsn > lsn)),
            r is Err ==> *final(self) == *old(self),
            r is Err ==> r == Err::<(), TimelineError>(if lsn <= old(self).last_record_lsn.last { TimelineError::LsnNotAfterLast } else { TimelineError::OpenLayerInFuture }),
            r is Ok ==> final(self).layers@.open_layer.is_some(),
            r is Ok ==> final(self).layers@.open_layer.unwrap() == (match old(self).layers@.open_layer {
                Some(o) => o,
                None => InMemoryModel { start_lsn: old(self).layers@.next_open_layer_at.unwrap(), end_lsn: None,
                    versions: Seq::empty(), tombstones: Seq::empty(), size: 0, relsizes: Seq::empty() },
            }),
            r is Ok ==> final(self).layers@.frozen_layers == old(self).layers@.frozen_layers,
            r is Ok ==> final(self).layers@.historic == old(self).layers@.historic,
            final(self).last_record_lsn == old(self).last_record_lsn,
            final(self).disk_consistent_lsn == old(self).disk_consistent_lsn,
            final(self).ancestor == old(self).ancestor,
            final(self).ancestor_lsn == old(self).ancestor_lsn,
            final(self).latest_gc_cutoff_lsn == old(self).latest_gc_cutoff_lsn,
    {
        if lsn <= self.last_record_lsn.last {
            return Err(TimelineError::LsnNotAfterLast);
        }
        match &self.layers.open_layer {
            Some(o) => {
                if o.start_lsn > lsn {
                    return Err(TimelineError::OpenLayerInFuture);
                }
                Ok(())
            },
            None => {
                let start_lsn = self.layers.next_open_layer_at.unwrap();
                let ghost fz = self.layers@.frozen_layers;
                self.layers.open_layer = Some(InMemoryLayer::create(start_lsn));
                self.layers.next_open_layer_at = None;
                assert(self.layers@.frozen_layers == fz);
                assert(inmem_wf(self.layers@.open_layer.unwrap()));
                Ok(())
            },
        }
    }

    /// Stores `value` for `key` at `lsn`, which must be after the last record LSN.
    pub fn put_value(&mut self, key: Key, lsn: Lsn, value: Value) -> (r: Result<(), TimelineError>)
        requires
            timeline_wf(*old(self)),
            key <= MAX_STORED_KEY,
        ensures
            timeline_wf(*final(self)),
            r is Ok <==> (lsn > old(self).last_record_lsn.last && !(old(self).layers@.open_layer.is_some()
                && old(self).layers@.open_layer.unwrap().start_lsn > lsn)),
            r is Err ==> *final(self) == *old(self),
            r is Ok ==> {
                let before = match old(self).layers@.open_layer {
                    Some(o) => o,
                    None => InMemoryModel { start_lsn: old(self).layers@.next_open_layer_at.unwrap(), end_lsn: None,
                        versions: Seq::empty(), tombstones: Seq::empty(), size: 0, relsizes: Seq::empty() },
                };
                let after = final(self).layers@.open_layer.unwrap();
                &&& final(self).layers@.open_layer.is_some()
                &&& put_into(before.versions, (key, lsn, value@), after.versions)
                &&& after.start_lsn == before.start_lsn
                &&& after.end_lsn.is_none()
            },
            r is Ok ==> final(self).layers@.frozen_layers == old(self).layers@.frozen_layers,
            r is Ok ==> final(self).layers@.historic == old(self).layers@.historic,
            final(self).last_record_lsn == old(self).last_record_lsn,
            final(self).ancestor == old(self).ancestor,
            final(self).ancestor_lsn == old(self).ancestor_lsn,
    {
        let r = self.get_layer_for_write(lsn);
        if r.is_err() {
            return r;
        }
        let mut o = self.layers.open_layer.take().unwrap();
        o.put_value(key, lsn, value);
        self.layers.open_layer = Some(o);
        Ok(())
    }

    /// Records the deletion of `[key_start, key_end)` at `lsn`.
    pub fn put_tombstone(&mut self, key_start: Key, key_end: Key, lsn: Lsn) -> (r: Result<(), TimelineError>)
        requires
            timeline_wf(*old(self)),
        ensures
            timeline_wf(*final(self)),
            r is Ok <==> (lsn > old(self).last_record_lsn.last && !(old(self).layers@.open_layer.is_some()
                && old(self).layers@.open_layer.unwrap().start_lsn > lsn)),
            r is Err ==> *final(self) == *old(self),
            r is Ok ==> final(self).layers@.open_layer.unwrap().tombstones.last() == (key_start, key_end, lsn),
            final(self).last_record_lsn == old(self).last_record_lsn,
    {
        let r = self.get_layer_for_write(lsn);
        if r.is_err() {
            return r;
        }
        let mut o = self.layers.open_layer.take().unwrap();
        o.put_tombstone(key_start, key_end, lsn);
        self.layers.open_layer = Some(o);
        Ok(())
    }

    /// Advances the last record LSN to `new_lsn`; the previous end becomes `prev`.
    pub fn finish_write(&mut self, new_lsn: Lsn)
        requires
            new_lsn >= old(self).last_record_lsn.last,
        ensures
            final(self).last_record_lsn == (RecordLsn { last: new_lsn, prev: old(self).last_record_lsn.last }),
            final(self).layers == old(self).layers,
            final(self).disk_consistent_lsn == old(self).disk_consistent_lsn,
            final(self).latest_gc_cutoff_lsn == old(self).latest_gc_cutoff_lsn,
    {
        let prev = self.last_record_lsn.last;
        self.last_record_lsn = RecordLsn { last: new_lsn, prev };
    }

    /// Adds `delta` to the logical size, saturating.
    pub fn update_current_logical_size(&mut self, delta: i64)
        ensures
            final(self).current_logical_size as int == if old(self).current_logical_size + delta > i64::MAX {
                i64::MAX as int
            } else if old(self).current_logical_size + delta < i64::MIN {
                i64::MIN as int
            } else {
                old(self).current_logical_size + delta
            },
    {
        let cur = self.current_logical_size;
        self.current_logical_size = if delta > 0 && cur > i64::MAX - delta {
            i64::MAX
        } else if delta < 0 && cur < i64::MIN - delta {
            i64::MIN
        } else {
            cur + delta
        };
    }

    /// Freezes the open layer at `last_record_lsn + 1`, moving it to the back of
    /// the frozen queue; the next open layer starts there.
    pub fn freeze_inmem_layer(&mut self)
        requires
            timeline_wf(*old(self)),
            old(self).last_record_lsn.last < u64::MAX,
        ensures
            timeline_wf(*final(self)),
            final(self).layers@.historic == old(self).layers@.historic,
            final(self).last_record_lsn == old(self).last_record_lsn,
            final(self).disk_consistent_lsn == old(self).disk_consistent_lsn,
            final(self).latest_gc_cutoff_lsn == old(self).latest_gc_cutoff_lsn,
            final(self).ancestor == old(self).ancestor,
            final(self).ancestor_lsn == old(self).ancestor_lsn,
            final(self).ancestor_id == old(self).ancestor_id,
            
            final(self).initdb_lsn == old(self).initdb_lsn,
            final(self).conf == old(self).conf,
            final(self).gc_info == old(self).gc_info,
            old(self).layers@.open_layer.is_none() ==> final(self).layers@ == old(self).layers@ && final(self).last_freeze_at == old(self).last_freeze_at,
            old(self).layers@.open_layer.is_some() ==> {
                let end = (old(self).last_record_lsn.last + 1) as Lsn;
                let o = old(self).layers@.open_layer.unwrap();
                &&& final(self).layers@.open_layer.is_none()
                &&& final(self).layers@.frozen_layers == old(self).layers@.frozen_layers.push(InMemoryModel { end_lsn: Some(end), ..o })
                &&& final(self).layers@.next_open_layer_at == Some(end)
                &&& final(self).last_freeze_at == end
            },
    {
        if self.layers.open_layer.is_some() {
            let end_lsn = self.last_record_lsn.last + 1;
            let mut o = self.layers.open_layer.take().unwrap();
            o.freeze(end_lsn);
            let ghost before = self.layers@.frozen_layers;
            assert(inmem_wf(o@));
            self.layers.frozen_layers.push(o);
            assert(self.layers@.frozen_layers =~= before.push(o@));
            assert forall|i: int| 0 <= i < self.layers@.frozen_layers.len() implies inmem_wf(#[trigger] self.layers@.frozen_layers[i]) by {
                if i < before.len() {
                    assert(before == old(self).layers@.frozen_layers);
                    assert(inmem_wf(old(self).layers@.frozen_layers[i]));
                }
            }
            self.layers.next_open_layer_at = Some(end_lsn);
            self.last_freeze_at = end_lsn;
        }
    }

    /// The metadata to persist once everything up to `disk_consistent_lsn`
    /// is on disk, or `None` where the watermark would not move.
    pub fn metadata_for_flush(&self, disk_consistent_lsn: Lsn) -> (r: Option<TimelineMetadata>)
        ensures
            r == flush_metadata(*self, disk_consistent_lsn),
    {
        if disk_consistent_lsn == self.disk_consistent_lsn {
            return None;
        }
        let prev_record_lsn = if disk_consistent_lsn == self.last_record_lsn.last {
            Some(self.last_record_lsn.prev)
        } else {
            None
        };
        Some(TimelineMetadata {
            disk_consistent_lsn,
            prev_record_lsn,
            ancestor_timeline: self.ancestor_id,
            ancestor_lsn: self.ancestor_lsn,
            latest_gc_cutoff_lsn: self.latest_gc_cutoff_lsn,
            initdb_lsn: self.initdb_lsn,
        })
    }

    /// Publishes the durable watermark of metadata that the caller has saved
    /// and synced; nothing else changes.
    pub fn update_disk_consistent_lsn(&mut self, saved: &TimelineMetadata)
        requires
            saved.disk_consistent_lsn >= old(self).disk_consistent_lsn,
        ensures
            final(self).disk_consistent_lsn == saved.disk_consistent_lsn,
            final(self).layers == old(self).layers,
            final(self).last_record_lsn == old(self).last_record_lsn,
            final(self).latest_gc_cutoff_lsn == old(self).latest_gc_cutoff_lsn,
            final(self).ancestor == old(self).ancestor,
            final(self).ancestor_lsn == old(self).ancestor_lsn,
            final(self).gc_info == old(self).gc_info,
            final(self).conf == old(self).conf,
            same_but_layers(*old(self), LayeredTimeline { disk_consistent_lsn: old(self).disk_consistent_lsn, ..*final(self) }),
    {
        self.disk_consistent_lsn = saved.disk_consistent_lsn;
    }

    /// Flushes the oldest frozen layer: it leaves the frozen queue and its
    /// versions enter the map as one level-0 delta layer. Returns the metadata
    /// for a watermark at its end LSN minus one; the caller writes the layer
    /// file and the metadata, then publishes the watermark with
    /// `update_disk_consistent_lsn`. A layer with no versions adds no delta.
    pub fn flush_frozen_layer(&mut self) -> (r: Option<TimelineMetadata>)
        requires
            timeline_wf(*old(self)),
            old(self).layers@.frozen_layers.len() > 0,
            old(self).layers@.frozen_layers[0].end_lsn.is_some(),
            old(self).layers@.frozen_layers[0].end_lsn.unwrap() >= 1,
            old(self).layers@.frozen_layers[0].end_lsn.unwrap() - 1 >= old(self).disk_consistent_lsn,
            forall|i: int| 0 <= i < old(self).layers@.frozen_layers[0].versions.len() ==>
                (#[trigger] old(self).layers@.frozen_layers[0].versions[i]).0 <= MAX_STORED_KEY,
        ensures
            timeline_wf(*final(self)),
            ({
                let f = old(self).layers@.frozen_layers[0];
                let end = f.end_lsn.unwrap();
                &&& final(self).layers@.frozen_layers == old(self).layers@.frozen_layers.skip(1)
                &&& final(self).layers@.open_layer == old(self).layers@.open_layer
                &&& final(self).layers@.next_open_layer_at == old(self).layers@.next_open_layer_at
                &&& final(self).layers@.historic == if f.versions.len() == 0 {
                        old(self).layers@.historic
                    } else {
                        old(self).layers@.historic.push(crate::layer::LayerModel {
                            is_image: false,
                            level0: true,
                            key_range: (f.versions[0].0, (f.versions.last().0 + 1) as Key),
                            lsn_range: (f.start_lsn, end),
                            versions: f.versions,
                        })
                    }
                &&& r == flush_metadata(*old(self), (end - 1) as Lsn)
            }),
            final(self).disk_consistent_lsn == old(self).disk_consistent_lsn,
            final(self).gc_info == old(self).gc_info,
            final(self).conf == old(self).conf,
            final(self).initdb_lsn == old(self).initdb_lsn,
            final(self).last_record_lsn == old(self).last_record_lsn,
            final(self).ancestor_id == old(self).ancestor_id,
            same_but_layers(*old(self), *final(self)),
            final(self).last_record_lsn == old(self).last_record_lsn,
            final(self).latest_gc_cutoff_lsn == old(self).latest_gc_cutoff_lsn,
            final(self).ancestor == old(self).ancestor,
            final(self).ancestor_lsn == old(self).ancestor_lsn,
    {
        let ghost fz = self.layers@.frozen_layers;
        let frozen = self.layers.frozen_layers.remove(0);
        assert(self.layers@.frozen_layers =~= fz.skip(1));
        assert(frozen@ == fz[0]);
        assert forall|i: int| 0 <= i < self.layers@.frozen_layers.len() implies inmem_wf(#[trigger] self.layers@.frozen_layers[i]) by {
            assert(self.layers@.frozen_layers[i] == fz[i + 1]);
            assert(inmem_wf(old(self).layers@.frozen_layers[i + 1]));
        }
        let end = frozen.end_lsn.unwrap();
        if frozen.versions.len() > 0 {
            assert(frozen@.versions.last() == frozen.versions@.last()@);
            let delta = frozen.write_to_disk();
            self.layers.insert_historic(delta);
        }
        self.metadata_for_flush(end - 1)
    }

    /// Whether the oldest frozen layer is the initial import: it spans exactly
    /// `[initdb_lsn, initdb_lsn + 1)`.
    pub fn front_is_initial_import(&self) -> (r: bool)
        requires
            self.layers@.frozen_layers.len() > 0,
        ensures
            r == (self.initdb_lsn < u64::MAX && self.layers@.frozen_layers[0].start_lsn == self.initdb_lsn
                && self.layers@.frozen_layers[0].end_lsn == Some((self.initdb_lsn + 1) as Lsn)),
    {
        let f = &self.layers.frozen_layers[0];
        assert(self.layers@.frozen_layers[0] == f@);
        self.initdb_lsn < u64::MAX && f.start_lsn == self.initdb_lsn && f.end_lsn == Some(self.initdb_lsn + 1)
    }

    /// Flushes the oldest frozen layer as the given image layers instead of a
    /// delta: it leaves the frozen queue and the images enter the map. Returns
    /// the metadata for a watermark at its end LSN minus one.
    pub fn flush_frozen_layer_as_images(&mut self, images: Vec<HistoricLayer>) -> (r: Option<TimelineMetadata>)
        requires
            timeline_wf(*old(self)),
            old(self).layers@.frozen_layers.len() > 0,
            old(self).layers@.frozen_layers[0].end_lsn.is_some(),
            old(self).layers@.frozen_layers[0].end_lsn.unwrap() >= 1,
            old(self).layers@.frozen_layers[0].end_lsn.unwrap() - 1 >= old(self).disk_consistent_lsn,
        ensures
            timeline_wf(*final(self)),
            final(self).layers@.frozen_layers == old(self).layers@.frozen_layers.skip(1),
            final(self).layers@.open_layer == old(self).layers@.open_layer,
            final(self).layers@.historic == old(self).layers@.historic + images@.map_values(|l: HistoricLayer| l@),
            final(self).layers@.next_open_layer_at == old(self).layers@.next_open_layer_at,
            r == flush_metadata(*old(self), (old(self).layers@.frozen_layers[0].end_lsn.unwrap() - 1) as Lsn),
            final(self).disk_consistent_lsn == old(self).disk_consistent_lsn,
            final(self).gc_info == old(self).gc_info,
            final(self).conf == old(self).conf,
            final(self).initdb_lsn == old(self).initdb_lsn,
            final(self).ancestor_id == old(self).ancestor_id,
            same_but_layers(*old(self), *final(self)),
            final(self).last_record_lsn == old(self).last_record_lsn,
            final(self).latest_gc_cutoff_lsn == old(self).latest_gc_cutoff_lsn,
            final(self).ancestor == old(self).ancestor,
            final(self).ancestor_lsn == old(self).ancestor_lsn,
    {
        let ghost fz = self.layers@.frozen_layers;
        let frozen = self.layers.frozen_layers.remove(0);
        assert(self.layers@.frozen_layers =~= fz.skip(1));
        assert(frozen@ == fz[0]);
        assert forall|i: int| 0 <= i < self.layers@.frozen_layers.len() implies inmem_wf(#[trigger] self.layers@.frozen_layers[i]) by {
            assert(self.layers@.frozen_layers[i] == fz[i + 1]);
            assert(inmem_wf(old(self).layers@.frozen_layers[i + 1]));
        }
        let end = frozen.end_lsn.unwrap();
        let ghost iv = images@.map_values(|l: HistoricLayer| l@);
        let ghost base = self.layers@;
        let mut rest = images;
        let ghost mut u: int = 0;
        assert(rest@.map_values(|l: HistoricLayer| l@) =~= iv.skip(0));
        assert(base.historic + iv.take(0) =~= base.historic);
        while rest.len() > 0
            invariant
                timeline_wf(*self),
                0 <= u <= iv.len(),
                rest@.map_values(|l: HistoricLayer| l@) == iv.skip(u),
                self.layers@ == (LayerMapModel { historic: base.historic + iv.take(u), ..base }),
                self.last_record_lsn == old(self).last_record_lsn,
                self.disk_consistent_lsn == old(self).disk_consistent_lsn,
                self.latest_gc_cutoff_lsn == old(self).latest_gc_cutoff_lsn,
                self.ancestor == old(self).ancestor,
                self.ancestor_lsn == old(self).ancestor_lsn,
                self.gc_info == old(self).gc_info,
                self.conf == old(self).conf,
                self.initdb_lsn == old(self).initdb_lsn,
                self.ancestor_id == old(self).ancestor_id,
                self.layers@.next_open_layer_at == old(self).layers@.next_open_layer_at,
                self.layers@.open_layer == old(self).layers@.open_layer,
                same_but_layers(*old(self), *self),
            decreases rest@.len(),
        {
            let ghost before = rest@.map_values(|l: HistoricLayer| l@);
            assert(before.len() == rest@.len());
            let l = rest.remove(0);
            assert(l@ == iv[u]) by {
                assert(before[0] == iv.skip(u)[0]);
            }
            assert(rest@.map_values(|l: HistoricLayer| l@) =~= before.subrange(1, before.len() as int));
            self.layers.insert_historic(l);
            proof { u = u + 1; }
            assert(rest@.map_values(|l: HistoricLayer| l@) =~= iv.skip(u));
            assert(base.historic + iv.take(u) =~= (base.historic + iv.take(u - 1)).push(iv[u - 1]));
        }
        assert(iv.skip(u).len() == 0);
        assert(iv.take(u) =~= iv);
        self.metadata_for_flush(end - 1)
    }

    /// A timeline opened from its metadata, with an empty layer map whose next
    /// open layer starts after the durable watermark. Last record and last
    /// freeze point start at the durable watermark.
    pub fn new(timeline_id: u128, metadata: TimelineMetadata, ancestor: Option<usize>, conf: TimelineConf) -> (r: LayeredTimeline)
        requires
            metadata.disk_consistent_lsn < u64::MAX,
        ensures
            timeline_wf(r),
            r.timeline_id == timeline_id,
            r.layers@.open_layer.is_none(),
            r.layers@.frozen_layers.len() == 0,
            r.layers@.historic.len() == 0,
            r.layers@.next_open_layer_at == Some((metadata.disk_consistent_lsn + 1) as Lsn),
            r.last_record_lsn == (RecordLsn {
                last: metadata.disk_consistent_lsn,
                prev: match metadata.prev_record_lsn {
                    Some(p) => p,
                    None => 0,
                },
            }),
            r.disk_consistent_lsn == metadata.disk_consistent_lsn,
            r.last_freeze_at == metadata.disk_consistent_lsn,
            r.ancestor == ancestor,
            r.ancestor_id == metadata.ancestor_timeline,
            r.ancestor_lsn == metadata.ancestor_lsn,
            r.latest_gc_cutoff_lsn == metadata.latest_gc_cutoff_lsn,
            r.initdb_lsn == metadata.initdb_lsn,
            r.gc_info.retain_lsns@.len() == 0,
            r.gc_info.horizon_cutoff == 0,
            r.gc_info.pitr_cutoff == 0,
            r.conf == conf,
            r.current_logical_size == 0,
            r.last_received_wal.is_none(),
    {
        let prev = match metadata.prev_record_lsn {
            Some(p) => p,
            None => 0,
        };
        LayeredTimeline {
            timeline_id,
            layers: LayerMap::new(Some(metadata.disk_consistent_lsn + 1)),
            last_record_lsn: RecordLsn { last: metadata.disk_consistent_lsn, prev },
            disk_consistent_lsn: metadata.disk_consistent_lsn,
            last_freeze_at: metadata.disk_consistent_lsn,
            ancestor,
            ancestor_id: metadata.ancestor_timeline,
            ancestor_lsn: metadata.ancestor_lsn,
            latest_gc_cutoff_lsn: metadata.latest_gc_cutoff_lsn,
            gc_info: GcInfo { retain_lsns: Vec::new(), horizon_cutoff: 0, pitr_cutoff: 0 },
            initdb_lsn: metadata.initdb_lsn,
            conf,
            current_logical_size: 0,
            last_received_wal: None,
        }
    }

    /// The logical size, counted incrementally; 0 where the count is negative.
    pub fn get_current_logical_size(&self) -> (r: u64)
        ensures
            r as int == if self.current_logical_size < 0 { 0 } else { self.current_logical_size as int },
    {
        if self.current_logical_size < 0 {
            0
        } else {
            self.current_logical_size as u64
        }
    }

    /// Takes the logical size from the ancestor where nothing happened on
    /// either branch since the fork: this timeline has a parent and its last
    /// record is the fork point, and the parent's size, given with the parent's
    /// last record LSN, is known (non-zero) and was taken at the fork point.
    /// Returns whether it did; otherwise the caller computes the size.
    pub fn init_logical_size(&mut self, ancestor_size: Option<(u64, Lsn)>) -> (r: bool)
        ensures
            r == (old(self).ancestor_lsn == old(self).last_record_lsn.last && old(self).ancestor.is_some() && ancestor_size.is_some()
                && ancestor_size.unwrap().0 != 0 && ancestor_size.unwrap().1 == old(self).ancestor_lsn
                && ancestor_size.unwrap().0 <= i64::MAX),
            r ==> final(self).current_logical_size as int == ancestor_size.unwrap().0 as int,
            !r ==> final(self).current_logical_size == old(self).current_logical_size,
            final(self).layers == old(self).layers,
            final(self).last_record_lsn == old(self).last_record_lsn,
            final(self).ancestor == old(self).ancestor,
            final(self).ancestor_lsn == old(self).ancestor_lsn,
    {
        if self.ancestor_lsn == self.last_record_lsn.last && self.ancestor.is_some() {
            if let Some((size, lsn)) = ancestor_size {
                if size != 0 && lsn == self.ancestor_lsn && size <= i64::MAX as u64 {
                    self.current_logical_size = size as i64;
                    return true;
                }
            }
        }
        false
    }

    /// Sets the logical size computed from the data.
    pub fn set_current_logical_size(&mut self, size: i64)
        ensures
            final(self).current_logical_size == size,
            final(self).layers == old(self).layers,
            final(self).last_record_lsn == old(self).last_record_lsn,
            final(self).ancestor == old(self).ancestor,
            final(self).ancestor_lsn == old(self).ancestor_lsn,
    {
        self.current_logical_size = size;
    }
}

} // verus!

verus! {

/// A timeline of the repository: loaded (by index), or known only by its metadata.
pub enum LayeredTimelineEntry {
    Loaded(usize),
    Unloaded { id: u128, metadata: TimelineMetadata },
}

/// The entry names a loaded timeline that exists, or is unloaded.
pub open spec fn entry_valid(e: LayeredTimelineEntry, tls: Seq<LayeredTimeline>) -> bool {
    match e {
        LayeredTimelineEntry::Loaded(i) => i < tls.len(),
        LayeredTimelineEntry::Unloaded { .. } => true,
    }
}

impl LayeredTimelineEntry {
    /// The timeline's id.
    pub fn timeline_id(&self, tls: &Vec<LayeredTimeline>) -> (r: u128)
        requires
            entry_valid(*self, tls@),
        ensures
            r == match *self {
                LayeredTimelineEntry::Loaded(i) => tls@[i as int].timeline_id,
                LayeredTimelineEntry::Unloaded { id, .. } => id,
            },
    {
        match self {
            LayeredTimelineEntry::Loaded(i) => tls[*i].timeline_id,
            LayeredTimelineEntry::Unloaded { id, .. } => *id,
        }
    }

    /// The parent's id.
    pub fn ancestor_timeline_id(&self, tls: &Vec<LayeredTimeline>) -> (r: Option<u128>)
        requires
            entry_valid(*self, tls@),
        ensures
            r == match *self {
                LayeredTimelineEntry::Loaded(i) => tls@[i as int].ancestor_id,
                LayeredTimelineEntry::Unloaded { metadata, .. } => metadata.ancestor_timeline,
            },
    {
        match self {
            LayeredTimelineEntry::Loaded(i) => tls[*i].ancestor_id,
            LayeredTimelineEntry::Unloaded { metadata, .. } => metadata.ancestor_timeline,
        }
    }

    /// The fork point on the parent.
    pub fn ancestor_lsn(&self, tls: &Vec<LayeredTimeline>) -> (r: Lsn)
        requires
            entry_valid(*self, tls@),
        ensures
            r == match *self {
                LayeredTimelineEntry::Loaded(i) => tls@[i as int].ancestor_lsn,
                LayeredTimelineEntry::Unloaded { metadata, .. } => metadata.ancestor_lsn,
            },
    {
        match self {
            LayeredTimelineEntry::Loaded(i) => tls[*i].ancestor_lsn,
            LayeredTimelineEntry::Unloaded { metadata, .. } => metadata.ancestor_lsn,
        }
    }

    /// The index of the loaded timeline; an unloaded one is an error.
    pub fn ensure_loaded(&self) -> (r: Result<usize, TimelineError>)
        ensures
            r == match *self {
                LayeredTimelineEntry::Loaded(i) => Ok::<usize, TimelineError>(i),
                LayeredTimelineEntry::Unloaded { .. } => Err(TimelineError::AncestorNotLoaded),
            },
    {
        match self {
            LayeredTimelineEntry::Loaded(i) => Ok(*i),
            LayeredTimelineEntry::Unloaded { .. } => Err(TimelineError::AncestorNotLoaded),
        }
    }
}

} // verus!
