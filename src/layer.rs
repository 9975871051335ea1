//! The layer contract: scanning stored versions of one key, newest first,
//! for the data needed to reconstruct a page, and immutable historic layers.
use vstd::prelude::*;
use crate::value::{
    Key, Lsn, PageVersion, Value, ValueModel, ValueReconstructResult, ValueReconstructState,
    StateModel, VersionModel, versions_view,
};

verus! {

/// The state after adding a WAL record, newest first.
pub open spec fn push_record(st: StateModel, lsn: Lsn, rec: (bool, Seq<u8>)) -> StateModel {
    StateModel { records: st.records.push((lsn, rec)), img: st.img }
}

/// Walks `vs[..i]` from the back, adding every version of `key` whose LSN is in
/// `[floor, cont)` to `st`, until an image or an initializing WAL record is met.
/// Returns the new state and whether such a version was met.
pub open spec fn scan_versions(
    vs: Seq<VersionModel>,
    i: int,
    key: Key,
    floor: Lsn,
    cont: Lsn,
    st: StateModel,
) -> (StateModel, bool)
    decreases i,
{
    if i <= 0 {
        (st, false)
    } else {
        let v = vs[i - 1];
        if v.0 == key && floor <= v.1 && v.1 < cont {
            match v.2 {
                ValueModel::Image(b) => (StateModel { records: st.records, img: Some((v.1, b)) }, true),
                ValueModel::Record(will_init, rec) => {
                    let st2 = push_record(st, v.1, (will_init, rec));
                    if will_init {
                        (st2, true)
                    } else {
                        scan_versions(vs, i - 1, key, floor, cont, st2)
                    }
                },
            }
        } else {
            scan_versions(vs, i - 1, key, floor, cont, st)
        }
    }
}

/// Adds to `state` the versions of `key` in `[floor, cont)` held in `vs`, newest
/// first, stopping at an image or an initializing record; returns whether it stopped so.
pub fn collect_versions(
    vs: &Vec<PageVersion>,
    key: Key,
    floor: Lsn,
    cont: Lsn,
    state: &mut ValueReconstructState,
) -> (complete: bool)
    ensures
        (final(state)@, complete) == scan_versions(versions_view(vs@), vs@.len() as int, key, floor, cont, old(state)@),
{
    let ghost vsm = versions_view(vs@);
    let ghost target = scan_versions(vsm, vs@.len() as int, key, floor, cont, state@);
    let mut i: usize = vs.len();
    while i > 0
        invariant
            i <= vs@.len(),
            vsm == versions_view(vs@),
            target == scan_versions(vsm, vs@.len() as int, key, floor, cont, old(state)@),
            target == scan_versions(vsm, i as int, key, floor, cont, state@),
        decreases i,
    {
        let v = &vs[i - 1];
        assert(vsm[i - 1] == v@);
        if v.key == key && floor <= v.lsn && v.lsn < cont {
            match &v.value {
                Value::Image(b) => {
                    let ghost before = state@;
                    state.img = Some((v.lsn, b.clone()));
                    assert(state@.records =~= before.records);
                    assert(state@ == StateModel { records: before.records, img: Some((v.lsn, b@)) });
                    return true;
                },
                Value::WalRecord(r) => {
                    let ghost before = state@;
                    state.records.push((v.lsn, clone_record(r)));
                    assert(state@.records =~= before.records.push((v.lsn, r@)));
                    assert(state@ == push_record(before, v.lsn, r@));
                    if r.will_init {
                        return true;
                    }
                },
            }
        }
        i = i - 1;
    }
    false
}

/// Copy of a WAL record.
pub fn clone_record(r: &crate::value::WalRecord) -> (c: crate::value::WalRecord)
    ensures
        c@ == r@,
{
    crate::value::WalRecord { will_init: r.will_init, rec: r.rec.clone() }
}

} // verus!

verus! {

/// Model of an immutable on-disk layer.
pub struct LayerModel {
    pub is_image: bool,
    pub level0: bool,
    pub key_range: (Key, Key),
    pub lsn_range: (Lsn, Lsn),
    pub versions: Seq<VersionModel>,
}

/// An immutable on-disk layer: a delta layer holds arbitrary versions over a
/// key range and an LSN range; an image layer holds page images of a key range
/// at the single LSN `lsn_start` (its LSN range is `[lsn, lsn + 1)`).
pub struct HistoricLayer {
    pub is_image: bool,
    /// A delta layer written straight from an in-memory layer, not yet
    /// reshuffled by compaction.
    pub level0: bool,
    pub key_start: Key,
    pub key_end: Key,
    pub lsn_start: Lsn,
    pub lsn_end: Lsn,
    pub versions: Vec<PageVersion>,
}

impl View for HistoricLayer {
    type V = LayerModel;

    open spec fn view(&self) -> LayerModel {
        LayerModel {
            is_image: self.is_image,
            level0: self.level0,
            key_range: (self.key_start, self.key_end),
            lsn_range: (self.lsn_start, self.lsn_end),
            versions: versions_view(self.versions@),
        }
    }
}

/// What a historic layer answers to a reconstruction query for `key` over `[floor, cont)`.
pub open spec fn layer_read(l: LayerModel, key: Key, floor: Lsn, cont: Lsn, st: StateModel) -> (StateModel, ValueReconstructResult) {
    let (st2, complete) = scan_versions(l.versions, l.versions.len() as int, key, floor, cont, st);
    if complete {
        (st2, ValueReconstructResult::Complete)
    } else if l.is_image && floor <= l.lsn_range.0 {
        (st2, ValueReconstructResult::Missing)
    } else {
        (st2, ValueReconstructResult::Continue)
    }
}

impl HistoricLayer {
    /// Adds to `state` what this layer holds for `key` over `[floor, cont)`. An
    /// image layer whose image lies in that range and has no image of `key`
    /// answers `Missing`.
    pub fn get_value_reconstruct_data(&self, key: Key, floor: Lsn, cont: Lsn, state: &mut ValueReconstructState) -> (r: ValueReconstructResult)
        ensures
            (final(state)@, r) == layer_read(self@, key, floor, cont, old(state)@),
    {
        let complete = collect_versions(&self.versions, key, floor, cont, state);
        if complete {
            ValueReconstructResult::Complete
        } else if self.is_image && floor <= self.lsn_start {
            ValueReconstructResult::Missing
        } else {
            ValueReconstructResult::Continue
        }
    }

    /// Whether this is a delta layer (its values may depend on older layers).
    pub fn is_incremental(&self) -> (r: bool)
        ensures
            r == !self.is_image,
    {
        !self.is_image
    }
}

} // verus!
