//! The timelines of one tenant, resolved by index, and the read path across a
//! timeline and its ancestors.
use vstd::prelude::*;
use crate::value::{Key, Lsn, WalRecord, ValueReconstructResult, ValueReconstructState, StateModel};
use crate::timeline::{
    traverse_path,
    LayeredTimeline, TimelineError, traverse, layer_step, frozen_pick, cached_lsn_of, ReadStep, max_lsn,
};
use crate::layer::HistoricLayer;
use crate::timeline::timeline_wf;
use crate::layer_map::layers_view;

verus! {

/// The timelines of a tenant. A child names its parent by index, and a parent
/// always stands before its children.
pub struct Repository {
    pub timelines: Vec<LayeredTimeline>,
}

/// The WAL-redo collaborator: applies WAL records, oldest first, to a base
/// image (or to nothing, where the first record initializes the page).
pub trait WalRedoManager {
    /// The page that redo of `records` on `base_img` gives for `key` at
    /// `lsn`, or `None` where redo fails. The default is closed: callers learn
    /// of it only through `request_redo`, and a verified implementation
    /// defines its own.
    closed spec fn redo_output(&self, key: Key, lsn: Lsn, base_img: Option<Seq<u8>>, records: Seq<(Lsn, (bool, Seq<u8>))>) -> Option<Seq<u8>> {
        None
    }

    fn request_redo(&self, key: Key, lsn: Lsn, base_img: Option<Vec<u8>>, records: Vec<(Lsn, WalRecord)>) -> (r: Result<Vec<u8>, WalRedoError>)
        ensures
            r is Ok ==> self.redo_output(key, lsn, opt_bytes(base_img), records_view(records@)) == Some(r.unwrap()@);
}

/// Model of an optional page.
pub open spec fn opt_bytes(b: Option<Vec<u8>>) -> Option<Seq<u8>> {
    match b {
        Some(v) => Some(v@),
        None => None,
    }
}

/// Model of a list of WAL records.
pub open spec fn records_view(rs: Seq<(Lsn, WalRecord)>) -> Seq<(Lsn, (bool, Seq<u8>))> {
    rs.map_values(|r: (Lsn, WalRecord)| (r.0, r.1@))
}

/// What a read returns once WAL redo answered: the page, or `RedoFailed`.
pub fn redo_outcome(r: Result<Vec<u8>, WalRedoError>) -> (out: Result<Vec<u8>, TimelineError>)
    ensures
        match r {
            Ok(b) => out is Ok && out.unwrap()@ == b@,
            Err(_) => out == Err::<Vec<u8>, TimelineError>(TimelineError::RedoFailed),
        },
{
    match r {
        Ok(b) => Ok(b),
        Err(_) => Err(TimelineError::RedoFailed),
    }
}

/// `r` is a result that a read with plan `plan` can give, with `redo` doing
/// WAL redo: a plan's error; a ready image; or, where redo is needed, the
/// page redo gives, or `RedoFailed`.
pub open spec fn read_outcome<R: WalRedoManager>(redo: &R, key: Key, lsn: Lsn, plan: Result<PlanModel, TimelineError>, r: Result<Seq<u8>, TimelineError>) -> bool {
    match plan {
        Err(e) => r == Err::<Seq<u8>, TimelineError>(e),
        Ok(PlanModel::Ready(b)) => r == Ok::<Seq<u8>, TimelineError>(b),
        Ok(PlanModel::Redo(base, recs)) => match r {
            Ok(b) => redo.redo_output(key, lsn, base, recs) == Some(b),
            Err(e) => e == TimelineError::RedoFailed,
        },
    }
}

/// Size of a page.
pub const PAGE_SIZE: usize = 8192;

/// Where a read with plan `plan` giving a page of `len` bytes is memoized:
/// a redo result of exactly a page, at its last record's LSN.
pub open spec fn memo_point(plan: Result<PlanModel, TimelineError>, len: nat) -> Option<Lsn> {
    match plan {
        Ok(PlanModel::Redo(_, recs)) => if len == PAGE_SIZE && recs.len() > 0 { Some(recs.last().0) } else { None },
        _ => None,
    }
}

/// A read result as its model.
pub open spec fn result_view(r: Result<Vec<u8>, TimelineError>) -> Result<Seq<u8>, TimelineError> {
    match r {
        Ok(b) => Ok(b@),
        Err(e) => Err(e),
    }
}

/// The WAL-redo collaborator failed.
#[derive(Debug)]
pub struct WalRedoError {
    pub message: String,
}

/// What is done with gathered data: return an image as it is, or hand a base
/// image and WAL records, oldest first, to WAL redo.
pub enum RedoPlan {
    Ready(Vec<u8>),
    Redo(Option<Vec<u8>>, Vec<(Lsn, WalRecord)>),
}

/// Model of a redo plan.
pub enum PlanModel {
    Ready(Seq<u8>),
    Redo(Option<Seq<u8>>, Seq<(Lsn, (bool, Seq<u8>))>),
}

impl View for RedoPlan {
    type V = PlanModel;

    open spec fn view(&self) -> PlanModel {
        match self {
            RedoPlan::Ready(b) => PlanModel::Ready(b@),
            RedoPlan::Redo(base, recs) => PlanModel::Redo(
                match base {
                    Some(b) => Some(b@),
                    None => None,
                },
                recs@.map_values(|r: (Lsn, WalRecord)| (r.0, r.1@)),
            ),
        }
    }
}

/// The plan for gathered data: no records and an image gives the image; no
/// records and no image, or no image and an oldest record that does not
/// initialize the page, is an error; otherwise WAL redo with the records oldest first.
pub open spec fn plan_spec(st: StateModel) -> Result<PlanModel, TimelineError> {
    if st.records.len() == 0 {
        match st.img {
            Some(p) => Ok(PlanModel::Ready(p.1)),
            None => Err(TimelineError::NotFound),
        }
    } else if st.img.is_none() && !st.records.last().1.0 {
        Err(TimelineError::NotFound)
    } else {
        Ok(PlanModel::Redo(
            match st.img {
                Some(p) => Some(p.1),
                None => None,
            },
            st.records.reverse(),
        ))
    }
}

/// The whole read of `key` at `lsn` on timeline `tl`, up to WAL redo.
pub open spec fn read_plan(tls: Seq<LayeredTimeline>, tl: int, key: Key, lsn: Lsn, cached: Option<(Lsn, Seq<u8>)>) -> Result<PlanModel, TimelineError> {
    if lsn < tls[tl].latest_gc_cutoff_lsn {
        Err(TimelineError::LsnOutOfScope)
    } else if cached.is_some() && cached.unwrap().0 == lsn {
        Ok(PlanModel::Ready(cached.unwrap().1))
    } else {
        let st0 = StateModel { records: Seq::empty(), img: cached };
        match traverse(tls, tl, key, (lsn + 1) as Lsn, cached_lsn_of(st0), st0) {
            Ok(st) => plan_spec(st),
            Err(e) => Err(e),
        }
    }
}

/// Turns gathered data into a redo plan.
pub fn reconstruct_value(state: ValueReconstructState) -> (r: Result<RedoPlan, TimelineError>)
    ensures
        match plan_spec(state@) {
            Ok(p) => r is Ok && r.unwrap()@ == p,
            Err(e) => r == Err::<RedoPlan, TimelineError>(e),
        },
{
    let ghost st = state@;
    let ValueReconstructState { mut records, img } = state;
    if records.len() == 0 {
        return match img {
            Some(p) => Ok(RedoPlan::Ready(p.1)),
            None => Err(TimelineError::NotFound),
        };
    }
    if img.is_none() && !records[records.len() - 1].1.will_init {
        return Err(TimelineError::NotFound);
    }
    let ghost src = st.records;
    let mut asc: Vec<(Lsn, WalRecord)> = Vec::new();
    while records.len() > 0
        invariant
            src == st.records,
            src.len() == records@.len() + asc@.len(),
            records@.map_values(|r: (Lsn, WalRecord)| (r.0, r.1@)) == src.take(records@.len() as int),
            asc@.map_values(|r: (Lsn, WalRecord)| (r.0, r.1@)) == src.reverse().take(asc@.len() as int),
        decreases records@.len(),
    {
        let ghost n = records@.len();
        let ghost a = asc@.len();
        let x = records.pop().unwrap();
        assert(src[n - 1] == (x.0, x.1@)) by {
            assert(src.take(n as int)[n - 1] == src[n - 1]);
        }
        asc.push(x);
        assert(records@.map_values(|r: (Lsn, WalRecord)| (r.0, r.1@)) =~= src.take(records@.len() as int));
        assert(asc@.map_values(|r: (Lsn, WalRecord)| (r.0, r.1@)) =~= src.reverse().take(asc@.len() as int));
    }
    assert(asc@.map_values(|r: (Lsn, WalRecord)| (r.0, r.1@)) =~= src.reverse());
    let base = match img {
        Some(p) => Some(p.1),
        None => None,
    };
    Ok(RedoPlan::Redo(base, asc))
}

impl Repository {
    /// Gathers into `state` what the layers hold for `key` at `request_lsn`,
    /// starting on timeline `tl`.
    pub fn get_reconstruct_data(&self, tl: usize, key: Key, request_lsn: Lsn, state: &mut ValueReconstructState,
        path: &mut Vec<(usize, Lsn, ValueReconstructResult)>) -> (r: Result<(), TimelineError>)
        requires
            request_lsn < u64::MAX,
            cached_lsn_of(old(state)@) <= request_lsn,
        ensures
            match traverse(self.timelines@, tl as int, key, (request_lsn + 1) as Lsn, cached_lsn_of(old(state)@), old(state)@) {
                Ok(s) => r is Ok && final(state)@ == s,
                Err(e) => r == Err::<(), TimelineError>(e),
            },
            final(path)@ == old(path)@ + traverse_path(self.timelines@, tl as int, key, (request_lsn + 1) as Lsn, cached_lsn_of(old(state)@), old(state)@),
    {
        let ghost tls = self.timelines@;
        let cached: Lsn = match &state.img {
            Some(p) => p.0,
            None => 0,
        };
        let ghost target = traverse(tls, tl as int, key, (request_lsn + 1) as Lsn, cached as Lsn, state@);
        let mut cur: usize = tl;
        let mut cont: Lsn = request_lsn + 1;
        loop
            invariant
                tls == self.timelines@,
                cached < u64::MAX,
                target == traverse(tls, tl as int, key, (request_lsn + 1) as Lsn, cached_lsn_of(old(state)@), old(state)@),
                target == traverse(tls, cur as int, key, cont, cached, state@),
                old(path)@ + traverse_path(tls, tl as int, key, (request_lsn + 1) as Lsn, cached_lsn_of(old(state)@), old(state)@)
                    == path@ + traverse_path(tls, cur as int, key, cont, cached, state@),
            decreases cur, cont,
        {
            if cur >= self.timelines.len() {
                return Err(TimelineError::AncestorNotLoaded);
            }
            if cont <= cached + 1 {
                return Ok(());
            }
            let t = &self.timelines[cur];
            if cont - 1 <= t.ancestor_lsn && t.ancestor.is_some() {
                let a = t.ancestor.unwrap();
                if a < cur {
                    cur = a;
                    continue;
                } else {
                    return Err(TimelineError::AncestorNotLoaded);
                }
            }
            let ghost st = state@;
            let ghost step = layer_step(t.layers@, t.ancestor.is_some(), t.ancestor_lsn, key, cont, cached, st);
            let mut read: Option<(ValueReconstructResult, Lsn)> = None;
            match &t.layers.open_layer {
                Some(o) => {
                    if o.start_lsn < cont {
                        let floor = if cached + 1 >= o.start_lsn { cached + 1 } else { o.start_lsn };
                        let res = o.get_value_reconstruct_data(key, floor, cont, state);
                        assert(step == ReadStep::Read(state@, res, floor));
                        read = Some((res, floor));
                    }
                },
                None => {},
            }
            if read.is_none() {
                let fs = &t.layers.frozen_layers;
                let ghost fsm = t.layers@.frozen_layers;
                let mut j: usize = fs.len();
                while j > 0 && fs[j - 1].start_lsn >= cont
                    invariant
                        j <= fs@.len(),
                        fsm == fs@.map_values(|l: crate::inmemory_layer::InMemoryLayer| l@),
                        frozen_pick(fsm, fsm.len() as int, cont) == frozen_pick(fsm, j as int, cont),
                    decreases j,
                {
                    assert(fsm[j - 1] == fs@[j - 1]@);
                    j = j - 1;
                }
                if j > 0 {
                    assert(fsm[j - 1] == fs@[j - 1]@);
                    let f = &fs[j - 1];
                    let floor = if cached + 1 >= f.start_lsn { cached + 1 } else { f.start_lsn };
                    let res = f.get_value_reconstruct_data(key, floor, cont, state);
                    assert(frozen_pick(fsm, j as int, cont) == Some(j - 1));
                    assert(step == ReadStep::Read(state@, res, floor));
                    read = Some((res, floor));
                } else {
                    match t.layers.search(key, cont) {
                        Some(i) => {
                            let l = &t.layers.historic[i];
                            assert(t.layers@.historic[i as int] == l@);
                            let floor = if cached + 1 >= l.lsn_start { cached + 1 } else { l.lsn_start };
                            let res = l.get_value_reconstruct_data(key, floor, cont, state);
                            assert(step == ReadStep::Read(state@, res, floor));
                            read = Some((res, floor));
                        },
                        None => {
                            if t.ancestor.is_some() {
                                let c2 = t.ancestor_lsn + 1;
                                assert(step == ReadStep::Ancestor(c2));
                                cont = c2;
                                continue;
                            } else {
                                return Err(TimelineError::NotFound);
                            }
                        },
                    }
                }
            }
            let (res, floor) = read.unwrap();
            assert(step == ReadStep::Read(state@, res, floor));
            let ghost pb = path@;
            path.push((cur, floor, res));
            assert(path@ == pb + seq![(cur, floor, res)]);
            proof {
                if res == ValueReconstructResult::Continue && floor < cont {
                    assert(traverse_path(tls, cur as int, key, cont, cached, st)
                        == seq![(cur, floor, res)] + traverse_path(tls, cur as int, key, floor, cached, state@));
                    assert(pb + traverse_path(tls, cur as int, key, cont, cached, st)
                        =~= path@ + traverse_path(tls, cur as int, key, floor, cached, state@));
                } else {
                    assert(pb + traverse_path(tls, cur as int, key, cont, cached, st) =~= path@);
                }
            }
            match res {
                ValueReconstructResult::Complete => {
                    return Ok(());
                },
                ValueReconstructResult::Missing => {
                    return Err(TimelineError::NotFound);
                },
                ValueReconstructResult::Continue => {
                    if floor < cont {
                        cont = floor;
                    } else {
                        return Err(TimelineError::NotFound);
                    }
                },
            }
        }
    }

    /// The layers a read of `key` at `lsn` on timeline `tl`, with no cached
    /// image, consults, in order (see `traverse_path`): the context of a read
    /// that fails.
    pub fn read_path(&self, tl: usize, key: Key, lsn: Lsn) -> (r: Vec<(usize, Lsn, ValueReconstructResult)>)
        requires
            lsn < u64::MAX,
        ensures
            r@ == traverse_path(self.timelines@, tl as int, key, (lsn + 1) as Lsn, 0,
                StateModel { records: Seq::empty(), img: None }),
    {
        let mut state = ValueReconstructState { records: Vec::new(), img: None };
        assert(state@.records =~= Seq::<(Lsn, (bool, Seq<u8>))>::empty());
        assert(state@ == (StateModel { records: Seq::empty(), img: None }));
        let mut path: Vec<(usize, Lsn, ValueReconstructResult)> = Vec::new();
        let _ = self.get_reconstruct_data(tl, key, lsn, &mut state, &mut path);
        assert(path@ =~= Seq::<(usize, Lsn, ValueReconstructResult)>::empty() + traverse_path(self.timelines@, tl as int, key, (lsn + 1) as Lsn, 0,
            StateModel { records: Seq::empty(), img: None }));
        path
    }

    /// The page for `key` at `lsn` on timeline `tl` (see `get_with_memo`).
    pub fn get<R: WalRedoManager>(&self, tl: usize, key: Key, lsn: Lsn, cached: Option<(Lsn, Vec<u8>)>, redo: &R) -> (r: Result<Vec<u8>, TimelineError>)
        requires
            tl < self.timelines@.len(),
            lsn < u64::MAX,
            cached.is_some() ==> cached.unwrap().0 <= lsn,
        ensures
            ({
                let c = match cached {
                    Some(p) => Some((p.0, p.1@)),
                    None => None,
                };
                read_outcome(redo, key, lsn, read_plan(self.timelines@, tl as int, key, lsn, c), result_view(r))
            }),
    {
        match self.get_with_memo(tl, key, lsn, cached, redo) {
            Ok((img, _)) => Ok(img),
            Err(e) => Err(e),
        }
    }

    /// The page for `key` at `lsn` on timeline `tl`, and where a WAL-redo result
    /// should enter the page cache: at the LSN of its last record, for a page
    /// of exactly `PAGE_SIZE` bytes. `cached` is the newest
    /// materialized image at or below `lsn`, if the page cache has one. Reads
    /// before the GC cutoff are rejected; a cached image at exactly `lsn` is
    /// returned as it is; otherwise the layers are walked and, where WAL records
    /// were found, WAL redo builds the page.
    pub fn get_with_memo<R: WalRedoManager>(&self, tl: usize, key: Key, lsn: Lsn, cached: Option<(Lsn, Vec<u8>)>, redo: &R) -> (r: Result<(Vec<u8>, Option<Lsn>), TimelineError>)
        requires
            tl < self.timelines@.len(),
            lsn < u64::MAX,
            cached.is_some() ==> cached.unwrap().0 <= lsn,
        ensures
            ({
                let c = match cached {
                    Some(p) => Some((p.0, p.1@)),
                    None => None,
                };
                let plan = read_plan(self.timelines@, tl as int, key, lsn, c);
                &&& read_outcome(redo, key, lsn, plan, match r {
                        Ok(p) => Ok::<Seq<u8>, TimelineError>(p.0@),
                        Err(e) => Err(e),
                    })
                &&& (r is Ok ==> r.unwrap().1 == memo_point(plan, r.unwrap().0@.len()))
            }),
    {
        let t = &self.timelines[tl];
        if lsn < t.latest_gc_cutoff_lsn {
            return Err(TimelineError::LsnOutOfScope);
        }
        if let Some(p) = &cached {
            if p.0 == lsn {
                return Ok((p.1.clone(), None));
            }
        }
        let mut state = ValueReconstructState { records: Vec::new(), img: cached };
        assert(state@.records =~= Seq::<(Lsn, (bool, Seq<u8>))>::empty());
        let mut path: Vec<(usize, Lsn, ValueReconstructResult)> = Vec::new();
        let g = self.get_reconstruct_data(tl, key, lsn, &mut state, &mut path);
        match g {
            Err(e) => Err(e),
            Ok(()) => match reconstruct_value(state) {
                Err(e) => Err(e),
                Ok(RedoPlan::Ready(img)) => Ok((img, None)),
                Ok(RedoPlan::Redo(base, records)) => {
                    let ghost bv = opt_bytes(base);
                    let ghost rv = records_view(records@);
                    let last_lsn: Option<Lsn> = if records.len() > 0 { Some(records[records.len() - 1].0) } else { None };
                    assert(rv.len() > 0 ==> last_lsn == Some(rv.last().0));
                    let out = redo_outcome(redo.request_redo(key, lsn, base, records));
                    assert(read_outcome(redo, key, lsn, Ok(PlanModel::Redo(bv, rv)), result_view(out)));
                    match out {
                        Ok(img) => {
                            let memo = if img.len() == PAGE_SIZE { last_lsn } else { None };
                            Ok((img, memo))
                        },
                        Err(e) => Err(e),
                    }
                },
            },
        }
    }

    /// An image layer at `lsn` of every key in `ranges`, which are ascending
    /// and do not overlap, each key read with `get`. Over
    /// `[first start, last end) x [lsn, lsn + 1)`.
    pub fn create_image_layer<R: WalRedoManager>(&self, tl: usize, ranges: &Vec<(Key, Key)>, lsn: Lsn, redo: &R) -> (r: Result<HistoricLayer, TimelineError>)
        requires
            tl < self.timelines@.len(),
            lsn < u64::MAX,
            ranges@.len() > 0,
            forall|i: int| 0 <= i < ranges@.len() ==> (#[trigger] ranges@[i]).0 <= ranges@[i].1,
            forall|i: int| 0 < i < ranges@.len() ==> ranges@[i - 1].1 <= (#[trigger] ranges@[i]).0,
        ensures
            r is Ok ==> image_layer_for(redo, self.timelines@, tl as int, ranges@, lsn, r.unwrap()@),
            (forall|i: int| 0 <= i < range_keys(ranges@, ranges@.len() as int).len()
                ==> #[trigger] key_ready(self.timelines@, tl as int, range_keys(ranges@, ranges@.len() as int)[i], lsn)) ==> r is Ok,
            r is Err ==> exists|i: int| 0 <= i < range_keys(ranges@, ranges@.len() as int).len()
                && #[trigger] key_outcome(redo, self.timelines@, tl as int, range_keys(ranges@, ranges@.len() as int)[i], lsn,
                    Err::<Seq<u8>, TimelineError>(err_of(r))),
    {
        let ghost ks = ranges@[0].0;
        let ghost ke = ranges@.last().1;
        let mut versions: Vec<crate::value::PageVersion> = Vec::new();
        let mut i: usize = 0;
        while i < ranges.len()
            invariant
                tl < self.timelines@.len(),
                lsn < u64::MAX,
                ranges@.len() > 0,
                ks == ranges@[0].0,
                ke == ranges@.last().1,
                i <= ranges@.len(),
                forall|q: int| 0 <= q < ranges@.len() ==> (#[trigger] ranges@[q]).0 <= ranges@[q].1,
                forall|q: int| 0 < q < ranges@.len() ==> ranges@[q - 1].1 <= (#[trigger] ranges@[q]).0,
                crate::value::versions_sorted(crate::value::versions_view(versions@)),
                forall|q: int| 0 <= q < versions@.len() ==> {
                    &&& (#[trigger] versions@[q]).lsn == lsn
                    &&& versions@[q].value is Image
                    &&& ks <= versions@[q].key
                    &&& (i < ranges@.len() ==> versions@[q].key < ranges@[i as int].0)
                    &&& versions@[q].key < ke
                },
                crate::value::versions_view(versions@).map_values(|v: crate::value::VersionModel| v.0) == range_keys(ranges@, i as int),
                forall|q: int| 0 <= q < versions@.len() ==> #[trigger] key_outcome(redo, self.timelines@, tl as int, versions@[q].key, lsn,
                    Ok::<Seq<u8>, TimelineError>(image_bytes(versions@[q]@.2))),
            decreases ranges@.len() - i,
        {
            proof {
                assert forall|q: int| i <= q < ranges@.len() implies ranges@[i as int].0 <= #[trigger] ranges@[q].0 by {
                    lemma_ranges_ascending(ranges@, i as int, q);
                }
                assert(ranges@[i as int].1 <= ke) by {
                    lemma_ranges_ascending(ranges@, i as int, ranges@.len() - 1);
                }
                assert(ks <= ranges@[i as int].0) by {
                    lemma_ranges_ascending(ranges@, 0, i as int);
                }
            }
            let (start, end) = ranges[i];
            let mut key = start;
            let ghost done = range_keys(ranges@, i as int);
            assert(done + keys_between(start, key) =~= done);
            while key < end
                invariant
                    tl < self.timelines@.len(),
                    lsn < u64::MAX,
                    start <= key <= end,
                    ks <= start,
                    end <= ke,
                    crate::value::versions_sorted(crate::value::versions_view(versions@)),
                    forall|q: int| 0 <= q < versions@.len() ==> {
                        &&& (#[trigger] versions@[q]).lsn == lsn
                        &&& versions@[q].value is Image
                        &&& ks <= versions@[q].key
                        &&& versions@[q].key < key
                        &&& versions@[q].key < ke
                    },
                    crate::value::versions_view(versions@).map_values(|v: crate::value::VersionModel| v.0) == done + keys_between(start, key),
                    forall|q: int| 0 <= q < versions@.len() ==> #[trigger] key_outcome(redo, self.timelines@, tl as int, versions@[q].key, lsn,
                        Ok::<Seq<u8>, TimelineError>(image_bytes(versions@[q]@.2))),
                    i < ranges@.len(),
                    start == ranges@[i as int].0,
                    end == ranges@[i as int].1,
                    done == range_keys(ranges@, i as int),
                decreases end - key,
            {
                let got = self.get(tl, key, lsn, None, redo);
                proof {
                    let ks_all = range_keys(ranges@, ranges@.len() as int);
                    let idx = versions@.len() as int;
                    assert(range_keys(ranges@, i + 1) == done + keys_between(start, end));
                    assert(crate::value::versions_view(versions@).map_values(|v: crate::value::VersionModel| v.0).len() == versions@.len());
                    assert(idx == done.len() + (key - start));
                    assert((done + keys_between(start, end))[idx] == key);
                    assert(idx < range_keys(ranges@, i + 1).len());
                    lemma_range_keys_prefix(ranges@, i + 1, ranges@.len() as int);
                    assert(ks_all[idx] == key);
                    assert(key_outcome(redo, self.timelines@, tl as int, key, lsn, result_view(got)));
                }
                let img = match got {
                    Ok(b) => b,
                    Err(e) => {
                        assert(!key_ready(self.timelines@, tl as int, key, lsn));
                        return Err(e);
                    },
                };
                let ghost vb = crate::value::versions_view(versions@);
                let ghost old_versions = versions@;
                versions.push(crate::value::PageVersion { key, lsn, value: crate::value::Value::Image(img) });
                assert(crate::value::versions_view(versions@) =~= vb.push(versions@.last()@));
                assert(crate::value::versions_view(versions@).map_values(|v: crate::value::VersionModel| v.0)
                    =~= vb.map_values(|v: crate::value::VersionModel| v.0).push(key));
                assert(keys_between(start, (key + 1) as Key) =~= keys_between(start, key).push(key));
                assert(done + keys_between(start, (key + 1) as Key) =~= (done + keys_between(start, key)).push(key));
                assert forall|q: int| 0 <= q < versions@.len() implies #[trigger] key_outcome(redo, self.timelines@, tl as int, versions@[q].key, lsn,
                    Ok::<Seq<u8>, TimelineError>(image_bytes(versions@[q]@.2))) by {
                    if q < old_versions.len() {
                        assert(versions@[q] == old_versions[q]);
                    }
                }
                assert(crate::value::versions_sorted(crate::value::versions_view(versions@))) by {
                    let nv = crate::value::versions_view(versions@);
                    assert forall|a: int, b: int| 0 <= a < b < nv.len() implies crate::value::version_lt(#[trigger] nv[a], #[trigger] nv[b]) by {
                        if b == nv.len() - 1 {
                            assert(nv[a] == versions@[a]@);
                        } else {
                            assert(crate::value::version_lt(vb[a], vb[b]));
                        }
                    }
                }
                key = key + 1;
            }
            assert(range_keys(ranges@, i + 1) == done + keys_between(start, key));
            i = i + 1;
        }
        let layer = HistoricLayer {
            is_image: true,
            level0: false,
            key_start: ranges[0].0,
            key_end: ranges[ranges.len() - 1].1,
            lsn_start: lsn,
            lsn_end: lsn + 1,
            versions,
        };
        assert forall|q: int| 0 <= q < layer@.versions.len() implies #[trigger] key_outcome(redo, self.timelines@, tl as int, layer@.versions[q].0, lsn,
            Ok::<Seq<u8>, TimelineError>(image_bytes(layer@.versions[q].2))) by {
            assert(layer@.versions[q] == layer.versions@[q]@);
        }
        assert forall|q: int| 0 <= q < layer@.versions.len() implies {
            &&& (#[trigger] layer@.versions[q]).1 == lsn
            &&& layer@.versions[q].2 is Image
            &&& layer@.key_range.0 <= layer@.versions[q].0 && layer@.versions[q].0 < layer@.key_range.1
        } by {
            assert(layer@.versions[q] == layer.versions@[q]@);
        }
        Ok(layer)
    }

    /// Compaction of timeline `tl`: for each partition of the key space that
    /// needs one (see `time_for_new_image_layer`), a new image layer at the last
    /// record LSN; then level-0 compaction. Other timelines are left alone.
    #[verifier::spinoff_prover]
    #[verifier::rlimit(60)]
    pub fn compact<R: WalRedoManager>(&mut self, tl: usize, partitions: &Vec<Vec<(Key, Key)>>, redo: &R) -> (r: Result<bool, TimelineError>)
        requires
            tl < old(self).timelines@.len(),
            timeline_wf(old(self).timelines@[tl as int]),
            old(self).timelines@[tl as int].last_record_lsn.last < u64::MAX,
            forall|p: int| 0 <= p < partitions@.len() ==> {
                &&& (#[trigger] partitions@[p])@.len() > 0
                &&& forall|i: int| 0 <= i < partitions@[p]@.len() ==> (#[trigger] partitions@[p]@[i]).0 <= partitions@[p]@[i].1
                &&& forall|i: int| 0 < i < partitions@[p]@.len() ==> partitions@[p]@[i - 1].1 <= (#[trigger] partitions@[p]@[i]).0
            },
        ensures
            final(self).timelines@.len() == old(self).timelines@.len(),
            timeline_wf(final(self).timelines@[tl as int]),
            forall|i: int| 0 <= i < old(self).timelines@.len() && i != tl ==> #[trigger] final(self).timelines@[i] == old(self).timelines@[i],
            ({
                let t = old(self).timelines@[tl as int];
                let lsn = t.last_record_lsn.last;
                let thr = t.conf.image_creation_threshold;
                &&& (r is Err ==> err_of(r) == TimelineError::CorruptLayer || exists|p: int| 0 <= p < partitions@.len()
                        && partition_needs_image(t.layers@, partitions@[p]@, lsn, thr)
                        && #[trigger] partition_read_fails(redo, old(self).timelines@, tl as int, partitions@[p]@, lsn, err_of(r)))
                &&& ((forall|p: int| 0 <= p < partitions@.len() && partition_needs_image(t.layers@, partitions@[p]@, lsn, thr)
                        ==> #[trigger] partition_reads_ok(redo, old(self).timelines@, tl as int, partitions@[p]@, lsn))
                    ==> exists|images: Seq<crate::layer::LayerModel>|
                        #[trigger] images_for(redo, old(self).timelines@, tl as int, t.layers@, partitions@, partitions@.len() as int, lsn, thr, images)
                        && crate::compaction::level0_compaction(with_images(t.layers@, images),
                            final(self).timelines@[tl as int].layers@, t.conf.compaction_threshold, t.conf.compaction_target_size, r))
            }),
    {
        let lsn = self.timelines[tl].last_record_lsn.last;
        let mut images: Vec<HistoricLayer> = Vec::new();
        let mut p: usize = 0;
        while p < partitions.len()
            invariant
                tl < self.timelines@.len(),
                lsn < u64::MAX,
                *self == *old(self),
                lsn == old(self).timelines@[tl as int].last_record_lsn.last,
                timeline_wf(self.timelines@[tl as int]),
                p <= partitions@.len(),
                images_for(redo, old(self).timelines@, tl as int, old(self).timelines@[tl as int].layers@, partitions@, p as int, lsn,
                    old(self).timelines@[tl as int].conf.image_creation_threshold, layers_view(images@)),
                forall|q: int| 0 <= q < partitions@.len() ==> {
                    &&& (#[trigger] partitions@[q])@.len() > 0
                    &&& forall|i: int| 0 <= i < partitions@[q]@.len() ==> (#[trigger] partitions@[q]@[i]).0 <= partitions@[q]@[i].1
                    &&& forall|i: int| 0 < i < partitions@[q]@.len() ==> partitions@[q]@[i - 1].1 <= (#[trigger] partitions@[q]@[i]).0
                },
            decreases partitions@.len() - p,
        {
            let part = &partitions[p];
            if self.timelines[tl].time_for_new_image_layer(part, lsn) {
                assert(partition_needs_image(self.timelines@[tl as int].layers@, partitions@[p as int]@, lsn,
                    self.timelines@[tl as int].conf.image_creation_threshold));
                let img = match self.create_image_layer(tl, part, lsn, redo) {
                    Ok(l) => l,
                    Err(e) => {
                        proof {
                            assert(partition_read_fails(redo, old(self).timelines@, tl as int, partitions@[p as int]@, lsn, e));
                            assert(!partition_reads_ok(redo, old(self).timelines@, tl as int, partitions@[p as int]@, lsn));
                            let t = old(self).timelines@[tl as int];
                            assert(partition_needs_image(t.layers@, partitions@[p as int]@, t.last_record_lsn.last, t.conf.image_creation_threshold));
                            assert(!(forall|q: int| 0 <= q < partitions@.len() && partition_needs_image(t.layers@, partitions@[q]@, t.last_record_lsn.last, t.conf.image_creation_threshold)
                                ==> #[trigger] partition_reads_ok(redo, old(self).timelines@, tl as int, partitions@[q]@, t.last_record_lsn.last)));
                            assert(err_of(Err::<bool, TimelineError>(e)) == e);
                        }
                        return Err(e);
                    },
                };
                let ghost ib = layers_view(images@);
                images.push(img);
                assert(layers_view(images@).drop_last() =~= ib);
            }
            p = p + 1;
        }
        let ghost before = self.timelines@[tl as int];
        let r = self.timelines[tl].compact(images);
        proof {
            assert(with_images(before.layers@, layers_view(images@)) == crate::layer_map::LayerMapModel {
                historic: before.layers@.historic + layers_view(images@), ..before.layers@ });
        }
        r
    }
}

/// Some range of a partition needs a new image layer (see `time_for_new_image_layer`).
pub open spec fn partition_needs_image(m: crate::layer_map::LayerMapModel, part: Seq<(Key, Key)>, lsn: Lsn, threshold: usize) -> bool {
    exists|i: int| 0 <= i < part.len() && #[trigger] crate::maintenance::range_needs_image(m, part[i].0, part[i].1, lsn, threshold)
}

/// Every key of a partition reads at `lsn` as an image that needs no WAL redo.
pub open spec fn partition_reads_ok<R: WalRedoManager>(redo: &R, tls: Seq<LayeredTimeline>, tl: int, part: Seq<(Key, Key)>, lsn: Lsn) -> bool {
    forall|i: int| 0 <= i < range_keys(part, part.len() as int).len()
        ==> #[trigger] key_ready(tls, tl, range_keys(part, part.len() as int)[i], lsn)
}

/// Some key of a partition reads at `lsn` with error `e`.
pub open spec fn partition_read_fails<R: WalRedoManager>(redo: &R, tls: Seq<LayeredTimeline>, tl: int, part: Seq<(Key, Key)>, lsn: Lsn, e: TimelineError) -> bool {
    exists|i: int| 0 <= i < range_keys(part, part.len() as int).len()
        && #[trigger] key_outcome(redo, tls, tl, range_keys(part, part.len() as int)[i], lsn, Err::<Seq<u8>, TimelineError>(e))
}

/// `images` are the image layers at `lsn`, in order, of those partitions of
/// `parts[..n]` that need one in `m` (see `partition_needs_image`).
pub open spec fn images_for<R: WalRedoManager>(redo: &R, tls: Seq<LayeredTimeline>, tl: int, m: crate::layer_map::LayerMapModel,
    parts: Seq<Vec<(Key, Key)>>, n: int, lsn: Lsn, threshold: usize, images: Seq<crate::layer::LayerModel>) -> bool
    decreases n,
{
    if n <= 0 {
        images.len() == 0
    } else if partition_needs_image(m, parts[n - 1]@, lsn, threshold) {
        images.len() > 0 && image_layer_for(redo, tls, tl, parts[n - 1]@, lsn, images.last())
            && images_for(redo, tls, tl, m, parts, n - 1, lsn, threshold, images.drop_last())
    } else {
        images_for(redo, tls, tl, m, parts, n - 1, lsn, threshold, images)
    }
}

/// A layer map with `images` added.
pub open spec fn with_images(m: crate::layer_map::LayerMapModel, images: Seq<crate::layer::LayerModel>) -> crate::layer_map::LayerMapModel {
    crate::layer_map::LayerMapModel { historic: m.historic + images, ..m }
}

/// The keys of `[s, e)`, ascending.
pub open spec fn keys_between(s: Key, e: Key) -> Seq<Key> {
    Seq::new((e - s) as nat, |i: int| (s + i) as Key)
}

/// The keys of `rs[..n]`, range after range.
pub open spec fn range_keys(rs: Seq<(Key, Key)>, n: int) -> Seq<Key>
    decreases n,
{
    if n <= 0 {
        Seq::empty()
    } else {
        range_keys(rs, n - 1) + keys_between(rs[n - 1].0, rs[n - 1].1)
    }
}

/// `l` is the image layer of `ranges` at `lsn` on timeline `tl`: over
/// `[first start, last end) x [lsn, lsn + 1)`, with one image per key of the
/// ranges, in order, each what a read of that key at `lsn` gives.
pub open spec fn image_layer_for<R: WalRedoManager>(redo: &R, tls: Seq<LayeredTimeline>, tl: int, ranges: Seq<(Key, Key)>, lsn: Lsn, l: crate::layer::LayerModel) -> bool {
    &&& l.is_image
    &&& !l.level0
    &&& l.key_range == (ranges[0].0, ranges.last().1)
    &&& l.lsn_range == (lsn, (lsn + 1) as Lsn)
    &&& crate::value::versions_sorted(l.versions)
    &&& l.versions.map_values(|v: crate::value::VersionModel| v.0) == range_keys(ranges, ranges.len() as int)
    &&& forall|i: int| 0 <= i < l.versions.len() ==> #[trigger] key_outcome(redo, tls, tl, l.versions[i].0, lsn,
            Ok::<Seq<u8>, TimelineError>(image_bytes(l.versions[i].2)))
    &&& forall|i: int| 0 <= i < l.versions.len() ==> {
            &&& (#[trigger] l.versions[i]).1 == lsn
            &&& l.versions[i].2 is Image
            &&& l.key_range.0 <= l.versions[i].0 && l.versions[i].0 < l.key_range.1
        }
}

/// `r` is a result that a read of `key` at `lsn` on timeline `tl`, without a
/// cached image, can give.
pub open spec fn key_outcome<R: WalRedoManager>(redo: &R, tls: Seq<LayeredTimeline>, tl: int, key: Key, lsn: Lsn, r: Result<Seq<u8>, TimelineError>) -> bool {
    read_outcome(redo, key, lsn, read_plan(tls, tl, key, lsn, None), r)
}

/// A read of `key` at `lsn` on timeline `tl` finds an image as it is: no WAL
/// redo decides it.
pub open spec fn key_ready(tls: Seq<LayeredTimeline>, tl: int, key: Key, lsn: Lsn) -> bool {
    read_plan(tls, tl, key, lsn, None) matches Ok(PlanModel::Ready(_))
}

/// The bytes of an image value.
pub open spec fn image_bytes(v: crate::value::ValueModel) -> Seq<u8> {
    match v {
        crate::value::ValueModel::Image(b) => b,
        crate::value::ValueModel::Record(_, b) => b,
    }
}

/// The error of a failed result.
pub open spec fn err_of<T>(r: Result<T, TimelineError>) -> TimelineError {
    match r {
        Ok(_) => TimelineError::NotFound,
        Err(e) => e,
    }
}

/// `range_keys(rs, a)` is a prefix of `range_keys(rs, b)` for `a <= b`.
proof fn lemma_range_keys_prefix(rs: Seq<(Key, Key)>, a: int, b: int)
    requires
        0 <= a <= b <= rs.len(),
    ensures
        range_keys(rs, a).len() <= range_keys(rs, b).len(),
        forall|j: int| 0 <= j < range_keys(rs, a).len() ==> #[trigger] range_keys(rs, b)[j] == range_keys(rs, a)[j],
    decreases b - a,
{
    if a < b {
        lemma_range_keys_prefix(rs, a, b - 1);
        assert forall|j: int| 0 <= j < range_keys(rs, b - 1).len() implies #[trigger] range_keys(rs, b)[j] == range_keys(rs, b - 1)[j] by {
        }
    }
}

/// Ranges that follow one another start in ascending order.
proof fn lemma_ranges_ascending(rs: Seq<(Key, Key)>, a: int, b: int)
    requires
        0 <= a <= b < rs.len(),
        forall|i: int| 0 <= i < rs.len() ==> (#[trigger] rs[i]).0 <= rs[i].1,
        forall|i: int| 0 < i < rs.len() ==> rs[i - 1].1 <= (#[trigger] rs[i]).0,
    ensures
        rs[a].0 <= rs[b].0,
        rs[a].1 <= rs[b].1,
        a < b ==> rs[a].1 <= rs[b].0,
    decreases b - a,
{
    if a < b {
        lemma_ranges_ascending(rs, a, b - 1);
        assert(rs[b - 1].1 <= rs[b].0);
    }
}

} // verus!

verus! {

/// `t2` is `t` after a value was put at `nv.1` into its existing open layer.
pub open spec fn written_later(t: LayeredTimeline, t2: LayeredTimeline, nv: crate::value::VersionModel) -> bool {
    &&& t.layers@.open_layer.is_some()
    &&& t2.layers@.open_layer.is_some()
    &&& t2.layers@.open_layer.unwrap().start_lsn == t.layers@.open_layer.unwrap().start_lsn
    &&& crate::inmemory_layer::put_into(t.layers@.open_layer.unwrap().versions, nv, t2.layers@.open_layer.unwrap().versions)
    &&& t2.layers@.frozen_layers == t.layers@.frozen_layers
    &&& t2.layers@.historic == t.layers@.historic
    &&& t2.ancestor == t.ancestor
    &&& t2.ancestor_lsn == t.ancestor_lsn
    &&& t2.latest_gc_cutoff_lsn == t.latest_gc_cutoff_lsn
}

proof fn lemma_traverse_later_write(
    tls: Seq<LayeredTimeline>,
    tls2: Seq<LayeredTimeline>,
    w: int,
    nv: crate::value::VersionModel,
    tl: int,
    key: Key,
    cont: Lsn,
    cached: Lsn,
    st: StateModel,
)
    requires
        0 <= w < tls.len(),
        tls2.len() == tls.len(),
        forall|i: int| 0 <= i < tls.len() && i != w ==> tls2[i] == tls[i],
        written_later(tls[w], tls2[w], nv),
        cont <= nv.1,
    ensures
        traverse(tls2, tl, key, cont, cached, st) == traverse(tls, tl, key, cont, cached, st),
    decreases tl, cont,
{
    if 0 <= tl < tls.len() && !(cont <= cached + 1) {
        let t = tls[tl];
        let t2 = tls2[tl];
        if cont - 1 <= t.ancestor_lsn && t.ancestor.is_some() {
            let a = t.ancestor.unwrap() as int;
            if a < tl {
                lemma_traverse_later_write(tls, tls2, w, nv, a, key, cont, cached, st);
            }
        } else {
            let s1 = layer_step(t.layers@, t.ancestor.is_some(), t.ancestor_lsn, key, cont, cached, st);
            let s2 = layer_step(t2.layers@, t2.ancestor.is_some(), t2.ancestor_lsn, key, cont, cached, st);
            if tl == w {
                let o = t.layers@.open_layer.unwrap();
                let o2 = t2.layers@.open_layer.unwrap();
                if o.start_lsn < cont {
                    let floor = max_lsn(cached + 1, o.start_lsn as int) as Lsn;
                    crate::inmemory_layer::lemma_later_write_invisible(o.versions, nv, o2.versions, key, floor, cont, st);
                }
            }
            assert(s2 == s1);
            match s1 {
                ReadStep::Read(s, r, c2) => {
                    if r == ValueReconstructResult::Continue && c2 < cont {
                        lemma_traverse_later_write(tls, tls2, w, nv, tl, key, c2, cached, s);
                    }
                },
                ReadStep::Ancestor(c2) => {
                    if c2 < cont {
                        lemma_traverse_later_write(tls, tls2, w, nv, tl, key, c2, cached, st);
                    }
                },
                ReadStep::Nothing => {},
            }
        }
    }
}

/// Two reads of `key` at `lsn` give the same data when, in between, the only
/// write was of a version at an LSN above `lsn` into the open layer of one
/// timeline of the repository.
pub proof fn lemma_read_unchanged_by_later_write(
    tls: Seq<LayeredTimeline>,
    tls2: Seq<LayeredTimeline>,
    w: int,
    nv: crate::value::VersionModel,
    tl: int,
    key: Key,
    lsn: Lsn,
    cached: Option<(Lsn, Seq<u8>)>,
)
    requires
        0 <= w < tls.len(),
        0 <= tl < tls.len(),
        tls2.len() == tls.len(),
        forall|i: int| 0 <= i < tls.len() && i != w ==> tls2[i] == tls[i],
        written_later(tls[w], tls2[w], nv),
        lsn < nv.1,
    ensures
        read_plan(tls2, tl, key, lsn, cached) == read_plan(tls, tl, key, lsn, cached),
{
    let st0 = StateModel { records: Seq::empty(), img: cached };
    lemma_traverse_later_write(tls, tls2, w, nv, tl, key, (lsn + 1) as Lsn, cached_lsn_of(st0), st0);
}

impl Repository {
    /// Flushes the oldest frozen layer of timeline `tl`. The initial import,
    /// a frozen layer spanning exactly `[initdb_lsn, initdb_lsn + 1)`, becomes
    /// one image layer at `initdb_lsn` per key-space partition, read through
    /// `get`; any other layer becomes a level-0 delta.
    pub fn flush_frozen_layer<R: WalRedoManager>(&mut self, tl: usize, partitions: &Vec<Vec<(Key, Key)>>, redo: &R)
        -> (r: Result<Option<crate::timeline::TimelineMetadata>, TimelineError>)
        requires
            tl < old(self).timelines@.len(),
            timeline_wf(old(self).timelines@[tl as int]),
            old(self).timelines@[tl as int].layers@.frozen_layers.len() > 0,
            forall|p: int| 0 <= p < partitions@.len() ==> {
                &&& (#[trigger] partitions@[p])@.len() > 0
                &&& forall|i: int| 0 <= i < partitions@[p]@.len() ==> (#[trigger] partitions@[p]@[i]).0 <= partitions@[p]@[i].1
                &&& forall|i: int| 0 < i < partitions@[p]@.len() ==> partitions@[p]@[i - 1].1 <= (#[trigger] partitions@[p]@[i]).0
            },
        ensures
            final(self).timelines@.len() == old(self).timelines@.len(),
            timeline_wf(final(self).timelines@[tl as int]),
            forall|i: int| 0 <= i < old(self).timelines@.len() && i != tl ==> #[trigger] final(self).timelines@[i] == old(self).timelines@[i],
            r is Ok ==> final(self).timelines@[tl as int].layers@.frozen_layers == old(self).timelines@[tl as int].layers@.frozen_layers.skip(1),
            r is Err ==> *final(self) == *old(self),
            ({
                let t = old(self).timelines@[tl as int];
                let f = t.layers@.frozen_layers[0];
                let end = f.end_lsn.unwrap();
                let import = t.initdb_lsn < u64::MAX && f.start_lsn == t.initdb_lsn && f.end_lsn == Some((t.initdb_lsn + 1) as Lsn);
                let after = final(self).timelines@[tl as int];
                &&& (!crate::maintenance::flushable(t) ==> r == Err::<Option<crate::timeline::TimelineMetadata>, TimelineError>(TimelineError::CorruptLayer))
                &&& (crate::maintenance::flushable(t) && !import ==> r == Ok::<Option<crate::timeline::TimelineMetadata>, TimelineError>(
                        crate::timeline::flush_metadata(t, (end - 1) as Lsn))
                    && after.layers@.historic == (if f.versions.len() == 0 { t.layers@.historic } else {
                        t.layers@.historic.push(crate::maintenance::flushed_delta(f)) }))
                &&& (crate::maintenance::flushable(t) && import && (forall|p: int| 0 <= p < partitions@.len()
                        ==> #[trigger] partition_reads_ok(redo, old(self).timelines@, tl as int, partitions@[p]@, t.initdb_lsn))
                    ==> r == Ok::<Option<crate::timeline::TimelineMetadata>, TimelineError>(crate::timeline::flush_metadata(t, (end - 1) as Lsn)))
                &&& (crate::maintenance::flushable(t) && import && r is Ok ==> r == Ok::<Option<crate::timeline::TimelineMetadata>, TimelineError>(
                        crate::timeline::flush_metadata(t, (end - 1) as Lsn)))
                &&& (crate::maintenance::flushable(t) && import && r is Ok ==> after.layers@.historic.len() == t.layers@.historic.len() + partitions@.len()
                    && after.layers@.historic.subrange(0, t.layers@.historic.len() as int) == t.layers@.historic
                    && forall|p: int| 0 <= p < partitions@.len() ==> #[trigger] image_layer_for(redo, old(self).timelines@, tl as int,
                        partitions@[p]@, t.initdb_lsn, after.layers@.historic[t.layers@.historic.len() + p]))
                &&& (r is Ok ==> crate::timeline::same_but_layers(t, after)
                    && after.layers@.open_layer == t.layers@.open_layer
                    && after.layers@.next_open_layer_at == t.layers@.next_open_layer_at)
                &&& (crate::maintenance::flushable(t) && r is Err ==> import && exists|p: int| 0 <= p < partitions@.len()
                        && #[trigger] partition_read_fails(redo, old(self).timelines@, tl as int, partitions@[p]@, t.initdb_lsn, err_of(r)))
            }),
    {
        if !self.timelines[tl].front_is_flushable() {
            return Err(TimelineError::CorruptLayer);
        }
        if self.timelines[tl].front_is_initial_import() {
            let lsn = self.timelines[tl].initdb_lsn;
            let mut images: Vec<HistoricLayer> = Vec::new();
            let mut p: usize = 0;
            while p < partitions.len()
                invariant
                    tl < self.timelines@.len(),
                    lsn < u64::MAX,
                    *self == *old(self),
                    timeline_wf(self.timelines@[tl as int]),
                    self.timelines@[tl as int].layers@.frozen_layers.len() > 0,
                    crate::maintenance::flushable(self.timelines@[tl as int]),
                    lsn == old(self).timelines@[tl as int].initdb_lsn,
                    lsn < u64::MAX,
                    old(self).timelines@[tl as int].layers@.frozen_layers[0].start_lsn == lsn,
                    old(self).timelines@[tl as int].layers@.frozen_layers[0].end_lsn == Some((lsn + 1) as Lsn),
                    images@.len() == p,
                    p <= partitions@.len(),
                    forall|q: int| 0 <= q < p ==> #[trigger] image_layer_for(redo, old(self).timelines@, tl as int, partitions@[q]@, lsn, images@[q]@),
                    forall|q: int| 0 <= q < partitions@.len() ==> {
                        &&& (#[trigger] partitions@[q])@.len() > 0
                        &&& forall|i: int| 0 <= i < partitions@[q]@.len() ==> (#[trigger] partitions@[q]@[i]).0 <= partitions@[q]@[i].1
                        &&& forall|i: int| 0 < i < partitions@[q]@.len() ==> partitions@[q]@[i - 1].1 <= (#[trigger] partitions@[q]@[i]).0
                    },
                decreases partitions@.len() - p,
            {
                let img = match self.create_image_layer(tl, &partitions[p], lsn, redo) {
                    Ok(l) => l,
                    Err(e) => {
                        proof {
                            assert(partition_read_fails(redo, old(self).timelines@, tl as int, partitions@[p as int]@, lsn, e));
                            assert(!partition_reads_ok(redo, old(self).timelines@, tl as int, partitions@[p as int]@, lsn));
                            assert(err_of(Err::<Option<crate::timeline::TimelineMetadata>, TimelineError>(e)) == e);
                            assert(!(forall|q: int| 0 <= q < partitions@.len()
                                ==> #[trigger] partition_reads_ok(redo, old(self).timelines@, tl as int, partitions@[q]@, lsn)));
                        }
                        return Err(e);
                    },
                };
                let ghost ib = images@;
                images.push(img);
                assert forall|q: int| 0 <= q < p + 1 implies #[trigger] image_layer_for(redo, old(self).timelines@, tl as int, partitions@[q]@, lsn, images@[q]@) by {
                    if q < p { assert(images@[q] == ib[q]); }
                }
                p = p + 1;
            }
            let ghost hb = self.timelines@[tl as int].layers@.historic;
            let ghost iv = images@.map_values(|l: HistoricLayer| l@);
            let r = self.timelines[tl].flush_frozen_layer_as_images(images);
            proof {
                let after = self.timelines@[tl as int].layers@.historic;
                assert(after == hb + iv);
                assert(after.subrange(0, hb.len() as int) =~= hb);
                assert forall|q: int| 0 <= q < partitions@.len() implies #[trigger] image_layer_for(redo, old(self).timelines@, tl as int,
                    partitions@[q]@, lsn, after[hb.len() + q]) by {
                    assert(after[hb.len() + q] == iv[q]);
                    assert(iv[q] == images@[q]@);
                }
            }
            Ok(r)
        } else {
            Ok(self.timelines[tl].flush_frozen_layer())
        }
    }
}

/// Frozen layer `f` of `t` is the initial import: it spans exactly `[initdb_lsn, initdb_lsn + 1)`.
pub open spec fn is_import(t: LayeredTimeline, f: crate::inmemory_layer::InMemoryModel) -> bool {
    t.initdb_lsn < u64::MAX && f.start_lsn == t.initdb_lsn && f.end_lsn == Some((t.initdb_lsn + 1) as Lsn)
}

/// What flushing every frozen layer of timeline `tl`, oldest first, does (see
/// `Repository::flush_frozen_layers`): from `tls0` to `tls1`, with result `r`.
pub open spec fn flush_all_post<R: WalRedoManager>(redo: &R, tls0: Seq<LayeredTimeline>, tls1: Seq<LayeredTimeline>, tl: int,
    parts: Seq<Vec<(Key, Key)>>, r: Result<Option<crate::timeline::TimelineMetadata>, TimelineError>) -> bool {
    let t = tls0[tl];
    let u = tls1[tl];
    let fs = t.layers@.frozen_layers;
    let dcl = t.disk_consistent_lsn;
    let first_import = fs.len() > 0 && is_import(t, fs[0]);
    let k0: int = if first_import { 1 } else { 0 };
    let nimg: int = if first_import { parts.len() as int } else { 0 };
    let n0 = t.layers@.historic.len() as int;
    &&& tls1.len() == tls0.len()
    &&& forall|i: int| 0 <= i < tls0.len() && i != tl ==> #[trigger] tls1[i] == tls0[i]
    &&& ((forall|k: int| 0 <= k < fs.len() ==> #[trigger] crate::maintenance::frozen_flushable(fs[k], dcl))
            && (forall|k: int| k0 <= k < fs.len() ==> !#[trigger] is_import(t, fs[k]))
            && (first_import ==> forall|p: int| 0 <= p < parts.len() ==> #[trigger] partition_reads_ok(redo, tls0, tl, parts[p]@, t.initdb_lsn))
        ==> r is Ok)
    &&& (r is Err ==> (exists|k: int| 0 <= k < fs.len() && !#[trigger] crate::maintenance::frozen_flushable(fs[k], dcl))
            || (exists|k: int| 0 <= k < fs.len() && #[trigger] is_import(t, fs[k])))
    &&& (r is Ok ==> {
            &&& u.layers@.frozen_layers.len() == 0
            &&& crate::timeline::same_but_layers(t, u)
            &&& u.layers@.open_layer == t.layers@.open_layer
            &&& u.layers@.next_open_layer_at == t.layers@.next_open_layer_at
            &&& r.unwrap() == (if fs.len() == 0 { None } else { crate::timeline::flush_metadata(t, (fs.last().end_lsn.unwrap() - 1) as Lsn) })
            &&& ((forall|k: int| k0 <= k < fs.len() ==> !#[trigger] is_import(t, fs[k])) ==> {
                    &&& u.layers@.historic.len() == n0 + nimg + crate::maintenance::flushed_deltas(fs.skip(k0), fs.len() - k0).len()
                    &&& u.layers@.historic == t.layers@.historic + u.layers@.historic.subrange(n0, n0 + nimg)
                            + crate::maintenance::flushed_deltas(fs.skip(k0), fs.len() - k0)
                    &&& forall|p: int| 0 <= p < nimg ==> #[trigger] image_layer_for(redo, tls0, tl, parts[p]@, t.initdb_lsn, u.layers@.historic[n0 + p])
                })
        })
}

impl Repository {
    /// Flushes every frozen layer of timeline `tl`, oldest first (see
    /// `flush_frozen_layer`), and returns the metadata for the last one; the
    /// caller saves it and then publishes the watermark. What it does is
    /// `flush_all_post`: success is owed when every frozen layer can be
    /// flushed and, where the first is the initial import, every key of the
    /// partitions reads at `initdb_lsn`.
    pub fn flush_frozen_layers<R: WalRedoManager>(&mut self, tl: usize, partitions: &Vec<Vec<(Key, Key)>>, redo: &R)
        -> (r: Result<Option<crate::timeline::TimelineMetadata>, TimelineError>)
        requires
            tl < old(self).timelines@.len(),
            timeline_wf(old(self).timelines@[tl as int]),
            forall|p: int| 0 <= p < partitions@.len() ==> {
                &&& (#[trigger] partitions@[p])@.len() > 0
                &&& forall|i: int| 0 <= i < partitions@[p]@.len() ==> (#[trigger] partitions@[p]@[i]).0 <= partitions@[p]@[i].1
                &&& forall|i: int| 0 < i < partitions@[p]@.len() ==> partitions@[p]@[i - 1].1 <= (#[trigger] partitions@[p]@[i]).0
            },
        ensures
            timeline_wf(final(self).timelines@[tl as int]),
            flush_all_post(redo, old(self).timelines@, final(self).timelines@, tl as int, partitions@, r),
    {
        let ghost tls0 = self.timelines@;
        let ghost t0 = self.timelines@[tl as int];
        let ghost fs = t0.layers@.frozen_layers;
        let ghost first_import = fs.len() > 0 && is_import(t0, fs[0]);
        let ghost k0: int = if first_import { 1 } else { 0 };
        let ghost nimg: int = if first_import { partitions@.len() as int } else { 0 };
        let ghost n0 = t0.layers@.historic.len() as int;
        let mut last: Option<crate::timeline::TimelineMetadata> = None;
        let ghost mut k: int = 0;
        assert(fs.skip(0) =~= fs);
        while self.timelines[tl].layers.frozen_layers.len() > 0
            invariant
                tl < self.timelines@.len(),
                self.timelines@.len() == tls0.len(),
                tls0 == old(self).timelines@,
                t0 == tls0[tl as int],
                fs == t0.layers@.frozen_layers,
                first_import == (fs.len() > 0 && is_import(t0, fs[0])),
                k0 == (if first_import { 1int } else { 0int }),
                nimg == (if first_import { partitions@.len() as int } else { 0int }),
                n0 == t0.layers@.historic.len(),
                forall|i: int| 0 <= i < tls0.len() && i != tl ==> #[trigger] self.timelines@[i] == tls0[i],
                timeline_wf(self.timelines@[tl as int]),
                0 <= k <= fs.len(),
                k == 0 ==> self.timelines@ == tls0,
                self.timelines@[tl as int].layers@.frozen_layers == fs.skip(k),
                crate::timeline::same_but_layers(t0, self.timelines@[tl as int]),
                self.timelines@[tl as int].layers@.open_layer == t0.layers@.open_layer,
                self.timelines@[tl as int].layers@.next_open_layer_at == t0.layers@.next_open_layer_at,
                forall|j: int| 0 <= j < k ==> #[trigger] crate::maintenance::frozen_flushable(fs[j], t0.disk_consistent_lsn),
                last == (if k == 0 { None } else { crate::timeline::flush_metadata(t0, (fs[k - 1].end_lsn.unwrap() - 1) as Lsn) }),
                k >= k0 && (forall|j: int| k0 <= j < k ==> !#[trigger] is_import(t0, fs[j])) ==> {
                    &&& self.timelines@[tl as int].layers@.historic == t0.layers@.historic
                            + self.timelines@[tl as int].layers@.historic.subrange(n0, n0 + nimg)
                            + crate::maintenance::flushed_deltas(fs.skip(k0), k - k0)
                    &&& self.timelines@[tl as int].layers@.historic.len() == n0 + nimg + crate::maintenance::flushed_deltas(fs.skip(k0), k - k0).len()
                    &&& forall|p: int| 0 <= p < nimg ==> #[trigger] image_layer_for(redo, tls0, tl as int, partitions@[p]@, t0.initdb_lsn,
                            self.timelines@[tl as int].layers@.historic[n0 + p])
                },
                forall|p: int| 0 <= p < partitions@.len() ==> {
                    &&& (#[trigger] partitions@[p])@.len() > 0
                    &&& forall|i: int| 0 <= i < partitions@[p]@.len() ==> (#[trigger] partitions@[p]@[i]).0 <= partitions@[p]@[i].1
                    &&& forall|i: int| 0 < i < partitions@[p]@.len() ==> partitions@[p]@[i - 1].1 <= (#[trigger] partitions@[p]@[i]).0
                },
            decreases self.timelines@[tl as int].layers@.frozen_layers.len(),
        {
            let ghost before = self.timelines@;
            let ghost tb = self.timelines@[tl as int];
            let ghost hb = tb.layers@.historic;
            assert(tb.layers@.frozen_layers[0] == fs[k]);
            let res = self.flush_frozen_layer(tl, partitions, redo);
            match res {
                Err(e) => {
                    proof {
                        if crate::maintenance::flushable(tb) {
                            assert(is_import(t0, fs[k]));
                        } else {
                            assert(!crate::maintenance::frozen_flushable(fs[k], t0.disk_consistent_lsn));
                        }
                        if k == 0 && first_import && (forall|p: int| 0 <= p < partitions@.len() ==> #[trigger] partition_reads_ok(redo, tls0, tl as int, partitions@[p]@, t0.initdb_lsn)) {
                            assert(before == tls0);
                        }
                    }
                    return Err(e);
                },
                Ok(md) => {
                    proof {
                        let u = self.timelines@[tl as int];
                        assert(crate::maintenance::frozen_flushable(fs[k], t0.disk_consistent_lsn));
                        assert(u.layers@.frozen_layers =~= fs.skip(k + 1));
                        if k >= k0 && (forall|j: int| k0 <= j < k + 1 ==> !#[trigger] is_import(t0, fs[j])) {
                            assert(!is_import(t0, fs[k]));
                            assert(forall|j: int| k0 <= j < k ==> !#[trigger] is_import(t0, fs[j]));
                            assert(tb.initdb_lsn == t0.initdb_lsn);
                            assert(hb.len() == n0 + nimg + crate::maintenance::flushed_deltas(fs.skip(k0), k - k0).len());
                            let d = crate::maintenance::flushed_deltas(fs.skip(k0), k - k0);
                            assert(fs.skip(k0)[k - k0] == fs[k]);
                            if fs[k].versions.len() > 0 {
                                assert(crate::maintenance::flushed_deltas(fs.skip(k0), k + 1 - k0) == d.push(crate::maintenance::flushed_delta(fs[k])));
                                assert(u.layers@.historic.subrange(n0, n0 + nimg) =~= hb.subrange(n0, n0 + nimg));
                                assert(u.layers@.historic =~= t0.layers@.historic + u.layers@.historic.subrange(n0, n0 + nimg)
                                    + crate::maintenance::flushed_deltas(fs.skip(k0), k + 1 - k0));
                                assert forall|p: int| 0 <= p < nimg implies #[trigger] image_layer_for(redo, tls0, tl as int, partitions@[p]@, t0.initdb_lsn,
                                    u.layers@.historic[n0 + p]) by {
                                    assert(u.layers@.historic[n0 + p] == hb[n0 + p]);
                                }
                            } else {
                                assert(crate::maintenance::flushed_deltas(fs.skip(k0), k + 1 - k0) == d);
                            }
                        }
                        if k == 0 && first_import {
                            assert(crate::maintenance::flushed_deltas(fs.skip(k0), 0) =~= Seq::<crate::layer::LayerModel>::empty());
                            assert(u.layers@.historic.subrange(0, n0) == t0.layers@.historic);
                            assert(u.layers@.historic =~= t0.layers@.historic + u.layers@.historic.subrange(n0, n0 + nimg)
                                + crate::maintenance::flushed_deltas(fs.skip(k0), 0));
                        }
                        if k == 0 && !first_import {
                            assert(!is_import(t0, fs[0]));
                        }
                        k = k + 1;
                    }
                    last = md;
                },
            }
        }
        assert(fs.skip(k).len() == 0);
        assert(k == fs.len());
        proof {
            if k == 0 {
                assert(self.timelines@[tl as int].layers@.historic.subrange(n0, n0 + nimg) =~= Seq::<crate::layer::LayerModel>::empty());
                assert(crate::maintenance::flushed_deltas(fs.skip(k0), 0) =~= Seq::<crate::layer::LayerModel>::empty());
                assert(self.timelines@[tl as int].layers@.historic =~= t0.layers@.historic
                    + self.timelines@[tl as int].layers@.historic.subrange(n0, n0 + nimg) + crate::maintenance::flushed_deltas(fs.skip(k0), 0));
            }
        }
        Ok(last)
    }
}

/// `mid` is `tls0` with the open layer of timeline `tl`, if any, frozen at
/// its last record LSN plus one.
pub open spec fn frozen_from(tls0: Seq<LayeredTimeline>, mid: Seq<LayeredTimeline>, tl: int) -> bool {
    let t = tls0[tl];
    let m = mid[tl];
    &&& mid.len() == tls0.len()
    &&& forall|i: int| 0 <= i < tls0.len() && i != tl ==> #[trigger] mid[i] == tls0[i]
    &&& m.layers@ == (crate::layer_map::LayerMapModel {
            open_layer: None,
            frozen_layers: crate::maintenance::frozen_after_freeze(t),
            historic: t.layers@.historic,
            next_open_layer_at: if t.layers@.open_layer.is_some() { Some((t.last_record_lsn.last + 1) as Lsn) } else { t.layers@.next_open_layer_at },
        })
    &&& m.last_record_lsn == t.last_record_lsn
    &&& m.disk_consistent_lsn == t.disk_consistent_lsn
    &&& m.initdb_lsn == t.initdb_lsn
    &&& m.conf == t.conf
    &&& m.ancestor == t.ancestor
    &&& m.ancestor_lsn == t.ancestor_lsn
    &&& m.ancestor_id == t.ancestor_id
    &&& m.latest_gc_cutoff_lsn == t.latest_gc_cutoff_lsn
}

/// A forced checkpoint's compaction step on timeline `tl`, from `fl` to `fin`,
/// after a flush that gave `rf`, with final result `r`.
pub open spec fn compacted_after_flush(fl: Seq<LayeredTimeline>, fin: Seq<LayeredTimeline>, tl: int,
    rf: Result<Option<crate::timeline::TimelineMetadata>, TimelineError>, r: Result<Option<crate::timeline::TimelineMetadata>, TimelineError>) -> bool {
    &&& fin.len() == fl.len()
    &&& forall|i: int| 0 <= i < fl.len() && i != tl ==> #[trigger] fin[i] == fl[i]
    &&& exists|c: Result<bool, TimelineError>| #[trigger] crate::compaction::level0_compaction(fl[tl].layers@, fin[tl].layers@,
            fl[tl].conf.compaction_threshold, fl[tl].conf.compaction_target_size, c)
        && r == (match c {
            Ok(_) => rf,
            Err(e) => Err(e),
        })
}

impl Repository {
    /// A checkpoint of timeline `tl`: its open layer is frozen, every frozen
    /// layer flushed (see `flush_frozen_layers`; the initial import becomes
    /// image layers of `partitions`), and a forced one then compacts level-0
    /// deltas. Returns the metadata of the flush.
    pub fn checkpoint<R: WalRedoManager>(&mut self, tl: usize, forced: bool, partitions: &Vec<Vec<(Key, Key)>>, redo: &R)
        -> (r: Result<Option<crate::timeline::TimelineMetadata>, TimelineError>)
        requires
            tl < old(self).timelines@.len(),
            timeline_wf(old(self).timelines@[tl as int]),
            old(self).timelines@[tl as int].last_record_lsn.last < u64::MAX,
            forall|p: int| 0 <= p < partitions@.len() ==> {
                &&& (#[trigger] partitions@[p])@.len() > 0
                &&& forall|i: int| 0 <= i < partitions@[p]@.len() ==> (#[trigger] partitions@[p]@[i]).0 <= partitions@[p]@[i].1
                &&& forall|i: int| 0 < i < partitions@[p]@.len() ==> partitions@[p]@[i - 1].1 <= (#[trigger] partitions@[p]@[i]).0
            },
        ensures
            final(self).timelines@.len() == old(self).timelines@.len(),
            timeline_wf(final(self).timelines@[tl as int]),
            !forced ==> exists|mid: Seq<LayeredTimeline>| #[trigger] frozen_from(old(self).timelines@, mid, tl as int)
                && flush_all_post(redo, mid, final(self).timelines@, tl as int, partitions@, r),
            forced ==> exists|mid: Seq<LayeredTimeline>, fl: Seq<LayeredTimeline>, rf: Result<Option<crate::timeline::TimelineMetadata>, TimelineError>|
                #[trigger] frozen_from(old(self).timelines@, mid, tl as int)
                && #[trigger] flush_all_post(redo, mid, fl, tl as int, partitions@, rf)
                && (rf is Err ==> r == rf && final(self).timelines@ == fl)
                && (rf is Ok ==> compacted_after_flush(fl, final(self).timelines@, tl as int, rf, r)),
    {
        self.timelines[tl].freeze_inmem_layer();
        let ghost mid = self.timelines@;
        proof {
            let t = old(self).timelines@[tl as int];
            assert(mid[tl as int].layers@ =~= (crate::layer_map::LayerMapModel {
                open_layer: None,
                frozen_layers: crate::maintenance::frozen_after_freeze(t),
                historic: t.layers@.historic,
                next_open_layer_at: if t.layers@.open_layer.is_some() { Some((t.last_record_lsn.last + 1) as Lsn) } else { t.layers@.next_open_layer_at },
            }));
            assert(frozen_from(old(self).timelines@, mid, tl as int));
        }
        let rf = self.flush_frozen_layers(tl, partitions, redo);
        if !forced || rf.is_err() {
            return rf;
        }
        let ghost fl = self.timelines@;
        let c = self.timelines[tl].compact_level0();
        let r = match c {
            Ok(_) => rf,
            Err(e) => Err(e),
        };
        proof {
            assert(crate::compaction::level0_compaction(fl[tl as int].layers@, self.timelines@[tl as int].layers@,
                fl[tl as int].conf.compaction_threshold, fl[tl as int].conf.compaction_target_size, c));
            assert(compacted_after_flush(fl, self.timelines@, tl as int, rf, r));
        }
        r
    }
}

} // verus!
