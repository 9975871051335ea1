use layered_timeline::filename::layer_file_name;
use layered_timeline::inmemory_layer::InMemoryLayer;
use layered_timeline::layer::HistoricLayer;
use layered_timeline::layer_map::LayerMap;
use layered_timeline::maintenance::{backup_number, needs_repartition, LsnForTimestamp};
use layered_timeline::repository::{reconstruct_value, RedoPlan, Repository, WalRedoError, WalRedoManager};
use layered_timeline::timeline::{
    LayeredTimeline, LayeredTimelineEntry, RecordLsn, TimelineConf, TimelineError, TimelineMetadata,
};
use layered_timeline::value::{Key, Lsn, PageVersion, Value, ValueReconstructResult, ValueReconstructState, WalRecord};

struct FailingRedo;

impl WalRedoManager for FailingRedo {
    fn request_redo(&self, _: Key, _: Lsn, _: Option<Vec<u8>>, _: Vec<(Lsn, WalRecord)>) -> Result<Vec<u8>, WalRedoError> {
        Err(WalRedoError { message: "redo process died".into() })
    }
}

fn conf() -> TimelineConf {
    TimelineConf {
        checkpoint_distance: 1000,
        compaction_target_size: 1024 * 1024,
        compaction_threshold: 2,
        image_creation_threshold: 2,
    }
}

fn metadata(dcl: Lsn) -> TimelineMetadata {
    TimelineMetadata {
        disk_consistent_lsn: dcl,
        prev_record_lsn: Some(dcl / 2),
        ancestor_timeline: None,
        ancestor_lsn: 0,
        latest_gc_cutoff_lsn: 0,
        initdb_lsn: 0,
    }
}

fn wal(will_init: bool, b: &[u8]) -> Value {
    Value::WalRecord(WalRecord { will_init, rec: b.to_vec() })
}

fn layer(is_image: bool, ks: Key, ke: Key, ls: Lsn, le: Lsn) -> HistoricLayer {
    HistoricLayer { is_image, level0: false, key_start: ks, key_end: ke, lsn_start: ls, lsn_end: le, versions: Vec::new() }
}

#[test]
fn new_timeline_starts_at_watermark() {
    let t = LayeredTimeline::new(7, metadata(99), None, conf());
    assert_eq!(t.get_last_record_lsn(), 99);
    assert_eq!(t.get_prev_record_lsn(), 49);
    assert_eq!(t.get_last_record_rlsn(), RecordLsn { last: 99, prev: 49 });
    assert_eq!(t.get_disk_consistent_lsn(), 99);
    assert_eq!(t.layers.next_open_layer_at, Some(100));
    assert!(t.layers.open_layer.is_none());
}

#[test]
fn put_value_rejects_old_lsn() {
    let mut t = LayeredTimeline::new(7, metadata(99), None, conf());
    assert_eq!(t.put_value(1, 99, wal(true, b"a")), Err(TimelineError::LsnNotAfterLast));
    assert!(t.layers.open_layer.is_none());
    assert_eq!(t.put_value(1, 100, wal(true, b"a")), Ok(()));
    assert_eq!(t.layers.open_layer.as_ref().unwrap().start_lsn, 100);
}

#[test]
fn put_value_rejects_open_layer_in_future() {
    let mut t = LayeredTimeline::new(7, metadata(99), None, conf());
    t.put_value(1, 100, wal(true, b"a")).unwrap();
    t.last_record_lsn = RecordLsn { last: 10, prev: 0 };
    assert_eq!(t.put_value(1, 50, wal(true, b"b")), Err(TimelineError::OpenLayerInFuture));
}

#[test]
fn put_value_replaces_same_key_lsn() {
    let mut l = InMemoryLayer::create(10);
    l.put_value(5, 20, wal(false, b"x"));
    l.put_value(3, 20, wal(false, b"y"));
    l.put_value(5, 12, wal(false, b"z"));
    l.put_value(5, 20, wal(true, b"w"));
    let order: Vec<(Key, Lsn)> = l.versions.iter().map(|v| (v.key, v.lsn)).collect();
    assert_eq!(order, vec![(3, 20), (5, 12), (5, 20)]);
    match &l.versions[2].value {
        Value::WalRecord(r) => assert!(r.will_init && r.rec == b"w".to_vec()),
        _ => panic!("expected a record"),
    }
    assert_eq!(l.size(), 4);
}

#[test]
fn freeze_is_idempotent() {
    let mut l = InMemoryLayer::create(10);
    assert!(!l.is_frozen());
    assert_eq!(l.get_end_lsn(), u64::MAX);
    l.freeze(30);
    l.freeze(40);
    assert!(l.is_frozen());
    assert_eq!(l.get_end_lsn(), 30);
    assert_eq!(l.get_start_lsn(), 10);
}

#[test]
fn inmemory_scan_stops_at_will_init() {
    let mut l = InMemoryLayer::create(10);
    l.put_value(1, 10, Value::Image(vec![1]));
    l.put_value(1, 11, wal(true, b"a"));
    l.put_value(1, 12, wal(false, b"b"));
    l.put_value(2, 12, wal(false, b"c"));
    let mut st = ValueReconstructState { records: Vec::new(), img: None };
    assert_eq!(l.get_value_reconstruct_data(1, 10, 13, &mut st), ValueReconstructResult::Complete);
    let lsns: Vec<Lsn> = st.records.iter().map(|r| r.0).collect();
    assert_eq!(lsns, vec![12, 11]);
    assert!(st.img.is_none());
    let mut st = ValueReconstructState { records: Vec::new(), img: None };
    assert_eq!(l.get_value_reconstruct_data(2, 10, 13, &mut st), ValueReconstructResult::Continue);
    assert_eq!(st.records.len(), 1);
}

#[test]
fn image_layer_without_key_is_missing() {
    let l = layer(true, 0, 100, 50, 51);
    let mut st = ValueReconstructState { records: Vec::new(), img: None };
    assert_eq!(l.get_value_reconstruct_data(5, 0, 60, &mut st), ValueReconstructResult::Missing);
    assert!(!l.is_incremental());
}

#[test]
fn search_prefers_latest_end_then_image() {
    let mut m = LayerMap::new(Some(1));
    m.insert_historic(layer(false, 0, 10, 0, 100));
    m.insert_historic(layer(false, 0, 10, 100, 200));
    m.insert_historic(layer(true, 0, 10, 199, 200));
    m.insert_historic(layer(false, 0, 10, 200, 300));
    assert_eq!(m.search(5, 250), Some(3));
    assert_eq!(m.search(5, 200), Some(2));
    assert_eq!(m.search(5, 150), Some(1));
    assert_eq!(m.search(5, 99), Some(0));
    assert_eq!(m.search(10, 250), None);
}

#[test]
fn layer_map_queries() {
    let mut m = LayerMap::new(Some(1));
    m.insert_historic(layer(false, 0, 10, 0, 100));
    m.insert_historic(layer(false, 5, 20, 100, 200));
    m.insert_historic(layer(true, 0, 20, 150, 151));
    assert!(m.image_layer_exists(0, 20, 100, 150));
    assert!(!m.image_layer_exists(0, 20, 150, 200));
    assert!(!m.image_layer_exists(0, 30, 100, 200));
    assert_eq!(m.count_deltas(0, 20, 0, 200), 2);
    assert_eq!(m.count_deltas(12, 20, 0, 200), 1);
    assert_eq!(m.count_deltas(0, 5, 100, 200), 0);
    let removed = m.remove_historic(1);
    assert_eq!((removed.key_start, removed.lsn_start), (5, 100));
    assert_eq!(m.historic.len(), 2);
}

#[test]
fn level0_listing() {
    let mut m = LayerMap::new(Some(1));
    let mut a = layer(false, 0, 10, 0, 100);
    a.level0 = true;
    m.insert_historic(a);
    m.insert_historic(layer(false, 0, 10, 100, 200));
    let mut c = layer(false, 0, 10, 200, 300);
    c.level0 = true;
    m.insert_historic(c);
    assert_eq!(m.get_level0_deltas(), vec![0, 2]);
}

#[test]
fn reconstruct_value_cases() {
    let st = ValueReconstructState { records: Vec::new(), img: Some((5, vec![9])) };
    assert!(matches!(reconstruct_value(st), Ok(RedoPlan::Ready(ref b)) if *b == vec![9]));
    let st = ValueReconstructState { records: Vec::new(), img: None };
    assert!(matches!(reconstruct_value(st), Err(TimelineError::NotFound)));
    let st = ValueReconstructState {
        records: vec![(20, WalRecord { will_init: false, rec: vec![2] }), (10, WalRecord { will_init: false, rec: vec![1] })],
        img: None,
    };
    assert!(matches!(reconstruct_value(st), Err(TimelineError::NotFound)));
    let st = ValueReconstructState {
        records: vec![(20, WalRecord { will_init: false, rec: vec![2] }), (10, WalRecord { will_init: true, rec: vec![1] })],
        img: None,
    };
    match reconstruct_value(st) {
        Ok(RedoPlan::Redo(None, recs)) => {
            let lsns: Vec<Lsn> = recs.iter().map(|r| r.0).collect();
            assert_eq!(lsns, vec![10, 20]);
        }
        _ => panic!("expected a redo plan"),
    }
}

#[test]
fn redo_failure_is_reported() {
    let mut t = LayeredTimeline::new(1, metadata(0), None, conf());
    t.put_value(3, 1, wal(true, b"a")).unwrap();
    t.finish_write(1);
    let repo = Repository { timelines: vec![t] };
    assert_eq!(repo.get(0, 3, 1, None, &FailingRedo), Err(TimelineError::RedoFailed));
}

#[test]
fn unloaded_ancestor_is_an_error() {
    let t = LayeredTimeline::new(2, TimelineMetadata { ancestor_lsn: 10, ancestor_timeline: Some(1), ..metadata(10) }, Some(5), conf());
    let repo = Repository { timelines: vec![t] };
    assert_eq!(repo.get(0, 3, 8, None, &FailingRedo), Err(TimelineError::AncestorNotLoaded));
}

#[test]
fn scope_and_wait() {
    let mut t = LayeredTimeline::new(1, metadata(0), None, conf());
    t.latest_gc_cutoff_lsn = 50;
    assert_eq!(t.check_lsn_is_in_scope(49), Err(TimelineError::LsnOutOfScope));
    assert_eq!(t.check_lsn_is_in_scope(50), Ok(()));
    assert!(!t.wait_lsn(10));
    t.finish_write(10);
    assert!(t.wait_lsn(10));
    assert!(!t.wait_lsn(11));
}

#[test]
fn checkpoint_distance_triggers() {
    let mut t = LayeredTimeline::new(1, metadata(0), None, conf());
    assert!(!t.check_checkpoint_distance(true));
    t.put_value(1, 1, wal(true, b"a")).unwrap();
    t.finish_write(500);
    assert!(!t.check_checkpoint_distance(false));
    assert!(t.check_checkpoint_distance(true));
    assert!(t.layers.open_layer.is_none());
    assert_eq!(t.layers.frozen_layers.len(), 1);
    assert_eq!(t.layers.frozen_layers[0].end_lsn, Some(501));
    assert_eq!(t.last_freeze_at, 500);
    t.put_value(1, 501, wal(true, b"a")).unwrap();
    t.finish_write(1500);
    assert!(t.check_checkpoint_distance(false));
}

#[test]
fn checkpoint_size_triggers() {
    let mut t = LayeredTimeline::new(1, metadata(0), None, conf());
    t.put_value(1, 1, Value::Image(vec![0; 1001])).unwrap();
    t.finish_write(1);
    assert!(t.check_checkpoint_distance(false));
}

#[test]
fn image_layer_trigger() {
    let mut t = LayeredTimeline::new(1, metadata(0), None, conf());
    t.layers.insert_historic(layer(true, 0, 100, 10, 11));
    t.layers.insert_historic(layer(false, 0, 100, 11, 20));
    assert!(!t.time_for_new_image_layer(&vec![(0, 100)], 30));
    t.layers.insert_historic(layer(false, 0, 100, 20, 30));
    assert!(t.time_for_new_image_layer(&vec![(0, 100)], 30));
    assert!(!t.time_for_new_image_layer(&vec![(100, 200)], 30));
}

#[test]
fn gc_info_pitr() {
    let mut t = LayeredTimeline::new(1, metadata(0), None, conf());
    t.latest_gc_cutoff_lsn = 7;
    t.update_gc_info(vec![3], 100, true, None);
    assert_eq!((t.gc_info.horizon_cutoff, t.gc_info.pitr_cutoff), (100, 100));
    assert_eq!(t.gc_info.retain_lsns, vec![3]);
    t.update_gc_info(vec![], 100, false, Some(LsnForTimestamp::Present(40)));
    assert_eq!(t.gc_info.pitr_cutoff, 40);
    t.update_gc_info(vec![], 100, false, Some(LsnForTimestamp::Future(40)));
    assert_eq!(t.gc_info.pitr_cutoff, 100);
    t.update_gc_info(vec![], 100, false, Some(LsnForTimestamp::Past(40)));
    assert_eq!(t.gc_info.pitr_cutoff, 7);
    t.update_gc_info(vec![], 100, false, Some(LsnForTimestamp::NoData(40)));
    assert_eq!(t.gc_info.pitr_cutoff, 7);
    t.update_gc_info(vec![], 100, false, None);
    assert_eq!(t.gc_info.pitr_cutoff, 7);
}

#[test]
fn gc_does_nothing_without_progress() {
    let mut t = LayeredTimeline::new(1, metadata(300), None, conf());
    t.layers.insert_historic(layer(false, 0, 10, 0, 100));
    t.layers.insert_historic(layer(true, 0, 10, 150, 151));
    t.latest_gc_cutoff_lsn = 300;
    t.update_gc_info(vec![], 250, true, None);
    let (res, removed) = t.gc();
    assert!(removed.is_empty());
    assert_eq!(res.layers_total, 0);
    assert_eq!(t.latest_gc_cutoff_lsn, 300);
}

#[test]
fn gc_cutoff_is_least_of_horizon_and_pitr() {
    let mut t = LayeredTimeline::new(1, metadata(120), None, conf());
    t.layers.insert_historic(layer(false, 0, 10, 0, 100));
    t.layers.insert_historic(layer(true, 0, 10, 110, 111));
    t.update_gc_info(vec![], 1000, false, Some(LsnForTimestamp::Present(400)));
    let (res, removed) = t.gc();
    assert_eq!(t.latest_gc_cutoff_lsn, 400);
    assert_eq!(removed.len(), 1);
    assert_eq!(res.layers_total, 2);
    assert_eq!(res.layers_not_updated, 1);
}

#[test]
fn load_layer_map_backs_up_future_layers() {
    let mut t = LayeredTimeline::new(1, metadata(100), None, conf());
    t.layers.next_open_layer_at = None;
    let found = vec![
        layer(false, 0, 10, 0, 101),
        layer(false, 0, 10, 50, 102),
        layer(true, 0, 10, 100, 101),
        layer(true, 0, 10, 101, 102),
    ];
    let backups = t.load_layer_map(found, 100);
    let kept: Vec<(bool, Lsn)> = t.layers.historic.iter().map(|l| (l.is_image, l.lsn_end)).collect();
    assert_eq!(kept, vec![(false, 101), (true, 101)]);
    let gone: Vec<(bool, Lsn)> = backups.iter().map(|l| (l.is_image, l.lsn_end)).collect();
    assert_eq!(gone, vec![(false, 102), (true, 102)]);
    assert_eq!(t.layers.next_open_layer_at, Some(101));
}

#[test]
fn backup_numbers() {
    assert_eq!(backup_number(&vec![]), Some(0));
    assert_eq!(backup_number(&vec![0, 1, 3]), Some(2));
    assert_eq!(backup_number(&vec![1, 0]), Some(2));
    assert_eq!(backup_number(&vec![0]), Some(1));
}

#[test]
fn repartition_trigger() {
    assert!(needs_repartition(0, 5, 100));
    assert!(!needs_repartition(50, 150, 100));
    assert!(needs_repartition(50, 151, 100));
}

#[test]
fn image_file_name() {
    let l = layer(true, 0x10, 0x20, 0x64, 0x65);
    assert_eq!(layer_file_name(&l), format!("{:032x}-{:032x}__{:016x}", 0x10, 0x20, 0x64));
}

#[test]
fn flush_keeps_prev_lsn_only_when_caught_up() {
    let mut t = LayeredTimeline::new(1, metadata(0), None, conf());
    t.put_value(1, 1, wal(true, b"a")).unwrap();
    t.finish_write(5);
    t.freeze_inmem_layer();
    t.finish_write(9);
    let md = t.flush_frozen_layer().unwrap();
    assert_eq!(md.disk_consistent_lsn, 5);
    assert_eq!(md.prev_record_lsn, None);
    assert_eq!(t.get_disk_consistent_lsn(), 0);
    t.update_disk_consistent_lsn(&md);
    assert_eq!(t.get_disk_consistent_lsn(), 5);
    assert_eq!(t.metadata_for_flush(5), None);
}

#[test]
fn checkpoint_flushes_everything() {
    let mut t = LayeredTimeline::new(1, metadata(0), None, conf());
    for lsn in 1..=4u64 {
        t.put_value(lsn as Key, lsn, wal(true, b"a")).unwrap();
        t.finish_write(lsn);
        t.freeze_inmem_layer();
    }
    let md = t.checkpoint(true).unwrap().unwrap();
    assert_eq!(md.disk_consistent_lsn, 4);
    assert!(t.layers.frozen_layers.is_empty());
    assert!(t.layers.historic.iter().all(|l| !l.level0));
    let total: usize = t.layers.historic.iter().map(|l| l.versions.len()).sum();
    assert_eq!(total, 4);
}

#[test]
fn compaction_below_threshold_does_nothing() {
    let mut t = LayeredTimeline::new(1, metadata(0), None, conf());
    t.put_value(1, 1, wal(true, b"a")).unwrap();
    t.finish_write(1);
    t.checkpoint(false).unwrap();
    assert_eq!(t.compact_level0(), Ok(false));
    assert!(t.layers.historic[0].level0);
}

#[test]
fn compaction_rejects_corrupt_layer() {
    let mut t = LayeredTimeline::new(1, metadata(0), None, conf());
    for lsn in [10u64, 20] {
        let mut l = layer(false, 0, 10, lsn, lsn + 10);
        l.level0 = true;
        l.versions.push(PageVersion { key: 1, lsn: lsn + 50, value: wal(true, b"x") });
        t.layers.insert_historic(l);
    }
    assert_eq!(t.compact_level0(), Err(TimelineError::CorruptLayer));
    assert_eq!(t.layers.historic.len(), 2);
}

#[test]
fn logical_size() {
    let mut t = LayeredTimeline::new(1, TimelineMetadata { ancestor_lsn: 0, ..metadata(0) }, Some(0), conf());
    t.update_current_logical_size(-5);
    assert_eq!(t.get_current_logical_size(), 0);
    t.update_current_logical_size(15);
    assert_eq!(t.get_current_logical_size(), 10);
    t.update_current_logical_size(i64::MAX);
    assert_eq!(t.current_logical_size, i64::MAX);
    assert!(!t.init_logical_size(Some((0, 0))));
    assert!(t.init_logical_size(Some((42, 0))));
    assert_eq!(t.get_current_logical_size(), 42);
    t.set_current_logical_size(7);
    assert_eq!(t.get_current_logical_size(), 7);
}

#[test]
fn timeline_entries() {
    let t = LayeredTimeline::new(9, TimelineMetadata { ancestor_timeline: Some(3), ancestor_lsn: 40, ..metadata(50) }, None, conf());
    let tls = vec![t];
    let loaded = LayeredTimelineEntry::Loaded(0);
    assert_eq!(loaded.timeline_id(&tls), 9);
    assert_eq!(loaded.ancestor_timeline_id(&tls), Some(3));
    assert_eq!(loaded.ancestor_lsn(&tls), 40);
    assert_eq!(loaded.ensure_loaded(), Ok(0));
    let unloaded = LayeredTimelineEntry::Unloaded { id: 4, metadata: TimelineMetadata { ancestor_lsn: 12, ..metadata(20) } };
    assert_eq!(unloaded.timeline_id(&tls), 4);
    assert_eq!(unloaded.ancestor_timeline_id(&tls), None);
    assert_eq!(unloaded.ancestor_lsn(&tls), 12);
    assert_eq!(unloaded.ensure_loaded(), Err(TimelineError::AncestorNotLoaded));
}

#[test]
fn tombstones_recorded() {
    let mut t = LayeredTimeline::new(1, metadata(0), None, conf());
    assert_eq!(t.put_tombstone(10, 20, 0), Err(TimelineError::LsnNotAfterLast));
    t.put_tombstone(10, 20, 3).unwrap();
    assert_eq!(t.layers.open_layer.as_ref().unwrap().tombstones, vec![(10, 20, 3)]);
}

struct CopyRedo;

impl WalRedoManager for CopyRedo {
    fn request_redo(&self, _: Key, _: Lsn, base: Option<Vec<u8>>, records: Vec<(Lsn, WalRecord)>) -> Result<Vec<u8>, WalRedoError> {
        let mut out = base.unwrap_or_default();
        for (_, r) in records {
            out.extend(r.rec);
        }
        Ok(out)
    }
}

#[test]
fn repository_compaction_creates_images() {
    let mut t = LayeredTimeline::new(1, metadata(0), None, conf());
    for lsn in 1..=3u64 {
        t.put_value(1, lsn, wal(lsn == 1, &[lsn as u8])).unwrap();
        t.put_value(2, lsn, wal(lsn == 1, &[10 + lsn as u8])).unwrap();
        t.finish_write(lsn);
        t.freeze_inmem_layer();
        t.flush_frozen_layers().unwrap();
    }
    let mut repo = Repository { timelines: vec![t] };
    let img = repo.create_image_layer(0, &vec![(1, 3)], 3, &CopyRedo).unwrap();
    assert!(img.is_image);
    let vals: Vec<(Key, Vec<u8>)> = img.versions.iter().map(|v| match &v.value {
        Value::Image(b) => (v.key, b.clone()),
        _ => panic!("expected an image"),
    }).collect();
    assert_eq!(vals, vec![(1, vec![1, 2, 3]), (2, vec![11, 12, 13])]);
    assert_eq!(repo.compact(0, &vec![vec![(1, 3)]], &CopyRedo), Ok(true));
    let t = &repo.timelines[0];
    assert!(t.layers.historic.iter().any(|l| l.is_image && l.lsn_start == 3));
    assert!(t.layers.historic.iter().all(|l| !l.level0));
    assert_eq!(repo.get(0, 2, 3, None, &CopyRedo).unwrap(), vec![11, 12, 13]);
    assert_eq!(repo.get(0, 2, 2, None, &CopyRedo).unwrap(), vec![11, 12]);
}

#[test]
fn copy_snapshot_holds_images() {
    let l = InMemoryLayer::copy_snapshot(vec![(5, vec![5]), (2, vec![2]), (5, vec![6])], 3, 40);
    assert_eq!(l.relsizes, vec![(40, 3)]);
    assert_eq!(l.get_rel_size(40), Some(3));
    assert_eq!(l.get_start_lsn(), 40);
    assert!(!l.is_frozen());
    let got: Vec<(Key, Lsn, Vec<u8>)> = l.versions.iter().map(|v| match &v.value {
        Value::Image(b) => (v.key, v.lsn, b.clone()),
        _ => panic!("expected an image"),
    }).collect();
    assert_eq!(got, vec![(2, 40, vec![2]), (5, 40, vec![6])]);
}

#[test]
fn initial_import_flushes_as_images() {
    let md = TimelineMetadata { initdb_lsn: 5, ..metadata(4) };
    let mut t = LayeredTimeline::new(1, TimelineMetadata { prev_record_lsn: None, ..md }, None, conf());
    t.put_value(1, 5, Value::Image(vec![1])).unwrap();
    t.put_value(2, 5, Value::Image(vec![2])).unwrap();
    t.finish_write(5);
    t.freeze_inmem_layer();
    let mut repo = Repository { timelines: vec![t] };
    let md = repo.flush_frozen_layer(0, &vec![vec![(1, 3)]], &CopyRedo).unwrap().unwrap();
    assert_eq!(md.disk_consistent_lsn, 5);
    let t = &repo.timelines[0];
    assert!(t.layers.frozen_layers.is_empty());
    assert_eq!(t.layers.historic.len(), 1);
    let l = &t.layers.historic[0];
    assert!(l.is_image);
    assert_eq!((l.key_start, l.key_end, l.lsn_start, l.lsn_end), (1, 3, 5, 6));
    assert_eq!(repo.get(0, 2, 5, None, &CopyRedo).unwrap(), vec![2]);
}

#[test]
fn ordinary_flush_through_repository() {
    let mut t = LayeredTimeline::new(1, metadata(0), None, conf());
    t.put_value(1, 3, wal(true, b"a")).unwrap();
    t.finish_write(3);
    t.freeze_inmem_layer();
    let mut repo = Repository { timelines: vec![t] };
    repo.flush_frozen_layer(0, &vec![], &CopyRedo).unwrap();
    let l = &repo.timelines[0].layers.historic[0];
    assert!(!l.is_image && l.level0);
    assert_eq!((l.lsn_start, l.lsn_end), (1, 4));
}

#[test]
fn relation_sizes() {
    let mut l = InMemoryLayer::create(10);
    assert_eq!(l.get_rel_size(100), None);
    assert!(!l.get_rel_exists(100));
    l.note_block_written(20, 4);
    assert_eq!(l.get_rel_size(19), None);
    assert_eq!(l.get_rel_size(20), Some(5));
    l.note_block_written(30, 2);
    assert_eq!(l.get_rel_size(30), Some(5));
    l.put_truncation(40, 1);
    l.note_block_written(25, 9);
    assert_eq!(l.relsizes, vec![(20, 5), (25, 10), (40, 1)]);
    assert_eq!(l.get_rel_size(39), Some(10));
    assert_eq!(l.get_rel_size(1000), Some(1));
    l.put_truncation(25, 3);
    assert_eq!(l.get_rel_size(30), Some(3));
    assert!(l.get_rel_exists(20));
}

#[test]
fn checkpoint_distance_negative_after_freeze() {
    let mut t = LayeredTimeline::new(1, metadata(0), None, conf());
    t.put_value(1, 1, wal(true, b"a")).unwrap();
    t.finish_write(1);
    t.freeze_inmem_layer();
    assert_eq!(t.last_freeze_at, 2);
    t.put_value(1, 2, wal(true, b"b")).unwrap();
    assert!(!t.check_checkpoint_distance(true));
    t.finish_write(2);
    assert!(!t.check_checkpoint_distance(true));
    t.finish_write(3);
    assert!(t.check_checkpoint_distance(true));
}

#[test]
fn gc_counts_each_reason() {
    let mut t = LayeredTimeline::new(1, metadata(0), None, conf());
    t.layers.insert_historic(layer(false, 0, 10, 300, 400));
    t.layers.insert_historic(layer(false, 0, 10, 100, 180));
    t.layers.insert_historic(layer(false, 0, 10, 10, 20));
    t.layers.insert_historic(layer(false, 20, 30, 20, 30));
    t.layers.insert_historic(layer(false, 0, 10, 30, 40));
    t.layers.insert_historic(layer(true, 0, 10, 50, 51));
    t.update_gc_info(vec![15], 200, false, Some(LsnForTimestamp::Present(150)));
    let (res, removed) = t.gc();
    assert_eq!(res.layers_total, 6);
    assert_eq!(res.layers_needed_by_cutoff, 1);
    assert_eq!(res.layers_needed_by_pitr, 1);
    assert_eq!(res.layers_needed_by_branches, 1);
    assert_eq!(res.layers_not_updated, 2);
    assert_eq!(res.layers_removed, 1);
    assert_eq!((removed[0].lsn_start, removed[0].lsn_end), (30, 40));
}

#[test]
fn wait_lsn_steps() {
    let mut t = LayeredTimeline::new(1, metadata(0), None, conf());
    assert_eq!(t.wait_lsn_step(10, false), Ok(false));
    assert_eq!(t.wait_lsn_step(10, true), Err(TimelineError::WaitTimeout));
    t.finish_write(10);
    assert_eq!(t.wait_lsn_step(10, true), Ok(true));
    assert_eq!(t.repartition_threshold(), 100);
}

#[test]
fn flush_stops_at_unflushable_layer() {
    let mut t = LayeredTimeline::new(1, metadata(0), None, conf());
    t.put_value(1, 1, wal(true, b"a")).unwrap();
    t.finish_write(1);
    t.freeze_inmem_layer();
    t.layers.frozen_layers[0].end_lsn = None;
    assert_eq!(t.flush_frozen_layers(), Err(TimelineError::CorruptLayer));
}

#[test]
fn image_trigger_counts_per_covered_piece() {
    let mut t = LayeredTimeline::new(1, metadata(0), None, TimelineConf { image_creation_threshold: 3, ..conf() });
    t.layers.insert_historic(layer(true, 0, 5, 50, 51));
    t.layers.insert_historic(layer(true, 5, 10, 50, 51));
    for s in [10u64, 20, 30] {
        t.layers.insert_historic(layer(false, 0, 10, s, s + 10));
    }
    assert!(!t.time_for_new_image_layer(&vec![(0, 10)], 100));
    for s in [60u64, 70] {
        t.layers.insert_historic(layer(false, 0, 3, s, s + 10));
    }
    assert!(!t.time_for_new_image_layer(&vec![(0, 10)], 100));
    t.layers.insert_historic(layer(false, 2, 4, 80, 90));
    assert!(t.time_for_new_image_layer(&vec![(0, 10)], 100));
    assert!(!t.time_for_new_image_layer(&vec![(5, 10)], 100));
}

#[test]
fn image_coverage_pieces() {
    let mut m = LayerMap::new(Some(1));
    m.insert_historic(layer(true, 0, 5, 50, 51));
    m.insert_historic(layer(true, 3, 10, 70, 71));
    m.insert_historic(layer(false, 0, 10, 10, 20));
    m.insert_historic(layer(true, 0, 10, 200, 201));
    assert_eq!(m.image_coverage(0, 10, 100), vec![(0, 3, 51), (3, 5, 71), (5, 10, 71)]);
    assert_eq!(m.image_coverage(0, 12, 5), vec![(0, 12, 0)]);
}

#[test]
fn repository_checkpoint_imports_as_images() {
    let md = TimelineMetadata { initdb_lsn: 5, prev_record_lsn: None, ..metadata(4) };
    let mut t = LayeredTimeline::new(1, md, None, conf());
    t.put_value(1, 5, Value::Image(vec![1])).unwrap();
    t.put_value(2, 5, Value::Image(vec![2])).unwrap();
    t.finish_write(5);
    let mut repo = Repository { timelines: vec![t] };
    let md = repo.checkpoint(0, false, &vec![vec![(1, 3)]], &CopyRedo).unwrap().unwrap();
    assert_eq!(md.disk_consistent_lsn, 5);
    let t = &repo.timelines[0];
    assert!(t.layers.open_layer.is_none() && t.layers.frozen_layers.is_empty());
    assert_eq!(t.layers.historic.len(), 1);
    assert!(t.layers.historic[0].is_image);
    repo.timelines[0].put_value(1, 6, wal(false, b"x")).unwrap();
    repo.timelines[0].finish_write(6);
    repo.checkpoint(0, true, &vec![vec![(1, 3)]], &CopyRedo).unwrap();
    let t = &repo.timelines[0];
    assert_eq!(t.layers.historic.len(), 2);
    assert!(!t.layers.historic[1].is_image);
    assert_eq!(repo.get(0, 1, 6, None, &CopyRedo).unwrap(), vec![1, b'x']);
}

struct PageRedo;

impl WalRedoManager for PageRedo {
    fn request_redo(&self, _: Key, _: Lsn, _: Option<Vec<u8>>, records: Vec<(Lsn, WalRecord)>) -> Result<Vec<u8>, WalRedoError> {
        Ok(vec![records.len() as u8; 8192])
    }
}

#[test]
fn redo_pages_are_memoized_at_last_record() {
    let mut t = LayeredTimeline::new(1, metadata(0), None, conf());
    t.put_value(4, 3, wal(true, b"a")).unwrap();
    t.put_value(4, 7, wal(false, b"b")).unwrap();
    t.put_value(5, 3, Value::Image(vec![1; 8192])).unwrap();
    t.finish_write(9);
    let repo = Repository { timelines: vec![t] };
    let (img, memo) = repo.get_with_memo(0, 4, 9, None, &PageRedo).unwrap();
    assert_eq!(img, vec![2u8; 8192]);
    assert_eq!(memo, Some(7));
    let (_, memo) = repo.get_with_memo(0, 5, 9, None, &PageRedo).unwrap();
    assert_eq!(memo, None);
    let (_, memo) = repo.get_with_memo(0, 4, 9, None, &CopyRedo).unwrap();
    assert_eq!(memo, None);
}

#[test]
fn read_path_lists_layers_consulted() {
    let mut t = LayeredTimeline::new(1, metadata(0), None, conf());
    t.put_value(4, 3, wal(false, b"a")).unwrap();
    t.finish_write(3);
    t.freeze_inmem_layer();
    t.put_value(4, 7, wal(false, b"b")).unwrap();
    t.finish_write(7);
    let repo = Repository { timelines: vec![t] };
    assert_eq!(repo.get(0, 4, 7, None, &CopyRedo), Err(TimelineError::NotFound));
    assert_eq!(repo.read_path(0, 4, 7), vec![(0, 4, ValueReconstructResult::Continue), (0, 1, ValueReconstructResult::Continue)]);
    assert_eq!(repo.read_path(0, 9, 2), vec![(0, 1, ValueReconstructResult::Continue)]);
}
