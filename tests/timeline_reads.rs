use std::cell::RefCell;

use layered_timeline::compaction::split_into_layers;
use layered_timeline::filename::layer_file_name;
use layered_timeline::layer::HistoricLayer;
use layered_timeline::repository::{Repository, WalRedoError, WalRedoManager};
use layered_timeline::timeline::{LayeredTimeline, TimelineConf, TimelineError, TimelineMetadata};
use layered_timeline::value::{Key, Lsn, PageVersion, Value, WalRecord};

const K1: Key = 0x0000_0000_0000_0000_0000_0000_0000_1000;

struct StubRedo {
    calls: RefCell<Vec<(Key, Lsn, Option<Vec<u8>>, Vec<(Lsn, Vec<u8>)>)>>,
}

impl StubRedo {
    fn new() -> StubRedo {
        StubRedo { calls: RefCell::new(Vec::new()) }
    }
}

/// The stub's output: the base image followed by every record's bytes.
fn stub_result(base: &Option<Vec<u8>>, records: &[(Lsn, Vec<u8>)]) -> Vec<u8> {
    let mut out = base.clone().unwrap_or_default();
    for (_, r) in records {
        out.extend_from_slice(r);
    }
    out
}

impl WalRedoManager for StubRedo {
    fn request_redo(
        &self,
        key: Key,
        lsn: Lsn,
        base_img: Option<Vec<u8>>,
        records: Vec<(Lsn, WalRecord)>,
    ) -> Result<Vec<u8>, WalRedoError> {
        let recs: Vec<(Lsn, Vec<u8>)> = records.into_iter().map(|(l, r)| (l, r.rec)).collect();
        let out = stub_result(&base_img, &recs);
        self.calls.borrow_mut().push((key, lsn, base_img, recs));
        Ok(out)
    }
}

fn conf() -> TimelineConf {
    TimelineConf {
        checkpoint_distance: 256 * 1024 * 1024,
        compaction_target_size: 1024 * 1024,
        compaction_threshold: 1,
        image_creation_threshold: 3,
    }
}

fn metadata(disk_consistent_lsn: Lsn, ancestor: Option<u128>, ancestor_lsn: Lsn) -> TimelineMetadata {
    TimelineMetadata {
        disk_consistent_lsn,
        prev_record_lsn: None,
        ancestor_timeline: ancestor,
        ancestor_lsn,
        latest_gc_cutoff_lsn: 0,
        initdb_lsn: 0,
    }
}

fn page(fill: u8) -> Vec<u8> {
    vec![fill; 8192]
}

fn wal(will_init: bool, bytes: &[u8]) -> Value {
    Value::WalRecord(WalRecord { will_init, rec: bytes.to_vec() })
}

/// A timeline whose open layer will start at `start`.
fn timeline_from(start: Lsn) -> LayeredTimeline {
    LayeredTimeline::new(1, metadata(start - 1, None, 0), None, conf())
}

fn image_then_two_records() -> (Repository, Vec<u8>) {
    let page_a = page(0xAA);
    let mut t = timeline_from(100);
    t.put_value(K1, 100, Value::Image(page_a.clone())).unwrap();
    t.finish_write(100);
    t.put_value(K1, 110, wal(false, b"r1")).unwrap();
    t.finish_write(110);
    t.put_value(K1, 120, wal(false, b"r2")).unwrap();
    t.finish_write(120);
    (Repository { timelines: vec![t] }, page_a)
}

#[test]
fn put_image_read_same_lsn() {
    let page_a = page(0xAA);
    let mut t = timeline_from(1);
    t.put_value(K1, 100, Value::Image(page_a.clone())).unwrap();
    t.finish_write(100);
    let repo = Repository { timelines: vec![t] };
    let redo = StubRedo::new();
    assert_eq!(repo.get(0, K1, 100, None, &redo).unwrap(), page_a);
    assert!(redo.calls.borrow().is_empty());
}

#[test]
fn put_image_then_two_wal_records() {
    let (repo, page_a) = image_then_two_records();
    let redo = StubRedo::new();
    let got = repo.get(0, K1, 120, None, &redo).unwrap();
    let calls = redo.calls.borrow();
    assert_eq!(calls.len(), 1);
    let expected_records = vec![(110, b"r1".to_vec()), (120, b"r2".to_vec())];
    assert_eq!(calls[0].0, K1);
    assert_eq!(calls[0].1, 120);
    assert_eq!(calls[0].2, Some(page_a.clone()));
    assert_eq!(calls[0].3, expected_records);
    assert_eq!(got, stub_result(&Some(page_a), &expected_records));
}

#[test]
fn freeze_and_flush_round_trip() {
    let (mut repo, page_a) = image_then_two_records();
    let t = &mut repo.timelines[0];
    let md = t.checkpoint(false).unwrap().expect("metadata to persist");
    assert_eq!(md.disk_consistent_lsn, 120);
    assert_eq!(md.prev_record_lsn, Some(110));
    assert_eq!(t.get_disk_consistent_lsn(), 99);
    t.update_disk_consistent_lsn(&md);
    assert_eq!(t.get_disk_consistent_lsn(), 120);
    assert!(t.layers.open_layer.is_none());
    assert!(t.layers.frozen_layers.is_empty());
    assert_eq!(t.layers.historic.len(), 1);
    let l = &t.layers.historic[0];
    assert!(!l.is_image);
    assert_eq!((l.key_start, l.key_end), (K1, K1 + 1));
    assert_eq!((l.lsn_start, l.lsn_end), (100, 121));
    assert_eq!(
        layer_file_name(l),
        format!("{:032x}-{:032x}__{:016x}-{:016x}", K1, K1 + 1, 100u64, 121u64)
    );
    let redo = StubRedo::new();
    let got = repo.get(0, K1, 115, None, &redo).unwrap();
    let expected_records = vec![(110, b"r1".to_vec())];
    assert_eq!(redo.calls.borrow()[0].3, expected_records);
    assert_eq!(got, stub_result(&Some(page_a), &expected_records));
}

#[test]
fn ancestor_traversal() {
    let page_p = page(0x50);
    let mut parent = timeline_from(50);
    parent.put_value(K1, 50, Value::Image(page_p.clone())).unwrap();
    parent.finish_write(50);
    let child = LayeredTimeline::new(2, metadata(50, Some(1), 50), Some(0), conf());
    let repo = Repository { timelines: vec![parent, child] };
    let redo = StubRedo::new();
    assert_eq!(repo.get(1, K1, 60, None, &redo).unwrap(), page_p);
}

fn full_range_layer(is_image: bool, lsn_start: Lsn, lsn_end: Lsn) -> HistoricLayer {
    HistoricLayer {
        is_image,
        level0: false,
        key_start: 0,
        key_end: u128::MAX,
        lsn_start,
        lsn_end,
        versions: Vec::new(),
    }
}

fn gc_timeline(retain: Vec<Lsn>) -> LayeredTimeline {
    let mut t = LayeredTimeline::new(1, metadata(300, None, 0), None, conf());
    t.layers.insert_historic(full_range_layer(false, 0, 100));
    t.layers.insert_historic(full_range_layer(true, 100, 101));
    t.layers.insert_historic(full_range_layer(false, 100, 200));
    t.layers.insert_historic(full_range_layer(true, 200, 201));
    t.update_gc_info(retain, 250, true, None);
    t
}

#[test]
fn gc_blocked_by_retain_lsn() {
    let mut t = gc_timeline(vec![150]);
    let (res, removed) = t.gc();
    assert!(removed.is_empty());
    assert_eq!(res.layers_removed, 0);
    assert_eq!(t.layers.historic.len(), 4);
    assert_eq!(t.get_latest_gc_cutoff_lsn(), 250);

    let mut t = gc_timeline(vec![]);
    let (res, removed) = t.gc();
    assert_eq!(res.layers_removed, 2);
    let gone: Vec<(bool, Lsn, Lsn)> = removed.iter().map(|l| (l.is_image, l.lsn_start, l.lsn_end)).collect();
    assert_eq!(gone, vec![(false, 0, 100), (true, 100, 101)]);
    let kept: Vec<(bool, Lsn, Lsn)> = t.layers.historic.iter().map(|l| (l.is_image, l.lsn_start, l.lsn_end)).collect();
    assert_eq!(kept, vec![(false, 100, 200), (true, 200, 201)]);
}

#[test]
fn compaction_split_on_hot_key() {
    let khot: Key = 0x42;
    let mut t = timeline_from(1);
    for lsn in 1..=1000u64 {
        t.put_value(khot, lsn, wal(lsn == 1, &vec![(lsn % 251) as u8; 10 * 1024])).unwrap();
        t.finish_write(lsn);
    }
    t.freeze_inmem_layer();
    t.flush_frozen_layer();
    assert_eq!(t.layers.historic.len(), 1);
    assert!(t.layers.historic[0].level0);
    assert_eq!(t.compact_level0(), Ok(true));
    let layers = &t.layers.historic;
    assert!(layers.len() >= 10);
    let mut expected_start = 1;
    let mut total = 0;
    for l in layers.iter() {
        assert!(!l.level0 && !l.is_image);
        assert_eq!((l.key_start, l.key_end), (khot, khot + 1));
        assert_eq!(l.lsn_start, expected_start);
        assert!(l.lsn_start < l.lsn_end);
        let mut bytes = 0usize;
        for v in &l.versions {
            assert!(l.lsn_start <= v.lsn && v.lsn < l.lsn_end);
            if let Value::WalRecord(r) = &v.value {
                bytes += r.rec.len();
            }
        }
        assert!(bytes <= 1024 * 1024);
        total += l.versions.len();
        expected_start = l.lsn_end;
    }
    assert_eq!(expected_start, 1001);
    assert_eq!(total, 1000);
}

#[test]
fn read_after_compaction_unchanged() {
    let mut t = timeline_from(1);
    for lsn in 1..=50u64 {
        let key = (lsn % 5) as Key;
        let v = if lsn <= 5 { Value::Image(page(lsn as u8)) } else { wal(false, &[lsn as u8]) };
        t.put_value(key, lsn, v).unwrap();
        t.finish_write(lsn);
        if lsn % 10 == 0 {
            t.freeze_inmem_layer();
            t.flush_frozen_layer();
        }
    }
    let before = Repository { timelines: vec![t] };
    let redo = StubRedo::new();
    let mut reads = Vec::new();
    for key in 0..5u128 {
        for lsn in [5u64, 17, 33, 50] {
            reads.push(before.get(0, key, lsn, None, &redo).unwrap());
        }
    }
    let mut repo = before;
    repo.timelines[0].conf.compaction_target_size = 64;
    assert_eq!(repo.timelines[0].compact_level0(), Ok(true));
    let mut i = 0;
    for key in 0..5u128 {
        for lsn in [5u64, 17, 33, 50] {
            assert_eq!(repo.get(0, key, lsn, None, &redo).unwrap(), reads[i]);
            i += 1;
        }
    }
}

#[test]
fn gc_never_removes_layer_spanning_retain_lsn() {
    let mut t = LayeredTimeline::new(1, metadata(1000, None, 0), None, conf());
    t.layers.insert_historic(full_range_layer(false, 0, 100));
    t.layers.insert_historic(full_range_layer(false, 100, 200));
    t.layers.insert_historic(full_range_layer(true, 300, 301));
    t.update_gc_info(vec![150], 500, true, None);
    let (_, removed) = t.gc();
    for l in &removed {
        assert!(!(l.lsn_start <= 150 && 150 < l.lsn_end));
    }
    assert_eq!(removed.len(), 0);
}

#[test]
fn repeated_get_is_identical() {
    let (repo, _) = image_then_two_records();
    let redo = StubRedo::new();
    let a = repo.get(0, K1, 115, None, &redo).unwrap();
    let b = repo.get(0, K1, 115, None, &redo).unwrap();
    assert_eq!(a, b);
}

#[test]
fn get_rejects_lsn_before_gc_cutoff() {
    let (mut repo, _) = image_then_two_records();
    repo.timelines[0].latest_gc_cutoff_lsn = 110;
    let redo = StubRedo::new();
    assert_eq!(repo.get(0, K1, 105, None, &redo), Err(TimelineError::LsnOutOfScope));
    assert!(repo.get(0, K1, 110, None, &redo).is_ok());
}

#[test]
fn get_missing_key_is_not_found() {
    let (repo, _) = image_then_two_records();
    let redo = StubRedo::new();
    assert_eq!(repo.get(0, K1 + 7, 120, None, &redo), Err(TimelineError::NotFound));
}

#[test]
fn get_uses_cached_image() {
    let (repo, _) = image_then_two_records();
    let redo = StubRedo::new();
    let cached = page(0x11);
    assert_eq!(repo.get(0, K1, 120, Some((120, cached.clone())), &redo).unwrap(), cached);
    let got = repo.get(0, K1, 120, Some((115, cached.clone())), &redo).unwrap();
    let calls = redo.calls.borrow();
    assert_eq!(calls.len(), 1);
    assert_eq!(calls[0].2, Some(cached.clone()));
    assert_eq!(calls[0].3, vec![(120, b"r2".to_vec())]);
    assert_eq!(got, stub_result(&Some(cached), &calls[0].3));
}

#[test]
fn split_cuts_by_target_size() {
    let mut merged = Vec::new();
    for key in 0..4u128 {
        merged.push(PageVersion { key, lsn: 10, value: Value::Image(vec![0; 40]) });
    }
    let out = split_into_layers(merged, 10, 20, 100);
    assert_eq!(out.len(), 2);
    assert_eq!((out[0].key_start, out[0].key_end), (0, 2));
    assert_eq!((out[1].key_start, out[1].key_end), (2, 4));
    assert_eq!((out[0].lsn_start, out[0].lsn_end), (10, 20));
}
