use lattice::config::Config;
use lattice::error::LatticeError;
use lattice::storage::manifest::Manifest;
use lattice::storage::memtable::MemTable;
use lattice::storage::segment::Segment;
use lattice::storage::{Event, Point, Step, Storage, COMPACT_THRESHOLD};
use std::collections::BTreeMap;

/// The files of a store, by name.
#[derive(Clone, Default)]
struct Disk {
    log: Vec<u8>,
    manifest: Option<String>,
    files: BTreeMap<String, Vec<u8>>,
}

impl Disk {
    fn open(&self, cfg: &Config) -> Storage {
        let manifest = Manifest::open(self.manifest.as_deref());
        let segments = manifest
            .segments()
            .iter()
            .map(|name| Segment::open(name.clone(), self.files[name].clone()).unwrap())
            .collect();
        Storage::open(cfg, manifest, segments, &self.log)
    }

    fn perform(&mut self, step: &Step) -> Event {
        match step {
            Step::Append(bytes) => self.log.extend(bytes),
            Step::Build { name, data } => {
                self.files.insert(name.clone(), data.clone());
            }
            Step::Open { name } => {
                let data = self.files[name].clone();
                return Event::Opened { path: name.clone(), data };
            }
            Step::SaveManifest(text) => self.manifest = Some(text.clone()),
            Step::TruncateLog => self.log.clear(),
            Step::Remove(paths) => {
                for p in paths {
                    self.files.remove(p);
                }
            }
            Step::Finished => {}
        }
        Event::Done
    }

    fn run(&mut self, storage: &mut Storage, mut step: Step) -> Vec<Disk> {
        let mut seen = vec![self.clone()];
        while !matches!(step, Step::Finished) {
            let event = self.perform(&step);
            seen.push(self.clone());
            assert!(storage.ready(&event));
            step = storage.advance(event).unwrap();
        }
        seen
    }

    fn write(&mut self, storage: &mut Storage, p: Point) -> Vec<Disk> {
        let step = storage.write(p);
        self.run(storage, step)
    }
}

fn config(max: usize) -> Config {
    Config { memtable_max_points: max, ..Default::default() }
}

fn point(i: usize) -> Point {
    Point { series: 1, ts: i as i64, value: (i as f64).to_bits() }
}

fn query(storage: &Storage, series: u64, start: i64, end: i64) -> Vec<(i64, f64)> {
    assert!(storage.can_query(series));
    let got = storage.query(series, start, end).unwrap();
    got.into_iter().map(|(ts, v)| (ts, f64::from_bits(v))).collect()
}

#[test]
fn compaction_merges_segments() {
    let mut disk = Disk::default();
    let mut storage = disk.open(&config(2));

    let flushes = COMPACT_THRESHOLD + 2;
    let n = flushes * 2;
    for i in 0..n {
        disk.write(&mut storage, point(i));
    }

    assert!(storage.stats().segments < flushes);

    let got = query(&storage, 1, 0, n as i64);
    assert_eq!(got.len(), n);
    assert_eq!(got.first(), Some(&(0, 0.0)));
    assert_eq!(got.last(), Some(&(n as i64 - 1, (n - 1) as f64)));
}

#[test]
fn segment_ids_survive_reopen() {
    let mut disk = Disk::default();
    let half = (COMPACT_THRESHOLD + 2) * 2;

    {
        let mut storage = disk.open(&config(2));
        for i in 0..half {
            disk.write(&mut storage, point(i));
        }
    }

    // after compaction, a count-based next id would reuse a live segment on reopen and overwrite it
    let mut storage = disk.open(&config(2));
    for i in half..half * 2 {
        disk.write(&mut storage, point(i));
    }

    let n = half * 2;
    let got = query(&storage, 1, 0, n as i64);
    assert_eq!(got.len(), n);
    assert_eq!(got.first(), Some(&(0, 0.0)));
    assert_eq!(got.last(), Some(&(n as i64 - 1, (n - 1) as f64)));
}

#[test]
fn steps_of_a_flush_and_a_compaction() {
    let mut disk = Disk::default();
    let mut storage = disk.open(&config(1));
    for i in 0..3 {
        disk.write(&mut storage, point(i));
    }
    assert_eq!(storage.stats().segments, 3);
    assert_eq!(
        disk.manifest.as_deref(),
        Some("seg-00000000.lsm\nseg-00000001.lsm\nseg-00000002.lsm\n")
    );

    let mut names = Vec::new();
    let mut step = storage.write(point(3));
    while !matches!(step, Step::Finished) {
        names.push(match &step {
            Step::Append(_) => "append".to_string(),
            Step::Build { name, .. } => format!("build {name}"),
            Step::Open { name } => format!("open {name}"),
            Step::SaveManifest(text) => format!("save {}", text.lines().count()),
            Step::TruncateLog => "truncate".to_string(),
            Step::Remove(paths) => format!("remove {}", paths.len()),
            Step::Finished => unreachable!(),
        });
        let event = disk.perform(&step);
        step = storage.advance(event).unwrap();
    }
    assert_eq!(
        names,
        vec![
            "append",
            "build seg-00000003.lsm",
            "open seg-00000003.lsm",
            "save 4",
            "truncate",
            "build seg-00000004.lsm",
            "save 1",
            "open seg-00000004.lsm",
            "remove 4",
        ]
    );
    assert_eq!(disk.files.keys().collect::<Vec<_>>(), vec!["seg-00000004.lsm"]);
    assert_eq!(disk.manifest.as_deref(), Some("seg-00000004.lsm\n"));
    assert!(disk.log.is_empty());
    let s = storage.stats();
    assert_eq!((s.series, s.segments, s.memtable_points), (1, 1, 0));
}

#[test]
fn restart_at_any_step_keeps_the_values() {
    let mut disk = Disk::default();
    let mut storage = disk.open(&config(2));
    for i in 0..20 {
        let p = Point { series: (i % 3) as u64, ts: (i / 4) as i64, value: i as u64 };
        let before: Vec<_> = (0..3).map(|s| query(&storage, s, 0, 100)).collect();
        let seen = disk.write(&mut storage, p);
        let after: Vec<_> = (0..3).map(|s| query(&storage, s, 0, 100)).collect();
        for (k, d) in seen.iter().enumerate() {
            let again = d.open(&config(2));
            let got: Vec<_> = (0..3).map(|s| query(&again, s, 0, 100)).collect();
            assert_eq!(got, if k == 0 { before.clone() } else { after.clone() }, "step {k}");
        }
    }
}

#[test]
fn last_write_wins() {
    let mut disk = Disk::default();
    let mut storage = disk.open(&config(3));
    let values = [1.0, 2.0, 3.0, 4.0, 5.0];
    for v in values {
        disk.write(&mut storage, Point { series: 4, ts: 10, value: f64::to_bits(v) });
        assert_eq!(query(&storage, 4, 10, 11), vec![(10, v)]);
    }
    assert_eq!(query(&storage, 4, 11, 100), vec![]);
    assert_eq!(query(&storage, 5, 0, 100), vec![]);
    let s = storage.stats();
    assert_eq!((s.series, s.segments, s.memtable_points), (1, 1, 2));
}

#[test]
fn batch_is_flushed_once() {
    let mut disk = Disk::default();
    let mut storage = disk.open(&config(2));
    let batch: Vec<Point> = (0..7).map(point).collect();
    let step = storage.write_batch(&batch);
    disk.run(&mut storage, step);
    let s = storage.stats();
    assert_eq!((s.series, s.segments, s.memtable_points), (1, 1, 0));
    assert_eq!(query(&storage, 1, 0, 100).len(), 7);

    // nothing is done for an empty batch
    assert!(storage.ready_to_settle());
    assert!(matches!(storage.write_batch(&[]), Step::Finished));
}

#[test]
fn empty_table_is_not_flushed() {
    let mut storage = Disk::default().open(&config(10));
    assert!(storage.ready_to_flush());
    assert!(matches!(storage.flush(), Step::Finished));
}

#[test]
fn flush_writes_out_the_table() {
    let mut disk = Disk::default();
    let mut storage = disk.open(&config(10));
    disk.write(&mut storage, point(1));
    assert_eq!(storage.stats().memtable_points, 1);
    let step = storage.flush();
    disk.run(&mut storage, step);
    let s = storage.stats();
    assert_eq!((s.segments, s.memtable_points), (1, 0));
    assert_eq!(query(&storage, 1, 0, 10), vec![(1, 1.0)]);
}

#[test]
fn failed_build_leaves_the_log() {
    let mut disk = Disk::default();
    let mut storage = disk.open(&config(1));
    let step = storage.write(point(5));
    let event = disk.perform(&step);
    let step = storage.advance(event).unwrap();
    assert!(matches!(step, Step::Build { .. }));
    storage.abort();
    assert_eq!(query(&storage, 1, 0, 10), vec![]);
    let again = disk.open(&config(1));
    assert_eq!(query(&again, 1, 0, 10), vec![(5, 5.0)]);
    // the next flush takes the next name
    let step = storage.write(point(6));
    let event = disk.perform(&step);
    match storage.advance(event).unwrap() {
        Step::Build { name, .. } => assert_eq!(name, "seg-00000001.lsm"),
        other => panic!("unexpected step {other:?}"),
    }
}

#[test]
fn damaged_new_segment_is_refused() {
    let mut disk = Disk::default();
    let mut storage = disk.open(&config(1));
    let step = storage.write(point(5));
    let event = disk.perform(&step);
    let step = storage.advance(event).unwrap();
    let event = disk.perform(&step);
    let step = storage.advance(event).unwrap();
    assert!(matches!(step, Step::Open { .. }));
    let event = Event::Opened { path: "f".to_string(), data: vec![1, 2, 3] };
    assert!(!storage.ready(&Event::Done));
    assert!(storage.ready(&event));
    match storage.advance(event) {
        Err(LatticeError::Corrupt(text)) => assert_eq!(text, "f: short header"),
        other => panic!("unexpected result {other:?}"),
    }
    assert_eq!(storage.stats().segments, 0);
}

#[test]
fn events_out_of_turn_are_not_accepted() {
    let mut storage = Disk::default().open(&config(1));
    assert!(!storage.ready(&Event::Done));
    let _ = storage.write(point(1));
    assert!(storage.ready(&Event::Done));
    assert!(!storage.ready(&Event::Opened { path: String::new(), data: vec![] }));
}

#[test]
fn table_sorts_by_timestamp() {
    let mut t = MemTable::new();
    assert!(t.is_empty());
    for (ts, v) in [(30, 1), (10, 2), (20, 3), (10, 4)] {
        t.insert(Point { series: 2, ts, value: v });
    }
    t.insert(Point { series: 1, ts: 0, value: 9 });
    assert_eq!(t.len(), 5);
    assert_eq!(t.query(2, 10, 30), vec![(10, 2), (10, 4), (20, 3)]);
    assert_eq!(t.query(3, 0, 100), vec![]);
    let mut ids = t.series_ids();
    ids.sort();
    assert_eq!(ids, vec![1, 2]);
    assert_eq!(
        t.drain_sorted(),
        vec![(1, vec![(0, 9)]), (2, vec![(10, 2), (10, 4), (20, 3), (30, 1)])]
    );
    assert!(t.is_empty());
}

/// All that can be asked of a store about some series.
fn seen(storage: &Storage) -> (Vec<Vec<(i64, f64)>>, usize, usize, usize) {
    let s = storage.stats();
    let values = (0..4).map(|series| query(storage, series, -100, 100)).collect();
    (values, s.series, s.segments, s.memtable_points)
}

fn mixed(i: usize) -> Point {
    Point { series: (i % 3) as u64, ts: (i as i64 * 7) % 11 - 5, value: (i as f64).to_bits() }
}

#[test]
fn stop_within_a_step_keeps_the_values() {
    let cfg = config(2);
    let mut disk = Disk::default();
    let mut storage = disk.open(&cfg);
    for i in 0..15 {
        let before = seen(&storage).0;
        let mut step = storage.write(mixed(i));
        let mut logged = false;
        while !matches!(step, Step::Finished) {
            let mut torn = disk.clone();
            match &step {
                Step::Append(bytes) => torn.log.extend(&bytes[..bytes.len() - 1]),
                Step::Build { name, data } => {
                    torn.files.insert(name.clone(), data[..data.len() / 2].to_vec());
                }
                Step::Remove(paths) => {
                    torn.files.remove(&paths[0]);
                }
                _ => {}
            }
            let values = seen(&torn.open(&cfg)).0;
            if logged {
                assert_ne!(values, before);
            } else {
                assert_eq!(values, before);
            }
            logged = logged || matches!(step, Step::Append(_));
            let event = disk.perform(&step);
            step = storage.advance(event).unwrap();
        }
    }
}

#[test]
fn reopening_keeps_values_and_counts() {
    for max in [1, 2, 3, 100] {
        let mut disk = Disk::default();
        let mut storage = disk.open(&config(max));
        for i in 0..25 {
            disk.write(&mut storage, mixed(i));
            let again = disk.open(&config(max));
            assert_eq!(seen(&again), seen(&storage));
            if i % 4 == 0 {
                storage = again;
            }
        }
    }
}

#[test]
fn batches_and_single_writes_give_the_same() {
    let points: Vec<Point> = (0..23).map(mixed).collect();
    let mut one_disk = Disk::default();
    let mut one = one_disk.open(&config(4));
    for chunk in points.chunks(7) {
        let step = one.write_batch(chunk);
        one_disk.run(&mut one, step);
        let left = one.stats().memtable_points;
        assert!(left < 4, "{left} points left in memory");
    }
    let mut other_disk = Disk::default();
    let mut other = other_disk.open(&config(4));
    for p in &points {
        other_disk.write(&mut other, *p);
    }
    assert_eq!(seen(&one).0, seen(&other).0);
    assert_eq!(seen(&one).1, seen(&other).1);
}

#[test]
fn queries_give_the_latest_values() {
    let mut disk = Disk::default();
    let mut storage = disk.open(&config(3));
    let mut latest: BTreeMap<(u64, i64), f64> = BTreeMap::new();
    for i in 0..40 {
        let p = mixed(i);
        disk.write(&mut storage, p);
        latest.insert((p.series, p.ts), f64::from_bits(p.value));
        for series in 0..4 {
            for (start, end) in [(-100, 100), (-2, 3), (3, 3), (4, 1)] {
                let wanted: Vec<(i64, f64)> = latest
                    .iter()
                    .filter(|(k, _)| k.0 == series && start <= k.1 && k.1 < end)
                    .map(|(k, v)| (k.1, *v))
                    .collect();
                assert_eq!(query(&storage, series, start, end), wanted);
                let tried = storage.try_query(series, start, end).unwrap();
                assert_eq!(tried, storage.query(series, start, end).unwrap());
            }
        }
    }
}

#[test]
fn flushes_keep_the_series_and_count_segments() {
    let mut disk = Disk::default();
    let mut storage = disk.open(&config(100));
    for n in 0..6 {
        for i in 0..5 {
            disk.write(&mut storage, mixed(5 * n + i));
        }
        let before = seen(&storage);
        let step = storage.flush();
        disk.run(&mut storage, step);
        let after = seen(&storage);
        assert_eq!(after.0, before.0);
        assert_eq!(after.1, before.1);
        assert_eq!(after.2, if before.2 + 1 < COMPACT_THRESHOLD { before.2 + 1 } else { 1 });
        assert_eq!(after.3, 0);
        assert!(disk.log.is_empty());
    }
    assert_eq!(disk.manifest.as_deref().map(|m| m.lines().count()), Some(3));
    assert_eq!(disk.files.len(), 3);
}

#[test]
fn unreadable_series_are_noticed() {
    let mut disk = Disk::default();
    let mut storage = disk.open(&config(1));
    disk.write(&mut storage, point(1));
    disk.write(&mut storage, Point { series: 2, ts: 5, value: 6 });
    let name = "seg-00000001.lsm";
    let cut = disk.files[name].len() - 3;
    disk.files.get_mut(name).unwrap().truncate(cut);
    let damaged = disk.open(&config(1));
    assert!(damaged.can_query(1) && !damaged.can_query(2));
    assert_eq!(damaged.try_query(1, 0, 10), storage.try_query(1, 0, 10));
    assert_eq!(damaged.try_query(2, 0, 10), None);
    assert_eq!(storage.try_query(2, 0, 10), Some(vec![(5, 6)]));
}
