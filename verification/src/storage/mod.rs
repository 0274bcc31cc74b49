//! The storage engine.
//!
//! New points go to the write-ahead log and to a table in memory. A full table
//! is written out as a segment, and enough segments are merged into one.
//! [`Storage`] decides what is to be done to the files and in which order; its
//! caller carries out each [`Step`] and reports back with an [`Event`].
pub mod bits;
pub mod calls;
pub mod column;
pub mod compaction;
pub mod gorilla;
pub mod history;
pub mod ids;
pub mod manifest;
pub mod memtable;
pub mod naming;
pub mod recovery;
pub mod segment;
pub mod series;
pub mod wal;

use crate::config::Config;
use crate::error::Result;
use compaction::{all_readable, all_series, all_sorted, compact, compacted, has_series, merged};
use ids::add_ids;
use manifest::{manifest_text, texts, Manifest};
use memtable::{
    drains, lemma_total_with_point, table_counts_every_point, total, with_point, with_points,
    written, MemTable,
};
use naming::{next_id, next_segment_id, segment_name, segment_name_of};
use segment::{has_whole_index, image, indexed, opened_from, refused, Segment};
use series::{
    at_ts, in_range, lemma_lists_window, lemma_overlay_at, lemma_overlay_range,
    lemma_overlay_sorted, listing, lists, merge_into, overlay, select_range, window_of,
};
use std::collections::{BTreeMap, BTreeSet};
use vstd::prelude::*;
use wal::{record, replayed, Wal};

verus! {

broadcast use vstd::laws_cmp::group_laws_cmp;

/// So many segments are merged into one.
pub const COMPACT_THRESHOLD: usize = 4;

/// One point of a series; the value is the bit pattern of a floating-point number.
#[derive(Clone, Copy, Debug, PartialEq, Eq, Structural)]
pub struct Point {
    pub series: u64,
    pub ts: i64,
    pub value: u64,
}

/// Which step of an operation is being carried out.
#[derive(Clone, Copy, Debug, PartialEq, Eq, Structural)]
pub enum Phase {
    /// None.
    Idle,
    /// The first of the waiting points is appended to the log.
    Logging,
    /// The table is written to the segment file with this id.
    Building(u64),
    /// That file is read back.
    Opening(u64),
    /// The manifest is saved with the new segment.
    Listing,
    /// The log is emptied.
    Truncating,
    /// The merged segments are written to the segment file with this id.
    Compacting(u64),
    /// The manifest is saved with that segment alone.
    Swapping(u64),
    /// That file is read back.
    Reopening(u64),
    /// The files of the merged segments are removed.
    Removing,
}

/// What is to be done next to the files.
#[derive(Debug)]
pub enum Step {
    /// Append bytes to the log.
    Append(Vec<u8>),
    /// Create a file with these bytes.
    Build { name: String, data: Vec<u8> },
    /// Read a file.
    Open { name: String },
    /// Replace the manifest file with this text.
    SaveManifest(String),
    /// Empty the log.
    TruncateLog,
    /// Remove files, as far as that is possible.
    Remove(Vec<String>),
    /// Nothing: the operation has come to its end.
    Finished,
}

/// What came of a step.
#[derive(Debug)]
pub enum Event {
    /// It was carried out.
    Done,
    /// The file was read.
    Opened { path: String, data: Vec<u8> },
}

/// What a store holds.
#[verifier::ext_equal]
pub struct Model {
    /// How many points in memory are enough for a segment.
    pub limit: usize,
    /// The points in memory.
    pub table: Map<u64, Seq<(i64, u64)>>,
    /// The names of the live segments.
    pub names: Seq<Seq<char>>,
    /// The live segments.
    pub segments: Seq<Segment>,
    /// The id of the next segment.
    pub next: u64,
    /// The points that are still to be logged.
    pub todo: Seq<Point>,
    /// The step that is being carried out.
    pub phase: Phase,
}

impl Model {
    /// The values of a series: those in memory win over those in segments, and
    /// those of later segments over those of earlier ones.
    pub open spec fn contents(self, series: u64) -> Map<i64, u64> {
        overlay(merged(self.segments, series), written(self.table, series))
    }

    /// The series that have points.
    pub open spec fn series(self) -> Set<u64> {
        Set::new(|s: u64| has_series(self.segments, s) || self.table.contains_key(s))
    }

    /// The model in another phase.
    pub open spec fn at(self, phase: Phase) -> Model {
        Model { phase, ..self }
    }
}

/// The step appends the record of a point.
pub open spec fn appends(step: Step, p: Point) -> bool {
    step matches Step::Append(bytes) && bytes@ == record(p)
}

/// The step creates the segment file with an id.
pub open spec fn builds(step: Step, id: u64, image: Seq<u8>) -> bool {
    step matches Step::Build { name, data } && name@ == segment_name_of(id) && data@ == image
}

/// The step reads the segment file with an id.
pub open spec fn opens(step: Step, id: u64) -> bool {
    step matches Step::Open { name } && name@ == segment_name_of(id)
}

/// The step saves a manifest with the given names.
pub open spec fn saves(step: Step, names: Seq<Seq<char>>) -> bool {
    step matches Step::SaveManifest(text) && text@ == manifest_text(names)
}

/// The step removes the files of segments.
pub open spec fn removes(step: Step, segments: Seq<Segment>) -> bool {
    step matches Step::Remove(paths) && texts(paths@) == segments.map_values(
        |s: Segment| s.name(),
    )
}

/// A flush begins: the table moves to a new segment file, unless it is empty.
pub open spec fn flush_begins(a: Model, b: Model, step: Step) -> bool {
    if a.table == Map::<u64, Seq<(i64, u64)>>::empty() {
        b == a.at(Phase::Idle) && step is Finished
    } else {
        &&& b == (Model {
            table: Map::empty(),
            next: (a.next + 1) as u64,
            phase: Phase::Building(a.next),
            ..a
        })
        &&& exists|blocks: Seq<(u64, Seq<(i64, u64)>)>| #[trigger]
            drains(blocks, a.table) && builds(step, a.next, image(blocks))
    }
}

/// A flush begins if enough points are in memory.
pub open spec fn settles(a: Model, b: Model, step: Step) -> bool {
    if total(a.table) >= a.limit {
        flush_begins(a, b, step)
    } else {
        b == a.at(Phase::Idle) && step is Finished
    }
}

/// The first of the waiting points is logged next; with none left a flush may begin.
pub open spec fn logs(a: Model, b: Model, step: Step) -> bool {
    if a.todo.len() > 0 {
        b == a.at(Phase::Logging) && appends(step, a.todo[0])
    } else {
        settles(a, b, step)
    }
}

/// The first of the waiting points is now in the log, so it goes to memory.
pub open spec fn with_logged(a: Model) -> Model {
    Model { table: with_point(a.table, a.todo[0]), todo: a.todo.skip(1), ..a }
}

/// A new segment is taken up behind the others, or its file is refused.
pub open spec fn takes_segment(
    a: Model,
    id: u64,
    path: Seq<char>,
    data: Seq<u8>,
    b: Model,
    r: Result<Step>,
) -> bool {
    match r {
        Ok(step) => {
            let names = a.names.push(segment_name_of(id));
            &&& b.segments.len() > 0
            &&& opened_from(b.segments.last(), path, data)
            &&& b == (Model {
                segments: a.segments.push(b.segments.last()),
                names,
                phase: Phase::Listing,
                ..a
            })
            &&& saves(step, names)
        },
        Err(e) => refused(e, path, data) && b == a.at(Phase::Idle),
    }
}

/// Enough segments are merged into a new file.
pub open spec fn compaction_begins(a: Model, b: Model, step: Step) -> bool {
    if a.segments.len() >= COMPACT_THRESHOLD {
        &&& b == (Model {
            next: (a.next + 1) as u64,
            phase: Phase::Compacting(a.next),
            ..a
        })
        &&& exists|data: Seq<u8>| #[trigger]
            compacted(data, a.segments) && builds(step, a.next, data)
    } else {
        b == a.at(Phase::Idle) && step is Finished
    }
}

/// The merged segment takes the place of all others, or its file is refused.
pub open spec fn takes_merged(
    a: Model,
    path: Seq<char>,
    data: Seq<u8>,
    b: Model,
    r: Result<Step>,
) -> bool {
    match r {
        Ok(step) => {
            &&& b.segments.len() == 1
            &&& opened_from(b.segments[0], path, data)
            &&& b == (Model { segments: seq![b.segments[0]], phase: Phase::Removing, ..a })
            &&& removes(step, a.segments)
        },
        Err(e) => refused(e, path, data) && b == a.at(Phase::Idle),
    }
}

/// How the store goes on after a step was carried out.
pub open spec fn advances(a: Model, event: Event, b: Model, r: Result<Step>) -> bool {
    match a.phase {
        Phase::Idle => false,
        Phase::Logging => r matches Ok(step) && logs(with_logged(a), b, step),
        Phase::Building(id) => r matches Ok(step) && b == a.at(Phase::Opening(id)) && opens(
            step,
            id,
        ),
        Phase::Opening(id) => event matches Event::Opened { path, data } && takes_segment(
            a,
            id,
            path@,
            data@,
            b,
            r,
        ),
        Phase::Listing => r matches Ok(step) && b == a.at(Phase::Truncating) && step
            is TruncateLog,
        Phase::Truncating => r matches Ok(step) && compaction_begins(a, b, step),
        Phase::Compacting(id) => {
            let names = seq![segment_name_of(id)];
            r matches Ok(step) && b == (Model { names, phase: Phase::Swapping(id), ..a }) && saves(
                step,
                names,
            )
        },
        Phase::Swapping(id) => r matches Ok(step) && b == a.at(Phase::Reopening(id)) && opens(
            step,
            id,
        ),
        Phase::Reopening(id) => event matches Event::Opened { path, data } && takes_merged(
            a,
            path@,
            data@,
            b,
            r,
        ),
        Phase::Removing => r matches Ok(step) && b == a.at(Phase::Idle) && step is Finished,
    }
}

/// If the table goes to a new segment file, there is an id for it.
pub open spec fn can_flush(a: Model) -> bool {
    a.table != Map::<u64, Seq<(i64, u64)>>::empty() ==> a.next < u64::MAX
}

/// If a flush begins once all points are logged, there is an id for its file.
pub open spec fn can_settle(a: Model) -> bool {
    a.todo.len() == 0 && total(a.table) >= a.limit ==> can_flush(a)
}

/// The event is one that the phase waits for, and the store can go on from it:
/// there is an id for a new file, a file that was read has a whole index, and
/// segments that are about to be merged can be read.
pub open spec fn accepts(a: Model, event: Event) -> bool {
    match a.phase {
        Phase::Idle => false,
        Phase::Opening(_) | Phase::Reopening(_) => event matches Event::Opened { path, data }
            && has_whole_index(data@),
        Phase::Logging => event is Done && a.todo.len() > 0 && total(a.table) < usize::MAX
            && can_settle(with_logged(a)),
        Phase::Truncating => event is Done && (a.segments.len() >= COMPACT_THRESHOLD ==> a.next
            < u64::MAX && all_readable(a.segments)),
        _ => event is Done,
    }
}

/// Every segment can serve a series.
pub open spec fn all_serve(segments: Seq<Segment>, series: u64) -> bool {
    forall|k: int| 0 <= k < segments.len() ==> #[trigger] segments[k].serves(series)
}

/// These are the values of a series from `start` up to, but not including, `end`.
pub open spec fn finds(
    m: Model,
    series: u64,
    start: i64,
    end: i64,
    out: Seq<(i64, u64)>,
) -> bool {
    lists(out, m.contents(series), start, end)
}

/// These are the counts of a store.
pub open spec fn counts(m: Model, s: StorageStats) -> bool {
    &&& s.series == m.series().len()
    &&& s.segments == m.segments.len()
    &&& s.memtable_points == total(m.table)
}

/// The store between two operations.
pub open spec fn idle(a: Model) -> bool {
    a.phase is Idle && a.todo.len() == 0
}

pub struct Storage {
    max_points: usize,
    mem: MemTable,
    manifest: Manifest,
    segments: Vec<Segment>,
    next_segment: u64,
    batch: Vec<Point>,
    logged: usize,
    phase: Phase,
}

impl View for Storage {
    type V = Model;

    closed spec fn view(&self) -> Model {
        Model {
            limit: self.max_points,
            table: self.mem@,
            names: self.manifest@,
            segments: self.segments@,
            next: self.next_segment,
            todo: self.batch@.skip(self.logged as int),
            phase: self.phase,
        }
    }
}

impl Storage {
    pub closed spec fn wf(self) -> bool {
        &&& self.mem.wf()
        &&& self.logged <= self.batch@.len()
    }

    /// Takes up a store: its manifest, the segments that the manifest names, and
    /// the bytes of its log.
    pub fn open(cfg: &Config, manifest: Manifest, segments: Vec<Segment>, log: &[u8]) -> (s: Self)
        requires
            next_id(manifest@) <= u64::MAX,
        ensures
            s.wf(),
            s@ == (Model {
                limit: cfg.memtable_max_points,
                table: with_points(Map::empty(), replayed(log@)),
                names: manifest@,
                segments: segments@,
                next: next_id(manifest@) as u64,
                todo: seq![],
                phase: Phase::Idle,
            }),
    {
        let next_segment = match next_segment_id(manifest.segments()) {
            Some(id) => id,
            None => 0,
        };
        let points = Wal::replay(log);
        let mut mem = MemTable::new();
        let mut i: usize = 0;
        assert(points@.take(0) =~= seq![]);
        while i < points.len()
            invariant
                i <= points@.len(),
                mem.wf(),
                total(mem@) == i,
                mem@ == with_points(Map::empty(), points@.take(i as int)),
            decreases points@.len() - i,
        {
            mem.insert(points[i]);
            proof {
                let grown = points@.take(i + 1);
                assert(grown.drop_last() =~= points@.take(i as int));
            }
            i = i + 1;
        }
        assert(points@.take(i as int) =~= points@);
        let s = Storage {
            max_points: cfg.memtable_max_points,
            mem,
            manifest,
            segments,
            next_segment,
            batch: Vec::new(),
            logged: 0,
            phase: Phase::Idle,
        };
        assert(s@.todo =~= seq![]);
        s
    }

    /// Begins to write a point.
    pub fn write(&mut self, p: Point) -> (step: Step)
        requires
            old(self).wf(),
            idle(old(self)@),
        ensures
            final(self).wf(),
            final(self)@ == (Model { todo: seq![p], phase: Phase::Logging, ..old(self)@ }),
            appends(step, p),
            logs(Model { todo: seq![p], ..old(self)@ }, final(self)@, step),
    {
        let mut batch: Vec<Point> = Vec::new();
        batch.push(p);
        self.batch = batch;
        self.logged = 0;
        self.phase = Phase::Logging;
        assert(self@.todo =~= seq![p]);
        Step::Append(Wal::append(p))
    }

    /// Begins to write points.
    pub fn write_batch(&mut self, points: &[Point]) -> (step: Step)
        requires
            old(self).wf(),
            idle(old(self)@),
            points@.len() == 0 ==> can_settle(old(self)@),
        ensures
            final(self).wf(),
            logs(Model { todo: points@, ..old(self)@ }, final(self)@, step),
    {
        let mut batch: Vec<Point> = Vec::new();
        let mut i: usize = 0;
        while i < points.len()
            invariant
                i <= points@.len(),
                batch@ == points@.take(i as int),
            decreases points@.len() - i,
        {
            batch.push(points[i]);
            assert(batch@ =~= points@.take(i + 1));
            i = i + 1;
        }
        self.batch = batch;
        self.logged = 0;
        assert(self@.todo =~= points@);
        assert(self@ =~= (Model { todo: points@, ..old(self)@ }));
        self.log_next()
    }

    /// Begins to write out the table.
    pub fn flush(&mut self) -> (step: Step)
        requires
            old(self).wf(),
            idle(old(self)@),
            can_flush(old(self)@),
        ensures
            final(self).wf(),
            flush_begins(old(self)@, final(self)@, step),
    {
        self.begin_flush()
    }

    /// Whether a flush can begin.
    pub fn ready_to_flush(&self) -> (b: bool)
        requires
            self.wf(),
        ensures
            b == can_flush(self@),
    {
        self.mem.is_empty() || self.next_segment < u64::MAX
    }

    /// Whether the store can come to rest once all points are logged. An empty batch asks
    /// for it at once.
    pub fn ready_to_settle(&self) -> (b: bool)
        requires
            self.wf(),
        ensures
            b == can_settle(self@),
    {
        self.logged < self.batch.len() || self.mem.len() < self.max_points || self.ready_to_flush()
    }

    /// Whether the store can go on from an event.
    pub fn ready(&self, event: &Event) -> (b: bool)
        requires
            self.wf(),
        ensures
            b == accepts(self@, *event),
    {
        proof {
            self.mem.lemma_wf();
            if self@.todo.len() > 0 {
                lemma_total_with_point(self@.table, self@.todo[0]);
                assert(with_point(self@.table, self@.todo[0]).contains_key(self@.todo[0].series));
            }
        }
        match self.phase {
            Phase::Idle => false,
            Phase::Opening(_) | Phase::Reopening(_) => match event {
                Event::Opened { path, data } => Segment::index_complete(data.as_slice()),
                Event::Done => false,
            },
            Phase::Logging => match event {
                Event::Done => self.logged < self.batch.len() && self.mem.len() < usize::MAX && (
                self.next_segment < u64::MAX || self.batch.len() - self.logged > 1
                    || self.mem.len() + 1 < self.max_points),
                Event::Opened { path, data } => false,
            },
            Phase::Truncating => match event {
                Event::Done => self.segments.len() < COMPACT_THRESHOLD || (self.next_segment
                    < u64::MAX && self.can_compact()),
                Event::Opened { path, data } => false,
            },
            _ => match event {
                Event::Done => true,
                Event::Opened { path, data } => false,
            },
        }
    }

    /// Goes on after a step was carried out.
    pub fn advance(&mut self, event: Event) -> (r: Result<Step>)
        requires
            old(self).wf(),
            accepts(old(self)@, event),
        ensures
            final(self).wf(),
            advances(old(self)@, event, final(self)@, r),
    {
        match self.phase {
            Phase::Idle => Ok(Step::Finished),
            Phase::Logging => {
                let p = self.batch[self.logged];
                self.mem.insert(p);
                assert(self.logged < self.batch.len());
                self.logged = self.logged + 1;
                assert(self@.todo =~= old(self)@.todo.skip(1));
                assert(self@ =~= with_logged(old(self)@));
                Ok(self.log_next())
            },
            Phase::Building(id) => {
                self.phase = Phase::Opening(id);
                Ok(Step::Open { name: segment_name(id) })
            },
            Phase::Opening(id) => match event {
                Event::Opened { path, data } => self.take_segment(id, path, data),
                Event::Done => Ok(Step::Finished),
            },
            Phase::Listing => {
                self.phase = Phase::Truncating;
                Ok(Step::TruncateLog)
            },
            Phase::Truncating => Ok(self.begin_compaction()),
            Phase::Compacting(id) => {
                let mut names: Vec<String> = Vec::new();
                names.push(segment_name(id));
                assert(texts(names@) =~= seq![segment_name_of(id)]);
                let text = self.manifest.replace(names);
                self.phase = Phase::Swapping(id);
                Ok(Step::SaveManifest(text))
            },
            Phase::Swapping(id) => {
                self.phase = Phase::Reopening(id);
                Ok(Step::Open { name: segment_name(id) })
            },
            Phase::Reopening(id) => match event {
                Event::Opened { path, data } => self.take_merged(path, data),
                Event::Done => Ok(Step::Finished),
            },
            Phase::Removing => {
                self.phase = Phase::Idle;
                Ok(Step::Finished)
            },
        }
    }

    /// Gives up an operation after a step failed. What was done so far stays done.
    pub fn abort(&mut self)
        requires
            old(self).wf(),
        ensures
            final(self).wf(),
            final(self)@ == (Model { todo: seq![], phase: Phase::Idle, ..old(self)@ }),
    {
        self.batch = Vec::new();
        self.logged = 0;
        self.phase = Phase::Idle;
        assert(self@.todo =~= seq![]);
    }

    fn log_next(&mut self) -> (step: Step)
        requires
            old(self).wf(),
            can_settle(old(self)@),
        ensures
            final(self).wf(),
            logs(old(self)@, final(self)@, step),
    {
        if self.logged < self.batch.len() {
            let p = self.batch[self.logged];
            self.phase = Phase::Logging;
            assert(self@ =~= old(self)@.at(Phase::Logging));
            return Step::Append(Wal::append(p));
        }
        if self.mem.len() >= self.max_points {
            self.begin_flush()
        } else {
            self.phase = Phase::Idle;
            Step::Finished
        }
    }

    fn begin_flush(&mut self) -> (step: Step)
        requires
            old(self).wf(),
            can_flush(old(self)@),
        ensures
            final(self).wf(),
            flush_begins(old(self)@, final(self)@, step),
    {
        if self.mem.is_empty() {
            self.phase = Phase::Idle;
            return Step::Finished;
        }
        let id = self.next_segment;
        self.next_segment = id + 1;
        let blocks = self.mem.drain_sorted();
        self.phase = Phase::Building(id);
        let data = Segment::build(blocks.as_slice());
        Step::Build { name: segment_name(id), data }
    }

    fn take_segment(&mut self, id: u64, path: String, data: Vec<u8>) -> (r: Result<Step>)
        requires
            old(self).wf(),
            has_whole_index(data@),
        ensures
            final(self).wf(),
            takes_segment(old(self)@, id, path@, data@, final(self)@, r),
    {
        match Segment::open(path, data) {
            Ok(seg) => {
                self.segments.push(seg);
                let name = segment_name(id);
                let text = self.manifest.add(name.as_str());
                self.phase = Phase::Listing;
                Ok(Step::SaveManifest(text))
            },
            Err(e) => {
                self.phase = Phase::Idle;
                Err(e)
            },
        }
    }

    fn begin_compaction(&mut self) -> (step: Step)
        requires
            old(self).wf(),
            old(self)@.segments.len() >= COMPACT_THRESHOLD ==> old(self)@.next < u64::MAX
                && all_readable(old(self)@.segments),
        ensures
            final(self).wf(),
            compaction_begins(old(self)@, final(self)@, step),
    {
        if self.segments.len() < COMPACT_THRESHOLD {
            self.phase = Phase::Idle;
            return Step::Finished;
        }
        let id = self.next_segment;
        self.next_segment = id + 1;
        let data = compact(self.segments.as_slice());
        self.phase = Phase::Compacting(id);
        Step::Build { name: segment_name(id), data }
    }

    fn take_merged(&mut self, path: String, data: Vec<u8>) -> (r: Result<Step>)
        requires
            old(self).wf(),
            has_whole_index(data@),
        ensures
            final(self).wf(),
            takes_merged(old(self)@, path@, data@, final(self)@, r),
    {
        match Segment::open(path, data) {
            Ok(seg) => {
                let old_paths = self.paths();
                let mut segments: Vec<Segment> = Vec::new();
                segments.push(seg);
                self.segments = segments;
                self.phase = Phase::Removing;
                assert(self@.segments =~= seq![seg]);
                Ok(Step::Remove(old_paths))
            },
            Err(e) => {
                self.phase = Phase::Idle;
                Err(e)
            },
        }
    }

    /// The paths of the live segments.
    fn paths(&self) -> (paths: Vec<String>)
        ensures
            texts(paths@) == self@.segments.map_values(|s: Segment| s.name()),
    {
        let mut paths: Vec<String> = Vec::new();
        let mut i: usize = 0;
        while i < self.segments.len()
            invariant
                i <= self.segments@.len(),
                paths@.len() == i,
                forall|k: int| 0 <= k < i ==> (#[trigger] paths@[k])@ == self.segments@[k].name(),
            decreases self.segments@.len() - i,
        {
            paths.push(String::from_str(self.segments[i].path()));
            i = i + 1;
        }
        assert(texts(paths@) =~= self@.segments.map_values(|s: Segment| s.name()));
        paths
    }

    /// Whether every segment can be read in full.
    fn can_compact(&self) -> (b: bool)
        ensures
            b == all_readable(self@.segments),
    {
        let mut k: usize = 0;
        while k < self.segments.len()
            invariant
                k <= self.segments@.len(),
                forall|j: int, series: u64|
                    0 <= j < k ==> #[trigger] self.segments@[j].serves(series),
            decreases self.segments@.len() - k,
        {
            if !self.segments[k].is_readable() {
                let ghost series = choose|series: u64| !#[trigger] self.segments@[k as int].serves(
                    series,
                );
                assert(!self@.segments[k as int].serves(series));
                return false;
            }
            k = k + 1;
        }
        true
    }

    /// Whether the points of a series can be read.
    pub fn can_query(&self, series: u64) -> (b: bool)
        ensures
            b == all_serve(self@.segments, series),
    {
        let mut k: usize = 0;
        while k < self.segments.len()
            invariant
                k <= self.segments@.len(),
                forall|j: int| 0 <= j < k ==> #[trigger] self.segments@[j].serves(series),
            decreases self.segments@.len() - k,
        {
            if !self.segments[k].can_serve(series) {
                assert(!self@.segments[k as int].serves(series));
                return false;
            }
            k = k + 1;
        }
        true
    }

    /// The points of a series from `start` up to, but not including, `end`, one for
    /// each timestamp, in the order of the timestamps. What is looked up in an
    /// index that is not sorted is not determined.
    pub fn query(&self, series: u64, start: i64, end: i64) -> (r: Result<Vec<(i64, u64)>>)
        requires
            forall|k: int|
                0 <= k < self@.segments.len() ==> #[trigger] self@.segments[k].serves(series),
        ensures
            r matches Ok(out) && (all_sorted(self@.segments) ==> finds(
                self@,
                series,
                start,
                end,
                out@,
            )),
    {
        match self.try_query(series, start, end) {
            Some(out) => Ok(out),
            None => Ok(Vec::new()),
        }
    }

    /// The same, unless the points of the series cannot be read.
    pub fn try_query(&self, series: u64, start: i64, end: i64) -> (r: Option<Vec<(i64, u64)>>)
        ensures
            all_serve(self@.segments, series) ==> r is Some,
            all_sorted(self@.segments) ==> match r {
                Some(out) => {
                    &&& all_serve(self@.segments, series)
                    &&& finds(self@, series, start, end, out@)
                    &&& forall|i: int|
                        0 <= i < out@.len() ==> start <= (#[trigger] out@[i]).0 < end
                },
                None => !all_serve(self@.segments, series),
            },
    {
        let mut map: BTreeMap<i64, u64> = BTreeMap::new();
        let mut k: usize = 0;
        assert(self@.segments == self.segments@);
        assert(map@ =~= Map::<i64, u64>::empty());
        while k < self.segments.len()
            invariant
                k <= self.segments@.len(),
                all_sorted(self.segments@) ==> forall|j: int|
                    0 <= j < k ==> #[trigger] self.segments@[j].serves(series),
                all_sorted(self.segments@) ==> window_of(
                    map@,
                    merged(self.segments@.take(k as int), series),
                    start,
                    end,
                ),
            decreases self.segments@.len() - k,
        {
            let ghost before = map@;
            let ghost seg = self.segments@[k as int];
            let all = match self.segments[k].try_series(series) {
                Some(all) => all,
                None => {
                    assert(!self@.segments[k as int].serves(series));
                    return None;
                },
            };
            let points = select_range(all.as_slice(), start, end);
            merge_into(&mut map, points.as_slice());
            proof {
                let longer = self.segments@.take(k + 1);
                assert(longer.drop_last() =~= self.segments@.take(k as int));
                assert(longer.last() == seg);
                if all_sorted(self.segments@) {
                    lemma_overlay_range(
                        before,
                        merged(self.segments@.take(k as int), series),
                        seg.points(series),
                        start,
                        end,
                    );
                }
            }
            k = k + 1;
        }
        assert(self.segments@.take(k as int) =~= self.segments@);
        let ghost before = map@;
        let points = self.mem.query(series, start, end);
        merge_into(&mut map, points.as_slice());
        let out = listing(&map);
        proof {
            let fresh = written(self.mem@, series);
            lemma_overlay_sorted(before, points@, in_range(fresh, start, end));
            if all_sorted(self.segments@) {
                lemma_overlay_range(
                    before,
                    merged(self.segments@, series),
                    fresh,
                    start,
                    end,
                );
                lemma_lists_window(out@, map@, self@.contents(series), start, end);
            }
        }
        Some(out)
    }

    /// How many series, segments and points in memory there are.
    pub fn stats(&self) -> (s: StorageStats)
        requires
            self.wf(),
        ensures
            counts(self@, s),
            s.segments == self@.segments.len(),
            s.memtable_points == total(self@.table),
    {
        let mut set: BTreeSet<u64> = BTreeSet::new();
        let stored = all_series(self.segments.as_slice());
        add_ids(&mut set, stored.as_slice());
        let fresh = self.mem.series_ids();
        add_ids(&mut set, fresh.as_slice());
        proof {
            assert forall|s: u64| #[trigger]
                set@.contains(s) <==> self@.series().contains(s) by {
                assert(stored@.to_set().contains(s) <==> stored@.contains(s));
                assert(fresh@.to_set().contains(s) <==> self.mem@.dom().contains(s));
            }
            assert(set@ =~= self@.series());
        }
        StorageStats {
            series: set.len(),
            segments: self.segments.len(),
            memtable_points: self.mem.len(),
        }
    }
}

pub struct StorageStats {
    pub series: usize,
    pub segments: usize,
    pub memtable_points: usize,
}

/// As long as there is an id for a new file, a store can always go on: it can flush and
/// come to rest, log the point whose turn it is, and take every step of a flush or of a
/// compaction, once the step before was carried out.
pub proof fn store_goes_on(a: Model, event: Event)
    requires
        a.next < u64::MAX,
    ensures
        can_flush(a),
        can_settle(a),
        event is Done && a.phase is Logging && a.todo.len() > 0 && total(a.table) < usize::MAX
            ==> accepts(a, event),
        event is Done && (a.phase is Building || a.phase is Listing || a.phase is Compacting
            || a.phase is Swapping || a.phase is Removing) ==> accepts(a, event),
        event is Done && a.phase is Truncating && (a.segments.len() < 4 || all_readable(
            a.segments,
        )) ==> accepts(a, event),
        event matches Event::Opened { path, data } ==> (a.phase is Opening || a.phase
            is Reopening) && has_whole_index(data@) ==> accepts(a, event),
{
}

/// A store that is between two operations accepts no event, and none accepts one that its
/// phase does not wait for.
pub proof fn events_out_of_turn_are_refused(a: Model, event: Event)
    ensures
        a.phase is Idle ==> !accepts(a, event),
        accepts(a, event) ==> (event is Opened <==> a.phase is Opening || a.phase is Reopening),
{
}

/// A series has points if, and only if, a segment or the table has it.
pub proof fn series_are_those_with_points(a: Model, series: u64)
    ensures
        a.series().contains(series) <==> a.table.contains_key(series) || exists|k: int|
            0 <= k < a.segments.len() && indexed((#[trigger] a.segments[k]).index(), series),
{
}

/// The step that removes the files of segments names each of them, once and in order.
pub proof fn every_file_is_removed(step: Step, segments: Seq<Segment>)
    requires
        removes(step, segments),
    ensures
        step matches Step::Remove(paths) && paths@.len() == segments.len() && forall|i: int|
            0 <= i < segments.len() ==> (#[trigger] paths@[i])@ == segments[i].name(),
{
    if let Step::Remove(paths) = step {
        let names = texts(paths@);
        assert(names.len() == paths@.len());
        assert forall|i: int| 0 <= i < segments.len() implies (#[trigger] paths@[i])@
            == segments[i].name() by {
            assert(names[i] == paths@[i]@);
        }
    }
}

/// A query gives a value for each timestamp in the range that has one, and for no other,
/// in the order of the timestamps: what memory holds there last, or else what the last
/// segment that has the timestamp holds.
pub proof fn query_gives_every_value(
    m: Model,
    series: u64,
    start: i64,
    end: i64,
    out: Seq<(i64, u64)>,
    ts: i64,
)
    requires
        finds(m, series, start, end, out),
    ensures
        forall|i: int, j: int| 0 <= i < j < out.len() ==> out[i].0 < out[j].0,
        forall|i: int| 0 <= i < out.len() ==> start <= (#[trigger] out[i]).0 < end,
        start <= ts < end && at_ts(written(m.table, series), ts).len() > 0 ==> out.contains(
            (ts, at_ts(written(m.table, series), ts).last().1),
        ),
        start <= ts < end && at_ts(written(m.table, series), ts).len() == 0 && merged(
            m.segments,
            series,
        ).contains_key(ts) ==> out.contains((ts, merged(m.segments, series)[ts])),
        at_ts(written(m.table, series), ts).len() == 0 && !merged(m.segments, series).contains_key(
            ts,
        ) ==> forall|i: int| 0 <= i < out.len() ==> (#[trigger] out[i]).0 != ts,
{
    lemma_overlay_at(merged(m.segments, series), written(m.table, series), ts);
    let all = m.contents(series);
    assert(all.dom().contains(ts) && start <= ts < end ==> out.contains((ts, all[ts])));
}

/// Of segments that have a timestamp the last one tells the value there.
pub proof fn last_segment_wins(segments: Seq<Segment>, seg: Segment, series: u64, ts: i64)
    ensures
        at_ts(seg.points(series), ts).len() > 0 ==> merged(
            segments.push(seg),
            series,
        ).contains_key(ts) && merged(segments.push(seg), series)[ts] == at_ts(
            seg.points(series),
            ts,
        ).last().1,
        at_ts(seg.points(series), ts).len() == 0 ==> merged(
            segments.push(seg),
            series,
        ).contains_key(ts) == merged(segments, series).contains_key(ts) && merged(
            segments.push(seg),
            series,
        )[ts] == merged(segments, series)[ts],
        merged(Seq::<Segment>::empty(), series) == Map::<i64, u64>::empty(),
{
    assert(segments.push(seg).drop_last() =~= segments);
    lemma_overlay_at(merged(segments, series), seg.points(series), ts);
}

/// The counts are those of what is there: each segment, each point in memory, and each
/// series that a segment or the table has.
pub proof fn counts_are_right(
    m: Model,
    s: StorageStats,
    points: Seq<Point>,
)
    requires
        counts(m, s),
        m.table == with_points(Map::empty(), points),
    ensures
        s.memtable_points == points.len(),
        s.segments == m.segments.len(),
        s.series == m.series().len(),
        m.segments.len() == 0 ==> forall|series: u64| #[trigger]
            m.series().contains(series) <==> exists|i: int|
                0 <= i < points.len() && (#[trigger] points[i]).series == series,
{
    table_counts_every_point(Map::empty(), points);
    assert forall|series: u64| m.segments.len() == 0 implies (#[trigger] m.series().contains(series)
        <==> exists|i: int| 0 <= i < points.len() && (#[trigger] points[i]).series == series) by {
        lemma_table_series(points, series);
    }
}

/// A table has the series of its points.
proof fn lemma_table_series(points: Seq<Point>, series: u64)
    ensures
        with_points(Map::empty(), points).contains_key(series) <==> exists|i: int|
            0 <= i < points.len() && (#[trigger] points[i]).series == series,
    decreases points.len(),
{
    if points.len() > 0 {
        let init = points.drop_last();
        lemma_table_series(init, series);
        if exists|i: int| 0 <= i < points.len() && (#[trigger] points[i]).series == series {
            let i = choose|i: int| 0 <= i < points.len() && (#[trigger] points[i]).series == series;
            if i < init.len() {
                assert(init[i].series == series);
            }
        }
        if with_points(Map::empty(), points).contains_key(series) {
            if points.last().series == series {
                assert(points[points.len() - 1].series == series);
            } else {
                let i = choose|i: int| 0 <= i < init.len() && (#[trigger] init[i]).series == series;
                assert(points[i].series == series);
            }
        }
    }
}

} // verus!
