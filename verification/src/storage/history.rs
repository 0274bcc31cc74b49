//! What a store goes through, and what stays of it: calls with the steps they take,
//! stops in the middle of a step, and restarts.
//!
//! Nothing here is executed: these are laws about [`Storage`](super::Storage) and the
//! files that its caller keeps for it.
use crate::storage::compaction::{all_sorted, compacted, compacts, covers};
use crate::storage::manifest::{names_in, texts};
use crate::storage::memtable::{drains, table_counts_every_point, total, with_points, written};
use crate::storage::naming::{next_id, next_id_is_new, segment_id_of, segment_name_of};
use crate::storage::recovery::{
    compaction_keeps_store, distinct_paths, lemma_listed, lemma_live_paths, lemma_new_file,
    lemma_swap_files, logged_point_is_kept, mirrors, of_series, performed, point_added, recovered,
    recovered_series, reopening_keeps_contents, reopening_keeps_series, reopening_keeps_store,
    segments_of, small_file_fits_format, table_holds_its_points, taken_up, write_adds_its_point,
    Disk, Paths,
};
use crate::storage::segment::{fits_format, image, opened_from, Segment};
use crate::storage::series::{lists, overlay};
use crate::storage::wal::{record, replayed, torn_record_is_ignored};
use crate::storage::{
    accepts, advances, appends, builds, can_flush, can_settle, flush_begins, idle, logs, opens,
    saves, with_logged, Event, Model, Phase, Point, Step, COMPACT_THRESHOLD,
};
use vstd::prelude::*;

verus! {

/// A call that may change a store.
pub enum Call {
    Write(Point),
    WriteBatch(Seq<Point>),
    Flush,
}

impl Call {
    /// The points that the call writes.
    pub open spec fn points(self) -> Seq<Point> {
        match self {
            Call::Write(p) => seq![p],
            Call::WriteBatch(points) => points,
            Call::Flush => seq![],
        }
    }
}

/// A store in the middle of a call, its files, and the step that comes next.
pub struct Moment {
    pub model: Model,
    pub disk: Disk,
    pub step: Step,
}

/// What the store is told once the step was carried out.
pub open spec fn reports(x: Moment, path_of: Paths, event: Event) -> bool {
    match x.step {
        Step::Open { name } => event matches Event::Opened { path, data } && path@ == path_of(
            name@,
        ) && data@ == x.disk.files[path_of(name@)],
        _ => event is Done,
    }
}

/// The step was carried out, and the store goes on from there.
pub open spec fn goes_on(x: Moment, y: Moment, path_of: Paths) -> bool {
    &&& y.disk == performed(x.disk, x.step, path_of)
    &&& exists|event: Event| #[trigger]
        reports(x, path_of, event) && accepts(x.model, event) && advances(
            x.model,
            event,
            y.model,
            Ok(y.step),
        )
}

/// The call has begun.
pub open spec fn starts(a: Model, d: Disk, call: Call, x: Moment) -> bool {
    &&& idle(a)
    &&& x.disk == d
    &&& match call {
        Call::Flush => can_flush(a) && flush_begins(a, x.model, x.step),
        _ => {
            let todo = call.points();
            (todo.len() == 0 ==> can_settle(a)) && logs(Model { todo, ..a }, x.model, x.step)
        },
    }
}

/// Whatever blocks a file is built of, they stay within what the format can say.
pub open spec fn sized(x: Moment) -> bool {
    x.step matches Step::Build { name, data } ==> forall|blocks: Seq<(u64, Seq<(i64, u64)>)>|
        #[trigger]
        image(blocks) == data@ ==> fits_format(blocks)
}

/// A file of less than a gibibyte does.
pub proof fn small_file_is_sized(x: Moment)
    requires
        x.step matches Step::Build { name, data } ==> data@.len() < 0x4000_0000,
    ensures
        sized(x),
{
    if let Step::Build { name, data } = x.step {
        assert forall|blocks: Seq<(u64, Seq<(i64, u64)>)>| #[trigger]
            image(blocks) == data@ implies fits_format(blocks) by {
            small_file_fits_format(blocks);
        }
    }
}

/// The call went through these moments, one step after the other.
pub open spec fn passes(a: Model, d: Disk, call: Call, trace: Seq<Moment>, path_of: Paths) -> bool {
    &&& trace.len() > 0
    &&& starts(a, d, call, trace[0])
    &&& forall|i: int| #![trigger trace[i]] 0 <= i < trace.len() ==> sized(trace[i])
    &&& forall|i: int, j: int|
        #![trigger trace[i], trace[j]]
        0 <= i < trace.len() && j == i + 1 && j < trace.len() ==> goes_on(
            trace[i],
            trace[j],
            path_of,
        )
}

/// The call has come to its end.
pub open spec fn ended(trace: Seq<Moment>) -> bool {
    trace.len() > 0 && trace.last().step is Finished
}

/// How many of its points the call has logged.
pub open spec fn logged_by(call: Call, x: Moment) -> int {
    call.points().len() - x.model.todo.len()
}

/// The series of some points.
pub open spec fn series_in(points: Seq<Point>) -> Set<u64> {
    Set::new(|s: u64| exists|i: int| 0 <= i < points.len() && (#[trigger] points[i]).series == s)
}

spec fn no_points() -> Map<u64, Seq<(i64, u64)>> {
    Map::empty()
}

spec fn logged_table(d: Disk) -> Map<u64, Seq<(i64, u64)>> {
    with_points(Map::empty(), replayed(d.log))
}

/// The new file holds the table that the log holds, too.
spec fn built_of_log(x: Moment, blocks: Seq<(u64, Seq<(i64, u64)>)>, data: Seq<u8>) -> bool {
    drains(blocks, logged_table(x.disk)) && fits_format(blocks) && data == image(blocks)
}

/// The new file holds the merged segments.
spec fn built_of_segments(x: Moment, blocks: Seq<(u64, Seq<(i64, u64)>)>, data: Seq<u8>) -> bool {
    compacts(blocks, x.model.segments) && fits_format(blocks) && data == image(blocks)
}

/// What holds of a store and its files at each moment of a call.
spec fn sound(x: Moment, path_of: Paths) -> bool {
    let m = x.model;
    let d = x.disk;
    match m.phase {
        Phase::Idle => mirrors(d, path_of, m) && x.step is Finished && m.todo.len() == 0,
        Phase::Logging => mirrors(d, path_of, m) && m.todo.len() > 0 && appends(x.step, m.todo[0]),
        Phase::Building(id) => {
            &&& m.todo.len() == 0
            &&& m.table == no_points()
            &&& m.next == id + 1
            &&& mirrors(d, path_of, Model { table: logged_table(d), next: id, ..m })
            &&& exists|blocks: Seq<(u64, Seq<(i64, u64)>)>, data: Seq<u8>| #[trigger]
                built_of_log(x, blocks, data) && builds(x.step, id, data)
        },
        Phase::Opening(id) => {
            &&& m.todo.len() == 0
            &&& m.table == no_points()
            &&& m.next == id + 1
            &&& mirrors(d, path_of, Model { table: logged_table(d), next: id, ..m })
            &&& opens(x.step, id)
            &&& exists|blocks: Seq<(u64, Seq<(i64, u64)>)>| #[trigger]
                built_of_log(x, blocks, d.files[path_of(segment_name_of(id))])
        },
        Phase::Listing => {
            let id = (m.next - 1) as u64;
            let path = path_of(segment_name_of(id));
            &&& m.todo.len() == 0
            &&& m.table == no_points()
            &&& m.next > 0
            &&& m.segments.len() > 0
            &&& m.names.len() > 0
            &&& m.names.last() == segment_name_of(id)
            &&& mirrors(
                d,
                path_of,
                Model {
                    table: logged_table(d),
                    next: id,
                    names: m.names.drop_last(),
                    segments: m.segments.drop_last(),
                    ..m
                },
            )
            &&& saves(x.step, m.names)
            &&& opened_from(m.segments.last(), path, d.files[path])
            &&& exists|blocks: Seq<(u64, Seq<(i64, u64)>)>| #[trigger]
                built_of_log(x, blocks, d.files[path])
        },
        Phase::Truncating => {
            &&& m.todo.len() == 0
            &&& m.table == no_points()
            &&& x.step is TruncateLog
            &&& mirrors(performed(d, x.step, path_of), path_of, m)
            &&& forall|s: u64| #[trigger] recovered(d, path_of, s) == m.contents(s)
            &&& recovered_series(d, path_of) == m.series()
        },
        Phase::Compacting(id) => {
            &&& m.todo.len() == 0
            &&& m.table == no_points()
            &&& m.next == id + 1
            &&& mirrors(d, path_of, Model { next: id, ..m })
            &&& exists|blocks: Seq<(u64, Seq<(i64, u64)>)>, data: Seq<u8>| #[trigger]
                built_of_segments(x, blocks, data) && builds(x.step, id, data)
        },
        Phase::Swapping(id) => {
            let path = path_of(segment_name_of(id));
            &&& m.todo.len() == 0
            &&& m.table == no_points()
            &&& m.next == id + 1
            &&& m.names == seq![segment_name_of(id)]
            &&& mirrors(d, path_of, Model { names: names_in(d.manifest), next: id, ..m })
            &&& saves(x.step, m.names)
            &&& d.files.contains_key(path)
            &&& exists|blocks: Seq<(u64, Seq<(i64, u64)>)>| #[trigger]
                built_of_segments(x, blocks, d.files[path])
        },
        Phase::Reopening(id) => {
            let path = path_of(segment_name_of(id));
            &&& m.todo.len() == 0
            &&& m.table == no_points()
            &&& m.next == id + 1
            &&& m.names == seq![segment_name_of(id)]
            &&& names_in(d.manifest) == m.names
            &&& next_id(m.names) <= m.next
            &&& d.log.len() % 24 == 0
            &&& logged_table(d) == m.table
            &&& opens(x.step, id)
            &&& d.files.contains_key(path)
            &&& forall|k: int|
                0 <= k < m.segments.len() ==> (#[trigger] m.segments[k]).name() != path
            &&& forall|s: u64| #[trigger] recovered(d, path_of, s) == m.contents(s)
            &&& recovered_series(d, path_of) == m.series()
            &&& exists|blocks: Seq<(u64, Seq<(i64, u64)>)>| #[trigger]
                built_of_segments(x, blocks, d.files[path])
        },
        Phase::Removing => {
            &&& m.todo.len() == 0
            &&& m.table == no_points()
            &&& mirrors(d, path_of, m)
            &&& m.next > 0
            &&& m.names == seq![segment_name_of((m.next - 1) as u64)]
            &&& d.files.contains_key(path_of(m.names[0]))
            &&& x.step matches Step::Remove(paths) && !texts(paths@).contains(path_of(m.names[0]))
        },
    }
}

/// No step but the one that logs a point changes what a restart would give.
spec fn same_recovery(x: Moment, y: Moment, path_of: Paths) -> bool {
    &&& forall|s: u64| #[trigger]
        recovered(y.disk, path_of, s) == recovered(x.disk, path_of, s)
    &&& recovered_series(y.disk, path_of) == recovered_series(x.disk, path_of)
    &&& y.model.todo == x.model.todo
    &&& y.model.limit == x.model.limit
}

/// A flush begins soundly.
proof fn lemma_flush_begins(a: Model, d: Disk, y: Moment, path_of: Paths)
    requires
        mirrors(d, path_of, a),
        a.todo.len() == 0,
        can_flush(a),
        flush_begins(a, y.model, y.step),
        y.disk == d,
        sized(y),
    ensures
        sound(y, path_of),
        y.model.todo == a.todo,
        y.model.limit == a.limit,
{
    if a.table != no_points() {
        let blocks = choose|blocks: Seq<(u64, Seq<(i64, u64)>)>| #[trigger]
            drains(blocks, a.table) && builds(y.step, a.next, image(blocks));
        assert(logged_table(d) == a.table);
        assert(built_of_log(y, blocks, image(blocks)));
        assert(builds(y.step, a.next, image(blocks)));
    }
}

/// A call goes on to its next point, or to its end, soundly.
proof fn lemma_logs(a: Model, d: Disk, y: Moment, path_of: Paths)
    requires
        mirrors(d, path_of, a),
        can_settle(a),
        logs(a, y.model, y.step),
        y.disk == d,
        sized(y),
    ensures
        sound(y, path_of),
        y.model.todo == a.todo,
        y.model.limit == a.limit,
{
    if a.todo.len() == 0 && total(a.table) >= a.limit {
        lemma_flush_begins(a, d, y, path_of);
    }
}

/// A point is logged.
proof fn lemma_logging(x: Moment, y: Moment, path_of: Paths)
    requires
        sound(x, path_of),
        x.model.phase is Logging,
        goes_on(x, y, path_of),
        sized(y),
    ensures
        sound(y, path_of),
        y.model.todo == x.model.todo.skip(1),
        y.model.limit == x.model.limit,
        forall|s: u64|
            point_added(
                recovered(x.disk, path_of, s),
                #[trigger] recovered(y.disk, path_of, s),
                s,
                x.model.todo[0],
            ),
        recovered_series(y.disk, path_of) == recovered_series(x.disk, path_of).insert(
            x.model.todo[0].series,
        ),
{
    let a = x.model;
    let b = with_logged(a);
    logged_point_is_kept(x.disk, path_of, a, x.step, 0);
    assert forall|s: u64|
        point_added(
            recovered(x.disk, path_of, s),
            #[trigger] recovered(y.disk, path_of, s),
            s,
            a.todo[0],
        ) by {
        logged_point_is_kept(x.disk, path_of, a, x.step, s);
    }
    write_adds_its_point(a, 0);
    reopening_keeps_series(x.disk, path_of, a);
    reopening_keeps_series(y.disk, path_of, b);
    lemma_logs(b, y.disk, y, path_of);
}

/// The table is written out.
proof fn lemma_building(x: Moment, y: Moment, path_of: Paths)
    requires
        distinct_paths(path_of),
        sound(x, path_of),
        x.model.phase is Building,
        goes_on(x, y, path_of),
    ensures
        sound(y, path_of),
        same_recovery(x, y, path_of),
{
    let id = x.model.phase->Building_0;
    let base = Model { table: logged_table(x.disk), next: id, ..x.model };
    let (blocks, data) = choose|blocks: Seq<(u64, Seq<(i64, u64)>)>, data: Seq<u8>| #[trigger]
        built_of_log(x, blocks, data) && builds(x.step, id, data);
    lemma_new_file(x.disk, path_of, base, data);
    assert(built_of_log(y, blocks, y.disk.files[path_of(segment_name_of(id))]));
    assert(mirrors(
        y.disk,
        path_of,
        Model { table: logged_table(y.disk), next: id, ..y.model },
    ));
}

/// The new segment is taken up.
proof fn lemma_opening(x: Moment, y: Moment, path_of: Paths)
    requires
        sound(x, path_of),
        x.model.phase is Opening,
        goes_on(x, y, path_of),
    ensures
        sound(y, path_of),
        same_recovery(x, y, path_of),
{
    let id = x.model.phase->Opening_0;
    let path = path_of(segment_name_of(id));
    let blocks = choose|blocks: Seq<(u64, Seq<(i64, u64)>)>| #[trigger]
        built_of_log(x, blocks, x.disk.files[path]);
    assert(built_of_log(y, blocks, y.disk.files[path]));
    assert(y.model.names.drop_last() =~= x.model.names);
    assert(y.model.segments.drop_last() =~= x.model.segments);
    assert(y.model.next - 1 == id);
}

/// The manifest is saved with the new segment.
proof fn lemma_listing(x: Moment, y: Moment, path_of: Paths)
    requires
        sound(x, path_of),
        x.model.phase is Listing,
        goes_on(x, y, path_of),
    ensures
        sound(y, path_of),
        same_recovery(x, y, path_of),
{
    let m = x.model;
    let id = (m.next - 1) as u64;
    let path = path_of(segment_name_of(id));
    let base = Model {
        table: logged_table(x.disk),
        next: id,
        names: m.names.drop_last(),
        segments: m.segments.drop_last(),
        ..m
    };
    let blocks = choose|blocks: Seq<(u64, Seq<(i64, u64)>)>| #[trigger]
        built_of_log(x, blocks, x.disk.files[path]);
    assert(base.names.push(segment_name_of(id)) =~= m.names);
    assert(base.segments.push(m.segments.last()) =~= m.segments);
    lemma_listed(x.disk, path_of, base, blocks, m.segments.last(), x.step, y.model);
    assert(performed(y.disk, y.step, path_of) == performed(
        y.disk,
        Step::TruncateLog,
        path_of,
    ));
    assert forall|s: u64| #[trigger]
        recovered(y.disk, path_of, s) == y.model.contents(s) by {
        reopening_keeps_contents(x.disk, path_of, base, s);
        assert(y.model.contents(s) == base.contents(s));
    }
    reopening_keeps_series(x.disk, path_of, base);
}

/// The log is emptied, and segments are about to be merged.
proof fn lemma_truncating(x: Moment, y: Moment, path_of: Paths)
    requires
        sound(x, path_of),
        x.model.phase is Truncating,
        goes_on(x, y, path_of),
        sized(y),
    ensures
        sound(y, path_of),
        same_recovery(x, y, path_of),
        y.disk.log.len() == 0,
{
    let m = x.model;
    assert forall|s: u64| #[trigger]
        recovered(y.disk, path_of, s) == recovered(x.disk, path_of, s) by {
        reopening_keeps_contents(y.disk, path_of, m, s);
    }
    reopening_keeps_series(y.disk, path_of, m);
    if m.segments.len() >= COMPACT_THRESHOLD {
        let data = choose|data: Seq<u8>| #[trigger]
            compacted(data, m.segments) && builds(y.step, m.next, data);
        let blocks = choose|blocks: Seq<(u64, Seq<(i64, u64)>)>| #[trigger]
            covers(blocks, m.segments) && data == image(blocks) && (all_sorted(m.segments)
                ==> compacts(blocks, m.segments));
        assert(built_of_segments(y, blocks, data));
        assert(mirrors(y.disk, path_of, Model { next: m.next, ..y.model }));
    }
}

/// The merged segment is written.
proof fn lemma_compacting(x: Moment, y: Moment, path_of: Paths)
    requires
        distinct_paths(path_of),
        sound(x, path_of),
        x.model.phase is Compacting,
        goes_on(x, y, path_of),
    ensures
        sound(y, path_of),
        same_recovery(x, y, path_of),
        y.disk.log == x.disk.log,
{
    let id = x.model.phase->Compacting_0;
    let base = Model { next: id, ..x.model };
    let (blocks, data) = choose|blocks: Seq<(u64, Seq<(i64, u64)>)>, data: Seq<u8>| #[trigger]
        built_of_segments(x, blocks, data) && builds(x.step, id, data);
    lemma_new_file(x.disk, path_of, base, data);
    assert(built_of_segments(y, blocks, y.disk.files[path_of(segment_name_of(id))]));
    assert(names_in(y.disk.manifest) == base.names);
    assert(mirrors(
        y.disk,
        path_of,
        Model { names: names_in(y.disk.manifest), next: id, ..y.model },
    ));
}

/// The manifest is saved with the merged segment alone.
#[verifier::rlimit(30)]
proof fn lemma_swapping(x: Moment, y: Moment, path_of: Paths)
    requires
        distinct_paths(path_of),
        sound(x, path_of),
        x.model.phase is Swapping,
        goes_on(x, y, path_of),
    ensures
        sound(y, path_of),
        same_recovery(x, y, path_of),
        y.disk.log == x.disk.log,
{
    let m = x.model;
    let id = m.phase->Swapping_0;
    let path = path_of(segment_name_of(id));
    let base = Model { names: names_in(x.disk.manifest), next: id, ..m };
    let blocks = choose|blocks: Seq<(u64, Seq<(i64, u64)>)>| #[trigger]
        built_of_segments(x, blocks, x.disk.files[path]);
    lemma_live_paths(x.disk, path_of, base);
    assert(built_of_segments(y, blocks, y.disk.files[path]));
    lemma_swap_files(x.disk, path_of, base, blocks, x.step);
    assert forall|s: u64| #[trigger]
        recovered(y.disk, path_of, s) == y.model.contents(s) by {
        reopening_keeps_contents(x.disk, path_of, base, s);
        assert(y.model.contents(s) == base.contents(s));
    }
    reopening_keeps_series(x.disk, path_of, base);
    assert(y.model.series() =~= base.series());
}

/// The merged segment takes the place of all others.
#[verifier::rlimit(30)]
proof fn lemma_reopening(x: Moment, y: Moment, path_of: Paths)
    requires
        sound(x, path_of),
        x.model.phase is Reopening,
        goes_on(x, y, path_of),
    ensures
        sound(y, path_of),
        same_recovery(x, y, path_of),
        y.disk.log == x.disk.log,
{
    let m = x.model;
    let id = m.phase->Reopening_0;
    let path = path_of(segment_name_of(id));
    let blocks = choose|blocks: Seq<(u64, Seq<(i64, u64)>)>| #[trigger]
        built_of_segments(x, blocks, x.disk.files[path]);
    let seg = y.model.segments[0];
    compaction_keeps_store(m, blocks, seg, y.model);
    assert(segments_of(y.model.segments, y.disk.files, path_of, y.model.names)) by {
        assert(y.model.names[0] == segment_name_of(id));
    }
    let paths = y.step->Remove_0;
    assert(!texts(paths@).contains(path)) by {
        if texts(paths@).contains(path) {
            let k = choose|k: int| 0 <= k < texts(paths@).len() && texts(paths@)[k] == path;
            assert(m.segments.map_values(|s: Segment| s.name())[k] == m.segments[k].name());
        }
    }
}

/// The files of the merged segments are removed, or some of them.
proof fn lemma_gone(d: Disk, path_of: Paths, m: Model, gone: Set<Seq<char>>)
    requires
        mirrors(d, path_of, m),
        m.names.len() == 1,
        d.files.contains_key(path_of(m.names[0])),
        !gone.contains(path_of(m.names[0])),
    ensures
        ({
            let e = Disk { files: d.files.remove_keys(gone), ..d };
            &&& mirrors(e, path_of, m)
            &&& forall|s: u64| #[trigger]
                recovered(e, path_of, s) == recovered(d, path_of, s)
            &&& recovered_series(e, path_of) == recovered_series(d, path_of)
        }),
{
    let e = Disk { files: d.files.remove_keys(gone), ..d };
    let path = path_of(m.names[0]);
    assert(opened_from(m.segments[0], path, d.files[path]));
    assert(e.files[path] == d.files[path]);
    assert(segments_of(m.segments, e.files, path_of, m.names));
    assert(mirrors(e, path_of, m));
    assert forall|s: u64| #[trigger]
        recovered(e, path_of, s) == recovered(d, path_of, s) by {
        reopening_keeps_contents(d, path_of, m, s);
        reopening_keeps_contents(e, path_of, m, s);
    }
    reopening_keeps_series(d, path_of, m);
    reopening_keeps_series(e, path_of, m);
}

/// The end of a compaction.
proof fn lemma_removing(x: Moment, y: Moment, path_of: Paths)
    requires
        sound(x, path_of),
        x.model.phase is Removing,
        goes_on(x, y, path_of),
    ensures
        sound(y, path_of),
        same_recovery(x, y, path_of),
        y.disk.log == x.disk.log,
{
    let paths = x.step->Remove_0;
    let gone = texts(paths@).to_set();
    assert(!gone.contains(path_of(x.model.names[0])));
    lemma_gone(x.disk, path_of, x.model, gone);
    assert(mirrors(y.disk, path_of, y.model));
}

/// What a step comes to: one more point is logged, or nothing changes.
spec fn step_outcome(x: Moment, y: Moment, path_of: Paths) -> bool {
    if x.model.phase is Logging {
        &&& y.model.todo == x.model.todo.skip(1)
        &&& y.model.limit == x.model.limit
        &&& forall|s: u64|
            point_added(
                recovered(x.disk, path_of, s),
                #[trigger] recovered(y.disk, path_of, s),
                s,
                x.model.todo[0],
            )
        &&& recovered_series(y.disk, path_of) == recovered_series(x.disk, path_of).insert(
            x.model.todo[0].series,
        )
    } else {
        same_recovery(x, y, path_of)
    }
}

/// Any step is sound.
proof fn lemma_step(x: Moment, y: Moment, path_of: Paths)
    requires
        distinct_paths(path_of),
        sound(x, path_of),
        goes_on(x, y, path_of),
        sized(y),
    ensures
        sound(y, path_of),
        step_outcome(x, y, path_of),
        !(x.model.phase is Idle),
{
    match x.model.phase {
        Phase::Idle => {},
        Phase::Logging => lemma_logging(x, y, path_of),
        Phase::Building(_) => lemma_building(x, y, path_of),
        Phase::Opening(_) => lemma_opening(x, y, path_of),
        Phase::Listing => lemma_listing(x, y, path_of),
        Phase::Truncating => lemma_truncating(x, y, path_of),
        Phase::Compacting(_) => lemma_compacting(x, y, path_of),
        Phase::Swapping(_) => lemma_swapping(x, y, path_of),
        Phase::Reopening(_) => lemma_reopening(x, y, path_of),
        Phase::Removing => lemma_removing(x, y, path_of),
    }
}

/// How many segments there are after a flush on top of so many.
pub open spec fn segments_after(n: nat) -> nat {
    if n + 1 < COMPACT_THRESHOLD {
        n + 1
    } else {
        1
    }
}

/// A flush has begun on top of so many segments; once it is over, nothing is left in
/// memory or in the log.
spec fn flushing(x: Moment, n: nat) -> bool {
    let m = x.model;
    match m.phase {
        Phase::Logging => false,
        Phase::Building(_) | Phase::Opening(_) => m.segments.len() == n,
        Phase::Listing | Phase::Truncating => m.segments.len() == n + 1,
        Phase::Compacting(_) | Phase::Swapping(_) | Phase::Reopening(_) => m.segments.len() == n
            + 1 && n + 1 >= COMPACT_THRESHOLD && x.disk.log.len() == 0,
        Phase::Removing => m.segments.len() == 1 && n + 1 >= COMPACT_THRESHOLD
            && x.disk.log.len() == 0,
        Phase::Idle => {
            &&& m.segments.len() == segments_after(n)
            &&& x.disk.log.len() == 0
            &&& m.table == no_points()
        },
    }
}

/// No flush has begun, on top of so many segments; at the end the table is not full.
spec fn collecting(x: Moment, n: nat) -> bool {
    let m = x.model;
    &&& m.phase is Logging || m.phase is Idle
    &&& m.segments.len() == n
    &&& m.phase is Idle ==> m.table == no_points() || total(m.table) < m.limit
}

/// Where a call leads that has no more points to log.
proof fn lemma_logs_counts(a: Model, y: Moment)
    requires
        logs(a, y.model, y.step),
    ensures
        collecting(y, a.segments.len()) || flushing(y, a.segments.len()),
{
}

/// The number of segments through a step.
proof fn lemma_step_counts(x: Moment, y: Moment, path_of: Paths, n: nat)
    requires
        distinct_paths(path_of),
        sound(x, path_of),
        goes_on(x, y, path_of),
        sized(y),
        collecting(x, n) || flushing(x, n),
    ensures
        collecting(y, n) || flushing(y, n),
        flushing(x, n) ==> flushing(y, n),
{
    match x.model.phase {
        Phase::Logging => {
            lemma_logs_counts(with_logged(x.model), y);
        },
        Phase::Truncating => lemma_truncating(x, y, path_of),
        Phase::Compacting(_) => lemma_compacting(x, y, path_of),
        Phase::Swapping(_) => lemma_swapping(x, y, path_of),
        Phase::Reopening(_) => lemma_reopening(x, y, path_of),
        Phase::Removing => lemma_removing(x, y, path_of),
        _ => {},
    }
}

/// One more point among others.
proof fn lemma_of_series_next(points: Seq<Point>, k: int, series: u64)
    requires
        0 <= k < points.len(),
    ensures
        of_series(points.take(k + 1), series) == if points[k].series == series {
            of_series(points.take(k), series).push((points[k].ts, points[k].value))
        } else {
            of_series(points.take(k), series)
        },
{
    reveal(Seq::filter);
    let grown = points.take(k + 1);
    assert(grown.drop_last() =~= points.take(k));
    assert(grown.last() == points[k]);
    assert(of_series(grown, series) =~= if points[k].series == series {
        of_series(points.take(k), series).push((points[k].ts, points[k].value))
    } else {
        of_series(points.take(k), series)
    });
}

/// One more point has one more series.
proof fn lemma_series_next(points: Seq<Point>, k: int)
    requires
        0 <= k < points.len(),
    ensures
        series_in(points.take(k + 1)) == series_in(points.take(k)).insert(points[k].series),
{
    let grown = points.take(k + 1);
    let fewer = points.take(k);
    assert forall|s: u64| #[trigger]
        series_in(grown).contains(s) == series_in(fewer).insert(points[k].series).contains(s) by {
        if series_in(grown).contains(s) {
            let i = choose|i: int| 0 <= i < grown.len() && (#[trigger] grown[i]).series == s;
            if i < k {
                assert(fewer[i] == grown[i]);
            }
        }
        if series_in(fewer).contains(s) {
            let i = choose|i: int| 0 <= i < fewer.len() && (#[trigger] fewer[i]).series == s;
            assert(grown[i] == fewer[i]);
        }
        if s == points[k].series {
            assert(grown[k] == points[k]);
        }
    }
    assert(series_in(grown) =~= series_in(fewer).insert(points[k].series));
}

/// What holds at a moment of a call: the points that were logged so far, and no other,
/// would be there after a restart.
spec fn on_track(a: Model, d: Disk, call: Call, x: Moment, path_of: Paths) -> bool {
    let k = logged_by(call, x);
    &&& sound(x, path_of)
    &&& 0 <= k
    &&& x.model.todo == call.points().skip(k)
    &&& x.model.limit == a.limit
    &&& forall|s: u64| #[trigger]
        recovered(x.disk, path_of, s) == overlay(
            recovered(d, path_of, s),
            of_series(call.points().take(k), s),
        )
    &&& recovered_series(x.disk, path_of) == recovered_series(d, path_of).union(
        series_in(call.points().take(k)),
    )
    &&& collecting(x, a.segments.len()) || flushing(x, a.segments.len())
    &&& call is Flush && a.table != no_points() ==> flushing(x, a.segments.len())
}

proof fn lemma_track_start(a: Model, d: Disk, call: Call, x: Moment, path_of: Paths)
    requires
        mirrors(d, path_of, a),
        starts(a, d, call, x),
        sized(x),
    ensures
        on_track(a, d, call, x, path_of),
        logged_by(call, x) == 0,
{
    let points = call.points();
    if call is Flush {
        lemma_flush_begins(a, d, x, path_of);
        assert(x.model.todo =~= points.skip(0));
    } else {
        let b = Model { todo: points, ..a };
        lemma_logs(b, d, x, path_of);
        lemma_logs_counts(b, x);
        assert(points.skip(0) =~= points);
    }
    assert(points.take(0) =~= seq![]);
    assert forall|s: u64| #[trigger]
        recovered(x.disk, path_of, s) == overlay(
            recovered(d, path_of, s),
            of_series(points.take(0), s),
        ) by {
        reveal(Seq::filter);
        assert(of_series(points.take(0), s) =~= seq![]);
    }
    assert(series_in(points.take(0)) =~= Set::empty());
    assert(recovered_series(d, path_of).union(Set::empty()) =~= recovered_series(d, path_of));
}

proof fn lemma_track_step(a: Model, d: Disk, call: Call, x: Moment, y: Moment, path_of: Paths)
    requires
        distinct_paths(path_of),
        on_track(a, d, call, x, path_of),
        goes_on(x, y, path_of),
        sized(y),
    ensures
        on_track(a, d, call, y, path_of),
        logged_by(call, y) == logged_by(call, x) + if x.model.phase is Logging {
            1int
        } else {
            0
        },
{
    let points = call.points();
    let k = logged_by(call, x);
    lemma_step(x, y, path_of);
    lemma_step_counts(x, y, path_of, a.segments.len());
    if x.model.phase is Logging {
        let p = x.model.todo[0];
        assert(p == points[k]);
        assert(points.skip(k).skip(1) =~= points.skip(k + 1));
        assert forall|s: u64| #[trigger]
            recovered(y.disk, path_of, s) == overlay(
                recovered(d, path_of, s),
                of_series(points.take(k + 1), s),
            ) by {
            lemma_of_series_next(points, k, s);
            let before = of_series(points.take(k), s);
            assert(before.push((p.ts, p.value)).drop_last() =~= before);
            assert(recovered(x.disk, path_of, s) == overlay(recovered(d, path_of, s), before));
        }
        lemma_series_next(points, k);
        assert(recovered_series(d, path_of).union(series_in(points.take(k + 1)))
            =~= recovered_series(d, path_of).union(series_in(points.take(k))).insert(p.series));
    }
}

proof fn lemma_track(
    a: Model,
    d: Disk,
    call: Call,
    trace: Seq<Moment>,
    path_of: Paths,
    i: int,
)
    requires
        distinct_paths(path_of),
        mirrors(d, path_of, a),
        passes(a, d, call, trace, path_of),
        0 <= i < trace.len(),
    ensures
        on_track(a, d, call, trace[i], path_of),
    decreases i,
{
    if i == 0 {
        lemma_track_start(a, d, call, trace[0], path_of);
    } else {
        lemma_track(a, d, call, trace, path_of, i - 1);
        assert(goes_on(trace[i - 1], trace[i], path_of));
        lemma_track_step(a, d, call, trace[i - 1], trace[i], path_of);
    }
}

/// At each moment of a call a restart gives what was there before, and over it the
/// points of the call that were logged so far, in their order; no step but the one
/// that logs a point changes what a restart gives.
pub proof fn call_survives_at_every_step(
    a: Model,
    d: Disk,
    call: Call,
    trace: Seq<Moment>,
    path_of: Paths,
    i: int,
    series: u64,
)
    requires
        distinct_paths(path_of),
        mirrors(d, path_of, a),
        passes(a, d, call, trace, path_of),
        0 <= i < trace.len(),
    ensures
        0 <= logged_by(call, trace[i]) <= call.points().len(),
        recovered(trace[i].disk, path_of, series) == overlay(
            a.contents(series),
            of_series(call.points().take(logged_by(call, trace[i])), series),
        ),
        recovered_series(trace[i].disk, path_of) == a.series().union(
            series_in(call.points().take(logged_by(call, trace[i]))),
        ),
{
    lemma_track(a, d, call, trace, path_of, i);
    reopening_keeps_contents(d, path_of, a, series);
    reopening_keeps_series(d, path_of, a);
    assert(recovered(trace[i].disk, path_of, series) == overlay(
        recovered(d, path_of, series),
        of_series(call.points().take(logged_by(call, trace[i])), series),
    ));
}

/// A call that has come to its end has written its points over what was there, in
/// their order, and changed nothing else; its files mirror the store, which waits for
/// the next call.
pub proof fn call_writes_its_points(
    a: Model,
    d: Disk,
    call: Call,
    trace: Seq<Moment>,
    path_of: Paths,
)
    requires
        distinct_paths(path_of),
        mirrors(d, path_of, a),
        passes(a, d, call, trace, path_of),
        ended(trace),
    ensures
        idle(trace.last().model),
        mirrors(trace.last().disk, path_of, trace.last().model),
        trace.last().model.limit == a.limit,
        forall|series: u64| #[trigger]
            trace.last().model.contents(series) == overlay(
                a.contents(series),
                of_series(call.points(), series),
            ),
        trace.last().model.series() == a.series().union(series_in(call.points())),
{
    let n = trace.len() - 1;
    let z = trace[n];
    lemma_track(a, d, call, trace, path_of, n);
    assert(call.points().take(call.points().len() as int) =~= call.points());
    assert forall|series: u64| #[trigger]
        z.model.contents(series) == overlay(
            a.contents(series),
            of_series(call.points(), series),
        ) by {
        reopening_keeps_contents(d, path_of, a, series);
        reopening_keeps_contents(z.disk, path_of, z.model, series);
        assert(recovered(z.disk, path_of, series) == overlay(
            recovered(d, path_of, series),
            of_series(call.points(), series),
        ));
    }
    reopening_keeps_series(d, path_of, a);
    reopening_keeps_series(z.disk, path_of, z.model);
}

/// A call that writes begins at most one flush, behind its last point. Afterwards the
/// table is empty or holds fewer points than are enough for a segment; where there was a
/// flush, nothing is left in memory or in the log, and there is one more segment, or one
/// in all if that makes enough of them to be merged.
pub proof fn call_flushes_at_most_once(
    a: Model,
    d: Disk,
    call: Call,
    trace: Seq<Moment>,
    path_of: Paths,
)
    requires
        distinct_paths(path_of),
        mirrors(d, path_of, a),
        passes(a, d, call, trace, path_of),
        ended(trace),
    ensures
        ({
            let b = trace.last().model;
            ||| b.segments.len() == a.segments.len() && (b.table == Map::<
                u64,
                Seq<(i64, u64)>,
            >::empty() || total(b.table) < b.limit)
            ||| {
                &&& b.segments.len() == segments_after(a.segments.len())
                &&& b.table == Map::<u64, Seq<(i64, u64)>>::empty()
                &&& replayed(trace.last().disk.log) == Seq::<Point>::empty()
            }
        }),
        forall|i: int|
            0 <= i < trace.len() && !((#[trigger] trace[i]).model.phase is Logging)
                ==> trace[i].model.todo.len() == 0,
{
    let n = trace.len() - 1;
    lemma_track(a, d, call, trace, path_of, n);
    assert forall|i: int|
        0 <= i < trace.len() && !((#[trigger] trace[i]).model.phase
            is Logging) implies trace[i].model.todo.len() == 0 by {
        lemma_track(a, d, call, trace, path_of, i);
    }
    if flushing(trace[n], a.segments.len()) {
        assert(replayed(trace[n].disk.log) =~= seq![]);
    }
}

/// A flush keeps all values and series. Where the table is empty it does nothing;
/// otherwise nothing is left in memory or in the log, and there is one more segment, or
/// one in all if that makes enough of them to be merged.
pub proof fn flush_moves_the_table(
    a: Model,
    d: Disk,
    trace: Seq<Moment>,
    path_of: Paths,
)
    requires
        distinct_paths(path_of),
        mirrors(d, path_of, a),
        passes(a, d, Call::Flush, trace, path_of),
        ended(trace),
    ensures
        forall|series: u64| #[trigger]
            trace.last().model.contents(series) == a.contents(series),
        trace.last().model.series() == a.series(),
        a.table == Map::<u64, Seq<(i64, u64)>>::empty() ==> trace.last().model == a
            && trace.last().disk == d,
        a.table != Map::<u64, Seq<(i64, u64)>>::empty() ==> {
            &&& trace.last().model.table == Map::<u64, Seq<(i64, u64)>>::empty()
            &&& total(trace.last().model.table) == 0
            &&& replayed(trace.last().disk.log) == Seq::<Point>::empty()
            &&& trace.last().model.segments.len() == segments_after(a.segments.len())
        },
{
    let n = trace.len() - 1;
    let z = trace[n];
    call_writes_its_points(a, d, Call::Flush, trace, path_of);
    lemma_track(a, d, Call::Flush, trace, path_of, n);
    reveal(Seq::filter);
    assert forall|series: u64| #[trigger] z.model.contents(series) == a.contents(series) by {
        assert(of_series(seq![], series) =~= seq![]);
    }
    assert(a.series().union(series_in(seq![])) =~= a.series());
    if a.table == no_points() {
        assert(trace[0].model == a.at(Phase::Idle));
        if n > 0 {
            assert(goes_on(trace[0], trace[1], path_of));
        }
        assert(trace[0].model =~= a);
    } else {
        assert(replayed(z.disk.log) =~= seq![]);
        assert(z.model.table.dom() =~= Set::<u64>::empty());
    }
}

/// Ids are never used again.
proof fn lemma_ids(a: Model, d: Disk, call: Call, trace: Seq<Moment>, path_of: Paths, i: int)
    requires
        distinct_paths(path_of),
        mirrors(d, path_of, a),
        passes(a, d, call, trace, path_of),
        0 <= i < trace.len(),
    ensures
        trace[i].model.next >= a.next,
        trace[i].model.phase is Compacting || trace[i].model.phase is Swapping
            || trace[i].model.phase is Reopening || trace[i].model.phase is Removing
            ==> trace[i].model.next > a.next,
    decreases i,
{
    if i > 0 {
        lemma_ids(a, d, call, trace, path_of, i - 1);
        lemma_track(a, d, call, trace, path_of, i - 1);
        assert(goes_on(trace[i - 1], trace[i], path_of));
    }
}

/// Files are removed only once the manifest names a single new segment, whose id is
/// above all ids before; that segment is then the only one, its file is not removed,
/// and all that was in memory is in it.
pub proof fn files_are_removed_last(
    a: Model,
    d: Disk,
    call: Call,
    trace: Seq<Moment>,
    path_of: Paths,
    i: int,
)
    requires
        distinct_paths(path_of),
        mirrors(d, path_of, a),
        passes(a, d, call, trace, path_of),
        0 <= i < trace.len(),
        trace[i].step is Remove,
    ensures
        exists|id: u64|
            {
                &&& trace[i].model.names == seq![#[trigger] segment_name_of(id)]
                &&& forall|k: int|
                    0 <= k < a.names.len() ==> match #[trigger] segment_id_of(a.names[k]) {
                        Some(before) => before < id,
                        None => true,
                    }
            },
        names_in(trace[i].disk.manifest) == trace[i].model.names,
        trace[i].model.segments.len() == 1,
        trace[i].step matches Step::Remove(paths) && !texts(paths@).contains(
            path_of(trace[i].model.names[0]),
        ),
        trace[i].model.table == Map::<u64, Seq<(i64, u64)>>::empty(),
        trace[i].disk.log.len() == 0,
        forall|series: u64| #[trigger]
            trace[i].model.contents(series) == recovered(trace[i].disk, path_of, series),
{
    let x = trace[i];
    lemma_track(a, d, call, trace, path_of, i);
    lemma_ids(a, d, call, trace, path_of, i);
    next_id_is_new(a.names);
    let id = (x.model.next - 1) as u64;
    assert(x.model.names == seq![segment_name_of(id)]);
    assert forall|series: u64| #[trigger]
        x.model.contents(series) == recovered(x.disk, path_of, series) by {
        reopening_keeps_contents(x.disk, path_of, x.model, series);
    }
}

/// The files after a step stopped half way: a record may be cut off, a new file may hold
/// anything, and any of the files that are to go may be gone. The manifest is replaced
/// as a whole or not at all, and the log is emptied at once.
pub open spec fn torn(d: Disk, step: Step, path_of: Paths, e: Disk) -> bool {
    match step {
        Step::Append(bytes) => exists|n: int|
            0 <= n <= bytes@.len() && e == (Disk { log: d.log + #[trigger] bytes@.take(n), ..d }),
        Step::Build { name, data } => e == d || exists|part: Seq<u8>|
            e == (Disk { files: #[trigger] d.files.insert(path_of(name@), part), ..d }),
        Step::Remove(paths) => exists|gone: Set<Seq<char>>|
            gone.subset_of(texts(paths@).to_set()) && e == (Disk {
                files: #[trigger] d.files.remove_keys(gone),
                ..d
            }),
        _ => e == d || e == performed(d, step, path_of),
    }
}

/// A step that stops half way leaves what a restart gives as it was before the step, or,
/// if it was logging a point and the whole record is there, as it is after the step.
proof fn lemma_torn(x: Moment, path_of: Paths, e: Disk, series: u64)
    requires
        distinct_paths(path_of),
        sound(x, path_of),
        torn(x.disk, x.step, path_of, e),
    ensures
        recovered(e, path_of, series) == recovered(x.disk, path_of, series) || x.step is Append
            && e == performed(x.disk, x.step, path_of) || x.step is SaveManifest && e
            == performed(x.disk, x.step, path_of) || x.step is TruncateLog && e == performed(
            x.disk,
            x.step,
            path_of,
        ),
{
    let d = x.disk;
    let m = x.model;
    match m.phase {
        Phase::Logging => {
            let bytes = x.step->Append_0;
            let n = choose|n: int|
                0 <= n <= bytes@.len() && e == (Disk {
                    log: d.log + #[trigger] bytes@.take(n),
                    ..d
                });
            assert(record(m.todo[0]).len() == 24) by {
                broadcast use crate::endian::group_endian;

            }
            if n < 24 {
                torn_record_is_ignored(d.log, bytes@.take(n));
            } else {
                assert(bytes@.take(n) =~= bytes@);
            }
        },
        Phase::Building(id) => {
            if e != d {
                let path = path_of(segment_name_of(id));
                let part = choose|part: Seq<u8>|
                    e == (Disk { files: #[trigger] d.files.insert(path, part), ..d });
                lemma_new_file(
                    d,
                    path_of,
                    Model { table: logged_table(d), next: id, ..m },
                    part,
                );
                assert(recovered(e, path_of, series) == recovered(d, path_of, series));
            }
        },
        Phase::Compacting(id) => {
            if e != d {
                let path = path_of(segment_name_of(id));
                let part = choose|part: Seq<u8>|
                    e == (Disk { files: #[trigger] d.files.insert(path, part), ..d });
                lemma_new_file(d, path_of, Model { next: id, ..m }, part);
                assert(recovered(e, path_of, series) == recovered(d, path_of, series));
            }
        },
        Phase::Removing => {
            let paths = x.step->Remove_0;
            let gone = choose|gone: Set<Seq<char>>|
                gone.subset_of(texts(paths@).to_set()) && e == (Disk {
                    files: #[trigger] d.files.remove_keys(gone),
                    ..d
                });
            assert(!gone.contains(path_of(m.names[0]))) by {
                if gone.contains(path_of(m.names[0])) {
                    assert(texts(paths@).to_set().contains(path_of(m.names[0])));
                }
            }
            lemma_gone(d, path_of, m, gone);
            assert(recovered(e, path_of, series) == recovered(d, path_of, series));
        },
        _ => {},
    }
}

/// A call that stops at any moment, even half way through a step, loses nothing: a
/// restart gives what was there before, and over it the points of the call that were
/// logged, of which the one whose record was being written may or may not be one.
pub proof fn stopped_call_loses_nothing(
    a: Model,
    d: Disk,
    call: Call,
    trace: Seq<Moment>,
    path_of: Paths,
    i: int,
    e: Disk,
    series: u64,
)
    requires
        distinct_paths(path_of),
        mirrors(d, path_of, a),
        passes(a, d, call, trace, path_of),
        0 <= i < trace.len(),
        torn(trace[i].disk, trace[i].step, path_of, e),
    ensures
        ({
            let k = logged_by(call, trace[i]);
            ||| recovered(e, path_of, series) == overlay(
                a.contents(series),
                of_series(call.points().take(k), series),
            )
            ||| trace[i].step is Append && k < call.points().len() && recovered(e, path_of, series)
                == overlay(a.contents(series), of_series(call.points().take(k + 1), series))
        }),
        call is Flush ==> recovered(e, path_of, series) == a.contents(series),
{
    let x = trace[i];
    let points = call.points();
    let k = logged_by(call, x);
    lemma_track(a, d, call, trace, path_of, i);
    reopening_keeps_contents(d, path_of, a, series);
    lemma_torn(x, path_of, e, series);
    assert(recovered(x.disk, path_of, series) == overlay(
        a.contents(series),
        of_series(points.take(k), series),
    ));
    if recovered(e, path_of, series) != recovered(x.disk, path_of, series) {
        if x.model.phase is Logging {
            logged_point_is_kept(x.disk, path_of, x.model, x.step, series);
            assert(x.model.todo[0] == points[k]);
            lemma_of_series_next(points, k, series);
            let before = of_series(points.take(k), series);
            assert(before.push((points[k].ts, points[k].value)).drop_last() =~= before);
        } else {
            lemma_whole_step(x, path_of, series);
        }
    }
    if call is Flush {
        reveal(Seq::filter);
        assert(of_series(points.take(k), series) =~= seq![]);
    }
}

/// Saving the manifest or emptying the log changes nothing that a restart gives.
proof fn lemma_whole_step(x: Moment, path_of: Paths, series: u64)
    requires
        distinct_paths(path_of),
        sound(x, path_of),
        x.step is SaveManifest || x.step is TruncateLog,
    ensures
        recovered(performed(x.disk, x.step, path_of), path_of, series) == recovered(
            x.disk,
            path_of,
            series,
        ),
{
    let m = x.model;
    let d = x.disk;
    match m.phase {
        Phase::Listing => {
            let id = (m.next - 1) as u64;
            let path = path_of(segment_name_of(id));
            let base = Model {
                table: logged_table(d),
                next: id,
                names: m.names.drop_last(),
                segments: m.segments.drop_last(),
                ..m
            };
            let blocks = choose|blocks: Seq<(u64, Seq<(i64, u64)>)>| #[trigger]
                built_of_log(x, blocks, d.files[path]);
            assert(base.names.push(segment_name_of(id)) =~= m.names);
            assert(base.segments.push(m.segments.last()) =~= m.segments);
            lemma_listed(d, path_of, base, blocks, m.segments.last(), x.step, m);
            assert(recovered(performed(d, x.step, path_of), path_of, series) == recovered(
                d,
                path_of,
                series,
            ));
        },
        Phase::Truncating => {
            reopening_keeps_contents(performed(d, x.step, path_of), path_of, m, series);
            assert(recovered(d, path_of, series) == m.contents(series));
        },
        Phase::Swapping(id) => {
            let path = path_of(segment_name_of(id));
            let base = Model { names: names_in(d.manifest), next: id, ..m };
            let blocks = choose|blocks: Seq<(u64, Seq<(i64, u64)>)>| #[trigger]
                built_of_segments(x, blocks, d.files[path]);
            lemma_swap_files(d, path_of, base, blocks, x.step);
            assert(recovered(performed(d, x.step, path_of), path_of, series) == recovered(
                d,
                path_of,
                series,
            ));
        },
        _ => {},
    }
}

/// What happens to a store: a call that comes to its end, or a restart.
pub enum Deed {
    Done { call: Call, trace: Seq<Moment> },
    Restart { model: Model, disk: Disk },
}

impl Deed {
    /// The store afterwards.
    pub open spec fn model(self) -> Model {
        match self {
            Deed::Done { call, trace } => trace.last().model,
            Deed::Restart { model, disk } => model,
        }
    }

    /// The files afterwards.
    pub open spec fn disk(self) -> Disk {
        match self {
            Deed::Done { call, trace } => trace.last().disk,
            Deed::Restart { model, disk } => disk,
        }
    }

    /// The points that were written.
    pub open spec fn points(self) -> Seq<Point> {
        match self {
            Deed::Done { call, trace } => call.points(),
            Deed::Restart { model, disk } => seq![],
        }
    }
}

/// The deed was done to this store with these files.
pub open spec fn befalls(a: Model, d: Disk, deed: Deed, path_of: Paths) -> bool {
    match deed {
        Deed::Done { call, trace } => passes(a, d, call, trace, path_of) && ended(trace),
        Deed::Restart { model, disk } => disk == d && taken_up(d, path_of, model),
    }
}

/// The store after some deeds.
pub open spec fn model_after(a: Model, deeds: Seq<Deed>) -> Model {
    if deeds.len() == 0 {
        a
    } else {
        deeds.last().model()
    }
}

/// The files after some deeds.
pub open spec fn disk_after(d: Disk, deeds: Seq<Deed>) -> Disk {
    if deeds.len() == 0 {
        d
    } else {
        deeds.last().disk()
    }
}

/// The deeds were done one after the other.
pub open spec fn lived(a: Model, d: Disk, deeds: Seq<Deed>, path_of: Paths) -> bool
    decreases deeds.len(),
{
    deeds.len() > 0 ==> {
        let before = deeds.drop_last();
        &&& lived(a, d, before, path_of)
        &&& befalls(model_after(a, before), disk_after(d, before), deeds.last(), path_of)
    }
}

/// All points that were written, in their order.
pub open spec fn points_written(deeds: Seq<Deed>) -> Seq<Point>
    decreases deeds.len(),
{
    if deeds.len() == 0 {
        seq![]
    } else {
        points_written(deeds.drop_last()) + deeds.last().points()
    }
}

/// Points of a series among some and others.
proof fn lemma_of_series_concat(p: Seq<Point>, q: Seq<Point>, series: u64)
    ensures
        of_series(p + q, series) == of_series(p, series) + of_series(q, series),
{
    Seq::filter_distributes_over_add(p, q, |x: Point| x.series == series);
    assert(of_series(p + q, series) =~= of_series(p, series) + of_series(q, series));
}

/// Writing some points and then others is writing all of them.
proof fn lemma_overlay_concat(m: Map<i64, u64>, p: Seq<(i64, u64)>, q: Seq<(i64, u64)>)
    ensures
        overlay(overlay(m, p), q) == overlay(m, p + q),
    decreases q.len(),
{
    if q.len() == 0 {
        assert(p + q =~= p);
    } else {
        lemma_overlay_concat(m, p, q.drop_last());
        assert((p + q).drop_last() =~= p + q.drop_last());
        assert((p + q).last() == q.last());
    }
}

/// Whatever calls a store goes through, with restarts between them, it holds what it
/// held at first, and over it all points that were written since, in their order; so do
/// its files, and a store taken up from them. Its series are those from before and those
/// of the points.
pub proof fn history_is_kept(a: Model, d: Disk, deeds: Seq<Deed>, path_of: Paths)
    requires
        distinct_paths(path_of),
        mirrors(d, path_of, a),
        idle(a),
        lived(a, d, deeds, path_of),
    ensures
        idle(model_after(a, deeds)),
        mirrors(disk_after(d, deeds), path_of, model_after(a, deeds)),
        forall|series: u64| #[trigger]
            model_after(a, deeds).contents(series) == overlay(
                a.contents(series),
                of_series(points_written(deeds), series),
            ),
        forall|series: u64| #[trigger]
            recovered(disk_after(d, deeds), path_of, series) == model_after(a, deeds).contents(
                series,
            ),
        model_after(a, deeds).series() == a.series().union(series_in(points_written(deeds))),
    decreases deeds.len(),
{
    let b = model_after(a, deeds);
    let e = disk_after(d, deeds);
    if deeds.len() == 0 {
        reveal(Seq::filter);
        assert forall|series: u64| #[trigger]
            b.contents(series) == overlay(
                a.contents(series),
                of_series(points_written(deeds), series),
            ) by {
            assert(of_series(points_written(deeds), series) =~= seq![]);
        }
        assert(a.series().union(series_in(points_written(deeds))) =~= a.series());
    } else {
        let before = deeds.drop_last();
        let m = model_after(a, before);
        let c = disk_after(d, before);
        let old = points_written(before);
        let new = deeds.last().points();
        history_is_kept(a, d, before, path_of);
        match deeds.last() {
            Deed::Done { call, trace } => call_writes_its_points(m, c, call, trace, path_of),
            Deed::Restart { model, disk } => {
                reopening_keeps_store(c, path_of, m, model);
                reveal(Seq::filter);
                assert(m.series().union(series_in(new)) =~= m.series());
                assert forall|series: u64| #[trigger]
                    b.contents(series) == overlay(m.contents(series), of_series(new, series)) by {
                    assert(of_series(new, series) =~= seq![]);
                }
            },
        }
        assert forall|series: u64| #[trigger]
            b.contents(series) == overlay(
                a.contents(series),
                of_series(points_written(deeds), series),
            ) by {
            assert(m.contents(series) == overlay(a.contents(series), of_series(old, series)));
            assert(b.contents(series) == overlay(m.contents(series), of_series(new, series)));
            lemma_of_series_concat(old, new, series);
            lemma_overlay_concat(
                a.contents(series),
                of_series(old, series),
                of_series(new, series),
            );
        }
        assert forall|s: u64| #[trigger]
            series_in(old + new).contains(s) == series_in(old).union(series_in(new)).contains(
                s,
            ) by {
            let all = old + new;
            if series_in(all).contains(s) {
                let i = choose|i: int| 0 <= i < all.len() && (#[trigger] all[i]).series == s;
                if i < old.len() {
                    assert(old[i] == all[i]);
                } else {
                    assert(new[i - old.len()] == all[i]);
                }
            }
            if series_in(old).contains(s) {
                let i = choose|i: int| 0 <= i < old.len() && (#[trigger] old[i]).series == s;
                assert(all[i] == old[i]);
            }
            if series_in(new).contains(s) {
                let i = choose|i: int| 0 <= i < new.len() && (#[trigger] new[i]).series == s;
                assert(all[old.len() + i] == new[i]);
            }
        }
        assert(a.series().union(series_in(old + new)) =~= a.series().union(series_in(old)).union(
            series_in(new),
        ));
    }
    assert forall|series: u64| #[trigger]
        recovered(e, path_of, series) == b.contents(series) by {
        reopening_keeps_contents(e, path_of, b, series);
    }
}

/// A store that is taken up after any calls and restarts answers every query as the one
/// before it would, and counts as many series, segments and points in memory.
pub proof fn reopening_forgets_nothing(
    a: Model,
    d: Disk,
    deeds: Seq<Deed>,
    path_of: Paths,
    again: Model,
)
    requires
        distinct_paths(path_of),
        mirrors(d, path_of, a),
        idle(a),
        lived(a, d, deeds, path_of),
        taken_up(disk_after(d, deeds), path_of, again),
    ensures
        forall|series: u64| #[trigger]
            again.contents(series) == model_after(a, deeds).contents(series),
        again.series() == model_after(a, deeds).series(),
        again.segments.len() == model_after(a, deeds).segments.len(),
        total(again.table) == total(model_after(a, deeds).table),
{
    history_is_kept(a, d, deeds, path_of);
    reopening_keeps_store(disk_after(d, deeds), path_of, model_after(a, deeds), again);
}

/// However points are split among batches and single writes, and whatever flushes and
/// restarts come between them, the same values and the same series are there in the end.
pub proof fn batches_equal_single_writes(
    a: Model,
    d: Disk,
    one: Seq<Deed>,
    other: Seq<Deed>,
    path_of: Paths,
)
    requires
        distinct_paths(path_of),
        mirrors(d, path_of, a),
        idle(a),
        lived(a, d, one, path_of),
        lived(a, d, other, path_of),
        points_written(one) == points_written(other),
    ensures
        forall|series: u64| #[trigger]
            model_after(a, one).contents(series) == model_after(a, other).contents(series),
        model_after(a, one).series() == model_after(a, other).series(),
{
    history_is_kept(a, d, one, path_of);
    history_is_kept(a, d, other, path_of);
    assert forall|series: u64| #[trigger]
        model_after(a, one).contents(series) == model_after(a, other).contents(series) by {
        assert(model_after(a, other).contents(series) == overlay(
            a.contents(series),
            of_series(points_written(other), series),
        ));
    }
}

/// The point at a position is the last one of its series and timestamp.
pub open spec fn latest(points: Seq<Point>, i: int) -> bool {
    &&& 0 <= i < points.len()
    &&& forall|j: int|
        i < j < points.len() ==> (#[trigger] points[j]).series != points[i].series || points[j].ts
            != points[i].ts
}

/// The value at a timestamp is that of the latest point there, if there is one.
proof fn lemma_latest(points: Seq<Point>, series: u64, ts: i64)
    ensures
        ({
            let m = overlay(Map::<i64, u64>::empty(), of_series(points, series));
            &&& m.dom().contains(ts) ==> exists|i: int| #[trigger]
                latest(points, i) && points[i].series == series && points[i].ts == ts
                    && points[i].value == m[ts]
            &&& forall|i: int|
                0 <= i < points.len() && (#[trigger] points[i]).series == series && points[i].ts
                    == ts ==> m.dom().contains(ts)
        }),
    decreases points.len(),
{
    let none = Map::<i64, u64>::empty();
    let m = overlay(none, of_series(points, series));
    if points.len() == 0 {
        reveal(Seq::filter);
        assert(of_series(points, series) =~= seq![]);
    } else {
        let n = points.len() - 1;
        let init = points.drop_last();
        lemma_latest(init, series, ts);
        assert(points.take(n + 1) =~= points);
        assert(points.take(n) =~= init);
        lemma_of_series_next(points, n, series);
        let p = points[n];
        let before = of_series(init, series);
        let old = overlay(none, before);
        assert(before.push((p.ts, p.value)).drop_last() =~= before);
        assert(m == if p.series == series {
            old.insert(p.ts, p.value)
        } else {
            old
        });
        if p.series == series && p.ts == ts {
            assert(latest(points, n));
        } else if m.dom().contains(ts) {
            let i = choose|i: int| #[trigger]
                latest(init, i) && init[i].series == series && init[i].ts == ts && init[i].value
                    == old[ts];
            assert(points[i] == init[i]);
            assert(latest(points, i)) by {
                assert forall|j: int| i < j < points.len() implies (#[trigger] points[j]).series
                    != points[i].series || points[j].ts != points[i].ts by {
                    if j < n {
                        assert(init[j] == points[j]);
                    }
                }
            }
        }
        assert forall|i: int|
            0 <= i < points.len() && (#[trigger] points[i]).series == series && points[i].ts
                == ts implies m.dom().contains(ts) by {
            if i < n {
                assert(init[i] == points[i]);
            }
        }
    }
}

/// A query to a store that began empty gives, in the order of their timestamps and each
/// once, exactly the timestamps in the range at which a point of the series was ever
/// written, with the value that was written there last. Points of other series never
/// show, and a range that ends where it starts, or before, gives nothing.
pub proof fn query_gives_the_latest_values(
    a: Model,
    d: Disk,
    deeds: Seq<Deed>,
    path_of: Paths,
    out: Seq<(i64, u64)>,
    series: u64,
    start: i64,
    end: i64,
)
    requires
        distinct_paths(path_of),
        mirrors(d, path_of, a),
        idle(a),
        a.contents(series) == Map::<i64, u64>::empty(),
        lived(a, d, deeds, path_of),
        lists(out, model_after(a, deeds).contents(series), start, end),
    ensures
        forall|i: int, j: int| 0 <= i < j < out.len() ==> out[i].0 < out[j].0,
        forall|i: int|
            #![trigger out[i]]
            0 <= i < out.len() ==> start <= out[i].0 < end && exists|k: int| #[trigger]
                latest(points_written(deeds), k) && points_written(deeds)[k] == (Point {
                    series,
                    ts: out[i].0,
                    value: out[i].1,
                }),
        forall|k: int| #[trigger]
            latest(points_written(deeds), k) && points_written(deeds)[k].series == series && start
                <= points_written(deeds)[k].ts < end ==> out.contains(
                (points_written(deeds)[k].ts, points_written(deeds)[k].value),
            ),
        start >= end ==> out.len() == 0,
{
    let points = points_written(deeds);
    let m = model_after(a, deeds).contents(series);
    history_is_kept(a, d, deeds, path_of);
    assert(m == overlay(a.contents(series), of_series(points, series)));
    assert forall|i: int| #![trigger out[i]] 0 <= i < out.len() implies start <= out[i].0 < end
        && exists|k: int| #[trigger]
        latest(points, k) && points[k] == (Point { series, ts: out[i].0, value: out[i].1 }) by {
        lemma_latest(points, series, out[i].0);
        let k = choose|k: int| #[trigger]
            latest(points, k) && points[k].series == series && points[k].ts == out[i].0
                && points[k].value == m[out[i].0];
        assert(points[k] == (Point { series, ts: out[i].0, value: out[i].1 }));
    }
    assert forall|k: int| #[trigger]
        latest(points, k) && points[k].series == series && start <= points[k].ts
            < end implies out.contains((points[k].ts, points[k].value)) by {
        let ts = points[k].ts;
        lemma_latest(points, series, ts);
        assert(m.dom().contains(ts));
        let i = choose|i: int| #[trigger]
            latest(points, i) && points[i].series == series && points[i].ts == ts
                && points[i].value == m[ts];
        assert(i == k) by {
            if i < k {
                assert(points[k].series != points[i].series || points[k].ts != points[i].ts);
            } else if k < i {
                assert(points[i].series != points[k].series || points[i].ts != points[k].ts);
            }
        }
    }
    if start >= end && out.len() > 0 {
        assert(start <= out[0].0 < end);
    }
}

/// A store that has fewer than four segments never comes to rest with four or more: as
/// soon as there would be four they are merged into one.
pub proof fn segments_stay_few(
    a: Model,
    d: Disk,
    call: Call,
    trace: Seq<Moment>,
    path_of: Paths,
)
    requires
        distinct_paths(path_of),
        mirrors(d, path_of, a),
        passes(a, d, call, trace, path_of),
        ended(trace),
        a.segments.len() < 4,
    ensures
        trace.last().model.segments.len() < 4,
        a.segments.len() == 3 ==> trace.last().model.segments.len() == 3
            || trace.last().model.segments.len() == 1,
        a.segments.len() < 3 ==> a.segments.len() <= trace.last().model.segments.len()
            <= a.segments.len() + 1,
{
    call_flushes_at_most_once(a, d, call, trace, path_of);
}

/// How a write that stays in memory stands at a moment.
spec fn in_memory(a: Model, call: Call, x: Moment) -> bool {
    let k = logged_by(call, x);
    let m = x.model;
    &&& m.phase is Logging || m.phase is Idle
    &&& 0 <= k <= call.points().len()
    &&& m.phase is Idle ==> k == call.points().len() && x.step is Finished
    &&& m.phase is Logging ==> k < call.points().len() && !(x.step is Finished)
    &&& m.todo == call.points().skip(k)
    &&& m.table == with_points(a.table, call.points().take(k))
    &&& m.segments == a.segments
    &&& m.names == a.names
    &&& m.next == a.next
    &&& m.limit == a.limit
}

proof fn lemma_in_memory(
    a: Model,
    d: Disk,
    call: Call,
    trace: Seq<Moment>,
    path_of: Paths,
    i: int,
)
    requires
        passes(a, d, call, trace, path_of),
        !(call is Flush),
        a.table.dom().finite(),
        total(a.table) + call.points().len() < a.limit,
        0 <= i < trace.len(),
    ensures
        in_memory(a, call, trace[i]),
    decreases i,
{
    let points = call.points();
    if i == 0 {
        assert(points.skip(0) =~= points);
        assert(points.take(0) =~= seq![]);
    } else {
        lemma_in_memory(a, d, call, trace, path_of, i - 1);
        let x = trace[i - 1];
        let y = trace[i];
        assert(goes_on(x, y, path_of));
        let k = logged_by(call, x);
        if x.model.phase is Logging {
            let grown = points.take(k + 1);
            assert(grown.drop_last() =~= points.take(k));
            assert(grown.last() == points[k]);
            assert(x.model.todo[0] == points[k]);
            assert(points.skip(k).skip(1) =~= points.skip(k + 1));
            table_counts_every_point(a.table, grown);
        }
    }
}

/// A write that leaves fewer points in memory than are enough for a segment stays there:
/// its points join those of the table, and no segment, name or id changes.
pub proof fn small_write_stays_in_memory(
    a: Model,
    d: Disk,
    call: Call,
    trace: Seq<Moment>,
    path_of: Paths,
    series: u64,
)
    requires
        passes(a, d, call, trace, path_of),
        ended(trace),
        !(call is Flush),
        a.table.dom().finite(),
        total(a.table) + call.points().len() < a.limit,
    ensures
        trace.last().model.segments == a.segments,
        trace.last().model.names == a.names,
        trace.last().model.next == a.next,
        total(trace.last().model.table) == total(a.table) + call.points().len(),
        written(trace.last().model.table, series) == written(a.table, series) + of_series(
            call.points(),
            series,
        ),
        trace.len() == call.points().len() + 1,
{
    let n = trace.len() - 1;
    lemma_in_memory(a, d, call, trace, path_of, n);
    let points = call.points();
    assert(points.take(points.len() as int) =~= points);
    table_counts_every_point(a.table, points);
    table_holds_its_points(a.table, points, series);
    lemma_one_step_each(a, d, call, trace, path_of, n);
}

/// Each step of such a write logs one point.
proof fn lemma_one_step_each(
    a: Model,
    d: Disk,
    call: Call,
    trace: Seq<Moment>,
    path_of: Paths,
    i: int,
)
    requires
        passes(a, d, call, trace, path_of),
        !(call is Flush),
        a.table.dom().finite(),
        total(a.table) + call.points().len() < a.limit,
        0 <= i < trace.len(),
    ensures
        logged_by(call, trace[i]) == i,
    decreases i,
{
    lemma_in_memory(a, d, call, trace, path_of, i);
    if i > 0 {
        lemma_one_step_each(a, d, call, trace, path_of, i - 1);
        lemma_in_memory(a, d, call, trace, path_of, i - 1);
        assert(goes_on(trace[i - 1], trace[i], path_of));
    }
}

/// A write that leaves enough points in memory for a segment does not leave them there.
pub proof fn full_table_is_flushed(
    a: Model,
    d: Disk,
    call: Call,
    trace: Seq<Moment>,
    path_of: Paths,
)
    requires
        distinct_paths(path_of),
        mirrors(d, path_of, a),
        passes(a, d, call, trace, path_of),
        ended(trace),
        a.limit > 0,
    ensures
        call is Flush ==> trace.last().model.table == Map::<u64, Seq<(i64, u64)>>::empty(),
        !(call is Flush) ==> total(trace.last().model.table) < a.limit,
{
    let n = trace.len() - 1;
    lemma_track(a, d, call, trace, path_of, n);
    table_counts_every_point(Map::empty(), seq![]);
    if call is Flush && a.table == no_points() && n > 0 {
        assert(trace[0].model.phase is Idle);
        assert(goes_on(trace[0], trace[1], path_of));
    }
}

} // verus!
