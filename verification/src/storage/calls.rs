//! What the calls to a store give, one by one and one after the other.
use crate::config::Config;
use crate::error::Result;
use crate::storage::compaction::{all_readable, all_sorted};
use crate::storage::history::{goes_on, reports, starts, Call, Moment};
use crate::storage::manifest::Manifest;
use crate::storage::memtable::{
    lemma_total_with_point, point_joins_its_series, table_counts_every_point, total, with_point,
    written,
};
use crate::storage::naming::{next_id, next_id_is_new, segment_id_of};
use crate::storage::recovery::{of_series, performed, table_holds_its_points, Disk, Paths};
use crate::storage::segment::Segment;
use crate::storage::wal::{record, Wal};
use crate::storage::{
    accepts, advances, can_flush, can_settle, finds, idle, store_goes_on, Event, Point, Step,
    Storage, StorageStats,
};
use vstd::prelude::*;

verus! {

/// A call to a store is the beginning of that call: of a write of exactly this point, of
/// exactly these points, or of a flush.
pub proof fn calls_begin(
    d: Disk,
    one: &mut Storage,
    p: Point,
    first: Step,
    many: &mut Storage,
    points: &[Point],
    second: Step,
    none: &mut Storage,
    third: Step,
)
    requires
        idle(old(one)@),
        call_ensures(Storage::write, (one, p), first),
        idle(old(many)@),
        points@.len() == 0 ==> can_settle(old(many)@),
        call_ensures(Storage::write_batch, (many, points), second),
        idle(old(none)@),
        can_flush(old(none)@),
        call_ensures(Storage::flush, (none,), third),
    ensures
        starts(
            old(one)@,
            d,
            Call::Write(p),
            (Moment { model: final(one)@, disk: d, step: first }),
        ),
        starts(
            old(many)@,
            d,
            Call::WriteBatch(points@),
            (Moment { model: final(many)@, disk: d, step: second }),
        ),
        starts(
            old(none)@,
            d,
            Call::Flush,
            (Moment { model: final(none)@, disk: d, step: third }),
        ),
{
}

/// A store that is told what came of a step goes on from there.
pub proof fn store_goes_on_from_a_step(
    x: Moment,
    path_of: Paths,
    store: &mut Storage,
    event: Event,
    r: Result<Step>,
)
    requires
        x.model == old(store)@,
        reports(x, path_of, event),
        accepts(x.model, event),
        call_ensures(Storage::advance, (store, event), r),
    ensures
        r matches Ok(step) ==> goes_on(
            x,
            (Moment { model: final(store)@, disk: performed(x.disk, x.step, path_of), step }),
            path_of,
        ),
{
    if let Ok(step) = r {
        assert(reports(x, path_of, event) && accepts(x.model, event) && advances(
            x.model,
            event,
            final(store)@,
            Ok(step),
        ));
    }
}

/// A point that is written, while there is room for it in memory, is there once its record
/// was appended to the log: a query of a range that holds its timestamp gives its value,
/// and every other timestamp and series has what it had before.
pub proof fn written_point_is_found(
    store: &mut Storage,
    p: Point,
    step: Step,
    later: &mut Storage,
    done: Event,
    r: Result<Step>,
    start: i64,
    end: i64,
    out: Option<Vec<(i64, u64)>>,
    series: u64,
)
    requires
        idle(old(store)@),
        old(store)@.table.dom().finite(),
        total(old(store)@.table) + 1 < old(store)@.limit,
        all_sorted(old(store)@.segments),
        call_ensures(Storage::write, (store, p), step),
        *old(later) == *final(store),
        done is Done,
        call_ensures(Storage::advance, (later, done), r),
        call_ensures(Storage::try_query, (final(later), p.series, start, end), out),
    ensures
        step matches Step::Append(bytes) && bytes@ == record(p),
        r matches Ok(next) && next is Finished,
        idle(final(later)@),
        start <= p.ts < end ==> (out matches Some(v) ==> v@.contains((p.ts, p.value))),
        final(later)@.contents(p.series) == old(store)@.contents(p.series).insert(p.ts, p.value),
        series != p.series ==> final(later)@.contents(series) == old(store)@.contents(series),
        total(final(later)@.table) == total(old(store)@.table) + 1,
        final(later)@.segments == old(store)@.segments,
{
    let a = old(store)@;
    let b = final(store)@;
    let c = final(later)@;
    lemma_total_with_point(a.table, p);
    assert(b.todo == seq![p]);
    assert(b.todo.skip(1) =~= seq![]);
    assert(c.table == with_point(a.table, p));
    point_joins_its_series(a.table, p, series);
    let old_points = written(a.table, p.series);
    assert(old_points.push((p.ts, p.value)).drop_last() =~= old_points);
    assert(c.contents(p.series) == a.contents(p.series).insert(p.ts, p.value));
    if let Some(v) = out {
        if start <= p.ts < end {
            assert(c.contents(p.series).dom().contains(p.ts));
            assert(finds(c, p.series, start, end, v@));
        }
    }
}

/// An operation that is given up leaves what was done so far, and the store waits for the
/// next one.
pub proof fn given_up_operation_loses_nothing(store: &mut Storage, series: u64)
    requires
        call_ensures(Storage::abort, (store,), ()),
    ensures
        idle(final(store)@),
        final(store)@.contents(series) == old(store)@.contents(series),
        final(store)@.segments == old(store)@.segments,
        final(store)@.names == old(store)@.names,
        final(store)@.next == old(store)@.next,
        final(store)@.limit == old(store)@.limit,
        final(store)@.table == old(store)@.table,
{
}

/// A store that is opened has the segments and names that it was given, its next id is above
/// those of the names, and its log is in memory: each point behind those of its series.
pub proof fn opened_store_has_its_log(
    cfg: &Config,
    manifest: Manifest,
    segments: Vec<Segment>,
    log: &[u8],
    store: Storage,
    points: Vec<Point>,
    series: u64,
)
    requires
        call_ensures(Storage::open, (cfg, manifest, segments, log), store),
        call_ensures(Wal::replay, (log,), points),
        next_id(manifest@) <= u64::MAX,
    ensures
        idle(store@),
        store@.limit == cfg.memtable_max_points,
        store@.names == manifest@,
        store@.segments == segments@,
        written(store@.table, series) == of_series(points@, series),
        total(store@.table) == points@.len(),
        forall|i: int|
            0 <= i < manifest@.len() ==> match #[trigger] segment_id_of(manifest@[i]) {
                Some(id) => id < store@.next,
                None => true,
            },
{
    let none = Map::<u64, Seq<(i64, u64)>>::empty();
    table_holds_its_points(none, points@, series);
    table_counts_every_point(none, points@);
    assert(written(none, series) + of_series(points@, series) =~= of_series(points@, series));
    next_id_is_new(manifest@);
}

/// A query of a range gives each value of the series there, once and in order, and nothing
/// else, by both ways of asking; the counts are those of what is there.
pub proof fn query_and_counts_are_right(
    store: &Storage,
    series: u64,
    start: i64,
    end: i64,
    r: Result<Vec<(i64, u64)>>,
    tried: Option<Vec<(i64, u64)>>,
    s: StorageStats,
    ts: i64,
)
    requires
        all_sorted(store@.segments),
        call_ensures(Storage::query, (store, series, start, end), r),
        call_ensures(Storage::try_query, (store, series, start, end), tried),
        call_ensures(Storage::stats, (store,), s),
    ensures
        ({
            let all = store@.contents(series);
            let out = r->Ok_0@;
            &&& r is Ok
            &&& forall|i: int, j: int| 0 <= i < j < out.len() ==> out[i].0 < out[j].0
            &&& forall|i: int|
                0 <= i < out.len() ==> start <= (#[trigger] out[i]).0 < end && all.contains_pair(
                    out[i].0,
                    out[i].1,
                )
            &&& start <= ts < end && all.contains_key(ts) ==> out.contains((ts, all[ts]))
            &&& tried matches Some(v) ==> forall|q: (i64, u64)| #[trigger]
                v@.contains(q) <==> out.contains(q)
        }),
        s.segments == store@.segments.len(),
        s.memtable_points == total(store@.table),
        s.series == store@.series().len(),
{
    let all = store@.contents(series);
    let out = r->Ok_0@;
    assert(finds(store@, series, start, end, out));
    assert(all.dom().contains(ts) && start <= ts < end ==> out.contains((ts, all[ts])));
    if let Some(v) = tried {
        assert(finds(store@, series, start, end, v@));
        assert forall|q: (i64, u64)| #[trigger] v@.contains(q) <==> out.contains(q) by {
            if v@.contains(q) {
                let i = v@.index_of(q);
                assert(all.contains_pair(v@[i].0, v@[i].1));
                assert(all.dom().contains(q.0));
            }
            if out.contains(q) {
                let i = out.index_of(q);
                assert(all.contains_pair(out[i].0, out[i].1));
                assert(all.dom().contains(q.0));
            }
        }
    }
}

/// As long as there is an id for a new file, a store says that it can flush, come to rest,
/// and go on from every step that was carried out.
pub proof fn store_says_that_it_goes_on(
    store: &Storage,
    event: &Event,
    flushes: bool,
    settles: bool,
    goes_on: bool,
)
    requires
        call_ensures(Storage::ready_to_flush, (store,), flushes),
        call_ensures(Storage::ready_to_settle, (store,), settles),
        call_ensures(Storage::ready, (store, event), goes_on),
    ensures
        store@.next < u64::MAX ==> flushes && settles,
        store@.next < u64::MAX && event is Done && store@.phase is Logging && store@.todo.len() > 0
            && total(store@.table) < usize::MAX ==> goes_on,
        event is Done && (store@.phase is Building || store@.phase is Listing || store@.phase
            is Compacting || store@.phase is Swapping || store@.phase is Removing) ==> goes_on,
        store@.next < u64::MAX && event is Done && store@.phase is Truncating && (
        store@.segments.len() < 4 || all_readable(store@.segments)) ==> goes_on,
        store@.phase is Idle ==> !goes_on,
        goes_on ==> accepts(store@, *event),
        flushes ==> can_flush(store@),
        settles ==> can_settle(store@),
{
    if store@.next < u64::MAX {
        store_goes_on(store@, *event);
    }
}

/// A series can be read if every segment can serve it, and a query then gives its points.
pub proof fn readable_series_is_read(
    store: &Storage,
    series: u64,
    b: bool,
    start: i64,
    end: i64,
    r: Option<Vec<(i64, u64)>>,
)
    requires
        call_ensures(Storage::can_query, (store, series), b),
        call_ensures(Storage::try_query, (store, series, start, end), r),
    ensures
        b <==> forall|k: int|
            0 <= k < store@.segments.len() ==> #[trigger] store@.segments[k].serves(series),
        b ==> r is Some,
        all_sorted(store@.segments) ==> (r is Some <==> b),
{
}

} // verus!
