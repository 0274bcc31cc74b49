//! What the files of a store hold, and what survives when it stops at any step.
//!
//! Nothing here is executed: these are the laws that tie [`Storage`](super::Storage)
//! to the files that its caller keeps for it.
use crate::endian::le32;
use crate::error::Result;
use crate::storage::compaction::{
    all_readable, all_sorted, compaction_keeps_values, compacts, has_series, merged,
    merged_blocks_keep_values,
};
use crate::storage::gorilla::{encoded, lemma_encoded_len};
use crate::storage::manifest::{lemma_names_plain, manifest_reads_back, names_in, plain_name, texts};
use crate::storage::memtable::{drains, lemma_total_split, total, with_points, written};
use crate::storage::naming::{
    lemma_name_chars, lemma_next_id_push, next_id, next_id_is_new, segment_name_of,
};
use crate::storage::segment::{
    block_points, built_file_reads_back, built_segment_reads_back, data_bytes, fits_format,
    has_header, has_magic, has_whole_index, image, index_of, index_sorted, indexed, lemma_index_len,
    opened_from, stored, Segment, MAGIC,
};
use crate::storage::series::{lemma_overlay_at, lemma_overlay_sorted, overlay, sort_of};
use crate::storage::wal::{append_extends_replay, logged, record, replayed};
use crate::storage::{
    appends, builds, compaction_begins, flush_begins, removes, saves, takes_merged, takes_segment,
    with_logged, Model, Phase, Point, Step, COMPACT_THRESHOLD,
};
use vstd::prelude::*;

verus! {

/// The files of a store. A manifest that does not exist is one without text.
pub struct Disk {
    pub log: Seq<u8>,
    pub manifest: Seq<char>,
    /// By path.
    pub files: Map<Seq<char>, Seq<u8>>,
}

/// How file names become paths.
pub type Paths = spec_fn(Seq<char>) -> Seq<char>;

/// Files with different names have different paths.
pub open spec fn distinct_paths(path_of: Paths) -> bool {
    forall|a: Seq<char>, b: Seq<char>| #[trigger] path_of(a) == #[trigger] path_of(b) ==> a == b
}

/// The files after a step was carried out.
pub open spec fn performed(d: Disk, step: Step, path_of: Paths) -> Disk {
    match step {
        Step::Append(bytes) => Disk { log: d.log + bytes@, ..d },
        Step::Build { name, data } => Disk { files: d.files.insert(path_of(name@), data@), ..d },
        Step::SaveManifest(text) => Disk { manifest: text@, ..d },
        Step::TruncateLog => Disk { log: seq![], ..d },
        Step::Remove(paths) => Disk { files: d.files.remove_keys(texts(paths@).to_set()), ..d },
        Step::Open { name } => d,
        Step::Finished => d,
    }
}

/// The values of a series in the files with the given names.
pub open spec fn filed(
    files: Map<Seq<char>, Seq<u8>>,
    path_of: Paths,
    names: Seq<Seq<char>>,
    series: u64,
) -> Map<i64, u64>
    decreases names.len(),
{
    if names.len() == 0 {
        Map::empty()
    } else {
        let data = files[path_of(names.last())];
        overlay(
            filed(files, path_of, names.drop_last(), series),
            stored(data, index_of(data), series),
        )
    }
}

/// The values of a series that a store taken up from the files would have.
pub open spec fn recovered(d: Disk, path_of: Paths, series: u64) -> Map<i64, u64> {
    overlay(
        filed(d.files, path_of, names_in(d.manifest), series),
        written(with_points(Map::empty(), replayed(d.log)), series),
    )
}

/// The segments are the ones of the files with the given names.
pub open spec fn segments_of(
    segments: Seq<Segment>,
    files: Map<Seq<char>, Seq<u8>>,
    path_of: Paths,
    names: Seq<Seq<char>>,
) -> bool {
    &&& segments.len() == names.len()
    &&& forall|k: int|
        0 <= k < names.len() ==> opened_from(
            #[trigger] segments[k],
            path_of(names[k]),
            files[path_of(names[k])],
        )
}

/// The files hold what the store holds: the manifest its names, the named files
/// its segments, and the log, in whole records, its table.
pub open spec fn mirrors(d: Disk, path_of: Paths, m: Model) -> bool {
    &&& names_in(d.manifest) == m.names
    &&& segments_of(m.segments, d.files, path_of, m.names)
    &&& all_sorted(m.segments)
    &&& all_readable(m.segments)
    &&& d.log.len() % 24 == 0
    &&& with_points(Map::empty(), replayed(d.log)) == m.table
    &&& next_id(m.names) <= m.next
}

/// Files that do not bear one of the names do not matter.
proof fn lemma_filed_frame(
    f: Map<Seq<char>, Seq<u8>>,
    g: Map<Seq<char>, Seq<u8>>,
    path_of: Paths,
    names: Seq<Seq<char>>,
    series: u64,
)
    requires
        forall|k: int|
            0 <= k < names.len() ==> f[path_of(#[trigger] names[k])] == g[path_of(names[k])],
    ensures
        filed(f, path_of, names, series) == filed(g, path_of, names, series),
    decreases names.len(),
{
    if names.len() > 0 {
        let init = names.drop_last();
        assert forall|k: int| 0 <= k < init.len() implies f[path_of(#[trigger] init[k])]
            == g[path_of(init[k])] by {
            assert(init[k] == names[k]);
        }
        lemma_filed_frame(f, g, path_of, init, series);
        assert(names[names.len() - 1] == names.last());
    }
}

/// Segments give what their files hold.
proof fn lemma_filed_merged(
    segments: Seq<Segment>,
    files: Map<Seq<char>, Seq<u8>>,
    path_of: Paths,
    names: Seq<Seq<char>>,
    series: u64,
)
    requires
        segments_of(segments, files, path_of, names),
    ensures
        filed(files, path_of, names, series) == merged(segments, series),
    decreases names.len(),
{
    if names.len() > 0 {
        let fewer = segments.drop_last();
        let init = names.drop_last();
        assert forall|k: int| 0 <= k < init.len() implies opened_from(
            #[trigger] fewer[k],
            path_of(init[k]),
            files[path_of(init[k])],
        ) by {
            assert(fewer[k] == segments[k]);
        }
        lemma_filed_merged(fewer, files, path_of, init, series);
        let last = segments[names.len() - 1];
        assert(opened_from(
            last,
            path_of(names[names.len() - 1]),
            files[path_of(names[names.len() - 1])],
        ));
    }
}

/// A file that the manifest does not name, whatever it holds, or whether it exists at
/// all, does not matter to a store that is taken up from the files.
pub proof fn unnamed_file_is_ignored(
    d: Disk,
    path_of: Paths,
    path: Seq<char>,
    data: Seq<u8>,
    series: u64,
)
    requires
        forall|k: int|
            0 <= k < names_in(d.manifest).len() ==> path_of(#[trigger] names_in(d.manifest)[k])
                != path,
    ensures
        recovered(Disk { files: d.files.insert(path, data), ..d }, path_of, series) == recovered(
            d,
            path_of,
            series,
        ),
        recovered(Disk { files: d.files.remove(path), ..d }, path_of, series) == recovered(
            d,
            path_of,
            series,
        ),
        recovered_series(Disk { files: d.files.insert(path, data), ..d }, path_of)
            == recovered_series(d, path_of),
        recovered_series(Disk { files: d.files.remove(path), ..d }, path_of) == recovered_series(
            d,
            path_of,
        ),
{
    let names = names_in(d.manifest);
    lemma_filed_frame(d.files, d.files.insert(path, data), path_of, names, series);
    lemma_filed_frame(d.files, d.files.remove(path), path_of, names, series);
    lemma_series_frame(d, Disk { files: d.files.insert(path, data), ..d }, path_of);
    lemma_series_frame(d, Disk { files: d.files.remove(path), ..d }, path_of);
}

/// The series that a store taken up from the files would have.
pub open spec fn recovered_series(d: Disk, path_of: Paths) -> Set<u64> {
    Set::new(
        |s: u64|
            filed_series(d.files, path_of, names_in(d.manifest), s) || with_points(
                Map::empty(),
                replayed(d.log),
            ).contains_key(s),
    )
}

/// One of the files with the given names has the series.
pub open spec fn filed_series(
    files: Map<Seq<char>, Seq<u8>>,
    path_of: Paths,
    names: Seq<Seq<char>>,
    series: u64,
) -> bool {
    exists|k: int|
        0 <= k < names.len() && indexed(index_of(files[path_of(#[trigger] names[k])]), series)
}

/// Only the named files and the log matter to the series.
proof fn lemma_series_frame(d: Disk, e: Disk, path_of: Paths)
    requires
        e.manifest == d.manifest,
        e.log == d.log,
        forall|k: int|
            0 <= k < names_in(d.manifest).len() ==> d.files[path_of(
                #[trigger] names_in(d.manifest)[k],
            )] == e.files[path_of(names_in(d.manifest)[k])],
    ensures
        recovered_series(d, path_of) == recovered_series(e, path_of),
{
    let names = names_in(d.manifest);
    assert forall|s: u64| #[trigger]
        recovered_series(d, path_of).contains(s) == recovered_series(e, path_of).contains(s) by {
        if filed_series(d.files, path_of, names, s) {
            let k = choose|k: int|
                0 <= k < names.len() && indexed(index_of(d.files[path_of(#[trigger] names[k])]), s);
            assert(indexed(index_of(e.files[path_of(names[k])]), s));
        }
        if filed_series(e.files, path_of, names, s) {
            let k = choose|k: int|
                0 <= k < names.len() && indexed(index_of(e.files[path_of(#[trigger] names[k])]), s);
            assert(indexed(index_of(d.files[path_of(names[k])]), s));
        }
    }
    assert(recovered_series(d, path_of) =~= recovered_series(e, path_of));
}

/// Segments have the series of their files.
proof fn lemma_filed_series(
    segments: Seq<Segment>,
    files: Map<Seq<char>, Seq<u8>>,
    path_of: Paths,
    names: Seq<Seq<char>>,
    series: u64,
)
    requires
        segments_of(segments, files, path_of, names),
    ensures
        filed_series(files, path_of, names, series) == has_series(segments, series),
{
    if filed_series(files, path_of, names, series) {
        let k = choose|k: int|
            0 <= k < names.len() && indexed(index_of(files[path_of(#[trigger] names[k])]), series);
        assert(indexed(segments[k].index(), series));
    }
    if has_series(segments, series) {
        let k = choose|k: int|
            0 <= k < segments.len() && indexed((#[trigger] segments[k]).index(), series);
        assert(indexed(index_of(files[path_of(names[k])]), series));
    }
}

/// Where the files mirror a store, a store taken up from them has the same values.
pub proof fn reopening_keeps_contents(d: Disk, path_of: Paths, m: Model, series: u64)
    requires
        mirrors(d, path_of, m),
    ensures
        recovered(d, path_of, series) == m.contents(series),
{
    lemma_filed_merged(m.segments, d.files, path_of, m.names, series);
}

/// Where the files mirror a store, a store taken up from them has the same series.
pub proof fn reopening_keeps_series(d: Disk, path_of: Paths, m: Model)
    requires
        mirrors(d, path_of, m),
    ensures
        recovered_series(d, path_of) == m.series(),
{
    assert forall|s: u64| #[trigger]
        recovered_series(d, path_of).contains(s) == m.series().contains(s) by {
        lemma_filed_series(m.segments, d.files, path_of, m.names, s);
    }
    assert(recovered_series(d, path_of) =~= m.series());
}

/// A store that was taken up from files.
pub open spec fn taken_up(d: Disk, path_of: Paths, m: Model) -> bool {
    &&& m.names == names_in(d.manifest)
    &&& segments_of(m.segments, d.files, path_of, m.names)
    &&& m.table == with_points(Map::empty(), replayed(d.log))
    &&& m.next == next_id(m.names)
    &&& m.todo == Seq::<Point>::empty()
    &&& m.phase is Idle
}

/// Where the files mirror a store, one that is taken up from them answers every query
/// alike, has as many series, segments and points in memory, and is mirrored, too.
pub proof fn reopening_keeps_store(d: Disk, path_of: Paths, m: Model, again: Model)
    requires
        mirrors(d, path_of, m),
        taken_up(d, path_of, again),
    ensures
        forall|series: u64| #[trigger] again.contents(series) == m.contents(series),
        again.series() == m.series(),
        again.segments.len() == m.segments.len(),
        total(again.table) == total(m.table),
        mirrors(d, path_of, again),
{
    assert forall|k: int| 0 <= k < again.segments.len() implies {
        &&& (#[trigger] again.segments[k]).index() == m.segments[k].index()
        &&& again.segments[k].data() == m.segments[k].data()
    } by {
        assert(opened_from(m.segments[k], path_of(m.names[k]), d.files[path_of(m.names[k])]));
    }
    assert forall|k: int, s: u64|
        0 <= k < again.segments.len() implies #[trigger] again.segments[k].serves(s) by {
        assert(m.segments[k].serves(s));
    }
    assert(mirrors(d, path_of, again));
    assert forall|series: u64| #[trigger] again.contents(series) == m.contents(series) by {
        reopening_keeps_contents(d, path_of, m, series);
        reopening_keeps_contents(d, path_of, again, series);
    }
    reopening_keeps_series(d, path_of, m);
    reopening_keeps_series(d, path_of, again);
}

/// A store that was taken up from its files is mirrored by them, as long as the
/// files can be read and the log ends with a whole record.
pub proof fn opened_store_is_mirrored(d: Disk, path_of: Paths, m: Model)
    requires
        m.names == names_in(d.manifest),
        segments_of(m.segments, d.files, path_of, m.names),
        m.table == with_points(Map::empty(), replayed(d.log)),
        next_id(m.names) <= u64::MAX,
        m.next == next_id(m.names),
        all_sorted(m.segments),
        all_readable(m.segments),
        d.log.len() % 24 == 0,
    ensures
        mirrors(d, path_of, m),
{
}

/// What a write leaves behind: the point at its timestamp, and everything else as
/// it was.
pub open spec fn point_added(
    before: Map<i64, u64>,
    after: Map<i64, u64>,
    series: u64,
    p: Point,
) -> bool {
    after == if series == p.series {
        before.insert(p.ts, p.value)
    } else {
        before
    }
}

/// A point that goes to memory is added to its series, and nothing else changes.
pub proof fn write_adds_its_point(a: Model, series: u64)
    requires
        a.todo.len() > 0,
    ensures
        point_added(a.contents(series), with_logged(a).contents(series), series, a.todo[0]),
        with_logged(a).series() == a.series().insert(a.todo[0].series),
{
    let p = a.todo[0];
    let b = with_logged(a);
    if series == p.series {
        assert(written(b.table, series).drop_last() =~= written(a.table, series));
    }
    assert(b.series() =~= a.series().insert(p.series));
}

/// Once a point is in the log it is there in memory and after any restart, and
/// nothing else has changed.
pub proof fn logged_point_is_kept(
    d: Disk,
    path_of: Paths,
    a: Model,
    step: Step,
    series: u64,
)
    requires
        mirrors(d, path_of, a),
        a.todo.len() > 0,
        appends(step, a.todo[0]),
    ensures
        point_added(
            recovered(d, path_of, series),
            recovered(performed(d, step, path_of), path_of, series),
            series,
            a.todo[0],
        ),
        mirrors(performed(d, step, path_of), path_of, with_logged(a)),
{
    let p = a.todo[0];
    let e = performed(d, step, path_of);
    let b = with_logged(a);
    append_extends_replay(d.log, p);
    assert(replayed(d.log).push(p).drop_last() =~= replayed(d.log));
    assert(with_points(Map::empty(), replayed(e.log)) == b.table);
    assert(mirrors(e, path_of, b));
    reopening_keeps_contents(d, path_of, a, series);
    reopening_keeps_contents(e, path_of, b, series);
    write_adds_its_point(a, series);
}

/// The points of one series among others.
pub open spec fn of_series(points: Seq<Point>, series: u64) -> Seq<(i64, u64)> {
    points.filter(|p: Point| p.series == series).map_values(|p: Point| (p.ts, p.value))
}

/// The store after all waiting points were logged.
pub open spec fn with_all_logged(a: Model) -> Model
    decreases a.todo.len(),
{
    if a.todo.len() == 0 {
        a
    } else {
        with_all_logged(with_logged(a))
    }
}

/// The log of points begins with the record of the first.
proof fn lemma_logged_front(points: Seq<Point>)
    requires
        points.len() > 0,
    ensures
        logged(points) == record(points[0]) + logged(points.skip(1)),
    decreases points.len(),
{
    reveal_with_fuel(logged, 2);
    let rest = points.skip(1);
    if rest.len() == 0 {
        assert(points.drop_last() =~= seq![]);
        assert(logged(points) =~= record(points[0]) + logged(rest));
    } else {
        let init = points.drop_last();
        lemma_logged_front(init);
        assert(init.skip(1) =~= rest.drop_last());
        assert(logged(points) =~= record(points[0]) + logged(rest));
    }
}

/// Writing a point and then others is writing all of them.
proof fn lemma_overlay_front(m: Map<i64, u64>, p: (i64, u64), s: Seq<(i64, u64)>)
    ensures
        overlay(m.insert(p.0, p.1), s) == overlay(m, seq![p] + s),
    decreases s.len(),
{
    reveal_with_fuel(overlay, 2);
    let all = seq![p] + s;
    if s.len() == 0 {
        assert(all.drop_last() =~= seq![]);
        assert(all.last() == p);
    } else {
        lemma_overlay_front(m, p, s.drop_last());
        assert(all.drop_last() =~= seq![p] + s.drop_last());
    }
}

/// The points of a series begin with the first of them.
proof fn lemma_of_series_front(points: Seq<Point>, series: u64)
    requires
        points.len() > 0,
    ensures
        of_series(points, series) == if points[0].series == series {
            seq![(points[0].ts, points[0].value)] + of_series(points.skip(1), series)
        } else {
            of_series(points.skip(1), series)
        },
{
    let mine = |p: Point| p.series == series;
    let one = seq![points[0]];
    let rest = points.skip(1);
    assert(points =~= one + rest);
    Seq::filter_distributes_over_add(one, rest, mine);
    reveal_with_fuel(Seq::filter, 2);
    assert(one.drop_last() =~= seq![]);
    assert(one.filter(mine) =~= if points[0].series == series {
        one
    } else {
        seq![]
    });
    assert(of_series(points, series) =~= if points[0].series == series {
        seq![(points[0].ts, points[0].value)] + of_series(rest, series)
    } else {
        of_series(rest, series)
    });
}

/// The points of a batch that go to memory are written over what is there, the later
/// ones over the earlier ones.
pub proof fn batch_adds_its_points(a: Model, series: u64)
    ensures
        with_all_logged(a).contents(series) == overlay(
            a.contents(series),
            of_series(a.todo, series),
        ),
    decreases a.todo.len(),
{
    if a.todo.len() == 0 {
        reveal(Seq::filter);
        assert(of_series(a.todo, series) =~= seq![]);
    } else {
        let p = a.todo[0];
        let b = with_logged(a);
        batch_adds_its_points(b, series);
        write_adds_its_point(a, series);
        lemma_of_series_front(a.todo, series);
        if series == p.series {
            lemma_overlay_front(
                a.contents(series),
                (p.ts, p.value),
                of_series(b.todo, series),
            );
        }
    }
}

/// Once all points of a batch are in the log they are there in memory and after any
/// restart, the later ones over the earlier ones, and nothing else has changed.
pub proof fn logged_batch_is_kept(d: Disk, path_of: Paths, a: Model, series: u64)
    requires
        mirrors(d, path_of, a),
    ensures
        mirrors(Disk { log: d.log + logged(a.todo), ..d }, path_of, with_all_logged(a)),
        recovered(Disk { log: d.log + logged(a.todo), ..d }, path_of, series) == overlay(
            recovered(d, path_of, series),
            of_series(a.todo, series),
        ),
    decreases a.todo.len(),
{
    let all = Disk { log: d.log + logged(a.todo), ..d };
    if a.todo.len() == 0 {
        assert(all.log =~= d.log);
        reveal(Seq::filter);
        assert(of_series(a.todo, series) =~= seq![]);
    } else {
        let p = a.todo[0];
        let b = with_logged(a);
        let one = Disk { log: d.log + record(p), ..d };
        append_extends_replay(d.log, p);
        assert(replayed(d.log).push(p).drop_last() =~= replayed(d.log));
        assert(mirrors(one, path_of, b));
        logged_batch_is_kept(one, path_of, b, series);
        lemma_logged_front(a.todo);
        assert(all.log =~= one.log + logged(b.todo));
    }
    batch_adds_its_points(a, series);
    reopening_keeps_contents(d, path_of, a, series);
    reopening_keeps_contents(all, path_of, with_all_logged(a), series);
}

/// Writing the points of a series a second time, sorted or not, changes nothing.
proof fn lemma_overlay_again(
    m: Map<i64, u64>,
    r: Seq<(i64, u64)>,
    s: Seq<(i64, u64)>,
)
    requires
        sort_of(r, s),
    ensures
        overlay(overlay(m, r), s) == overlay(m, s),
        overlay(m, r) == overlay(m, s),
{
    lemma_overlay_sorted(m, r, s);
    let once = overlay(m, s);
    let twice = overlay(once, s);
    assert forall|ts: i64|
        #![trigger once.dom().contains(ts)]
        #![trigger twice.dom().contains(ts)]
        once.dom().contains(ts) == twice.dom().contains(ts) && once[ts] == twice[ts] by {
        lemma_overlay_at(m, s, ts);
        lemma_overlay_at(once, s, ts);
    }
    assert(twice =~= once);
}

/// The blocks of a table hold each series of it, sorted.
proof fn lemma_drained_points(
    blocks: Seq<(u64, Seq<(i64, u64)>)>,
    table: Map<u64, Seq<(i64, u64)>>,
    series: u64,
)
    requires
        drains(blocks, table),
    ensures
        sort_of(block_points(blocks, series), written(table, series)),
{
    if table.contains_key(series) {
        let i = choose|i: int| 0 <= i < blocks.len() && (#[trigger] blocks[i]).0 == series;
        assert(table.contains_key(blocks[i].0));
    } else {
        assert forall|i: int| 0 <= i < blocks.len() implies (#[trigger] blocks[i]).0 != series by {
            assert(table.contains_key(blocks[i].0));
        }
        assert(block_points(blocks, series) =~= seq![]);
    }
}

/// Segment names are written to the manifest as they are.
proof fn lemma_segment_name_plain(id: u64)
    ensures
        plain_name(segment_name_of(id)),
{
    lemma_name_chars(id);
    let name = segment_name_of(id);
    if name.contains('\n') {
        let i = choose|i: int| 0 <= i < name.len() && name[i] == '\n';
        assert(0x2d <= name[i] as u32);
    }
}

/// A new segment file does not touch the files of live segments.
pub(crate) proof fn lemma_new_file(d: Disk, path_of: Paths, m: Model, data: Seq<u8>)
    requires
        distinct_paths(path_of),
        mirrors(d, path_of, m),
    ensures
        ({
            let e = Disk { files: d.files.insert(path_of(segment_name_of(m.next)), data), ..d };
            &&& mirrors(e, path_of, m)
            &&& forall|series: u64| #[trigger]
                recovered(e, path_of, series) == recovered(d, path_of, series)
            &&& recovered_series(e, path_of) == recovered_series(d, path_of)
        }),
{
    let path = path_of(segment_name_of(m.next));
    let e = Disk { files: d.files.insert(path, data), ..d };
    next_id_is_new(m.names);
    assert forall|k: int| 0 <= k < m.names.len() implies path_of(#[trigger] m.names[k])
        != path by {
        assert(m.names.contains(m.names[k]));
        assert(m.names[k] != segment_name_of(m.next));
    }
    assert forall|series: u64| #[trigger]
        recovered(e, path_of, series) == recovered(d, path_of, series) by {
        unnamed_file_is_ignored(d, path_of, path, data, series);
    }
    unnamed_file_is_ignored(d, path_of, path, data, 0);
    assert(segments_of(m.segments, e.files, path_of, m.names)) by {
        assert forall|k: int| 0 <= k < m.names.len() implies opened_from(
            #[trigger] m.segments[k],
            path_of(m.names[k]),
            e.files[path_of(m.names[k])],
        ) by {
            assert(path_of(m.names[k]) != path);
        }
    }
}

/// A segment that was built of blocks has their series.
proof fn lemma_built_series(blocks: Seq<(u64, Seq<(i64, u64)>)>, seg: Segment, series: u64)
    requires
        seg.index().len() == blocks.len(),
        forall|i: int|
            #![trigger blocks[i]]
            0 <= i < blocks.len() ==> seg.index()[i].series == blocks[i].0,
    ensures
        indexed(seg.index(), series) == exists|i: int|
            0 <= i < blocks.len() && (#[trigger] blocks[i]).0 == series,
{
    if indexed(seg.index(), series) {
        let i = choose|i: int|
            0 <= i < seg.index().len() && (#[trigger] seg.index()[i]).series == series;
        assert(blocks[i].0 == series);
    }
    if exists|i: int| 0 <= i < blocks.len() && (#[trigger] blocks[i]).0 == series {
        let i = choose|i: int| 0 <= i < blocks.len() && (#[trigger] blocks[i]).0 == series;
        assert(seg.index()[i].series == series);
    }
}

/// A segment that was built of the table holds what the table held: taking it up in
/// the place of the table changes no value and no series.
pub proof fn flush_keeps_store(
    a: Model,
    blocks: Seq<(u64, Seq<(i64, u64)>)>,
    seg: Segment,
    b: Model,
)
    requires
        drains(blocks, a.table),
        fits_format(blocks),
        seg.data() == image(blocks),
        seg.index() == index_of(image(blocks)),
        b.segments == a.segments.push(seg),
        b.table == Map::<u64, Seq<(i64, u64)>>::empty(),
    ensures
        seg.intact(),
        forall|series: u64| #[trigger] b.contents(series) == a.contents(series),
        b.series() == a.series(),
        all_sorted(a.segments) ==> all_sorted(b.segments),
        all_readable(a.segments) ==> all_readable(b.segments),
{
    built_segment_reads_back(blocks, seg);
    assert(b.segments.drop_last() =~= a.segments);
    assert forall|series: u64| #[trigger] b.contents(series) == a.contents(series) by {
        lemma_drained_points(blocks, a.table, series);
        assert(seg.points(series) == block_points(blocks, series));
        lemma_overlay_again(
            merged(a.segments, series),
            seg.points(series),
            written(a.table, series),
        );
    }
    assert forall|s: u64| #[trigger] b.series().contains(s) == a.series().contains(s) by {
        lemma_built_series(blocks, seg, s);
        if has_series(b.segments, s) {
            let k = choose|k: int|
                0 <= k < b.segments.len() && indexed((#[trigger] b.segments[k]).index(), s);
            if k < a.segments.len() {
                assert(b.segments[k] == a.segments[k]);
            } else {
                let i = choose|i: int| 0 <= i < blocks.len() && (#[trigger] blocks[i]).0 == s;
                assert(a.table.contains_key(blocks[i].0));
            }
        }
        if has_series(a.segments, s) {
            let k = choose|k: int|
                0 <= k < a.segments.len() && indexed((#[trigger] a.segments[k]).index(), s);
            assert(b.segments[k] == a.segments[k]);
        }
        if a.table.contains_key(s) {
            assert(b.segments[a.segments.len() as int] == seg);
        }
    }
    assert(b.series() =~= a.series());
    assert forall|k: int| 0 <= k < b.segments.len() && all_sorted(a.segments) implies index_sorted(
        (#[trigger] b.segments[k]).index(),
    ) by {
        if k < a.segments.len() {
            assert(b.segments[k] == a.segments[k]);
        }
    }
    assert forall|k: int, t: u64|
        0 <= k < b.segments.len() && all_readable(
            a.segments,
        ) implies #[trigger] b.segments[k].serves(t) by {
        if k < a.segments.len() {
            assert(a.segments[k].serves(t));
        } else {
            assert(seg.serves(t));
        }
    }
}

/// The manifest that is saved with a further segment names it behind the others.
proof fn lemma_saved_push(text: Seq<char>, names: Seq<Seq<char>>, id: u64, save: Step)
    requires
        names == names_in(text),
        saves(save, names.push(segment_name_of(id))),
    ensures
        save matches Step::SaveManifest(t) && names_in(t@) == names.push(segment_name_of(id)),
{
    let all = names.push(segment_name_of(id));
    lemma_names_plain(text);
    lemma_segment_name_plain(id);
    assert forall|k: int| 0 <= k < all.len() implies plain_name(#[trigger] all[k]) by {
        if k < names.len() {
            assert(all[k] == names[k]);
        }
    }
    manifest_reads_back(all);
}

/// The files through the rest of a flush, once the new file is there.
pub(crate) proof fn lemma_listed(
    d: Disk,
    path_of: Paths,
    a: Model,
    blocks: Seq<(u64, Seq<(i64, u64)>)>,
    seg: Segment,
    save: Step,
    b: Model,
)
    requires
        mirrors(d, path_of, a),
        a.next < u64::MAX,
        drains(blocks, a.table),
        fits_format(blocks),
        d.files[path_of(segment_name_of(a.next))] == image(blocks),
        opened_from(seg, path_of(segment_name_of(a.next)), image(blocks)),
        b.names == a.names.push(segment_name_of(a.next)),
        b.segments == a.segments.push(seg),
        b.table == Map::<u64, Seq<(i64, u64)>>::empty(),
        b.next == a.next + 1,
        saves(save, b.names),
    ensures
        ({
            let d2 = performed(d, save, path_of);
            let d3 = performed(d2, Step::TruncateLog, path_of);
            &&& forall|series: u64| #[trigger]
                recovered(d2, path_of, series) == recovered(d, path_of, series)
            &&& recovered_series(d2, path_of) == recovered_series(d, path_of)
            &&& forall|series: u64| #[trigger]
                recovered(d3, path_of, series) == recovered(d, path_of, series)
            &&& recovered_series(d3, path_of) == recovered_series(d, path_of)
            &&& mirrors(d3, path_of, b)
        }),
        forall|series: u64| #[trigger] b.contents(series) == a.contents(series),
        b.series() == a.series(),
{
    let d2 = performed(d, save, path_of);
    let d3 = performed(d2, Step::TruncateLog, path_of);
    flush_keeps_store(a, blocks, seg, b);
    lemma_saved_push(d.manifest, a.names, a.next, save);
    assert(names_in(d2.manifest) == b.names);
    assert(b.names.drop_last() =~= a.names);
    assert(replayed(d3.log) =~= seq![]);
    assert forall|k: int| 0 <= k < b.names.len() implies opened_from(
        #[trigger] b.segments[k],
        path_of(b.names[k]),
        d3.files[path_of(b.names[k])],
    ) by {
        if k < a.names.len() {
            assert(b.segments[k] == a.segments[k]);
            assert(b.names[k] == a.names[k]);
        }
    }
    lemma_next_id_push(a.names, a.next);
    assert(mirrors(d3, path_of, b));
    built_segment_reads_back(blocks, seg);
    assert forall|series: u64| #[trigger]
        recovered(d3, path_of, series) == recovered(d, path_of, series) by {
        reopening_keeps_contents(d, path_of, a, series);
        reopening_keeps_contents(d3, path_of, b, series);
    }
    assert forall|series: u64| #[trigger]
        recovered(d2, path_of, series) == recovered(d, path_of, series) by {
        let old = filed(d.files, path_of, a.names, series);
        lemma_drained_points(blocks, a.table, series);
        assert(seg.points(series) == block_points(blocks, series));
        assert(filed(d2.files, path_of, b.names, series) == overlay(old, seg.points(series)));
        lemma_overlay_again(old, seg.points(series), written(a.table, series));
    }
    reopening_keeps_series(d, path_of, a);
    reopening_keeps_series(d3, path_of, b);
    assert forall|s: u64| #[trigger]
        recovered_series(d2, path_of).contains(s) == recovered_series(d, path_of).contains(s) by {
        lemma_filed_series(b.segments, d2.files, path_of, b.names, s);
        assert(b.series().contains(s) == a.series().contains(s));
    }
    assert(recovered_series(d2, path_of) =~= recovered_series(d, path_of));
}

/// A segment that was built of the merged values of others holds what they held: taking
/// it up in their place changes no value and no series, and leaves one segment.
pub proof fn compaction_keeps_store(
    a: Model,
    blocks: Seq<(u64, Seq<(i64, u64)>)>,
    seg: Segment,
    b: Model,
)
    requires
        compacts(blocks, a.segments),
        fits_format(blocks),
        seg.data() == image(blocks),
        seg.index() == index_of(image(blocks)),
        b.segments == seq![seg],
        b.table == a.table,
    ensures
        seg.intact(),
        forall|series: u64| #[trigger] b.contents(series) == a.contents(series),
        b.series() == a.series(),
        all_sorted(b.segments),
        all_readable(b.segments),
        b.segments.len() == 1,
{
    built_segment_reads_back(blocks, seg);
    assert forall|series: u64| #[trigger] b.contents(series) == a.contents(series) by {
        compaction_keeps_values(blocks, a.segments, seg, series);
    }
    assert forall|s: u64| #[trigger]
        has_series(b.segments, s) == has_series(a.segments, s) by {
        lemma_built_series(blocks, seg, s);
        if has_series(b.segments, s) {
            let k = choose|k: int|
                0 <= k < b.segments.len() && indexed((#[trigger] b.segments[k]).index(), s);
            let i = choose|i: int| 0 <= i < blocks.len() && (#[trigger] blocks[i]).0 == s;
            assert(has_series(a.segments, blocks[i].0));
        }
        if has_series(a.segments, s) {
            assert(indexed(b.segments[0].index(), s));
        }
    }
    assert(b.series() =~= a.series());
}

/// The manifest that is saved with one segment names it alone.
proof fn lemma_saved_one(id: u64, save: Step)
    requires
        saves(save, seq![segment_name_of(id)]),
    ensures
        save matches Step::SaveManifest(t) && names_in(t@) == seq![segment_name_of(id)],
{
    lemma_segment_name_plain(id);
    let names = seq![segment_name_of(id)];
    assert(plain_name(names[0]));
    manifest_reads_back(names);
}

/// The files of live segments are not the next one to be created.
pub(crate) proof fn lemma_live_paths(d: Disk, path_of: Paths, m: Model)
    requires
        distinct_paths(path_of),
        mirrors(d, path_of, m),
    ensures
        forall|k: int|
            0 <= k < m.segments.len() ==> (#[trigger] m.segments[k]).name() != path_of(
                segment_name_of(m.next),
            ),
{
    next_id_is_new(m.names);
    assert forall|k: int| 0 <= k < m.segments.len() implies (#[trigger] m.segments[k]).name()
        != path_of(segment_name_of(m.next)) by {
        assert(opened_from(m.segments[k], path_of(m.names[k]), d.files[path_of(m.names[k])]));
        assert(m.names.contains(m.names[k]));
    }
}

/// The manifest is saved with the merged file alone.
pub(crate) proof fn lemma_swap_files(
    d: Disk,
    path_of: Paths,
    a: Model,
    blocks: Seq<(u64, Seq<(i64, u64)>)>,
    save: Step,
)
    requires
        mirrors(d, path_of, a),
        compacts(blocks, a.segments),
        fits_format(blocks),
        d.files[path_of(segment_name_of(a.next))] == image(blocks),
        saves(save, seq![segment_name_of(a.next)]),
    ensures
        ({
            let e = performed(d, save, path_of);
            &&& names_in(e.manifest) == seq![segment_name_of(a.next)]
            &&& forall|series: u64| #[trigger]
                recovered(e, path_of, series) == recovered(d, path_of, series)
            &&& recovered_series(e, path_of) == recovered_series(d, path_of)
        }),
        next_id(seq![segment_name_of(a.next)]) == a.next + 1,
{
    let e = performed(d, save, path_of);
    let one = seq![segment_name_of(a.next)];
    lemma_saved_one(a.next, save);
    lemma_next_id_push(Seq::<Seq<char>>::empty(), a.next);
    assert(Seq::<Seq<char>>::empty().push(one[0]) =~= one);
    built_file_reads_back(blocks);
    let data = image(blocks);
    assert forall|series: u64| #[trigger]
        recovered(e, path_of, series) == recovered(d, path_of, series) by {
        merged_blocks_keep_values(blocks, a.segments, series);
        lemma_filed_merged(a.segments, d.files, path_of, a.names, series);
        assert(one.drop_last() =~= Seq::<Seq<char>>::empty());
        assert(filed(e.files, path_of, one.drop_last(), series) == Map::<i64, u64>::empty());
        assert(stored(data, index_of(data), series) == block_points(blocks, series));
        assert(one.last() == segment_name_of(a.next));
    }
    assert forall|s: u64| #[trigger]
        recovered_series(e, path_of).contains(s) == recovered_series(d, path_of).contains(s) by {
        lemma_filed_series(a.segments, d.files, path_of, a.names, s);
        if filed_series(e.files, path_of, one, s) {
            let k = choose|k: int|
                0 <= k < one.len() && indexed(index_of(e.files[path_of(#[trigger] one[k])]), s);
            let i = choose|i: int|
                0 <= i < index_of(data).len() && (#[trigger] index_of(data)[i]).series == s;
            assert(has_series(a.segments, blocks[i].0));
        }
        if has_series(a.segments, s) {
            let i = choose|i: int| 0 <= i < blocks.len() && (#[trigger] blocks[i]).0 == s;
            assert(index_of(data)[i].series == s);
            assert(indexed(index_of(e.files[path_of(one[0])]), s));
        }
    }
    assert(recovered_series(e, path_of) =~= recovered_series(d, path_of));
}

/// The files through the rest of a compaction, once the new file is there.
pub(crate) proof fn lemma_swapped(
    d: Disk,
    path_of: Paths,
    a: Model,
    blocks: Seq<(u64, Seq<(i64, u64)>)>,
    save: Step,
    seg: Segment,
    removed: Set<Seq<char>>,
    b: Model,
)
    requires
        mirrors(d, path_of, a),
        a.next < u64::MAX,
        compacts(blocks, a.segments),
        fits_format(blocks),
        d.files.contains_pair(path_of(segment_name_of(a.next)), image(blocks)),
        opened_from(seg, path_of(segment_name_of(a.next)), image(blocks)),
        b.names == seq![segment_name_of(a.next)],
        b.segments == seq![seg],
        b.table == a.table,
        b.next == a.next + 1,
        saves(save, b.names),
        !removed.contains(path_of(segment_name_of(a.next))),
    ensures
        ({
            let d2 = performed(d, save, path_of);
            let d3 = Disk { files: d2.files.remove_keys(removed), ..d2 };
            &&& forall|series: u64| #[trigger]
                recovered(d2, path_of, series) == recovered(d, path_of, series)
            &&& recovered_series(d2, path_of) == recovered_series(d, path_of)
            &&& forall|series: u64| #[trigger]
                recovered(d3, path_of, series) == recovered(d, path_of, series)
            &&& recovered_series(d3, path_of) == recovered_series(d, path_of)
            &&& names_in(d2.manifest) == b.names
            &&& mirrors(d2, path_of, b)
            &&& mirrors(d3, path_of, b)
        }),
        forall|series: u64| #[trigger] b.contents(series) == a.contents(series),
        b.series() == a.series(),
{
    let d2 = performed(d, save, path_of);
    let d3 = Disk { files: d2.files.remove_keys(removed), ..d2 };
    let name = segment_name_of(a.next);
    compaction_keeps_store(a, blocks, seg, b);
    lemma_saved_one(a.next, save);
    assert(segments_of(b.segments, d2.files, path_of, b.names)) by {
        assert(opened_from(b.segments[0], path_of(b.names[0]), d2.files[path_of(b.names[0])]));
    }
    assert(segments_of(b.segments, d3.files, path_of, b.names)) by {
        assert(d3.files[path_of(name)] == image(blocks));
        assert(opened_from(b.segments[0], path_of(b.names[0]), d3.files[path_of(b.names[0])]));
    }
    lemma_next_id_push(Seq::<Seq<char>>::empty(), a.next);
    assert(Seq::<Seq<char>>::empty().push(name) =~= b.names);
    assert(mirrors(d2, path_of, b));
    assert(mirrors(d3, path_of, b));
    assert forall|series: u64| #[trigger]
        recovered(d2, path_of, series) == recovered(d, path_of, series) by {
        reopening_keeps_contents(d, path_of, a, series);
        reopening_keeps_contents(d2, path_of, b, series);
    }
    assert forall|series: u64| #[trigger]
        recovered(d3, path_of, series) == recovered(d, path_of, series) by {
        reopening_keeps_contents(d, path_of, a, series);
        reopening_keeps_contents(d3, path_of, b, series);
    }
    reopening_keeps_series(d, path_of, a);
    reopening_keeps_series(d2, path_of, b);
    reopening_keeps_series(d3, path_of, b);
}

/// A flush that stops after any of its steps loses and changes nothing: after the
/// segment file is created, after the manifest is saved, and after the log is
/// emptied a restart gives the values from before, and in the end the store
/// itself has them and is mirrored by its files. The file that was
/// created is never refused.
pub proof fn flush_keeps_contents(
    d: Disk,
    path_of: Paths,
    a: Model,
    build: Step,
    blocks: Seq<(u64, Seq<(i64, u64)>)>,
    a1: Model,
    r: Result<Step>,
    b: Model,
    series: u64,
)
    requires
        distinct_paths(path_of),
        mirrors(d, path_of, a),
        a.table != Map::<u64, Seq<(i64, u64)>>::empty(),
        a.next < u64::MAX,
        flush_begins(a, a1, build),
        drains(blocks, a.table),
        builds(build, a.next, image(blocks)),
        fits_format(blocks),
        takes_segment(
            a1.at(Phase::Opening(a.next)),
            a.next,
            path_of(segment_name_of(a.next)),
            performed(d, build, path_of).files[path_of(segment_name_of(a.next))],
            b,
            r,
        ),
    ensures
        has_whole_index(image(blocks)),
        r matches Ok(save) && ({
            let d1 = performed(d, build, path_of);
            let d2 = performed(d1, save, path_of);
            let d3 = performed(d2, Step::TruncateLog, path_of);
            &&& recovered(d1, path_of, series) == recovered(d, path_of, series)
            &&& recovered(d2, path_of, series) == recovered(d, path_of, series)
            &&& recovered(d3, path_of, series) == recovered(d, path_of, series)
            &&& b.contents(series) == a.contents(series)
            &&& mirrors(d3, path_of, b.at(Phase::Truncating))
        }),
{
    lemma_image_accepted(blocks);
    lemma_new_file(d, path_of, a, image(blocks));
    let d1 = performed(d, build, path_of);
    lemma_listed(d1, path_of, a, blocks, b.segments.last(), r->Ok_0, b);
    let d2 = performed(d1, r->Ok_0, path_of);
    assert(recovered(d2, path_of, series) == recovered(d1, path_of, series));
}

/// A file that was built is not refused.
pub(crate) proof fn lemma_image_accepted(blocks: Seq<(u64, Seq<(i64, u64)>)>)
    requires
        fits_format(blocks),
    ensures
        has_header(image(blocks)),
        has_magic(image(blocks)),
        has_whole_index(image(blocks)),
{
    broadcast use crate::endian::group_endian;

    let data = image(blocks);
    assert(data.subrange(0, 4) =~= le32(MAGIC));
    assert(data.subrange(8, 12) =~= le32(blocks.len() as u32));
    lemma_index_len(blocks, blocks.len() as int);
}

/// A compaction that stops after any of its steps loses and changes nothing: after
/// the merged file is created, after the manifest names it alone, and after any
/// of the old files are removed a restart gives the values from before, and in
/// the end the store itself has them and is mirrored by its files.
/// The file that was created is never refused.
pub proof fn compaction_keeps_contents(
    d: Disk,
    path_of: Paths,
    a: Model,
    build: Step,
    blocks: Seq<(u64, Seq<(i64, u64)>)>,
    a1: Model,
    save: Step,
    a2: Model,
    r: Result<Step>,
    removed: Set<Seq<char>>,
    b: Model,
    series: u64,
)
    requires
        distinct_paths(path_of),
        mirrors(d, path_of, a),
        a.segments.len() >= COMPACT_THRESHOLD,
        a.next < u64::MAX,
        compaction_begins(a, a1, build),
        compacts(blocks, a.segments),
        builds(build, a.next, image(blocks)),
        fits_format(blocks),
        a2 == (Model { names: seq![segment_name_of(a.next)], ..a1 }),
        saves(save, a2.names),
        takes_merged(
            a2.at(Phase::Reopening(a.next)),
            path_of(segment_name_of(a.next)),
            performed(performed(d, build, path_of), save, path_of).files[path_of(
                segment_name_of(a.next),
            )],
            b,
            r,
        ),
        removed.subset_of(a.segments.map_values(|s: Segment| s.name()).to_set()),
    ensures
        has_whole_index(image(blocks)),
        r matches Ok(remove) && removes(remove, a.segments),
        ({
            let d1 = performed(d, build, path_of);
            let d2 = performed(d1, save, path_of);
            let d3 = Disk { files: d2.files.remove_keys(removed), ..d2 };
            &&& recovered(d1, path_of, series) == recovered(d, path_of, series)
            &&& recovered(d2, path_of, series) == recovered(d, path_of, series)
            &&& recovered(d3, path_of, series) == recovered(d, path_of, series)
            &&& b.contents(series) == a.contents(series)
            &&& mirrors(d3, path_of, b.at(Phase::Idle))
        }),
{
    lemma_image_accepted(blocks);
    lemma_new_file(d, path_of, a, image(blocks));
    lemma_live_paths(d, path_of, a);
    let path = path_of(segment_name_of(a.next));
    assert(!removed.contains(path)) by {
        if removed.contains(path) {
            let paths = a.segments.map_values(|s: Segment| s.name());
            assert(paths.to_set().contains(path));
            assert(paths.contains(path));
            let k = choose|k: int| 0 <= k < paths.len() && paths[k] == path;
            assert(a.segments[k].name() == path);
        }
    }
    let d1 = performed(d, build, path_of);
    lemma_swapped(d1, path_of, a, blocks, save, b.segments[0], removed, b);
    let d2 = performed(d1, save, path_of);
    let d3 = Disk { files: d2.files.remove_keys(removed), ..d2 };
    assert(recovered(d2, path_of, series) == recovered(d1, path_of, series));
    assert(recovered(d3, path_of, series) == recovered(d1, path_of, series));
}

/// The points in the first `k` blocks.
spec fn block_total(blocks: Seq<(u64, Seq<(i64, u64)>)>, k: int) -> nat
    decreases k,
{
    if k <= 0 {
        0
    } else {
        block_total(blocks, k - 1) + blocks[k - 1].1.len()
    }
}

/// The blocks of a table hold as many points as the table.
proof fn lemma_block_total(
    blocks: Seq<(u64, Seq<(i64, u64)>)>,
    table: Map<u64, Seq<(i64, u64)>>,
    k: int,
)
    requires
        0 <= k <= blocks.len(),
        table.dom().finite(),
        drains(blocks.take(k), table),
    ensures
        block_total(blocks, k) == total(table),
    decreases k,
{
    let now = blocks.take(k);
    if k == 0 {
        assert(table.dom() =~= Set::<u64>::empty()) by {
            assert forall|s: u64| !table.dom().contains(s) by {
                if table.contains_key(s) {
                    let i = choose|i: int| 0 <= i < now.len() && (#[trigger] now[i]).0 == s;
                }
            }
        }
    } else {
        let last = now[k - 1].0;
        let before = blocks.take(k - 1);
        let rest = table.remove(last);
        assert(table.contains_key(last));
        assert forall|i: int| #![trigger before[i]] 0 <= i < before.len() implies rest.contains_key(
            before[i].0,
        ) && sort_of(before[i].1, rest[before[i].0]) by {
            assert(before[i] == now[i]);
            assert(now[i].0 < now[k - 1].0);
        }
        assert forall|s: u64| #[trigger] rest.contains_key(s) implies exists|i: int|
            0 <= i < before.len() && (#[trigger] before[i]).0 == s by {
            assert(table.contains_key(s));
            let i = choose|i: int| 0 <= i < now.len() && (#[trigger] now[i]).0 == s;
            assert(before[i] == now[i]);
        }
        assert forall|i: int, j: int| 0 <= i < j < before.len() implies before[i].0
            < before[j].0 by {
            assert(before[i] == now[i] && before[j] == now[j]);
        }
        lemma_block_total(blocks, rest, k - 1);
        lemma_total_split(table, last);
        assert(sort_of(now[k - 1].1, table[last]));
    }
}

/// Compressed points take up at most nineteen bytes each.
proof fn lemma_data_len(blocks: Seq<(u64, Seq<(i64, u64)>)>, k: int)
    requires
        0 <= k <= blocks.len(),
    ensures
        data_bytes(blocks, k).len() <= 19 * block_total(blocks, k),
        forall|i: int| 0 <= i < k ==> (#[trigger] blocks[i]).1.len() <= block_total(blocks, k),
    decreases k,
{
    if k > 0 {
        lemma_data_len(blocks, k - 1);
        lemma_encoded_len(blocks[k - 1].1);
    }
}

/// Blocks without empty ones among them are no more than their points.
proof fn lemma_block_count(blocks: Seq<(u64, Seq<(i64, u64)>)>, k: int)
    requires
        0 <= k <= blocks.len(),
        forall|i: int| 0 <= i < blocks.len() ==> (#[trigger] blocks[i]).1.len() > 0,
    ensures
        k <= block_total(blocks, k),
    decreases k,
{
    if k > 0 {
        lemma_block_count(blocks, k - 1);
    }
}

/// A table of up to two hundred million points fits into a segment file.
pub proof fn table_fits_format(
    blocks: Seq<(u64, Seq<(i64, u64)>)>,
    table: Map<u64, Seq<(i64, u64)>>,
)
    requires
        drains(blocks, table),
        table.dom().finite(),
        forall|k: u64| #[trigger] table.contains_key(k) ==> table[k].len() > 0,
        total(table) <= 200_000_000,
    ensures
        fits_format(blocks),
{
    broadcast use crate::endian::group_endian;

    let n = blocks.len() as int;
    assert(blocks.take(n) =~= blocks);
    lemma_block_total(blocks, table, n);
    lemma_data_len(blocks, n);
    assert forall|i: int| 0 <= i < n implies (#[trigger] blocks[i]).1.len() > 0 by {
        assert(table.contains_key(blocks[i].0));
    }
    lemma_block_count(blocks, n);
    lemma_index_len(blocks, n);
    assert forall|i: int| #![trigger blocks[i]] 0 <= i < n implies blocks[i].1.len() <= u32::MAX
        && encoded(blocks[i].1).len() <= u32::MAX by {
        lemma_encoded_len(blocks[i].1);
    }
}

/// The data of each block is part of the data of all.
proof fn lemma_data_part(blocks: Seq<(u64, Seq<(i64, u64)>)>, k: int, i: int)
    requires
        0 <= i < k <= blocks.len(),
    ensures
        encoded(blocks[i].1).len() <= data_bytes(blocks, k).len(),
    decreases k,
{
    if i < k - 1 {
        lemma_data_part(blocks, k - 1, i);
    }
}

/// Blocks that make up a file of less than a gibibyte fit into the format.
pub proof fn small_file_fits_format(blocks: Seq<(u64, Seq<(i64, u64)>)>)
    requires
        image(blocks).len() < 0x4000_0000,
    ensures
        fits_format(blocks),
{
    broadcast use crate::endian::group_endian;

    let n = blocks.len() as int;
    lemma_index_len(blocks, n);
    assert forall|i: int| #![trigger blocks[i]] 0 <= i < n implies blocks[i].1.len() <= u32::MAX
        && encoded(blocks[i].1).len() <= u32::MAX by {
        lemma_encoded_len(blocks[i].1);
        lemma_data_part(blocks, n, i);
    }
}

/// A table holds, for each series, what it held before and behind it the points of that
/// series that were written, in their order.
pub proof fn table_holds_its_points(
    table: Map<u64, Seq<(i64, u64)>>,
    points: Seq<Point>,
    series: u64,
)
    ensures
        written(with_points(table, points), series) == written(table, series) + of_series(
            points,
            series,
        ),
    decreases points.len(),
{
    reveal(Seq::filter);
    if points.len() == 0 {
        assert(of_series(points, series) =~= seq![]);
        assert(written(table, series) + of_series(points, series) =~= written(table, series));
    } else {
        let init = points.drop_last();
        let p = points.last();
        table_holds_its_points(table, init, series);
        let kept = |p: Point| p.series == series;
        assert(points.filter(kept) == if p.series == series {
            init.filter(kept).push(p)
        } else {
            init.filter(kept)
        });
        assert(of_series(points, series) =~= if p.series == series {
            of_series(init, series).push((p.ts, p.value))
        } else {
            of_series(init, series)
        });
        assert(written(with_points(table, points), series) =~= written(table, series) + of_series(
            points,
            series,
        ));
    }
}

} // verus!
