//! The points that were written since the last flush.
use crate::storage::ids::{add_ids, increasing, ordered};
use crate::storage::series::{
    at_ts, in_range, range_is_half_open, select_range, sort_by_ts, sort_of,
    sorting_keeps_every_point,
};
use crate::storage::Point;
use std::collections::{BTreeSet, HashMap};
use vstd::prelude::*;
use vstd::std_specs::iter::IteratorSpec;

verus! {

broadcast use vstd::std_specs::hash::group_hash_axioms;

/// The points of one series, in the order in which they were written.
pub open spec fn written(table: Map<u64, Seq<(i64, u64)>>, series: u64) -> Seq<(i64, u64)> {
    if table.contains_key(series) {
        table[series]
    } else {
        seq![]
    }
}

/// A table after one more point.
pub open spec fn with_point(table: Map<u64, Seq<(i64, u64)>>, p: Point) -> Map<
    u64,
    Seq<(i64, u64)>,
> {
    table.insert(p.series, written(table, p.series).push((p.ts, p.value)))
}

/// A table after some more points.
pub open spec fn with_points(table: Map<u64, Seq<(i64, u64)>>, points: Seq<Point>) -> Map<
    u64,
    Seq<(i64, u64)>,
>
    decreases points.len(),
{
    if points.len() == 0 {
        table
    } else {
        with_point(with_points(table, points.drop_last()), points.last())
    }
}

/// The number of points in a table.
pub open spec fn total(table: Map<u64, Seq<(i64, u64)>>) -> nat
    decreases table.dom().len(),
    when table.dom().finite()
{
    if table.dom().len() == 0 {
        0
    } else {
        let k = table.dom().choose();
        table[k].len() + total(table.remove(k))
    }
}

/// Any series can be the one that is counted first.
pub proof fn lemma_total_split(table: Map<u64, Seq<(i64, u64)>>, k: u64)
    requires
        table.dom().finite(),
        table.contains_key(k),
    ensures
        total(table) == table[k].len() + total(table.remove(k)),
    decreases table.dom().len(),
{
    let c = table.dom().choose();
    if c != k {
        lemma_total_split(table.remove(c), k);
        lemma_total_split(table.remove(k), c);
        assert(table.remove(c).remove(k) =~= table.remove(k).remove(c));
    }
}

/// One more point is counted as one more.
pub proof fn lemma_total_with_point(table: Map<u64, Seq<(i64, u64)>>, p: Point)
    requires
        table.dom().finite(),
    ensures
        total(with_point(table, p)) == total(table) + 1,
{
    let grown = with_point(table, p);
    lemma_total_split(grown, p.series);
    if table.contains_key(p.series) {
        lemma_total_split(table, p.series);
        assert(grown.remove(p.series) =~= table.remove(p.series));
    } else {
        assert(grown.remove(p.series) =~= table);
    }
}

/// Blocks by what they hold.
pub open spec fn block_views(blocks: Seq<(u64, Vec<(i64, u64)>)>) -> Seq<(u64, Seq<(i64, u64)>)> {
    blocks.map_values(|b: (u64, Vec<(i64, u64)>)| (b.0, b.1@))
}

/// The blocks hold one sorted block for each series of the table, in the order
/// of the series.
pub open spec fn drains(blocks: Seq<(u64, Seq<(i64, u64)>)>, table: Map<u64, Seq<(i64, u64)>>) -> bool {
    &&& forall|i: int, j: int| 0 <= i < j < blocks.len() ==> blocks[i].0 < blocks[j].0
    &&& forall|i: int|
        #![trigger blocks[i]]
        0 <= i < blocks.len() ==> table.contains_key(blocks[i].0) && sort_of(
            blocks[i].1,
            table[blocks[i].0],
        )
    &&& forall|series: u64| #[trigger]
        table.contains_key(series) ==> exists|i: int|
            0 <= i < blocks.len() && (#[trigger] blocks[i]).0 == series
}

pub struct MemTable {
    series: HashMap<u64, Vec<(i64, u64)>>,
    len: usize,
}

impl View for MemTable {
    type V = Map<u64, Seq<(i64, u64)>>;

    closed spec fn view(&self) -> Map<u64, Seq<(i64, u64)>> {
        self.series@.map_values(|v: Vec<(i64, u64)>| v@)
    }
}

impl MemTable {
    /// The table knows how many points it holds, and holds no empty series.
    pub closed spec fn wf(self) -> bool {
        &&& self.len == total(self@)
        &&& forall|k: u64| #[trigger] self@.contains_key(k) ==> self@[k].len() > 0
    }

    pub fn new() -> (t: Self)
        ensures
            t.wf(),
            t@ == Map::<u64, Seq<(i64, u64)>>::empty(),
    {
        let t = MemTable { series: HashMap::new(), len: 0 };
        assert(t@ =~= Map::<u64, Seq<(i64, u64)>>::empty());
        t
    }

    /// What a well-formed table may be relied on for.
    pub proof fn lemma_wf(self)
        requires
            self.wf(),
        ensures
            self@.dom().finite(),
            forall|k: u64| #[trigger] self@.contains_key(k) ==> self@[k].len() > 0,
    {
        assert(self@.dom() =~= self.series@.dom());
    }

    /// Adds a point behind the points of its series.
    pub fn insert(&mut self, p: Point)
        requires
            old(self).wf(),
            total(old(self)@) < usize::MAX,
        ensures
            final(self).wf(),
            final(self)@ == with_point(old(self)@, p),
            total(final(self)@) == total(old(self)@) + 1,
    {
        let ghost before = self@;
        let ghost before_map = self.series@;
        proof {
            self.lemma_wf();
            lemma_total_with_point(before, p);
        }
        let points = self.series.entry(p.series).or_insert(Vec::new());
        points.push((p.ts, p.value));
        self.len = self.len + 1;
        assert(self@ =~= with_point(before, p));
    }

    /// The number of points.
    pub fn len(&self) -> (n: usize)
        requires
            self.wf(),
        ensures
            n == total(self@),
    {
        self.len
    }

    pub fn is_empty(&self) -> (b: bool)
        requires
            self.wf(),
        ensures
            b == (self@ == Map::<u64, Seq<(i64, u64)>>::empty()),
    {
        proof {
            self.lemma_wf();
            if self.len == 0 {
                if self@.dom().len() > 0 {
                    let k = self@.dom().choose();
                    assert(self@.contains_key(k));
                }
                assert(self@.dom() =~= Set::empty());
                assert(self@ =~= Map::empty());
            }
        }
        self.len == 0
    }

    /// The ids of the series that have points, in no particular order.
    pub fn series_ids(&self) -> (ids: Vec<u64>)
        ensures
            ids@.no_duplicates(),
            ids@.to_set() == self@.dom(),
    {
        let mut ids: Vec<u64> = Vec::new();
        let it = self.series.keys();
        let ghost all = it.remaining();
        for k in iter: self.series.keys()
            invariant
                iter.seq() == all,
                ids@.len() == iter.index(),
                forall|j: int| 0 <= j < ids@.len() ==> ids@[j] == *all[j],
        {
            ids.push(*k);
        }
        assert(ids@ =~= all.unref());
        assert(self@.dom() =~= self.series@.dom());
        ids
    }

    /// The points of a series within a time range, in the order of their
    /// timestamps; points at one timestamp in the order in which they were written.
    pub fn query(&self, series: u64, start: i64, end: i64) -> (out: Vec<(i64, u64)>)
        ensures
            sort_of(out@, in_range(written(self@, series), start, end)),
    {
        match self.series.get(&series) {
            Some(points) => {
                let picked = select_range(points.as_slice(), start, end);
                sort_by_ts(picked.as_slice())
            },
            None => {
                let none: Vec<(i64, u64)> = Vec::new();
                let picked = select_range(none.as_slice(), start, end);
                assert(none@ =~= written(self@, series));
                sort_by_ts(picked.as_slice())
            },
        }
    }

    /// Empties the table into one sorted block for each series.
    pub fn drain_sorted(&mut self) -> (blocks: Vec<(u64, Vec<(i64, u64)>)>)
        requires
            old(self).wf(),
        ensures
            final(self).wf(),
            final(self)@ == Map::<u64, Seq<(i64, u64)>>::empty(),
            drains(block_views(blocks@), old(self)@),
    {
        let ghost table = self@;
        let mut set: BTreeSet<u64> = BTreeSet::new();
        let unordered = self.series_ids();
        add_ids(&mut set, unordered.as_slice());
        let ids = ordered(&set);
        proof {
            assert(set@ =~= table.dom());
        }
        let mut blocks: Vec<(u64, Vec<(i64, u64)>)> = Vec::new();
        let mut i: usize = 0;
        while i < ids.len()
            invariant
                i <= ids@.len(),
                self@ == table,
                increasing(ids@),
                ids@.to_set() == table.dom(),
                blocks@.len() == i,
                forall|k: int|
                    #![trigger blocks@[k]]
                    0 <= k < i ==> blocks@[k].0 == ids@[k] && sort_of(
                        blocks@[k].1@,
                        table[ids@[k]],
                    ),
            decreases ids@.len() - i,
        {
            let id = ids[i];
            assert(ids@.to_set().contains(id));
            assert(self@.contains_key(id));
            let sorted = match self.series.get(&id) {
                Some(points) => sort_by_ts(points.as_slice()),
                None => Vec::new(),
            };
            blocks.push((id, sorted));
            i = i + 1;
        }
        self.series.clear();
        self.len = 0;
        proof {
            let views = block_views(blocks@);
            assert forall|series: u64| #[trigger] table.contains_key(series) implies exists|k: int|
                0 <= k < views.len() && (#[trigger] views[k]).0 == series by {
                assert(ids@.to_set().contains(series));
                let k = choose|k: int| 0 <= k < ids@.len() && ids@[k] == series;
                assert(views[k].0 == series);
            }
            assert forall|k: int| #![trigger views[k]] 0 <= k < views.len() implies
                table.contains_key(views[k].0) && sort_of(views[k].1, table[views[k].0]) by {
                assert(blocks@[k].0 == ids@[k]);
                assert(ids@.to_set().contains(ids@[k]));
            }
            assert(self@ =~= Map::empty());
        }
        blocks
    }
}

impl Default for MemTable {
    fn default() -> (t: Self)
        ensures
            t.wf(),
            t@ == Map::<u64, Seq<(i64, u64)>>::empty(),
    {
        MemTable::new()
    }
}

/// A table counts every point that was written to it, whatever its series and timestamp
/// are.
pub proof fn table_counts_every_point(table: Map<u64, Seq<(i64, u64)>>, points: Seq<Point>)
    requires
        table.dom().finite(),
    ensures
        with_points(table, points).dom().finite(),
        total(with_points(table, points)) == total(table) + points.len(),
        total(Map::<u64, Seq<(i64, u64)>>::empty()) == 0,
    decreases points.len(),
{
    if points.len() > 0 {
        table_counts_every_point(table, points.drop_last());
        lemma_total_with_point(with_points(table, points.drop_last()), points.last());
    }
}

/// A point goes behind the points of its series, and the other series stay as they are.
pub proof fn point_joins_its_series(table: Map<u64, Seq<(i64, u64)>>, p: Point, other: u64)
    ensures
        written(with_point(table, p), p.series) == written(table, p.series).push((p.ts, p.value)),
        other != p.series ==> written(with_point(table, p), other) == written(table, other),
        with_point(table, p).dom() == table.dom().insert(p.series),
{
    assert(with_point(table, p).dom() =~= table.dom().insert(p.series));
}

/// Each block counts once, in its place, with all its points.
pub proof fn block_views_hold_every_point(blocks: Seq<(u64, Vec<(i64, u64)>)>)
    ensures
        block_views(blocks).len() == blocks.len(),
        forall|i: int|
            0 <= i < blocks.len() ==> (#[trigger] block_views(blocks)[i]).0 == blocks[i].0
                && block_views(blocks)[i].1 == blocks[i].1@,
{
}

/// A point that goes to a table is counted, and is found in its series in every range that
/// holds its timestamp, and in no other series and no other range.
pub proof fn inserted_point_is_found(
    table: &mut MemTable,
    p: Point,
    n: usize,
    series: u64,
    start: i64,
    end: i64,
    before: Vec<(i64, u64)>,
    after: Vec<(i64, u64)>,
)
    requires
        call_ensures(MemTable::insert, (table, p), ()),
        call_ensures(MemTable::len, (final(table),), n),
        call_ensures(MemTable::query, (old(table), series, start, end), before),
        call_ensures(MemTable::query, (final(table), series, start, end), after),
    ensures
        n == total(old(table)@) + 1,
        p.series == series && start <= p.ts < end ==> {
            &&& after@.len() == before@.len() + 1
            &&& after@.contains((p.ts, p.value))
            &&& at_ts(after@, p.ts).last() == (p.ts, p.value)
        },
        p.series != series || p.ts < start || end <= p.ts ==> {
            &&& after@.len() == before@.len()
            &&& forall|q: (i64, u64)| #[trigger] after@.contains(q) <==> before@.contains(q)
        },
{
    let (a, b) = (old(table)@, final(table)@);
    let q = (p.ts, p.value);
    point_joins_its_series(a, p, series);
    let (x, y) = (written(a, series), written(b, series));
    range_is_half_open(x, seq![q], q, start, end);
    assert(p.series == series ==> y =~= x + seq![q]);
    let (u, v) = (in_range(x, start, end), in_range(y, start, end));
    assert(u + Seq::<(i64, u64)>::empty() =~= u);
    sorting_keeps_every_point(before@, u);
    sorting_keeps_every_point(after@, v);
    if p.series == series && start <= p.ts < end {
        assert(v == u + seq![q]);
        assert(v[v.len() - 1] == q);
        assert(v.contains(q));
        reveal(Seq::filter);
        assert(v.drop_last() =~= u);
        assert(at_ts(v, p.ts).last() == q);
        assert(at_ts(after@, p.ts) == at_ts(v, p.ts));
    } else {
        assert(v == u);
    }
}

/// A table that is drained is empty, and its points are in the blocks: one block for each
/// series, in the order of the series, with all its points.
pub proof fn drained_points_are_in_blocks(
    table: &mut MemTable,
    blocks: Vec<(u64, Vec<(i64, u64)>)>,
    series: u64,
    p: (i64, u64),
)
    requires
        call_ensures(MemTable::drain_sorted, (table,), blocks),
    ensures
        final(table)@ == Map::<u64, Seq<(i64, u64)>>::empty(),
        forall|i: int, j: int| 0 <= i < j < blocks@.len() ==> blocks@[i].0 < blocks@[j].0,
        written(old(table)@, series).contains(p) <==> exists|i: int|
            0 <= i < blocks@.len() && (#[trigger] blocks@[i]).0 == series && blocks@[i].1@.contains(
                p,
            ),
{
    let views = block_views(blocks@);
    let a = old(table)@;
    assert(forall|i: int| 0 <= i < blocks@.len() ==> views[i] == (blocks@[i].0, blocks@[i].1@));
    assert forall|i: int, j: int| 0 <= i < j < blocks@.len() implies blocks@[i].0
        < blocks@[j].0 by {
        assert(views[i].0 < views[j].0);
    }
    if a.contains_key(series) {
        let i = choose|i: int| 0 <= i < views.len() && (#[trigger] views[i]).0 == series;
        sorting_keeps_every_point(views[i].1, a[series]);
        assert(blocks@[i].0 == series);
        assert(views[i].1.contains(p) <==> a[series].contains(p));
        if exists|k: int|
            0 <= k < blocks@.len() && (#[trigger] blocks@[k]).0 == series && blocks@[k].1@.contains(
                p,
            ) {
            let k = choose|k: int|
                0 <= k < blocks@.len() && (#[trigger] blocks@[k]).0 == series
                    && blocks@[k].1@.contains(p);
            assert(views[k].0 == series);
            assert(k == i) by {
                if k < i {
                    assert(views[k].0 < views[i].0);
                } else if i < k {
                    assert(views[i].0 < views[k].0);
                }
            }
        }
    } else {
        assert forall|i: int| 0 <= i < blocks@.len() implies (#[trigger] blocks@[i]).0 != series by {
            assert(a.contains_key(views[i].0));
        }
    }
}

/// A new table is empty and has no series; one that a point was put into is not empty, and
/// has the series of that point and those it had before.
pub proof fn table_is_empty_without_points(
    fresh: MemTable,
    first: bool,
    none: Vec<u64>,
    table: &mut MemTable,
    p: Point,
    second: bool,
    before: Vec<u64>,
    after: Vec<u64>,
    series: u64,
)
    requires
        call_ensures(MemTable::new, (), fresh),
        call_ensures(MemTable::is_empty, (&fresh,), first),
        call_ensures(MemTable::series_ids, (&fresh,), none),
        call_ensures(MemTable::insert, (table, p), ()),
        call_ensures(MemTable::is_empty, (final(table),), second),
        call_ensures(MemTable::series_ids, (old(table),), before),
        call_ensures(MemTable::series_ids, (final(table),), after),
    ensures
        first,
        none@.len() == 0,
        !second,
        after@.contains(series) <==> before@.contains(series) || series == p.series,
        after@.no_duplicates(),
{
    if none@.len() > 0 {
        assert(none@.to_set().contains(none@[0]));
    }
    assert(final(table)@.dom().contains(p.series));
    assert(after@.to_set().contains(series) <==> after@.contains(series));
    assert(before@.to_set().contains(series) <==> before@.contains(series));
}

} // verus!
