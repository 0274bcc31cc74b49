//! The points of one series: order, filtering, and which write wins.
use std::collections::BTreeMap;
use vstd::prelude::*;
use vstd::slice::slice_subrange;
use vstd::std_specs::iter::IteratorSpec;

verus! {

broadcast use vstd::laws_cmp::group_laws_cmp;

/// The points at one timestamp, in the order in which they stand.
pub open spec fn at_ts(s: Seq<(i64, u64)>, ts: i64) -> Seq<(i64, u64)> {
    s.filter(|p: (i64, u64)| p.0 == ts)
}

/// The points stand in the order of their timestamps.
pub open spec fn ts_sorted(s: Seq<(i64, u64)>) -> bool {
    forall|i: int, j: int| 0 <= i <= j < s.len() ==> s[i].0 <= s[j].0
}

/// `r` holds the points of `s` in the order of their timestamps, and points at
/// one timestamp in the order in which `s` has them.
pub open spec fn sort_of(r: Seq<(i64, u64)>, s: Seq<(i64, u64)>) -> bool {
    &&& ts_sorted(r)
    &&& r.len() == s.len()
    &&& forall|ts: i64| #[trigger] at_ts(r, ts) == at_ts(s, ts)
}

/// The points with a timestamp from `start` up to, but not including, `end`.
pub open spec fn in_range(s: Seq<(i64, u64)>, start: i64, end: i64) -> Seq<(i64, u64)> {
    s.filter(|p: (i64, u64)| start <= p.0 && p.0 < end)
}

/// The value at each timestamp after some points were written over others.
pub open spec fn overlay(m: Map<i64, u64>, s: Seq<(i64, u64)>) -> Map<i64, u64>
    decreases s.len(),
{
    if s.len() == 0 {
        m
    } else {
        overlay(m, s.drop_last()).insert(s.last().0, s.last().1)
    }
}

/// `r` lists the values of `m` from `start` up to, but not including, `end`, in
/// the order of their timestamps.
pub open spec fn lists(r: Seq<(i64, u64)>, m: Map<i64, u64>, start: i64, end: i64) -> bool {
    &&& forall|i: int, j: int| 0 <= i < j < r.len() ==> r[i].0 < r[j].0
    &&& forall|i: int|
        #![trigger r[i]]
        0 <= i < r.len() ==> start <= r[i].0 < end && m.contains_pair(r[i].0, r[i].1)
    &&& forall|ts: i64|
        #![trigger m.dom().contains(ts)]
        m.dom().contains(ts) && start <= ts < end ==> r.contains((ts, m[ts]))
}

proof fn lemma_at_ts_push(s: Seq<(i64, u64)>, p: (i64, u64), ts: i64)
    ensures
        at_ts(s.push(p), ts) == if p.0 == ts {
            at_ts(s, ts).push(p)
        } else {
            at_ts(s, ts)
        },
{
    reveal(Seq::filter);
    assert(s.push(p).drop_last() =~= s);
}

proof fn lemma_at_ts_concat(a: Seq<(i64, u64)>, b: Seq<(i64, u64)>, ts: i64)
    ensures
        at_ts(a + b, ts) == at_ts(a, ts) + at_ts(b, ts),
{
    Seq::filter_distributes_over_add(a, b, |p: (i64, u64)| p.0 == ts);
}

proof fn lemma_at_ts_none(s: Seq<(i64, u64)>, ts: i64)
    requires
        forall|i: int| 0 <= i < s.len() ==> s[i].0 != ts,
    ensures
        at_ts(s, ts) == Seq::<(i64, u64)>::empty(),
    decreases s.len(),
{
    reveal(Seq::filter);
    if s.len() > 0 {
        lemma_at_ts_none(s.drop_last(), ts);
    }
}

/// Merges two sorted series; of points at one timestamp those of `a` come first.
fn merge(a: &[(i64, u64)], b: &[(i64, u64)]) -> (out: Vec<(i64, u64)>)
    requires
        ts_sorted(a@),
        ts_sorted(b@),
    ensures
        sort_of(out@, a@ + b@),
{
    let mut out: Vec<(i64, u64)> = Vec::new();
    let mut i: usize = 0;
    let mut j: usize = 0;
    proof {
        assert forall|ts: i64| #[trigger]
            at_ts(out@, ts) == at_ts(a@.take(0), ts) + at_ts(b@.take(0), ts) by {
            reveal(Seq::filter);
            assert(a@.take(0) =~= seq![] && b@.take(0) =~= seq![] && out@ =~= seq![]);
        }
    }
    while i < a.len() || j < b.len()
        invariant
            i <= a@.len(),
            j <= b@.len(),
            out@.len() == i + j,
            ts_sorted(a@),
            ts_sorted(b@),
            ts_sorted(out@),
            forall|k: int, l: int| 0 <= k < out@.len() && i <= l < a@.len() ==> out@[k].0 <= a@[l].0,
            forall|k: int, l: int| 0 <= k < out@.len() && j <= l < b@.len() ==> out@[k].0 <= b@[l].0,
            forall|k: int, l: int| 0 <= k < j && i <= l < a@.len() ==> b@[k].0 < a@[l].0,
            forall|ts: i64| #[trigger]
                at_ts(out@, ts) == at_ts(a@.take(i as int), ts) + at_ts(b@.take(j as int), ts),
        decreases a@.len() - i + b@.len() - j,
    {
        let ghost before = out@;
        if i < a.len() && (j >= b.len() || a[i].0 <= b[j].0) {
            let p = a[i];
            out.push(p);
            proof {
                assert(a@.take(i + 1) =~= a@.take(i as int).push(p));
                assert forall|ts: i64| #[trigger]
                    at_ts(out@, ts) == at_ts(a@.take(i + 1), ts) + at_ts(b@.take(j as int), ts) by {
                    assert(at_ts(before, ts) == at_ts(a@.take(i as int), ts) + at_ts(
                        b@.take(j as int),
                        ts,
                    ));
                    lemma_at_ts_push(before, p, ts);
                    lemma_at_ts_push(a@.take(i as int), p, ts);
                    if p.0 == ts {
                        lemma_at_ts_none(b@.take(j as int), ts);
                    }
                }
            }
            i = i + 1;
        } else {
            let p = b[j];
            out.push(p);
            proof {
                assert(b@.take(j + 1) =~= b@.take(j as int).push(p));
                assert forall|ts: i64| #[trigger]
                    at_ts(out@, ts) == at_ts(a@.take(i as int), ts) + at_ts(b@.take(j + 1), ts) by {
                    assert(at_ts(before, ts) == at_ts(a@.take(i as int), ts) + at_ts(
                        b@.take(j as int),
                        ts,
                    ));
                    lemma_at_ts_push(before, p, ts);
                    lemma_at_ts_push(b@.take(j as int), p, ts);
                    if p.0 == ts {
                        assert(at_ts(a@.take(i as int), ts) + at_ts(b@.take(j as int), ts).push(p)
                            =~= (at_ts(a@.take(i as int), ts) + at_ts(b@.take(j as int), ts)).push(
                            p,
                        ));
                    }
                }
            }
            j = j + 1;
        }
    }
    proof {
        assert(a@.take(i as int) =~= a@ && b@.take(j as int) =~= b@);
        assert forall|ts: i64| #[trigger] at_ts(out@, ts) == at_ts(a@ + b@, ts) by {
            lemma_at_ts_concat(a@, b@, ts);
        }
    }
    out
}

/// Sorts a series by timestamp, keeping points at one timestamp in their order.
pub fn sort_by_ts(points: &[(i64, u64)]) -> (out: Vec<(i64, u64)>)
    ensures
        sort_of(out@, points@),
    decreases points@.len(),
{
    if points.len() <= 1 {
        let mut out: Vec<(i64, u64)> = Vec::new();
        if points.len() == 1 {
            out.push(points[0]);
        }
        assert(out@ =~= points@);
        return out;
    }
    let mid = points.len() / 2;
    let left = slice_subrange(points, 0, mid);
    let right = slice_subrange(points, mid, points.len());
    let a = sort_by_ts(left);
    let b = sort_by_ts(right);
    let out = merge(a.as_slice(), b.as_slice());
    proof {
        assert(left@ + right@ =~= points@);
        assert forall|ts: i64| #[trigger] at_ts(out@, ts) == at_ts(points@, ts) by {
            lemma_at_ts_concat(a@, b@, ts);
            lemma_at_ts_concat(left@, right@, ts);
        }
    }
    out
}

/// Picks the points of a time range.
pub fn select_range(points: &[(i64, u64)], start: i64, end: i64) -> (out: Vec<(i64, u64)>)
    ensures
        out@ == in_range(points@, start, end),
        forall|i: int| 0 <= i < out@.len() ==> start <= (#[trigger] out@[i]).0 < end,
{
    let mut out: Vec<(i64, u64)> = Vec::new();
    let mut i: usize = 0;
    proof {
        reveal(Seq::filter);
        assert(points@.take(0) =~= seq![]);
        assert(out@ =~= in_range(points@.take(0), start, end));
    }
    while i < points.len()
        invariant
            i <= points@.len(),
            out@ == in_range(points@.take(i as int), start, end),
            forall|k: int| 0 <= k < out@.len() ==> start <= (#[trigger] out@[k]).0 < end,
        decreases points@.len() - i,
    {
        let p = points[i];
        proof {
            reveal(Seq::filter);
            assert(points@.take(i + 1).drop_last() =~= points@.take(i as int));
        }
        if p.0 >= start && p.0 < end {
            out.push(p);
        }
        i = i + 1;
    }
    assert(points@.take(i as int) =~= points@);
    out
}

/// What a timestamp holds after an overlay: the last point written there, or
/// else what it held before.
pub proof fn lemma_overlay_at(m: Map<i64, u64>, s: Seq<(i64, u64)>, ts: i64)
    ensures
        at_ts(s, ts).len() == 0 ==> overlay(m, s).dom().contains(ts) == m.dom().contains(ts)
            && overlay(m, s)[ts] == m[ts],
        at_ts(s, ts).len() > 0 ==> overlay(m, s).dom().contains(ts) && overlay(m, s)[ts] == at_ts(
            s,
            ts,
        ).last().1,
    decreases s.len(),
{
    if s.len() == 0 {
        lemma_at_ts_none(s, ts);
    } else {
        lemma_overlay_at(m, s.drop_last(), ts);
        lemma_at_ts_push(s.drop_last(), s.last(), ts);
        assert(s.drop_last().push(s.last()) =~= s);
    }
}

/// Sorting points does not change what they leave behind.
pub proof fn lemma_overlay_sorted(m: Map<i64, u64>, r: Seq<(i64, u64)>, s: Seq<(i64, u64)>)
    requires
        sort_of(r, s),
    ensures
        overlay(m, r) == overlay(m, s),
{
    let x = overlay(m, r);
    let y = overlay(m, s);
    assert forall|ts: i64| #[trigger] x.dom().contains(ts) == y.dom().contains(ts) by {
        lemma_overlay_at(m, r, ts);
        lemma_overlay_at(m, s, ts);
        assert(at_ts(r, ts) == at_ts(s, ts));
    }
    assert forall|ts: i64| x.dom().contains(ts) implies #[trigger] x[ts] == y[ts] by {
        lemma_overlay_at(m, r, ts);
        lemma_overlay_at(m, s, ts);
        assert(at_ts(r, ts) == at_ts(s, ts));
    }
    assert(x.dom() =~= y.dom());
    assert(overlay(m, r) =~= overlay(m, s));
}

/// Within a time range, one map holds what another does, and nothing outside it.
pub open spec fn window_of(part: Map<i64, u64>, whole: Map<i64, u64>, start: i64, end: i64) -> bool {
    &&& forall|ts: i64| #[trigger]
        part.dom().contains(ts) <==> whole.dom().contains(ts) && start <= ts < end
    &&& forall|ts: i64| #[trigger] part.dom().contains(ts) ==> part[ts] == whole[ts]
}

/// Writing only the points of a range over the window of a map gives the window
/// of what all the points give.
pub proof fn lemma_overlay_range(
    part: Map<i64, u64>,
    whole: Map<i64, u64>,
    s: Seq<(i64, u64)>,
    start: i64,
    end: i64,
)
    requires
        window_of(part, whole, start, end),
    ensures
        window_of(overlay(part, in_range(s, start, end)), overlay(whole, s), start, end),
    decreases s.len(),
{
    reveal(Seq::filter);
    if s.len() > 0 {
        let init = s.drop_last();
        lemma_overlay_range(part, whole, init, start, end);
        let p = s.last();
        if start <= p.0 && p.0 < end {
            let kept = in_range(init, start, end);
            assert(in_range(s, start, end) == kept.push(p));
            assert(kept.push(p).drop_last() =~= kept);
        }
    }
}

/// A window that lists all of itself lists the window of the whole.
pub proof fn lemma_lists_window(
    r: Seq<(i64, u64)>,
    part: Map<i64, u64>,
    whole: Map<i64, u64>,
    start: i64,
    end: i64,
)
    requires
        window_of(part, whole, start, end),
        lists_all(r, part),
    ensures
        lists(r, whole, start, end),
{
    assert forall|ts: i64|
        #![trigger whole.dom().contains(ts)]
        whole.dom().contains(ts) && start <= ts < end implies r.contains((ts, whole[ts])) by {
        assert(part.dom().contains(ts));
    }
}

/// `r` lists all the values of `m` in the order of their timestamps.
pub open spec fn lists_all(r: Seq<(i64, u64)>, m: Map<i64, u64>) -> bool {
    &&& forall|i: int, j: int| 0 <= i < j < r.len() ==> r[i].0 < r[j].0
    &&& forall|i: int| #![trigger r[i]] 0 <= i < r.len() ==> m.contains_pair(r[i].0, r[i].1)
    &&& forall|ts: i64|
        #![trigger m.dom().contains(ts)]
        m.dom().contains(ts) ==> r.contains((ts, m[ts]))
}

/// Writes points over a map.
pub fn merge_into(m: &mut BTreeMap<i64, u64>, points: &[(i64, u64)])
    ensures
        final(m)@ == overlay(old(m)@, points@),
{
    let ghost before = m@;
    let mut i: usize = 0;
    assert(points@.take(0) =~= seq![]);
    while i < points.len()
        invariant
            i <= points@.len(),
            m@ == overlay(before, points@.take(i as int)),
        decreases points@.len() - i,
    {
        let p = points[i];
        assert(points@.take(i + 1).drop_last() =~= points@.take(i as int));
        m.insert(p.0, p.1);
        i = i + 1;
    }
    assert(points@.take(i as int) =~= points@);
}

/// Lists a map in the order of its timestamps.
pub fn listing(m: &BTreeMap<i64, u64>) -> (out: Vec<(i64, u64)>)
    ensures
        lists_all(out@, m@),
{
    broadcast use vstd::std_specs::btree::group_btree_axioms;

    let mut out: Vec<(i64, u64)> = Vec::new();
    let it = m.iter();
    let ghost all = it.remaining();
    let ghost keys = all.map_values(|kv: (&i64, &u64)| *kv.0);
    for kv in iter: m.iter()
        invariant
            iter.seq() == all,
            out@.len() == iter.index(),
            forall|k: int| 0 <= k < out@.len() ==> out@[k] == (*all[k].0, *all[k].1),
    {
        out.push((*kv.0, *kv.1));
    }
    proof {
        assert forall|i: int, j: int| 0 <= i < j < out@.len() implies out@[i].0 < out@[j].0 by {
            assert(keys[i] == *all[i].0 && keys[j] == *all[j].0);
            assert(vstd::std_specs::cmp::OrdSpec::cmp_spec(&keys[i], &keys[j]) is Less);
        }
        assert forall|ts: i64| #![trigger m@.dom().contains(ts)] m@.dom().contains(ts) implies
            out@.contains((ts, m@[ts])) by {
            assert(m@.contains_key(ts));
            let k = choose|k: int| 0 <= k < all.len() && all[k] == (&ts, &m@[ts]);
            assert(out@[k] == (ts, m@[ts]));
        }
    }
    out
}

/// A time range holds its start and not its end: of one point, that point if it lies in
/// the range, and nothing otherwise; and of points one behind the other what the range
/// holds of each part.
pub proof fn range_is_half_open(
    a: Seq<(i64, u64)>,
    b: Seq<(i64, u64)>,
    p: (i64, u64),
    start: i64,
    end: i64,
)
    ensures
        start <= p.0 && p.0 < end ==> in_range(seq![p], start, end) == seq![p],
        p.0 < start || end <= p.0 ==> in_range(seq![p], start, end) == Seq::<(i64, u64)>::empty(),
        in_range(a + b, start, end) == in_range(a, start, end) + in_range(b, start, end),
        in_range(Seq::<(i64, u64)>::empty(), start, end) == Seq::<(i64, u64)>::empty(),
{
    let inside = |p: (i64, u64)| start <= p.0 && p.0 < end;
    Seq::filter_distributes_over_add(a, b, inside);
    reveal(Seq::filter);
    reveal_with_fuel(Seq::filter, 2);
    assert(seq![p].drop_last() =~= Seq::<(i64, u64)>::empty());
    assert(in_range(seq![p], start, end) =~= if start <= p.0 && p.0 < end {
        seq![p]
    } else {
        Seq::<(i64, u64)>::empty()
    });
}

/// The points at one timestamp are points that are there.
proof fn lemma_at_ts_contains(s: Seq<(i64, u64)>, p: (i64, u64))
    ensures
        at_ts(s, p.0).contains(p) <==> s.contains(p),
    decreases s.len(),
{
    if s.len() > 0 {
        let init = s.drop_last();
        let q = s.last();
        lemma_at_ts_contains(init, p);
        lemma_at_ts_push(init, q, p.0);
        assert(init.push(q) =~= s);
        let few = at_ts(init, p.0);
        let more = at_ts(s, p.0);
        if s.contains(p) {
            let i = s.index_of(p);
            if i < init.len() {
                assert(init[i] == p);
                let k = few.index_of(p);
                assert(more[k] == p);
            } else {
                assert(more[more.len() - 1] == p);
            }
        }
        if more.contains(p) {
            let k = more.index_of(p);
            if k < few.len() {
                assert(few[k] == p);
                let i = init.index_of(p);
                assert(s[i] == p);
            } else {
                assert(s[s.len() - 1] == p);
            }
        }
    } else {
        lemma_at_ts_none(s, p.0);
    }
}

/// Sorting keeps every point, adds none, and puts no point before an earlier one.
pub proof fn sorting_keeps_every_point(r: Seq<(i64, u64)>, s: Seq<(i64, u64)>)
    requires
        sort_of(r, s),
    ensures
        r.len() == s.len(),
        forall|p: (i64, u64)| #[trigger] r.contains(p) <==> s.contains(p),
        forall|i: int, j: int| 0 <= i < j < r.len() ==> r[i].0 <= r[j].0,
{
    assert forall|p: (i64, u64)| #[trigger] r.contains(p) <==> s.contains(p) by {
        lemma_at_ts_contains(r, p);
        lemma_at_ts_contains(s, p);
        assert(at_ts(r, p.0) == at_ts(s, p.0));
    }
}

/// Of points that are written one behind the other, the last one at a timestamp stays,
/// and points at other timestamps leave it alone.
pub proof fn last_write_stays(m: Map<i64, u64>, s: Seq<(i64, u64)>, p: (i64, u64), ts: i64)
    ensures
        overlay(m, s.push(p)).contains_key(p.0),
        overlay(m, s.push(p))[p.0] == p.1,
        ts != p.0 ==> {
            &&& overlay(m, s.push(p)).contains_key(ts) == overlay(m, s).contains_key(ts)
            &&& overlay(m, s.push(p))[ts] == overlay(m, s)[ts]
        },
        overlay(m, Seq::<(i64, u64)>::empty()) == m,
{
    assert(s.push(p).drop_last() =~= s);
}

/// What is picked from points are those in the range, in their order; and sorting points
/// keeps each of them, and the order of those at one timestamp.
pub proof fn picked_and_sorted_points_are_the_points(
    points: &[(i64, u64)],
    start: i64,
    end: i64,
    picked: Vec<(i64, u64)>,
    sorted: Vec<(i64, u64)>,
    p: (i64, u64),
)
    requires
        call_ensures(select_range, (points, start, end), picked),
        call_ensures(sort_by_ts, (points,), sorted),
    ensures
        picked@.contains(p) <==> points@.contains(p) && start <= p.0 && p.0 < end,
        (forall|i: int| 0 <= i < points@.len() ==> start <= (#[trigger] points@[i]).0 < end)
            ==> picked@ == points@,
        sorted@.len() == points@.len(),
        sorted@.contains(p) <==> points@.contains(p),
        forall|i: int, j: int| 0 <= i < j < sorted@.len() ==> sorted@[i].0 <= sorted@[j].0,
        at_ts(sorted@, p.0) == at_ts(points@, p.0),
{
    sorting_keeps_every_point(sorted@, points@);
    lemma_in_range_contains(points@, start, end, p);
    lemma_in_range_all(points@, start, end);
}

/// A point is in a range if it is there and its timestamp is.
proof fn lemma_in_range_contains(s: Seq<(i64, u64)>, start: i64, end: i64, p: (i64, u64))
    ensures
        in_range(s, start, end).contains(p) <==> s.contains(p) && start <= p.0 && p.0 < end,
    decreases s.len(),
{
    reveal(Seq::filter);
    if s.len() > 0 {
        let init = s.drop_last();
        let q = s.last();
        let few = in_range(init, start, end);
        let more = in_range(s, start, end);
        lemma_in_range_contains(init, start, end, p);
        if s.contains(p) && start <= p.0 && p.0 < end {
            let i = s.index_of(p);
            if i < init.len() {
                assert(init[i] == p);
                let k = few.index_of(p);
                assert(more[k] == p);
            } else {
                assert(more[more.len() - 1] == p);
            }
        }
        if more.contains(p) {
            let k = more.index_of(p);
            if k < few.len() {
                assert(few[k] == p);
                let i = init.index_of(p);
                assert(s[i] == p);
            } else {
                assert(s[s.len() - 1] == p);
            }
        }
    }
}

/// Points that are all in a range are all picked.
proof fn lemma_in_range_all(s: Seq<(i64, u64)>, start: i64, end: i64)
    ensures
        (forall|i: int| 0 <= i < s.len() ==> start <= (#[trigger] s[i]).0 < end) ==> in_range(
            s,
            start,
            end,
        ) == s,
    decreases s.len(),
{
    reveal(Seq::filter);
    if forall|i: int| 0 <= i < s.len() ==> start <= (#[trigger] s[i]).0 < end {
        if s.len() > 0 {
            let init = s.drop_last();
            assert forall|i: int| 0 <= i < init.len() implies start <= (#[trigger] init[i]).0
                < end by {
                assert(init[i] == s[i]);
            }
            lemma_in_range_all(init, start, end);
            assert(start <= s[s.len() - 1].0 < end);
            assert(init.push(s.last()) =~= s);
        } else {
            assert(in_range(s, start, end) =~= s);
        }
    }
}

/// Points that are written over a map and listed come out in the order of their
/// timestamps: the last one of each timestamp, and what the map had at the others.
pub proof fn merged_points_are_listed(
    m: &mut BTreeMap<i64, u64>,
    points: &[(i64, u64)],
    out: Vec<(i64, u64)>,
    ts: i64,
)
    requires
        call_ensures(merge_into, (m, points), ()),
        call_ensures(listing, (final(m),), out),
    ensures
        forall|i: int, j: int| 0 <= i < j < out@.len() ==> out@[i].0 < out@[j].0,
        forall|i: int|
            0 <= i < points@.len() && (#[trigger] points@[i]).0 == ts && (forall|j: int|
                i < j < points@.len() ==> (#[trigger] points@[j]).0 != ts) ==> out@.contains(
                points@[i],
            ),
        (forall|i: int| 0 <= i < points@.len() ==> (#[trigger] points@[i]).0 != ts) ==> {
            &&& old(m)@.contains_key(ts) ==> out@.contains((ts, old(m)@[ts]))
            &&& !old(m)@.contains_key(ts) ==> forall|v: u64| !#[trigger] out@.contains((ts, v))
        },
{
    let all = final(m)@;
    assert forall|i: int|
        0 <= i < points@.len() && (#[trigger] points@[i]).0 == ts && (forall|j: int|
            i < j < points@.len() ==> (#[trigger] points@[j]).0 != ts) implies out@.contains(
        points@[i],
    ) by {
        lemma_last_at(old(m)@, points@, ts, i);
        assert(all.dom().contains(ts));
    }
    if forall|i: int| 0 <= i < points@.len() ==> (#[trigger] points@[i]).0 != ts {
        lemma_last_at(old(m)@, points@, ts, -1);
        assert(all.dom().contains(ts) == old(m)@.contains_key(ts));
        assert forall|v: u64| !old(m)@.contains_key(ts) implies !#[trigger] out@.contains(
            (ts, v),
        ) by {
            if out@.contains((ts, v)) {
                let i = choose|i: int| 0 <= i < out@.len() && out@[i] == (ts, v);
                assert(all.contains_pair(out@[i].0, out@[i].1));
            }
        }
    }
}

/// The value at a timestamp is that of the last point there, or what was there before.
proof fn lemma_last_at(m: Map<i64, u64>, s: Seq<(i64, u64)>, ts: i64, i: int)
    requires
        -1 <= i < s.len(),
        i >= 0 ==> s[i].0 == ts,
        forall|j: int| i < j < s.len() ==> (#[trigger] s[j]).0 != ts,
    ensures
        i >= 0 ==> overlay(m, s).contains_key(ts) && overlay(m, s)[ts] == s[i].1,
        i < 0 ==> overlay(m, s).contains_key(ts) == m.contains_key(ts) && overlay(m, s)[ts]
            == m[ts],
    decreases s.len(),
{
    if s.len() > 0 && i < s.len() - 1 {
        lemma_last_at(m, s.drop_last(), ts, i);
    }
}

} // verus!
