//! Merging segments into one.
use crate::error::Result;
use crate::storage::ids::{add_ids, increasing, ordered};
use crate::storage::memtable::block_views;
use crate::storage::segment::{
    block_points, built_file_reads_back, built_segment_reads_back, fits_format, image, index_of,
    index_sorted, indexed, Segment,
};
use crate::storage::series::{listing, lists_all, merge_into, overlay};
use std::collections::{BTreeMap, BTreeSet};
use vstd::prelude::*;

verus! {

broadcast use vstd::laws_cmp::group_laws_cmp;

/// The values of a series in segments of which the later ones win.
pub open spec fn merged(segments: Seq<Segment>, series: u64) -> Map<i64, u64>
    decreases segments.len(),
{
    if segments.len() == 0 {
        Map::empty()
    } else {
        overlay(merged(segments.drop_last(), series), segments.last().points(series))
    }
}

/// Some segment has the series.
pub open spec fn has_series(segments: Seq<Segment>, series: u64) -> bool {
    exists|k: int| 0 <= k < segments.len() && indexed((#[trigger] segments[k]).index(), series)
}

/// There is one block for each series of the segments, in the order of the series.
pub open spec fn covers(blocks: Seq<(u64, Seq<(i64, u64)>)>, segments: Seq<Segment>) -> bool {
    &&& forall|i: int, j: int| 0 <= i < j < blocks.len() ==> blocks[i].0 < blocks[j].0
    &&& forall|i: int|
        #![trigger blocks[i]]
        0 <= i < blocks.len() ==> has_series(segments, blocks[i].0)
    &&& forall|series: u64| #[trigger]
        has_series(segments, series) ==> exists|i: int|
            0 <= i < blocks.len() && (#[trigger] blocks[i]).0 == series
}

/// The blocks hold the merged values of each series of the segments, in the
/// order of the series.
pub open spec fn compacts(blocks: Seq<(u64, Seq<(i64, u64)>)>, segments: Seq<Segment>) -> bool {
    &&& covers(blocks, segments)
    &&& forall|i: int|
        #![trigger blocks[i]]
        0 <= i < blocks.len() ==> lists_all(blocks[i].1, merged(segments, blocks[i].0))
}

/// The bytes are those of a file that holds the merged values of the segments.
/// What is looked up in an index that is not sorted is not determined.
pub open spec fn compacted(data: Seq<u8>, segments: Seq<Segment>) -> bool {
    exists|blocks: Seq<(u64, Seq<(i64, u64)>)>| #[trigger]
        covers(blocks, segments) && data == image(blocks) && (all_sorted(segments) ==> compacts(
            blocks,
            segments,
        ))
}

/// Every segment can be read in full.
pub open spec fn all_readable(segments: Seq<Segment>) -> bool {
    forall|k: int, series: u64|
        0 <= k < segments.len() ==> #[trigger] segments[k].serves(series)
}

/// Every index is sorted.
pub open spec fn all_sorted(segments: Seq<Segment>) -> bool {
    forall|k: int| 0 <= k < segments.len() ==> index_sorted((#[trigger] segments[k]).index())
}

/// The ids of all series, in increasing order.
pub fn all_series(segments: &[Segment]) -> (ids: Vec<u64>)
    ensures
        increasing(ids@),
        forall|series: u64| #[trigger]
            ids@.contains(series) <==> has_series(segments@, series),
{
    let mut set: BTreeSet<u64> = BTreeSet::new();
    let mut k: usize = 0;
    while k < segments.len()
        invariant
            k <= segments@.len(),
            forall|series: u64| #[trigger]
                set@.contains(series) <==> has_series(segments@.take(k as int), series),
        decreases segments@.len() - k,
    {
        let ids = segments[k].series_ids();
        let ghost before = set@;
        add_ids(&mut set, ids.as_slice());
        proof {
            lemma_has_series_step(segments@, k as int);
            let index = segments@[k as int].index();
            assert forall|series: u64| #[trigger]
                ids@.to_set().contains(series) <==> indexed(index, series) by {
                if ids@.contains(series) {
                    let i = choose|i: int| 0 <= i < ids@.len() && ids@[i] == series;
                    assert(index[i].series == series);
                }
                if indexed(index, series) {
                    let i = choose|i: int| 0 <= i < index.len() && (#[trigger] index[i]).series
                        == series;
                    assert(ids@[i] == series);
                }
            }
            assert forall|series: u64| #[trigger]
                set@.contains(series) <==> has_series(segments@.take(k + 1), series) by {
                assert(before.contains(series) <==> has_series(segments@.take(k as int), series));
                assert(ids@.to_set().contains(series) <==> indexed(index, series));
            }
        }
        k = k + 1;
    }
    assert(segments@.take(k as int) =~= segments@);
    let ids = ordered(&set);
    proof {
        assert forall|series: u64| #[trigger]
            ids@.contains(series) <==> has_series(segments@, series) by {
            assert(ids@.to_set().contains(series) <==> ids@.contains(series));
            assert(set@.contains(series) <==> has_series(segments@, series));
        }
    }
    ids
}

/// The series of the first segments and of one more.
proof fn lemma_has_series_step(segments: Seq<Segment>, k: int)
    requires
        0 <= k < segments.len(),
    ensures
        forall|series: u64| #[trigger]
            has_series(segments.take(k + 1), series) <==> has_series(segments.take(k), series)
                || indexed(segments[k].index(), series),
{
    let longer = segments.take(k + 1);
    let shorter = segments.take(k);
    assert forall|series: u64| #[trigger]
        has_series(longer, series) <==> has_series(shorter, series) || indexed(
            segments[k].index(),
            series,
        ) by {
        if has_series(longer, series) {
            let i = choose|i: int| 0 <= i < longer.len() && indexed(
                (#[trigger] longer[i]).index(),
                series,
            );
            if i < k {
                assert(shorter[i] == longer[i]);
            }
        }
        if has_series(shorter, series) {
            let i = choose|i: int| 0 <= i < shorter.len() && indexed(
                (#[trigger] shorter[i]).index(),
                series,
            );
            assert(longer[i] == shorter[i]);
        }
        if indexed(segments[k].index(), series) {
            assert(longer[k] == segments[k]);
        }
    }
}

/// The merged values of one series, in the order of their timestamps.
fn merge_series(segments: &[Segment], series: u64) -> (out: Vec<(i64, u64)>)
    requires
        all_readable(segments@),
    ensures
        all_sorted(segments@) ==> lists_all(out@, merged(segments@, series)),
{
    let mut map: BTreeMap<i64, u64> = BTreeMap::new();
    let mut k: usize = 0;
    assert(map@ =~= Map::<i64, u64>::empty());
    while k < segments.len()
        invariant
            k <= segments@.len(),
            all_readable(segments@),
            all_sorted(segments@) ==> map@ == merged(segments@.take(k as int), series),
        decreases segments@.len() - k,
    {
        assert(segments@[k as int].serves(series));
        let points = segments[k].read_series(series);
        merge_into(&mut map, points.as_slice());
        proof {
            let longer = segments@.take(k + 1);
            assert(longer.drop_last() =~= segments@.take(k as int));
            assert(longer.last() == segments@[k as int]);
        }
        k = k + 1;
    }
    assert(segments@.take(k as int) =~= segments@);
    listing(&map)
}

/// The bytes of one segment file that holds what the segments hold together.
pub fn compact(segments: &[Segment]) -> (out: Vec<u8>)
    requires
        all_readable(segments@),
    ensures
        compacted(out@, segments@),
{
    let ids = all_series(segments);
    let mut blocks: Vec<(u64, Vec<(i64, u64)>)> = Vec::new();
    let mut i: usize = 0;
    while i < ids.len()
        invariant
            i <= ids@.len(),
            all_readable(segments@),
            blocks@.len() == i,
            forall|k: int|
                #![trigger blocks@[k]]
                0 <= k < i ==> blocks@[k].0 == ids@[k] && (all_sorted(segments@) ==> lists_all(
                    blocks@[k].1@,
                    merged(segments@, ids@[k]),
                )),
        decreases ids@.len() - i,
    {
        let points = merge_series(segments, ids[i]);
        blocks.push((ids[i], points));
        i = i + 1;
    }
    proof {
        let views = block_views(blocks@);
        assert forall|k: int| #![trigger views[k]] 0 <= k < views.len() implies views[k].0
            == ids@[k] && has_series(segments@, ids@[k]) && (all_sorted(segments@) ==> lists_all(
            views[k].1,
            merged(segments@, ids@[k]),
        )) by {
            assert(blocks@[k].0 == ids@[k]);
            assert(ids@.contains(ids@[k]));
        }
        assert forall|series: u64| #[trigger] has_series(segments@, series) implies exists|k: int|
            0 <= k < views.len() && (#[trigger] views[k]).0 == series by {
            assert(ids@.contains(series));
            let k = choose|k: int| 0 <= k < ids@.len() && ids@[k] == series;
            assert(views[k].0 == series);
        }
        assert(covers(views, segments@));
    }
    Segment::build(blocks.as_slice())
}

/// A series that no segment has is merged to nothing.
pub proof fn lemma_merged_absent(segments: Seq<Segment>, series: u64)
    requires
        !has_series(segments, series),
    ensures
        merged(segments, series) == Map::<i64, u64>::empty(),
    decreases segments.len(),
{
    if segments.len() > 0 {
        let init = segments.drop_last();
        assert(!indexed(segments[segments.len() - 1].index(), series));
        assert forall|k: int| 0 <= k < init.len() implies !indexed(
            (#[trigger] init[k]).index(),
            series,
        ) by {
            assert(init[k] == segments[k]);
        }
        lemma_merged_absent(init, series);
        assert(segments.last().points(series) =~= seq![]);
    }
}

/// Writing a full listing of a map over nothing gives the map.
pub proof fn lemma_overlay_listing(r: Seq<(i64, u64)>, m: Map<i64, u64>)
    requires
        lists_all(r, m),
    ensures
        overlay(Map::empty(), r) == m,
{
    let o = overlay(Map::<i64, u64>::empty(), r);
    lemma_overlay_increasing(r);
    assert forall|ts: i64| #[trigger] o.dom().contains(ts) <==> m.dom().contains(ts) by {
        if o.dom().contains(ts) {
            let k = choose|k: int| 0 <= k < r.len() && (#[trigger] r[k]).0 == ts;
            assert(m.contains_pair(r[k].0, r[k].1));
        }
        if m.dom().contains(ts) {
            assert(r.contains((ts, m[ts])));
            let k = choose|k: int| 0 <= k < r.len() && r[k] == (ts, m[ts]);
            assert(o.contains_pair(r[k].0, r[k].1));
        }
    }
    assert forall|ts: i64| #[trigger] o.dom().contains(ts) implies o[ts] == m[ts] by {
        let k = choose|k: int| 0 <= k < r.len() && (#[trigger] r[k]).0 == ts;
        assert(m.contains_pair(r[k].0, r[k].1));
        assert(o.contains_pair(r[k].0, r[k].1));
    }
    assert(o =~= m);
}

/// What points at increasing timestamps leave behind.
proof fn lemma_overlay_increasing(r: Seq<(i64, u64)>)
    requires
        forall|i: int, j: int| 0 <= i < j < r.len() ==> r[i].0 < r[j].0,
    ensures
        forall|k: int|
            0 <= k < r.len() ==> overlay(Map::<i64, u64>::empty(), r).contains_pair(
                (#[trigger] r[k]).0,
                r[k].1,
            ),
        forall|ts: i64| #[trigger]
            overlay(Map::<i64, u64>::empty(), r).dom().contains(ts) ==> exists|k: int|
                0 <= k < r.len() && (#[trigger] r[k]).0 == ts,
    decreases r.len(),
{
    if r.len() > 0 {
        let init = r.drop_last();
        lemma_overlay_increasing(init);
        let o = overlay(Map::<i64, u64>::empty(), r);
        assert forall|k: int| 0 <= k < r.len() implies o.contains_pair(
            (#[trigger] r[k]).0,
            r[k].1,
        ) by {
            if k < init.len() {
                assert(init[k] == r[k]);
                assert(r[k].0 < r[r.len() - 1].0);
            }
        }
        assert forall|ts: i64| #[trigger] o.dom().contains(ts) implies exists|k: int|
            0 <= k < r.len() && (#[trigger] r[k]).0 == ts by {
            if ts == r.last().0 {
                assert(r[r.len() - 1].0 == ts);
            } else {
                assert(overlay(Map::<i64, u64>::empty(), init).dom().contains(ts));
                let k = choose|k: int| 0 <= k < init.len() && (#[trigger] init[k]).0 == ts;
                assert(r[k].0 == ts);
            }
        }
    }
}

/// The merged blocks hold of every series what the segments held together.
pub proof fn merged_blocks_keep_values(
    blocks: Seq<(u64, Seq<(i64, u64)>)>,
    segments: Seq<Segment>,
    series: u64,
)
    requires
        compacts(blocks, segments),
    ensures
        overlay(Map::empty(), block_points(blocks, series)) == merged(segments, series),
{
    if has_series(segments, series) {
        let i = choose|i: int| 0 <= i < blocks.len() && (#[trigger] blocks[i]).0 == series;
        lemma_overlay_listing(blocks[i].1, merged(segments, series));
    } else {
        lemma_merged_absent(segments, series);
        assert forall|i: int| 0 <= i < blocks.len() implies (#[trigger] blocks[i]).0 != series by {
            assert(has_series(segments, blocks[i].0));
        }
        assert(block_points(blocks, series) =~= seq![]);
    }
}

/// The compacted segment holds of every series what the segments held together.
pub proof fn compaction_keeps_values(
    blocks: Seq<(u64, Seq<(i64, u64)>)>,
    segments: Seq<Segment>,
    seg: Segment,
    series: u64,
)
    requires
        compacts(blocks, segments),
        fits_format(blocks),
        seg.data() == image(blocks),
        seg.index() == index_of(image(blocks)),
    ensures
        merged(seq![seg], series) == merged(segments, series),
{
    built_segment_reads_back(blocks, seg);
    merged_blocks_keep_values(blocks, segments, series);
    let one = seq![seg];
    assert(seg.points(series) == block_points(blocks, series));
    assert(one.drop_last() =~= Seq::<Segment>::empty());
    assert(merged(one.drop_last(), series) == Map::<i64, u64>::empty());
}

/// The file that segments are merged into holds, of every series that one of them has, what
/// they hold together, and nothing else.
pub proof fn compact_keeps_every_value(
    segments: &[Segment],
    bytes: Vec<u8>,
    path: String,
    data: Vec<u8>,
    r: Result<Segment>,
    series: u64,
)
    requires
        all_sorted(segments@),
        call_ensures(compact, (segments,), bytes),
        forall|blocks: Seq<(u64, Seq<(i64, u64)>)>| #[trigger]
            image(blocks) == bytes@ ==> fits_format(blocks),
        data@ == bytes@,
        call_ensures(Segment::open, (path, data), r),
    ensures
        r matches Ok(seg) && merged(seq![seg], series) == merged(segments@, series) && (indexed(
            seg.index(),
            series,
        ) <==> has_series(segments@, series)),
{
    let blocks = choose|blocks: Seq<(u64, Seq<(i64, u64)>)>| #[trigger]
        covers(blocks, segments@) && bytes@ == image(blocks) && compacts(blocks, segments@);
    built_file_reads_back(blocks);
    if let Ok(seg) = r {
        compaction_keeps_values(blocks, segments@, seg, series);
        built_segment_reads_back(blocks, seg);
        if indexed(seg.index(), series) {
            let i = choose|i: int|
                0 <= i < seg.index().len() && (#[trigger] seg.index()[i]).series == series;
            assert(blocks[i].0 == series);
        }
        if has_series(segments@, series) {
            let i = choose|i: int| 0 <= i < blocks.len() && (#[trigger] blocks[i]).0 == series;
            assert(seg.index()[i].series == series);
        }
    }
}

/// The series of segments are listed in increasing order, each of them that a segment has
/// an entry for, and no other.
pub proof fn all_series_lists_every_series(
    segments: &[Segment],
    ids: Vec<u64>,
    k: int,
    i: int,
    at: int,
)
    requires
        call_ensures(all_series, (segments,), ids),
        0 <= k < segments@.len(),
        0 <= i < segments@[k].index().len(),
        0 <= at < ids@.len(),
    ensures
        ids@.contains(segments@[k].index()[i].series),
        exists|h: int, j: int|
            #![trigger segments@[h].index()[j]]
            0 <= h < segments@.len() && 0 <= j < segments@[h].index().len()
                && segments@[h].index()[j].series == ids@[at],
        forall|a: int, b: int| 0 <= a < b < ids@.len() ==> ids@[a] < ids@[b],
{
    let series = segments@[k].index()[i].series;
    assert(indexed(segments@[k].index(), series));
    assert(has_series(segments@, series));
    assert(ids@.contains(ids@[at]));
    let h = choose|h: int|
        0 <= h < segments@.len() && indexed((#[trigger] segments@[h]).index(), ids@[at]);
    let j = choose|j: int|
        0 <= j < segments@[h].index().len() && (#[trigger] segments@[h].index()[j]).series
            == ids@[at];
    assert(segments@[h].index()[j].series == ids@[at]);
}

} // verus!
