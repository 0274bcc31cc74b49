//! Replication and the protocol between nodes.
pub mod consensus;
pub mod driver;
pub mod protocol;
pub mod raw;
pub mod weight;

use crate::cluster::driver::{encode_write, write_in, write_reads_back};
use crate::storage::wal::record;
use crate::storage::Point;
use vstd::prelude::*;

verus! {

/// What becomes of a write.
#[derive(Debug)]
pub enum WritePlan {
    /// The points are stored here.
    Store(Vec<Point>),
    /// Each is proposed for the replicated log, and stored everywhere once it is
    /// committed.
    Propose(Vec<Vec<u8>>),
    /// It is refused.
    Refuse,
}

/// The points of one series.
pub open spec fn points_of(series: u64, points: Seq<(i64, u64)>) -> Seq<Point> {
    points.map_values(|p: (i64, u64)| Point { series, ts: p.0, value: p.1 })
}

/// What becomes of a write.
pub open spec fn planned(
    series: u64,
    points: Seq<(i64, u64)>,
    leader: Option<bool>,
    plan: WritePlan,
) -> bool {
    match leader {
        None => plan matches WritePlan::Store(batch) && batch@ == points_of(series, points),
        Some(true) => plan matches WritePlan::Propose(entries) && consensus::blobs(entries@)
            == points_of(series, points).map_values(|p: Point| record(p)),
        Some(false) => plan is Refuse,
    }
}

/// Decides what becomes of a write. A single node stores it; of the nodes of a
/// cluster only the leader accepts it. `leader` says whether this node leads its
/// cluster, if it has one.
pub fn plan_write(series: u64, points: Vec<(i64, u64)>, leader: Option<bool>) -> (plan: WritePlan)
    ensures
        planned(series, points@, leader, plan),
        leader is None ==> plan is Store,
        leader == Some(true) ==> plan is Propose,
        leader == Some(false) ==> plan is Refuse,
        plan matches WritePlan::Store(batch) ==> batch@.len() == points@.len() && forall|i: int|
            0 <= i < batch@.len() ==> {
                &&& (#[trigger] batch@[i]).series == series
                &&& batch@[i].ts == points@[i].0
                &&& batch@[i].value == points@[i].1
            },
        plan matches WritePlan::Propose(entries) ==> entries@.len() == points@.len() && forall|
            i: int,
        |
            0 <= i < entries@.len() ==> (#[trigger] entries@[i])@ == record(
                Point { series, ts: points@[i].0, value: points@[i].1 },
            ),
{
    match leader {
        None => {
            let mut batch: Vec<Point> = Vec::new();
            let mut i: usize = 0;
            while i < points.len()
                invariant
                    i <= points@.len(),
                    batch@ == points_of(series, points@).take(i as int),
                decreases points@.len() - i,
            {
                let p = points[i];
                batch.push(Point { series, ts: p.0, value: p.1 });
                assert(batch@ =~= points_of(series, points@).take(i + 1));
                i = i + 1;
            }
            assert(batch@ =~= points_of(series, points@));
            WritePlan::Store(batch)
        },
        Some(true) => {
            let ghost wanted = points_of(series, points@).map_values(|p: Point| record(p));
            let mut entries: Vec<Vec<u8>> = Vec::new();
            let mut i: usize = 0;
            while i < points.len()
                invariant
                    i <= points@.len(),
                    wanted == points_of(series, points@).map_values(|p: Point| record(p)),
                    entries@.len() == i,
                    forall|k: int| 0 <= k < i ==> (#[trigger] entries@[k])@ == wanted[k],
                decreases points@.len() - i,
            {
                let p = points[i];
                entries.push(encode_write(series, p.0, p.1));
                i = i + 1;
            }
            assert(consensus::blobs(entries@) =~= wanted);
            assert forall|k: int| 0 <= k < entries@.len() implies (#[trigger] entries@[k])@
                == record(Point { series, ts: points@[k].0, value: points@[k].1 }) by {
                assert(entries@[k]@ == wanted[k]);
            }
            WritePlan::Propose(entries)
        },
        Some(false) => WritePlan::Refuse,
    }
}

/// A write is refused on a follower and nowhere else. Otherwise each point that was given
/// is planned, in its place: it has the series of the write, and its own timestamp and
/// value. A single node stores the points; a leader proposes data in which they are read.
pub proof fn plan_keeps_every_point(
    series: u64,
    points: Seq<(i64, u64)>,
    leader: Option<bool>,
    plan: WritePlan,
)
    requires
        planned(series, points, leader, plan),
    ensures
        plan is Refuse <==> leader == Some(false),
        plan is Store <==> leader is None,
        plan matches WritePlan::Store(batch) ==> batch@.len() == points.len() && forall|i: int|
            0 <= i < points.len() ==> {
                &&& (#[trigger] batch@[i]).series == series
                &&& batch@[i].ts == points[i].0
                &&& batch@[i].value == points[i].1
            },
        plan matches WritePlan::Propose(entries) ==> entries@.len() == points.len() && forall|
            i: int,
        |
            0 <= i < points.len() ==> write_in((#[trigger] entries@[i])@) == Some(
                Point { series, ts: points[i].0, value: points[i].1 },
            ),
{
    if let WritePlan::Propose(entries) = plan {
        let data = consensus::blobs(entries@);
        assert(data.len() == entries@.len());
        assert forall|i: int| 0 <= i < points.len() implies write_in((#[trigger] entries@[i])@)
            == Some(Point { series, ts: points[i].0, value: points[i].1 }) by {
            assert(data[i] == entries@[i]@);
            write_reads_back(Point { series, ts: points[i].0, value: points[i].1 });
        }
    }
}

/// What is planned for a write on a single node, on a leader and on a follower.
pub proof fn plan_write_keeps_every_point(
    series: u64,
    points: Vec<(i64, u64)>,
    leader: Option<bool>,
    plan: WritePlan,
)
    requires
        call_ensures(plan_write, (series, points, leader), plan),
    ensures
        match plan {
            WritePlan::Store(batch) => {
                &&& leader is None
                &&& batch@.len() == points@.len()
                &&& forall|i: int|
                    0 <= i < points@.len() ==> {
                        &&& (#[trigger] batch@[i]).series == series
                        &&& batch@[i].ts == points@[i].0
                        &&& batch@[i].value == points@[i].1
                    }
            },
            WritePlan::Propose(entries) => {
                &&& leader == Some(true)
                &&& entries@.len() == points@.len()
                &&& forall|i: int|
                    0 <= i < points@.len() ==> write_in((#[trigger] entries@[i])@) == Some(
                        Point { series, ts: points@[i].0, value: points@[i].1 },
                    )
            },
            WritePlan::Refuse => leader == Some(false),
        },
{
    plan_keeps_every_point(series, points@, leader, plan);
}

} // verus!
