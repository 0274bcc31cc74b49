//! The write-ahead log: fixed-size records, one for each written point.
use crate::endian::{
    from_le64, from_twos, get_le64, le64, lemma_twos_roundtrip, of_bits, put_le64, to_bits, twos,
};
use crate::storage::Point;
use vstd::prelude::*;

verus! {

broadcast use crate::endian::group_endian;

/// The bytes of a record: series, timestamp and value.
pub const RECORD: usize = 24;

/// The record of a point.
pub open spec fn record(p: Point) -> Seq<u8> {
    le64(p.series) + le64(twos(p.ts)) + le64(p.value)
}

/// The point of the record at a position.
pub open spec fn record_at(log: Seq<u8>, at: int) -> Point {
    Point {
        series: from_le64(log.subrange(at, at + 8)),
        ts: from_twos(from_le64(log.subrange(at + 8, at + 16))),
        value: from_le64(log.subrange(at + 16, at + 24)),
    }
}

/// The points of the whole records of a log.
pub open spec fn replayed(log: Seq<u8>) -> Seq<Point> {
    Seq::new(log.len() / 24, |i: int| record_at(log, 24 * i))
}

/// The log that some points leave behind.
pub open spec fn logged(points: Seq<Point>) -> Seq<u8>
    decreases points.len(),
{
    if points.len() == 0 {
        seq![]
    } else {
        logged(points.drop_last()) + record(points.last())
    }
}

/// The record of a point as bytes.
pub fn put_record(p: Point) -> (out: Vec<u8>)
    ensures
        out@ == record(p),
{
    let mut out: Vec<u8> = Vec::new();
    put_le64(&mut out, p.series);
    put_le64(&mut out, to_bits(p.ts));
    put_le64(&mut out, p.value);
    assert(out@ =~= record(p));
    out
}

/// The point of the record at a position.
pub fn get_record(log: &[u8], at: usize) -> (p: Point)
    requires
        at + 24 <= log@.len(),
    ensures
        p == record_at(log@, at as int),
{
    assert(log@.len() == log.len());
    Point {
        series: get_le64(log, at),
        ts: of_bits(get_le64(log, at + 8)),
        value: get_le64(log, at + 16),
    }
}

/// The log itself is a file; this says what is written to it and read from it.
pub struct Wal;

impl Wal {
    /// The bytes by which the log grows for a point.
    pub fn append(p: Point) -> (out: Vec<u8>)
        ensures
            out@ == record(p),
    {
        put_record(p)
    }

    /// The points of the log in the order in which they were written. A record
    /// that was cut short at the end is left out.
    pub fn replay(log: &[u8]) -> (points: Vec<Point>)
        ensures
            points@ == replayed(log@),
    {
        let mut points: Vec<Point> = Vec::new();
        let count = log.len() / RECORD;
        let mut i: usize = 0;
        while i < count
            invariant
                i <= count,
                count == log@.len() / 24,
                points@ == replayed(log@).take(i as int),
            decreases count - i,
        {
            assert(24 * i + 24 <= log@.len() && log@.len() == log.len());
            points.push(get_record(log, RECORD * i));
            assert(points@ =~= replayed(log@).take(i + 1));
            i = i + 1;
        }
        assert(points@ =~= replayed(log@));
        points
    }
}

/// Reading back a record gives the point.
pub proof fn lemma_record_roundtrip(log: Seq<u8>, at: int, p: Point)
    requires
        0 <= at,
        at + 24 <= log.len(),
        log.subrange(at, at + 24) == record(p),
    ensures
        record_at(log, at) == p,
{
    let r = record(p);
    lemma_twos_roundtrip(p.ts);
    lemma_parts(le64(p.series), le64(twos(p.ts)), le64(p.value));
    assert(log.subrange(at, at + 8) =~= r.subrange(0, 8));
    assert(log.subrange(at + 8, at + 16) =~= r.subrange(8, 16));
    assert(log.subrange(at + 16, at + 24) =~= r.subrange(16, 24));
}

proof fn lemma_parts(a: Seq<u8>, b: Seq<u8>, c: Seq<u8>)
    requires
        a.len() == 8,
        b.len() == 8,
        c.len() == 8,
    ensures
        (a + b + c).subrange(0, 8) == a,
        (a + b + c).subrange(8, 16) == b,
        (a + b + c).subrange(16, 24) == c,
{
    assert((a + b + c).subrange(0, 8) =~= a);
    assert((a + b + c).subrange(8, 16) =~= b);
    assert((a + b + c).subrange(16, 24) =~= c);
}

/// Records depend on their own bytes only.
proof fn lemma_record_at_prefix(log: Seq<u8>, more: Seq<u8>, at: int)
    requires
        0 <= at,
        at + 24 <= log.len(),
    ensures
        record_at(log + more, at) == record_at(log, at),
{
    let all = log + more;
    assert(all.subrange(at, at + 8) =~= log.subrange(at, at + 8));
    assert(all.subrange(at + 8, at + 16) =~= log.subrange(at + 8, at + 16));
    assert(all.subrange(at + 16, at + 24) =~= log.subrange(at + 16, at + 24));
}

/// After one more record, a log of whole records replays one more point.
pub proof fn append_extends_replay(log: Seq<u8>, p: Point)
    requires
        log.len() % 24 == 0,
    ensures
        (log + record(p)).len() % 24 == 0,
        replayed(log + record(p)) == replayed(log).push(p),
{
    let all = log + record(p);
    let n = log.len() / 24;
    assert(record(p).len() == 24);
    assert(all.len() / 24 == n + 1);
    assert forall|i: int| 0 <= i < n + 1 implies replayed(all)[i] == replayed(log).push(p)[i] by {
        if i < n {
            lemma_record_at_prefix(log, record(p), 24 * i);
        } else {
            assert(all.subrange(24 * i, 24 * i + 24) =~= record(p));
            lemma_record_roundtrip(all, 24 * i, p);
        }
    }
    assert(replayed(all) =~= replayed(log).push(p));
}

/// A record that was cut short at the end of a log of whole records is ignored.
pub proof fn torn_record_is_ignored(log: Seq<u8>, torn: Seq<u8>)
    requires
        log.len() % 24 == 0,
        torn.len() < 24,
    ensures
        replayed(log + torn) == replayed(log),
{
    let all = log + torn;
    assert(all.len() / 24 == log.len() / 24);
    assert forall|i: int| 0 <= i < log.len() / 24 implies replayed(all)[i] == replayed(log)[i] by {
        lemma_record_at_prefix(log, torn, 24 * i);
    }
    assert(replayed(all) =~= replayed(log));
}

/// The log of some points replays those points.
pub proof fn replay_returns_what_was_logged(points: Seq<Point>)
    ensures
        logged(points).len() % 24 == 0,
        replayed(logged(points)) == points,
    decreases points.len(),
{
    if points.len() == 0 {
        assert(replayed(logged(points)) =~= points);
    } else {
        replay_returns_what_was_logged(points.drop_last());
        append_extends_replay(logged(points.drop_last()), points.last());
        assert(points.drop_last().push(points.last()) =~= points);
    }
}

/// A record has 24 bytes: the series, the bits of the timestamp and the value, each with
/// its least significant byte first; so records of different points differ.
pub proof fn record_holds_every_field(p: Point)
    ensures
        record(p).len() == 24,
        record(p).subrange(0, 8) == le64(p.series),
        record(p).subrange(8, 16) == le64(twos(p.ts)),
        record(p).subrange(16, 24) == le64(p.value),
{
    lemma_parts(le64(p.series), le64(twos(p.ts)), le64(p.value));
}

/// A log of whole records that grows by the bytes of a point replays what it did before,
/// and then that point.
pub proof fn replay_gives_what_was_appended(
    p: Point,
    bytes: Vec<u8>,
    log: &[u8],
    before: Vec<Point>,
    grown: &[u8],
    after: Vec<Point>,
)
    requires
        call_ensures(Wal::append, (p,), bytes),
        call_ensures(Wal::replay, (log,), before),
        call_ensures(Wal::replay, (grown,), after),
        log@.len() % 24 == 0,
        grown@ == log@ + bytes@,
    ensures
        after@ == before@.push(p),
        before@.len() == log@.len() / 24,
{
    append_extends_replay(log@, p);
}

} // verus!
