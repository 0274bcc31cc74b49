//! Messages as bytes: a tag, then the fields in their order.
use crate::endian::{
    from_le32, from_le64, from_twos, get_le32, get_le64, le32, le64, lemma_twos_roundtrip, of_bits,
    put_le32, put_le64, to_bits, twos,
};
use crate::error::{is_corrupt, LatticeError, Result};
use crate::text::{decimal, decimal_text};
use vstd::prelude::*;
use vstd::slice::slice_subrange;
use vstd::string::*;

verus! {

broadcast use crate::endian::group_endian;

pub const PING: u8 = 1;

pub const PONG: u8 = 2;

pub const WRITE: u8 = 3;

pub const WRITE_ACK: u8 = 4;

pub const QUERY: u8 = 5;

pub const QUERY_RESULT: u8 = 6;

pub const RAFT: u8 = 7;

/// Values are the bit patterns of floating-point numbers.
#[derive(Debug, Clone, PartialEq)]
pub enum Message {
    Ping,
    Pong,
    Write { req_id: u64, series: u64, points: Vec<(i64, u64)> },
    WriteAck { req_id: u64, ok: bool },
    Query { req_id: u64, series: u64, start: i64, end: i64 },
    QueryResult { req_id: u64, points: Vec<(i64, u64)> },
    Raft(Vec<u8>),
}

/// What a message says.
pub enum Meaning {
    Ping,
    Pong,
    Write { req_id: u64, series: u64, points: Seq<(i64, u64)> },
    WriteAck { req_id: u64, ok: bool },
    Query { req_id: u64, series: u64, start: i64, end: i64 },
    QueryResult { req_id: u64, points: Seq<(i64, u64)> },
    Raft(Seq<u8>),
}

/// Why bytes are no message.
pub enum Fault {
    /// They end too early.
    Short,
    /// They announce more points than they can hold.
    TooMany,
    /// They begin with an unknown tag.
    UnknownTag(u8),
}

impl View for Message {
    type V = Meaning;

    open spec fn view(&self) -> Meaning {
        match *self {
            Message::Ping => Meaning::Ping,
            Message::Pong => Meaning::Pong,
            Message::Write { req_id, series, points } => Meaning::Write {
                req_id,
                series,
                points: points@,
            },
            Message::WriteAck { req_id, ok } => Meaning::WriteAck { req_id, ok },
            Message::Query { req_id, series, start, end } => Meaning::Query {
                req_id,
                series,
                start,
                end,
            },
            Message::QueryResult { req_id, points } => Meaning::QueryResult {
                req_id,
                points: points@,
            },
            Message::Raft(bytes) => Meaning::Raft(bytes@),
        }
    }
}

/// The bytes of points without their count.
pub open spec fn points_bytes(points: Seq<(i64, u64)>) -> Seq<u8>
    decreases points.len(),
{
    if points.len() == 0 {
        seq![]
    } else {
        points_bytes(points.drop_last()) + le64(twos(points.last().0)) + le64(points.last().1)
    }
}

/// The bytes of a message.
pub open spec fn wire(m: Meaning) -> Seq<u8> {
    match m {
        Meaning::Ping => seq![PING],
        Meaning::Pong => seq![PONG],
        Meaning::Write { req_id, series, points } => seq![WRITE] + le64(req_id) + le64(series)
            + le32(points.len() as u32) + points_bytes(points),
        Meaning::WriteAck { req_id, ok } => seq![WRITE_ACK] + le64(req_id) + seq![
            if ok {
                1u8
            } else {
                0u8
            },
        ],
        Meaning::Query { req_id, series, start, end } => seq![QUERY] + le64(req_id) + le64(series)
            + le64(twos(start)) + le64(twos(end)),
        Meaning::QueryResult { req_id, points } => seq![QUERY_RESULT] + le64(req_id) + le32(
            points.len() as u32,
        ) + points_bytes(points),
        Meaning::Raft(bytes) => seq![RAFT] + le32(bytes.len() as u32) + bytes,
    }
}

/// The 64-bit number at a position.
pub open spec fn u64_at(data: Seq<u8>, at: int) -> u64 {
    from_le64(data.subrange(at, at + 8))
}

/// The signed 64-bit number at a position.
pub open spec fn i64_at(data: Seq<u8>, at: int) -> i64 {
    from_twos(u64_at(data, at))
}

/// The points at a position, behind their count.
pub open spec fn points_at(data: Seq<u8>, at: int) -> core::result::Result<
    Seq<(i64, u64)>,
    Fault,
> {
    if data.len() < at + 4 {
        Err(Fault::Short)
    } else {
        let n = from_le32(data.subrange(at, at + 4));
        if 16 * n > data.len() - (at + 4) {
            Err(Fault::TooMany)
        } else {
            Ok(
                Seq::new(
                    n as nat,
                    |i: int| (i64_at(data, at + 4 + 16 * i), u64_at(data, at + 12 + 16 * i)),
                ),
            )
        }
    }
}

/// What bytes say. Whatever stands behind a whole message is ignored.
pub open spec fn meaning(data: Seq<u8>) -> core::result::Result<Meaning, Fault> {
    if data.len() == 0 {
        Err(Fault::Short)
    } else if data[0] == PING {
        Ok(Meaning::Ping)
    } else if data[0] == PONG {
        Ok(Meaning::Pong)
    } else if data[0] == WRITE {
        if data.len() < 17 {
            Err(Fault::Short)
        } else {
            match points_at(data, 17) {
                Ok(points) => Ok(
                    Meaning::Write { req_id: u64_at(data, 1), series: u64_at(data, 9), points },
                ),
                Err(f) => Err(f),
            }
        }
    } else if data[0] == WRITE_ACK {
        if data.len() < 10 {
            Err(Fault::Short)
        } else {
            Ok(Meaning::WriteAck { req_id: u64_at(data, 1), ok: data[9] != 0 })
        }
    } else if data[0] == QUERY {
        if data.len() < 33 {
            Err(Fault::Short)
        } else {
            Ok(
                Meaning::Query {
                    req_id: u64_at(data, 1),
                    series: u64_at(data, 9),
                    start: i64_at(data, 17),
                    end: i64_at(data, 25),
                },
            )
        }
    } else if data[0] == QUERY_RESULT {
        if data.len() < 9 {
            Err(Fault::Short)
        } else {
            match points_at(data, 9) {
                Ok(points) => Ok(Meaning::QueryResult { req_id: u64_at(data, 1), points }),
                Err(f) => Err(f),
            }
        }
    } else if data[0] == RAFT {
        if data.len() < 5 {
            Err(Fault::Short)
        } else {
            let n = from_le32(data.subrange(1, 5));
            if data.len() < 5 + n {
                Err(Fault::Short)
            } else {
                Ok(Meaning::Raft(data.subrange(5, 5 + n)))
            }
        }
    } else {
        Err(Fault::UnknownTag(data[0]))
    }
}

/// The error reports a fault.
pub open spec fn reports(e: LatticeError, f: Fault) -> bool {
    match f {
        Fault::Short => is_corrupt(e, "short message"@),
        Fault::TooMany => is_corrupt(e, "points count exceeds message"@),
        Fault::UnknownTag(tag) => is_corrupt(
            e,
            "unknown message tag "@ + decimal_text(tag as nat),
        ),
    }
}

/// The result is what bytes say, or the error that reports why they say nothing.
pub open spec fn tells(r: Result<Message>, said: core::result::Result<Meaning, Fault>) -> bool {
    match r {
        Ok(m) => said == Ok::<Meaning, Fault>(m@),
        Err(e) => said matches Err(f) && reports(e, f),
    }
}

/// Appends points behind their count.
fn write_points(b: &mut Vec<u8>, points: &[(i64, u64)])
    ensures
        final(b)@ == old(b)@ + le32(points@.len() as u32) + points_bytes(points@),
{
    put_le32(b, points.len() as u32);
    let ghost head = b@;
    let mut i: usize = 0;
    assert(b@ =~= head + points_bytes(points@.take(0)));
    while i < points.len()
        invariant
            i <= points@.len(),
            b@ == head + points_bytes(points@.take(i as int)),
        decreases points@.len() - i,
    {
        let p = points[i];
        put_le64(b, to_bits(p.0));
        put_le64(b, p.1);
        proof {
            let grown = points@.take(i + 1);
            assert(grown.drop_last() =~= points@.take(i as int));
            assert(b@ =~= head + points_bytes(grown));
        }
        i = i + 1;
    }
    assert(points@.take(i as int) =~= points@);
}

impl Message {
    /// The message as bytes.
    pub fn serialize(&self) -> (b: Vec<u8>)
        ensures
            b@ == wire(self@),
    {
        let mut b: Vec<u8> = Vec::new();
        match self {
            Message::Ping => {
                b.push(PING);
            },
            Message::Pong => {
                b.push(PONG);
            },
            Message::Write { req_id, series, points } => {
                b.push(WRITE);
                put_le64(&mut b, *req_id);
                put_le64(&mut b, *series);
                write_points(&mut b, points.as_slice());
            },
            Message::WriteAck { req_id, ok } => {
                b.push(WRITE_ACK);
                put_le64(&mut b, *req_id);
                b.push(if *ok { 1 } else { 0 });
            },
            Message::Query { req_id, series, start, end } => {
                b.push(QUERY);
                put_le64(&mut b, *req_id);
                put_le64(&mut b, *series);
                put_le64(&mut b, to_bits(*start));
                put_le64(&mut b, to_bits(*end));
            },
            Message::QueryResult { req_id, points } => {
                b.push(QUERY_RESULT);
                put_le64(&mut b, *req_id);
                write_points(&mut b, points.as_slice());
            },
            Message::Raft(bytes) => {
                b.push(RAFT);
                put_le32(&mut b, bytes.len() as u32);
                b.extend_from_slice(bytes.as_slice());
            },
        }
        assert(b@ =~= wire(self@));
        b
    }

    /// The message that bytes hold.
    pub fn deserialize(data: &[u8]) -> (r: Result<Message>)
        ensures
            tells(r, meaning(data@)),
    {
        let mut c = Cursor { data, pos: 0 };
        let tag = c.u8()?;
        if tag == PING {
            Ok(Message::Ping)
        } else if tag == PONG {
            Ok(Message::Pong)
        } else if tag == WRITE {
            let req_id = c.u64()?;
            let series = c.u64()?;
            let points = c.points()?;
            Ok(Message::Write { req_id, series, points })
        } else if tag == WRITE_ACK {
            let req_id = c.u64()?;
            let ok = c.u8()?;
            Ok(Message::WriteAck { req_id, ok: ok != 0 })
        } else if tag == QUERY {
            let req_id = c.u64()?;
            let series = c.u64()?;
            let start = c.i64()?;
            let end = c.i64()?;
            Ok(Message::Query { req_id, series, start, end })
        } else if tag == QUERY_RESULT {
            let req_id = c.u64()?;
            let points = c.points()?;
            Ok(Message::QueryResult { req_id, points })
        } else if tag == RAFT {
            let bytes = c.bytes()?;
            Ok(Message::Raft(bytes))
        } else {
            let mut text = String::from_str("unknown message tag ");
            text.append(decimal(tag as u64).as_str());
            Err(LatticeError::Corrupt(text))
        }
    }
}

/// A position in bytes that are read from front to back.
struct Cursor<'a> {
    data: &'a [u8],
    pos: usize,
}

impl<'a> Cursor<'a> {
    spec fn wf(self) -> bool {
        self.pos <= self.data@.len()
    }

    /// The cursor has moved over some bytes.
    spec fn moved(self, to: Cursor<'a>, n: int) -> bool {
        &&& to.data == self.data
        &&& to.pos == self.pos + n
        &&& to.pos <= self.data@.len()
    }

    /// The error says that fewer bytes than these are left, and the cursor has not moved.
    spec fn ran_out(self, to: Cursor<'a>, e: LatticeError, n: int) -> bool {
        &&& self.pos + n > self.data@.len()
        &&& reports(e, Fault::Short)
        &&& to.data == self.data
        &&& to.pos == self.pos
    }

    fn take(&mut self, n: usize) -> (r: Result<&'a [u8]>)
        requires
            old(self).wf(),
        ensures
            match r {
                Ok(s) => {
                    &&& old(self).moved(*final(self), n as int)
                    &&& s@ == old(self).data@.subrange(old(self).pos as int, old(self).pos + n)
                },
                Err(e) => old(self).ran_out(*final(self), e, n as int),
            },
    {
        if n > self.data.len() - self.pos {
            return Err(LatticeError::Corrupt(String::from_str("short message")));
        }
        let s = slice_subrange(self.data, self.pos, self.pos + n);
        self.pos = self.pos + n;
        Ok(s)
    }

    fn u8(&mut self) -> (r: Result<u8>)
        requires
            old(self).wf(),
        ensures
            match r {
                Ok(v) => old(self).moved(*final(self), 1) && v == old(self).data@[old(
                    self,
                ).pos as int],
                Err(e) => old(self).ran_out(*final(self), e, 1),
            },
    {
        let s = self.take(1)?;
        Ok(s[0])
    }

    fn u32(&mut self) -> (r: Result<u32>)
        requires
            old(self).wf(),
        ensures
            match r {
                Ok(v) => old(self).moved(*final(self), 4) && v == from_le32(
                    old(self).data@.subrange(old(self).pos as int, old(self).pos + 4),
                ),
                Err(e) => old(self).ran_out(*final(self), e, 4),
            },
    {
        let s = self.take(4)?;
        assert(s@.subrange(0, 4) =~= s@);
        Ok(get_le32(s, 0))
    }

    fn u64(&mut self) -> (r: Result<u64>)
        requires
            old(self).wf(),
        ensures
            match r {
                Ok(v) => old(self).moved(*final(self), 8) && v == u64_at(
                    old(self).data@,
                    old(self).pos as int,
                ),
                Err(e) => old(self).ran_out(*final(self), e, 8),
            },
    {
        let s = self.take(8)?;
        assert(s@.subrange(0, 8) =~= s@);
        Ok(get_le64(s, 0))
    }

    fn i64(&mut self) -> (r: Result<i64>)
        requires
            old(self).wf(),
        ensures
            match r {
                Ok(v) => old(self).moved(*final(self), 8) && v == i64_at(
                    old(self).data@,
                    old(self).pos as int,
                ),
                Err(e) => old(self).ran_out(*final(self), e, 8),
            },
    {
        let v = self.u64()?;
        Ok(of_bits(v))
    }

    /// Points behind their count. A count that the bytes left cannot hold is
    /// refused before anything is allocated for it.
    fn points(&mut self) -> (r: Result<Vec<(i64, u64)>>)
        requires
            old(self).wf(),
        ensures
            match r {
                Ok(v) => {
                    &&& points_at(old(self).data@, old(self).pos as int) == Ok::<
                        Seq<(i64, u64)>,
                        Fault,
                    >(v@)
                    &&& old(self).moved(*final(self), 4 + 16 * (v@.len() as int))
                },
                Err(e) => points_at(old(self).data@, old(self).pos as int) matches Err(f)
                    && reports(e, f),
            },
    {
        let ghost at = self.pos as int;
        let n = self.u32()? as usize;
        if n > (self.data.len() - self.pos) / 16 {
            return Err(LatticeError::Corrupt(String::from_str("points count exceeds message")));
        }
        let ghost data = self.data@;
        let ghost all = points_at(data, at)->Ok_0;
        let mut v: Vec<(i64, u64)> = Vec::new();
        let mut i: usize = 0;
        while i < n
            invariant
                i <= n,
                self.wf(),
                self.data == old(self).data,
                self.data@ == data,
                self.pos == at + 4 + 16 * i,
                at + 4 + 16 * n <= data.len(),
                points_at(data, at) == Ok::<Seq<(i64, u64)>, Fault>(all),
                all.len() == n,
                v@ == all.take(i as int),
            decreases n - i,
        {
            let ts = self.i64()?;
            let value = self.u64()?;
            v.push((ts, value));
            assert(all[i as int] == (ts, value));
            assert(v@ =~= all.take(i + 1));
            i = i + 1;
        }
        assert(v@ =~= all);
        Ok(v)
    }

    fn bytes(&mut self) -> (r: Result<Vec<u8>>)
        requires
            old(self).wf(),
        ensures
            match r {
                Ok(v) => {
                    let n = from_le32(
                        old(self).data@.subrange(old(self).pos as int, old(self).pos + 4),
                    );
                    &&& old(self).pos + 4 + n <= old(self).data@.len()
                    &&& v@ == old(self).data@.subrange(
                        old(self).pos + 4,
                        old(self).pos + 4 + n,
                    )
                    &&& old(self).moved(*final(self), 4 + n)
                },
                Err(e) => {
                    let n = from_le32(
                        old(self).data@.subrange(old(self).pos as int, old(self).pos + 4),
                    );
                    &&& old(self).pos + 4 > old(self).data@.len() || old(self).pos + 4 + n > old(
                        self,
                    ).data@.len()
                    &&& reports(e, Fault::Short)
                },
            },
    {
        let n = self.u32()? as usize;
        let s = self.take(n)?;
        let mut v: Vec<u8> = Vec::new();
        v.extend_from_slice(s);
        assert(v@ =~= s@);
        Ok(v)
    }
}

/// Points take up sixteen bytes each, the timestamp first.
proof fn lemma_points_bytes(points: Seq<(i64, u64)>, i: int)
    requires
        0 <= i < points.len(),
    ensures
        points_bytes(points).len() == 16 * points.len(),
        points_bytes(points).subrange(16 * i, 16 * i + 8) == le64(twos(points[i].0)),
        points_bytes(points).subrange(16 * i + 8, 16 * i + 16) == le64(points[i].1),
    decreases points.len(),
{
    let init = points.drop_last();
    let before = points_bytes(init);
    let all = points_bytes(points);
    if init.len() > 0 {
        lemma_points_bytes(init, 0);
    }
    assert(before.len() == 16 * init.len());
    if i < init.len() {
        lemma_points_bytes(init, i);
        assert(all.subrange(16 * i, 16 * i + 8) =~= before.subrange(16 * i, 16 * i + 8));
        assert(all.subrange(16 * i + 8, 16 * i + 16) =~= before.subrange(16 * i + 8, 16 * i + 16));
    } else {
        assert(all.subrange(16 * i, 16 * i + 8) =~= le64(twos(points[i].0)));
        assert(all.subrange(16 * i + 8, 16 * i + 16) =~= le64(points[i].1));
    }
}

/// Points are read back from their bytes, wherever these stand.
proof fn lemma_points_read_back(
    data: Seq<u8>,
    head: Seq<u8>,
    points: Seq<(i64, u64)>,
    rest: Seq<u8>,
)
    requires
        points.len() <= u32::MAX,
        data == head + le32(points.len() as u32) + points_bytes(points) + rest,
    ensures
        points_at(data, head.len() as int) == Ok::<Seq<(i64, u64)>, Fault>(points),
{
    let at = head.len() as int;
    let body = points_bytes(points);
    if points.len() > 0 {
        lemma_points_bytes(points, 0);
    }
    assert(body.len() == 16 * points.len());
    assert(data.subrange(at, at + 4) =~= le32(points.len() as u32));
    let read = points_at(data, at)->Ok_0;
    assert forall|i: int| 0 <= i < points.len() implies read[i] == points[i] by {
        lemma_points_bytes(points, i);
        lemma_twos_roundtrip(points[i].0);
        assert(data.subrange(at + 4 + 16 * i, at + 4 + 16 * i + 8) =~= body.subrange(
            16 * i,
            16 * i + 8,
        ));
        assert(data.subrange(at + 12 + 16 * i, at + 12 + 16 * i + 8) =~= body.subrange(
            16 * i + 8,
            16 * i + 16,
        ));
    }
    assert(read =~= points);
}

/// The lists in a message are short enough for their counts.
pub open spec fn sendable(m: Meaning) -> bool {
    match m {
        Meaning::Write { req_id, series, points } => points.len() <= u32::MAX,
        Meaning::QueryResult { req_id, points } => points.len() <= u32::MAX,
        Meaning::Raft(bytes) => bytes.len() <= u32::MAX,
        _ => true,
    }
}

/// The bytes of a message say what the message says, whatever stands behind them.
pub proof fn message_reads_back(m: Meaning, rest: Seq<u8>)
    requires
        sendable(m),
    ensures
        meaning(wire(m) + rest) == Ok::<Meaning, Fault>(m),
{
    let data = wire(m) + rest;
    match m {
        Meaning::Ping => {},
        Meaning::Pong => {},
        Meaning::Write { req_id, series, points } => {
            let head = seq![WRITE] + le64(req_id) + le64(series);
            assert(data =~= head + le32(points.len() as u32) + points_bytes(points) + rest);
            lemma_points_read_back(data, head, points, rest);
            assert(data.subrange(1, 9) =~= le64(req_id));
            assert(data.subrange(9, 17) =~= le64(series));
        },
        Meaning::WriteAck { req_id, ok } => {
            assert(data.subrange(1, 9) =~= le64(req_id));
        },
        Meaning::Query { req_id, series, start, end } => {
            assert(data.subrange(1, 9) =~= le64(req_id));
            assert(data.subrange(9, 17) =~= le64(series));
            assert(data.subrange(17, 25) =~= le64(twos(start)));
            assert(data.subrange(25, 33) =~= le64(twos(end)));
            lemma_twos_roundtrip(start);
            lemma_twos_roundtrip(end);
        },
        Meaning::QueryResult { req_id, points } => {
            let head = seq![QUERY_RESULT] + le64(req_id);
            assert(data =~= head + le32(points.len() as u32) + points_bytes(points) + rest);
            lemma_points_read_back(data, head, points, rest);
            assert(data.subrange(1, 9) =~= le64(req_id));
        },
        Meaning::Raft(bytes) => {
            assert(data.subrange(1, 5) =~= le32(bytes.len() as u32));
            assert(data.subrange(5, 5 + bytes.len() as int) =~= bytes);
        },
    }
}

/// The fields of a message stand in its bytes one behind the other, numbers with their
/// least significant byte first: the tag, the number of the request, the series, and then
/// the range, or the count of the points and each with its timestamp and value.
pub proof fn fields_stand_in_order(m: Meaning)
    requires
        sendable(m),
    ensures
        ({
            let w = wire(m);
            match m {
                Meaning::Ping => w == seq![1u8],
                Meaning::Pong => w == seq![2u8],
                Meaning::Write { req_id, series, points } => {
                    &&& w.len() == 21 + 16 * points.len()
                    &&& w[0] == 3
                    &&& from_le64(w.subrange(1, 9)) == req_id
                    &&& from_le64(w.subrange(9, 17)) == series
                    &&& from_le32(w.subrange(17, 21)) == points.len()
                    &&& forall|i: int|
                        0 <= i < points.len() ==> {
                            &&& w.subrange(21 + 16 * i, 29 + 16 * i) == le64(
                                twos((#[trigger] points[i]).0),
                            )
                            &&& w.subrange(29 + 16 * i, 37 + 16 * i) == le64(points[i].1)
                        }
                },
                Meaning::WriteAck { req_id, ok } => {
                    &&& w.len() == 10
                    &&& w[0] == 4
                    &&& from_le64(w.subrange(1, 9)) == req_id
                    &&& ok ==> w[9] == 1
                    &&& !ok ==> w[9] == 0
                },
                Meaning::Query { req_id, series, start, end } => {
                    &&& w.len() == 33
                    &&& w[0] == 5
                    &&& from_le64(w.subrange(1, 9)) == req_id
                    &&& from_le64(w.subrange(9, 17)) == series
                    &&& from_le64(w.subrange(17, 25)) == twos(start)
                    &&& from_le64(w.subrange(25, 33)) == twos(end)
                },
                Meaning::QueryResult { req_id, points } => {
                    &&& w.len() == 13 + 16 * points.len()
                    &&& w[0] == 6
                    &&& from_le64(w.subrange(1, 9)) == req_id
                    &&& from_le32(w.subrange(9, 13)) == points.len()
                    &&& forall|i: int|
                        0 <= i < points.len() ==> {
                            &&& w.subrange(13 + 16 * i, 21 + 16 * i) == le64(
                                twos((#[trigger] points[i]).0),
                            )
                            &&& w.subrange(21 + 16 * i, 29 + 16 * i) == le64(points[i].1)
                        }
                },
                Meaning::Raft(bytes) => {
                    &&& w.len() == 5 + bytes.len()
                    &&& w[0] == 7
                    &&& from_le32(w.subrange(1, 5)) == bytes.len()
                    &&& w.skip(5) == bytes
                },
            }
        }),
{
    let w = wire(m);
    match m {
        Meaning::Ping => {},
        Meaning::Pong => {},
        Meaning::Write { req_id, series, points } => {
            let body = points_bytes(points);
            lemma_points_len(points);
            assert(w.subrange(1, 9) =~= le64(req_id));
            assert(w.subrange(9, 17) =~= le64(series));
            assert(w.subrange(17, 21) =~= le32(points.len() as u32));
            assert forall|i: int| 0 <= i < points.len() implies {
                &&& w.subrange(21 + 16 * i, 29 + 16 * i) == le64(twos((#[trigger] points[i]).0))
                &&& w.subrange(29 + 16 * i, 37 + 16 * i) == le64(points[i].1)
            } by {
                lemma_points_bytes(points, i);
                assert(w.subrange(21 + 16 * i, 29 + 16 * i) =~= body.subrange(16 * i, 16 * i + 8));
                assert(w.subrange(29 + 16 * i, 37 + 16 * i) =~= body.subrange(
                    16 * i + 8,
                    16 * i + 16,
                ));
            }
        },
        Meaning::WriteAck { req_id, ok } => {
            assert(w.subrange(1, 9) =~= le64(req_id));
        },
        Meaning::Query { req_id, series, start, end } => {
            assert(w.subrange(1, 9) =~= le64(req_id));
            assert(w.subrange(9, 17) =~= le64(series));
            assert(w.subrange(17, 25) =~= le64(twos(start)));
            assert(w.subrange(25, 33) =~= le64(twos(end)));
        },
        Meaning::QueryResult { req_id, points } => {
            let body = points_bytes(points);
            lemma_points_len(points);
            assert(w.subrange(1, 9) =~= le64(req_id));
            assert(w.subrange(9, 13) =~= le32(points.len() as u32));
            assert forall|i: int| 0 <= i < points.len() implies {
                &&& w.subrange(13 + 16 * i, 21 + 16 * i) == le64(twos((#[trigger] points[i]).0))
                &&& w.subrange(21 + 16 * i, 29 + 16 * i) == le64(points[i].1)
            } by {
                lemma_points_bytes(points, i);
                assert(w.subrange(13 + 16 * i, 21 + 16 * i) =~= body.subrange(16 * i, 16 * i + 8));
                assert(w.subrange(21 + 16 * i, 29 + 16 * i) =~= body.subrange(
                    16 * i + 8,
                    16 * i + 16,
                ));
            }
        },
        Meaning::Raft(bytes) => {
            assert(w.subrange(1, 5) =~= le32(bytes.len() as u32));
            assert(w.skip(5) =~= bytes);
        },
    }
}

proof fn lemma_points_len(points: Seq<(i64, u64)>)
    ensures
        points_bytes(points).len() == 16 * points.len(),
{
    if points.len() > 0 {
        lemma_points_bytes(points, 0);
    }
}

/// Bytes of a message that were cut short say nothing: they are never taken for another
/// message.
pub proof fn cut_message_is_refused(m: Meaning, n: int)
    requires
        sendable(m),
        0 <= n < wire(m).len(),
    ensures
        meaning(wire(m).take(n)) is Err,
{
    let w = wire(m);
    let data = w.take(n);
    fields_stand_in_order(m);
    match m {
        Meaning::Write { req_id, series, points } => {
            if n >= 21 {
                assert(data.subrange(17, 21) =~= w.subrange(17, 21));
            }
        },
        Meaning::QueryResult { req_id, points } => {
            if n >= 13 {
                assert(data.subrange(9, 13) =~= w.subrange(9, 13));
            }
        },
        Meaning::Raft(bytes) => {
            if n >= 5 {
                assert(data.subrange(1, 5) =~= w.subrange(1, 5));
            }
        },
        _ => {},
    }
}

/// Bytes that begin with a tag that no message has are refused with that tag, and only
/// those.
pub proof fn unknown_tag_is_refused(data: Seq<u8>)
    requires
        data.len() > 0,
    ensures
        data[0] == 0 || data[0] > 7 <==> meaning(data) == Err::<Meaning, Fault>(
            Fault::UnknownTag(data[0]),
        ),
{
}

/// Different messages have different bytes.
pub proof fn messages_are_told_apart(a: Meaning, b: Meaning)
    requires
        sendable(a),
        sendable(b),
        wire(a) == wire(b),
    ensures
        a == b,
{
    message_reads_back(a, seq![]);
    message_reads_back(b, seq![]);
}

/// What was sent is received as it was sent: bytes that begin with those of a message are
/// read as that message.
pub proof fn sent_message_is_received(m: Meaning, rest: Seq<u8>, r: Result<Message>)
    requires
        sendable(m),
        tells(r, meaning(wire(m) + rest)),
    ensures
        r matches Ok(back) && back@ == m,
{
    message_reads_back(m, rest);
}

/// A message says what its fields hold.
pub proof fn message_says_its_fields(m: Message)
    ensures
        match m {
            Message::Ping => m@ is Ping,
            Message::Pong => m@ is Pong,
            Message::Write { req_id, series, points } => m@ == (Meaning::Write {
                req_id,
                series,
                points: points@,
            }),
            Message::WriteAck { req_id, ok } => m@ == (Meaning::WriteAck { req_id, ok }),
            Message::Query { req_id, series, start, end } => m@ == (Meaning::Query {
                req_id,
                series,
                start,
                end,
            }),
            Message::QueryResult { req_id, points } => m@ == (Meaning::QueryResult {
                req_id,
                points: points@,
            }),
            Message::Raft(bytes) => m@ == Meaning::Raft(bytes@),
        },
{
}

/// The bytes of a message, and whatever comes behind them, are read as that message; and
/// bytes that were cut short are refused.
pub proof fn deserialize_inverts_serialize(
    m: &Message,
    bytes: Vec<u8>,
    data: &[u8],
    rest: Seq<u8>,
    n: int,
    r: Result<Message>,
)
    requires
        sendable(m@),
        call_ensures(Message::serialize, (m,), bytes),
        call_ensures(Message::deserialize, (data,), r),
    ensures
        data@ == bytes@ + rest ==> (r matches Ok(back) && back@ == m@),
        0 <= n < bytes@.len() && data@ == bytes@.take(n) ==> r is Err,
{
    message_reads_back(m@, rest);
    if 0 <= n < bytes@.len() {
        cut_message_is_refused(m@, n);
    }
}

} // verus!
