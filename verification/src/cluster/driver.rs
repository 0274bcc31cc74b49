//! Running a node: what comes in, what goes out, and what is stored.
use crate::cluster::consensus::{
    applied_only_grows, blobs, campaigned, encode_message, is_among, processed, proposed, stepped,
    ticked, RaftNode,
};
use crate::cluster::protocol::message::Message;
use crate::cluster::raw::{
    addressee, bare_message, head_of, leads, may_write, message_head, parsed_message, reads_back,
    sizable, writable, write_fault,
};
use crate::error::Result;
use crate::storage::wal::{get_record, lemma_record_roundtrip, put_record, record, record_at};
use crate::storage::Point;
use raft::prelude::Message as RaftMessage;
use vstd::prelude::*;

verus! {

/// What a node is told to do.
pub enum Command {
    Step(RaftMessage),
    Propose(Vec<u8>),
    Campaign,
}

/// What can be seen of a node from outside.
pub struct RaftShared {
    pub applied: Vec<Vec<u8>>,
    pub is_leader: bool,
}

impl RaftShared {
    /// The data that were applied, in their order.
    pub open spec fn data(self) -> Seq<Seq<u8>> {
        blobs(self.applied@)
    }
}

impl Default for RaftShared {
    fn default() -> (s: Self)
        ensures
            s.applied@.len() == 0,
            !s.is_leader,
    {
        RaftShared { applied: Vec::new(), is_leader: false }
    }
}

/// A point as data for the log: series, timestamp and value.
pub fn encode_write(series: u64, ts: i64, value: u64) -> (b: Vec<u8>)
    ensures
        b@ == record(Point { series, ts, value }),
{
    put_record(Point { series, ts, value })
}

/// The point in some data, if there is one.
pub open spec fn write_in(data: Seq<u8>) -> Option<Point> {
    if data.len() == 24 {
        Some(record_at(data, 0))
    } else {
        None
    }
}

/// The point in some data, if there is one.
pub fn decode_write(data: &[u8]) -> (r: Option<(u64, i64, u64)>)
    ensures
        match write_in(data@) {
            Some(p) => r == Some((p.series, p.ts, p.value)),
            None => r is None,
        },
{
    if data.len() != 24 {
        return None;
    }
    let p = get_record(data, 0);
    Some((p.series, p.ts, p.value))
}

/// The point in the data that a point was turned into is that point.
pub proof fn write_reads_back(p: Point)
    ensures
        write_in(record(p)) == Some(p),
{
    broadcast use crate::endian::group_endian;

    assert(record(p).subrange(0, 24) =~= record(p));
    lemma_record_roundtrip(record(p), 0, p);
}

/// The points in data, in their order. Data without a point are passed over.
pub open spec fn writes_in(data: Seq<Seq<u8>>) -> Seq<Point>
    decreases data.len(),
{
    if data.len() == 0 {
        seq![]
    } else {
        let before = writes_in(data.drop_last());
        match write_in(data.last()) {
            Some(p) => before.push(p),
            None => before,
        }
    }
}

/// The message goes to one of the peers, and can be sent.
pub open spec fn deliverable(m: RaftMessage, peers: Seq<u64>) -> bool {
    peers.contains(addressee(m)) && writable(m)
}

/// The bytes of a message with the peer it goes to.
pub open spec fn posted(out: (u64, Vec<u8>), m: RaftMessage) -> bool {
    &&& out.0 == addressee(m)
    &&& may_write(m, out.1@)
    &&& reads_back(m) && out.1@.len() <= i32::MAX ==> parsed_message(out.1@) == Ok::<
        RaftMessage,
        Seq<char>,
    >(m)
}

/// The messages that are deliverable, in their order.
pub open spec fn deliverable_of(messages: Seq<RaftMessage>, peers: Seq<u64>) -> Seq<RaftMessage> {
    messages.filter(|m: RaftMessage| deliverable(m, peers))
}

/// The deliverable messages, in their order.
pub open spec fn post(out: Seq<(u64, Vec<u8>)>, messages: Seq<RaftMessage>, peers: Seq<u64>) -> bool {
    let kept = deliverable_of(messages, peers);
    &&& out.len() == kept.len()
    &&& forall|i: int| 0 <= i < out.len() ==> posted(#[trigger] out[i], kept[i])
}

/// Turns the messages to peers into bytes. Messages to anyone else, and those that
/// cannot be written, are dropped.
pub fn route(messages: &[RaftMessage], peers: &[u64]) -> (out: Vec<(u64, Vec<u8>)>)
    ensures
        post(out@, messages@, peers@),
{
    let mut out: Vec<(u64, Vec<u8>)> = Vec::new();
    let mut i: usize = 0;
    let ghost wanted = |m: RaftMessage| deliverable(m, peers@);
    proof {
        reveal(Seq::filter);
        assert(messages@.take(0).filter(wanted) =~= seq![]);
    }
    while i < messages.len()
        invariant
            i <= messages@.len(),
            wanted == (|m: RaftMessage| deliverable(m, peers@)),
            post(out@, messages@.take(i as int), peers@),
        decreases messages@.len() - i,
    {
        proof {
            reveal(Seq::filter);
            let grown = messages@.take(i + 1);
            assert(grown.drop_last() =~= messages@.take(i as int));
            assert(grown.last() == messages@[i as int]);
        }
        let to = head_of(&messages[i]).to;
        if is_among(peers, to) {
            match encode_message(&messages[i]) {
                Ok(bytes) => {
                    out.push((to, bytes));
                },
                Err(_) => {},
            }
        }
        i = i + 1;
    }
    assert(messages@.take(i as int) =~= messages@);
    out
}

/// A node with its peers.
pub struct RaftDriver {
    node: RaftNode,
    peers: Vec<u64>,
}

impl RaftDriver {
    pub closed spec fn node(self) -> RaftNode {
        self.node
    }

    pub closed spec fn peers(self) -> Seq<u64> {
        self.peers@
    }

    pub open spec fn wf(self) -> bool {
        self.node().wf()
    }

    pub fn new(node: RaftNode, peers: Vec<u64>) -> (d: Self)
        ensures
            d.node() == node,
            d.peers() == peers@,
    {
        RaftDriver { node, peers }
    }

    /// Hands a command to the node. What the node refuses is dropped.
    pub fn command(&mut self, cmd: Command)
        requires
            old(self).wf(),
        ensures
            final(self).wf(),
            final(self).peers() == old(self).peers(),
            commanded(cmd, old(self).node(), final(self).node()),
    {
        let ghost before = self.node;
        let r = match cmd {
            Command::Step(msg) => self.node.step(msg),
            Command::Propose(data) => self.node.propose(data),
            Command::Campaign => self.node.campaign(),
        };
        assert(carried_out(cmd, before, self.node, r));
    }

    /// Lets time pass for the node.
    pub fn tick(&mut self) -> (r: Result<bool>)
        requires
            old(self).wf(),
        ensures
            final(self).wf(),
            final(self).peers() == old(self).peers(),
            old(self).node().same_but_raw(final(self).node()),
            ticked(old(self).node(), final(self).node(), r),
    {
        self.node.tick()
    }

    /// Does what the node wants done and collects what goes to the peers.
    pub fn outbox(&mut self) -> (r: Result<Vec<(u64, Vec<u8>)>>)
        requires
            old(self).wf(),
        ensures
            final(self).wf(),
            final(self).peers() == old(self).peers(),
            match r {
                Ok(out) => exists|messages: Vec<RaftMessage>| #[trigger]
                    processed(old(self).node(), final(self).node(), Ok(messages)) && post(
                        out@,
                        messages@,
                        old(self).peers(),
                    ),
                Err(e) => processed(old(self).node(), final(self).node(), Err(e)),
            },
    {
        match self.node.process_ready() {
            Ok(messages) => {
                assert(processed(old(self).node(), self.node(), Ok(messages)));
                Ok(route(messages.as_slice(), self.peers.as_slice()))
            },
            Err(e) => Err(e),
        }
    }

    /// One turn: hands a command to the node, or lets time pass for it if there is
    /// none, does what the node then wants done, and collects what goes to the peers.
    /// A command that the node refuses does not end the turn.
    pub fn turn(&mut self, cmd: Option<Command>) -> (r: Result<Vec<(u64, Message)>>)
        requires
            old(self).wf(),
        ensures
            final(self).wf(),
            final(self).peers() == old(self).peers(),
            turned(cmd, old(self).node(), old(self).peers(), final(self).node(), r),
    {
        let ghost before = self.node;
        match cmd {
            Some(cmd) => {
                self.command(cmd);
            },
            None => match self.tick() {
                Ok(_) => {},
                Err(e) => {
                    assert(ticked(before, self.node, Err(e)));
                    return Err(e);
                },
            },
        }
        let ghost woken = self.node;
        assert(woke(cmd, old(self).node(), woken));
        match self.outbox() {
            Ok(out) => {
                let ghost messages = choose|messages: Vec<RaftMessage>| #[trigger]
                    processed(woken, self.node, Ok(messages)) && post(
                        out@,
                        messages@,
                        self.peers(),
                    );
                let sends = envelopes(out);
                assert(delivered(woken, messages, old(self).peers(), self.node(), sends@));
                assert(passed(cmd, old(self).node(), old(self).peers(), self.node(), sends@));
                Ok(sends)
            },
            Err(e) => {
                assert(processed(woken, self.node(), Err(e)));
                Err(e)
            },
        }
    }

    /// Whether the shared view is no longer than what the node has applied.
    pub fn in_step(&self, shared: &RaftShared) -> (b: bool)
        ensures
            b == (shared.applied@.len() <= self.node().data().len()),
    {
        shared.applied.len() <= self.node.applied().len()
    }

    /// Brings the shared view up to date and returns the points that are new in it.
    pub fn apply_committed(&self, shared: &mut RaftShared) -> (points: Vec<Point>)
        requires
            old(shared).applied@.len() <= self.node().data().len(),
        ensures
            final(shared).applied@.len() == self.node().data().len(),
            final(shared).is_leader == leads(self.node().raw()),
            final(shared).data() == old(shared).data() + self.node().data().skip(
                old(shared).data().len() as int,
            ),
            points@ == writes_in(self.node().data().skip(old(shared).data().len() as int)),
            caught_up(old(shared).data(), self.node().data(), final(shared).data(), points@),
    {
        shared.is_leader = self.node.is_leader();
        let applied = self.node.applied();
        let start = shared.applied.len();
        let ghost before = shared.data();
        let ghost all = self.node().data();
        let ghost fresh = all.skip(start as int);
        let mut points: Vec<Point> = Vec::new();
        let mut i: usize = start;
        assert(shared.data() =~= before + fresh.take(0));
        assert(points@ =~= writes_in(fresh.take(0)));
        while i < applied.len()
            invariant
                start <= i <= applied@.len(),
                blobs(applied@) == all,
                fresh == all.skip(start as int),
                shared.is_leader == leads(self.node().raw()),
                shared.data() == before + fresh.take(i - start),
                points@ == writes_in(fresh.take(i - start)),
            decreases applied@.len() - i,
        {
            let mut data: Vec<u8> = Vec::new();
            data.extend_from_slice(applied[i].as_slice());
            let ghost sofar = shared.data();
            proof {
                assert(data@ =~= applied@[i as int]@);
                assert(all[i as int] == applied@[i as int]@);
                let grown = fresh.take(i + 1 - start);
                assert(grown.drop_last() =~= fresh.take(i - start));
                assert(grown.last() == data@);
                assert(grown =~= fresh.take(i - start).push(data@));
            }
            match decode_write(data.as_slice()) {
                Some((series, ts, value)) => {
                    points.push(Point { series, ts, value });
                },
                None => {},
            }
            let ghost taken = data@;
            shared.applied.push(data);
            assert(shared.data() =~= sofar.push(taken));
            assert(shared.data() =~= before + fresh.take(i + 1 - start));
            i = i + 1;
        }
        assert(fresh.take(i - start) =~= fresh);
        points
    }
}

/// A view was brought up to date with what was applied, and these points are new in it.
pub open spec fn caught_up(
    before: Seq<Seq<u8>>,
    data: Seq<Seq<u8>>,
    after: Seq<Seq<u8>>,
    points: Seq<Point>,
) -> bool {
    &&& after == before + data.skip(before.len() as int)
    &&& points == writes_in(data.skip(before.len() as int))
}

/// The bytes that go to peers, as messages between nodes.
pub open spec fn enveloped(sends: Seq<(u64, Message)>, out: Seq<(u64, Vec<u8>)>) -> bool {
    &&& sends.len() == out.len()
    &&& forall|i: int|
        0 <= i < out.len() ==> {
            &&& (#[trigger] sends[i]).0 == out[i].0
            &&& sends[i].1 matches Message::Raft(bytes) && bytes@ == out[i].1@
        }
}

/// Turns the bytes that go to peers into messages between nodes.
fn envelopes(out: Vec<(u64, Vec<u8>)>) -> (sends: Vec<(u64, Message)>)
    ensures
        enveloped(sends@, out@),
{
    let mut sends: Vec<(u64, Message)> = Vec::new();
    let mut i: usize = 0;
    while i < out.len()
        invariant
            i <= out@.len(),
            enveloped(sends@, out@.take(i as int)),
        decreases out@.len() - i,
    {
        let mut bytes: Vec<u8> = Vec::new();
        bytes.extend_from_slice(out[i].1.as_slice());
        assert(bytes@ =~= out@[i as int].1@);
        sends.push((out[i].0, Message::Raft(bytes)));
        assert(out@.take(i + 1).drop_last() =~= out@.take(i as int));
        i = i + 1;
    }
    assert(out@.take(i as int) =~= out@);
    sends
}

/// The node did what the command says, or refused it.
pub open spec fn carried_out(cmd: Command, a: RaftNode, b: RaftNode, r: Result<()>) -> bool {
    match cmd {
        Command::Step(msg) => stepped(a, msg, b, r),
        Command::Propose(data) => proposed(a, data@, b, r),
        Command::Campaign => campaigned(a, b, r),
    }
}

/// The node was given a command; only the state of its protocol may differ.
pub open spec fn commanded(cmd: Command, a: RaftNode, b: RaftNode) -> bool {
    &&& a.same_but_raw(b)
    &&& exists|r: Result<()>| #[trigger] carried_out(cmd, a, b, r)
}

/// The node was given a command, or time passed for it.
pub open spec fn woke(cmd: Option<Command>, a: RaftNode, b: RaftNode) -> bool {
    match cmd {
        Some(cmd) => commanded(cmd, a, b),
        None => a.same_but_raw(b) && exists|ready: bool| #[trigger] ticked(a, b, Ok(ready)),
    }
}

/// The node handed out messages, and those that are deliverable are on their way.
pub open spec fn delivered(
    woken: RaftNode,
    messages: Vec<RaftMessage>,
    peers: Seq<u64>,
    b: RaftNode,
    sends: Seq<(u64, Message)>,
) -> bool {
    &&& processed(woken, b, Ok(messages))
    &&& exists|out: Seq<(u64, Vec<u8>)>| #[trigger]
        post(out, messages@, peers) && enveloped(sends, out)
}

/// The node was woken and then handed out messages, and those that are deliverable are
/// on their way.
pub open spec fn passed(
    cmd: Option<Command>,
    a: RaftNode,
    peers: Seq<u64>,
    b: RaftNode,
    sends: Seq<(u64, Message)>,
) -> bool {
    exists|woken: RaftNode, messages: Vec<RaftMessage>|
        {
            &&& #[trigger] woke(cmd, a, woken)
            &&& #[trigger] delivered(woken, messages, peers, b, sends)
        }
}

/// One turn of a node: it ends with an error only if the time that passed, or what was
/// to be done, was refused.
pub open spec fn turned(
    cmd: Option<Command>,
    a: RaftNode,
    peers: Seq<u64>,
    b: RaftNode,
    r: Result<Vec<(u64, Message)>>,
) -> bool {
    match r {
        Ok(sends) => passed(cmd, a, peers, b, sends@),
        Err(e) => {
            ||| cmd is None && ticked(a, b, Err(e))
            ||| exists|woken: RaftNode|
                {
                    &&& #[trigger] woke(cmd, a, woken)
                    &&& #[trigger] processed(woken, b, Err(e))
                }
        },
    }
}

/// A turn that ends well sends each message to a peer that can be written exactly once,
/// as a message of the replicated log with the bytes of that message, and no other; and
/// the shared view, brought up to date afterwards, holds all that the node has applied,
/// of which nothing was lost.
pub proof fn turn_sends_and_shares(
    cmd: Option<Command>,
    a: RaftNode,
    peers: Seq<u64>,
    b: RaftNode,
    sends: Vec<(u64, Message)>,
    before: Seq<Seq<u8>>,
)
    requires
        turned(cmd, a, peers, b, Ok(sends)),
        before == a.data(),
    ensures
        exists|messages: Seq<RaftMessage>|
            {
                let kept = #[trigger] deliverable_of(messages, peers);
                &&& sends@.len() == kept.len()
                &&& forall|i: int|
                    0 <= i < kept.len() ==> {
                        &&& (#[trigger] sends@[i]).1 is Raft
                        &&& posted((sends@[i].0, sends@[i].1->Raft_0), kept[i])
                    }
            },
        a.data().is_prefix_of(b.data()),
        before + b.data().skip(before.len() as int) == b.data(),
{
    let (woken, messages) = choose|woken: RaftNode, messages: Vec<RaftMessage>|
        {
            &&& #[trigger] woke(cmd, a, woken)
            &&& #[trigger] delivered(woken, messages, peers, b, sends@)
        };
    let out = choose|out: Seq<(u64, Vec<u8>)>| #[trigger]
        post(out, messages@, peers) && enveloped(sends@, out);
    applied_only_grows(woken, b, Ok(messages));
    let kept = deliverable_of(messages@, peers);
    assert forall|i: int| 0 <= i < kept.len() implies {
        &&& (#[trigger] sends@[i]).1 is Raft
        &&& posted((sends@[i].0, sends@[i].1->Raft_0), kept[i])
    } by {
        assert(posted(out[i], kept[i]));
    }
    assert(before + b.data().skip(before.len() as int) =~= b.data());
}

/// A shared view that holds the beginning of what the node has applied holds all
/// of it once it was brought up to date.
pub proof fn shared_view_catches_up(node: Seq<Seq<u8>>, before: Seq<Seq<u8>>)
    requires
        before.len() <= node.len(),
        before == node.take(before.len() as int),
    ensures
        before + node.skip(before.len() as int) == node,
{
    assert(before + node.skip(before.len() as int) =~= node);
}

/// However the applied data are split between two updates, the same points come
/// out, each once and in the same order.
pub proof fn writes_come_out_once(a: Seq<Seq<u8>>, b: Seq<Seq<u8>>)
    ensures
        writes_in(a + b) == writes_in(a) + writes_in(b),
    decreases b.len(),
{
    if b.len() == 0 {
        assert(a + b =~= a);
        assert(writes_in(a) + writes_in(b) =~= writes_in(a));
    } else {
        writes_come_out_once(a, b.drop_last());
        assert((a + b).drop_last() =~= a + b.drop_last());
        assert(writes_in(a + b) =~= writes_in(a) + writes_in(b));
    }
}

/// Points that are proposed one by one come out as they are on every node that
/// applies them.
pub proof fn proposed_points_come_out(points: Seq<Point>)
    ensures
        writes_in(points.map_values(|p: Point| record(p))) == points,
    decreases points.len(),
{
    let data = points.map_values(|p: Point| record(p));
    if points.len() == 0 {
        assert(writes_in(data) =~= points);
    } else {
        let init = points.drop_last();
        proposed_points_come_out(init);
        write_reads_back(points.last());
        assert(data.drop_last() =~= init.map_values(|p: Point| record(p)));
        assert(init.push(points.last()) =~= points);
    }
}

/// Messages went out from these places of a list: each place once and in order, to the
/// node that the message there is for, which is a peer, as bytes of that message; and no
/// message for a peer that can be written stayed behind.
pub open spec fn sent_from(
    at: Seq<int>,
    out: Seq<(u64, Seq<u8>)>,
    messages: Seq<RaftMessage>,
    peers: Seq<u64>,
) -> bool {
    &&& at.len() == out.len()
    &&& forall|i: int, j: int| 0 <= i < j < at.len() ==> at[i] < at[j]
    &&& forall|k: int|
        #![trigger at[k]]
        0 <= k < at.len() ==> {
            &&& 0 <= at[k] < messages.len()
            &&& out[k].0 == message_head(messages[at[k]]).to
            &&& peers.contains(out[k].0)
            &&& may_write(messages[at[k]], out[k].1)
            &&& bare_message(messages[at[k]]) && out[k].1.len() <= i32::MAX ==> parsed_message(
                out[k].1,
            ) == Ok::<RaftMessage, Seq<char>>(messages[at[k]])
        }
    &&& forall|i: int|
        #![trigger messages[i]]
        0 <= i < messages.len() && peers.contains(message_head(messages[i]).to) && sizable(
            messages[i],
        ) && write_fault(messages[i]) is None ==> at.contains(i)
}

/// What goes to peers, by the bytes.
pub open spec fn as_bytes(out: Seq<(u64, Vec<u8>)>) -> Seq<(u64, Seq<u8>)> {
    out.map_values(|o: (u64, Vec<u8>)| (o.0, o.1@))
}

/// Where the messages that are sent stand.
proof fn lemma_places(
    out: Seq<(u64, Vec<u8>)>,
    messages: Seq<RaftMessage>,
    peers: Seq<u64>,
) -> (at: Seq<int>)
    requires
        post(out, messages, peers),
    ensures
        sent_from(at, as_bytes(out), messages, peers),
    decreases messages.len(),
{
    reveal(Seq::filter);
    if messages.len() == 0 {
        Seq::empty()
    } else {
        let n = messages.len() - 1;
        let init = messages.drop_last();
        let m = messages.last();
        let kept = deliverable_of(messages, peers);
        let fewer = deliverable_of(init, peers);
        if deliverable(m, peers) {
            let before = out.drop_last();
            assert(kept =~= fewer.push(m));
            assert forall|i: int| 0 <= i < before.len() implies posted(
                #[trigger] before[i],
                fewer[i],
            ) by {
                assert(posted(out[i], kept[i]));
            }
            let places = lemma_places(before, init, peers);
            let at = places.push(n);
            assert(posted(out[out.len() - 1], kept[kept.len() - 1]));
            assert forall|k: int| #![trigger at[k]] 0 <= k < at.len() implies {
                &&& 0 <= at[k] < messages.len()
                &&& as_bytes(out)[k].0 == message_head(messages[at[k]]).to
                &&& peers.contains(as_bytes(out)[k].0)
                &&& may_write(messages[at[k]], as_bytes(out)[k].1)
                &&& bare_message(messages[at[k]]) && as_bytes(out)[k].1.len() <= i32::MAX
                    ==> parsed_message(as_bytes(out)[k].1) == Ok::<RaftMessage, Seq<char>>(
                    messages[at[k]],
                )
            } by {
                if k < places.len() {
                    assert(places[k] == at[k]);
                    assert(as_bytes(before)[k] == as_bytes(out)[k]);
                    assert(init[at[k]] == messages[at[k]]);
                }
            }
            assert forall|i: int|
                #![trigger messages[i]]
                0 <= i < messages.len() && peers.contains(message_head(messages[i]).to) && sizable(
                    messages[i],
                ) && write_fault(messages[i]) is None implies at.contains(i) by {
                if i < n {
                    assert(init[i] == messages[i]);
                    let k = places.index_of(i);
                    assert(at[k] == i);
                } else {
                    assert(at[places.len() as int] == i);
                }
            }
            at
        } else {
            let at = lemma_places(out, init, peers);
            assert forall|k: int| #![trigger at[k]] 0 <= k < at.len() implies {
                &&& 0 <= at[k] < messages.len()
                &&& as_bytes(out)[k].0 == message_head(messages[at[k]]).to
                &&& peers.contains(as_bytes(out)[k].0)
                &&& may_write(messages[at[k]], as_bytes(out)[k].1)
                &&& bare_message(messages[at[k]]) && as_bytes(out)[k].1.len() <= i32::MAX
                    ==> parsed_message(as_bytes(out)[k].1) == Ok::<RaftMessage, Seq<char>>(
                    messages[at[k]],
                )
            } by {
                assert(init[at[k]] == messages[at[k]]);
            }
            assert forall|i: int|
                #![trigger messages[i]]
                0 <= i < messages.len() && peers.contains(message_head(messages[i]).to) && sizable(
                    messages[i],
                ) && write_fault(messages[i]) is None implies at.contains(i) by {
                if i < n {
                    assert(init[i] == messages[i]);
                }
            }
            at
        }
    }
}

/// Every message that is for a peer, wherever that stands in the list of peers, and that
/// can be written, is among what is sent, once and in order, and nothing else is.
pub proof fn every_message_to_a_peer_is_sent(
    out: Seq<(u64, Vec<u8>)>,
    messages: Seq<RaftMessage>,
    peers: Seq<u64>,
)
    requires
        post(out, messages, peers),
    ensures
        exists|at: Seq<int>| #[trigger] sent_from(at, as_bytes(out), messages, peers),
{
    let at = lemma_places(out, messages, peers);
}

/// What goes to peers in messages between nodes, by the bytes.
pub open spec fn carried(sends: Seq<(u64, Message)>) -> Seq<(u64, Seq<u8>)> {
    sends.map_values(
        |s: (u64, Message)|
            (
                s.0,
                match s.1 {
                    Message::Raft(bytes) => bytes@,
                    _ => seq![],
                },
            ),
    )
}

/// A turn that ends well hands the command to the node, or lets time pass for it, lets it
/// do what is to be done, and sends every message that comes of it to the peer that it is
/// for, wherever that stands in the list, each once and in order.
pub proof fn turn_reaches_every_peer(
    cmd: Option<Command>,
    a: RaftNode,
    peers: Seq<u64>,
    b: RaftNode,
    sends: Vec<(u64, Message)>,
)
    requires
        turned(cmd, a, peers, b, Ok(sends)),
    ensures
        forall|k: int| 0 <= k < sends@.len() ==> (#[trigger] sends@[k]).1 is Raft,
        exists|woken: RaftNode, messages: Vec<RaftMessage>, at: Seq<int>|
            {
                &&& a.same_but_raw(woken)
                &&& match cmd {
                    Some(Command::Step(m)) => exists|r: Result<()>| stepped(a, m, woken, r),
                    Some(Command::Propose(data)) => exists|r: Result<()>|
                        proposed(a, data@, woken, r),
                    Some(Command::Campaign) => exists|r: Result<()>| campaigned(a, woken, r),
                    None => exists|ready: bool| ticked(a, woken, Ok(ready)),
                }
                &&& #[trigger] processed(woken, b, Ok(messages))
                &&& #[trigger] sent_from(at, carried(sends@), messages@, peers)
            },
{
    let (woken, messages) = choose|woken: RaftNode, messages: Vec<RaftMessage>|
        {
            &&& #[trigger] woke(cmd, a, woken)
            &&& #[trigger] delivered(woken, messages, peers, b, sends@)
        };
    let out = choose|out: Seq<(u64, Vec<u8>)>| #[trigger]
        post(out, messages@, peers) && enveloped(sends@, out);
    let at = lemma_places(out, messages@, peers);
    assert(carried(sends@) =~= as_bytes(out));
    match cmd {
        Some(c) => {
            let r = choose|r: Result<()>| #[trigger] carried_out(c, a, woken, r);
            match c {
                Command::Step(m) => {
                    assert(stepped(a, m, woken, r));
                },
                Command::Propose(data) => {
                    assert(proposed(a, data@, woken, r));
                },
                Command::Campaign => {
                    assert(campaigned(a, woken, r));
                },
            }
        },
        None => {},
    }
    assert(processed(woken, b, Ok(messages)) && sent_from(at, carried(sends@), messages@, peers));
}

/// Data are a write if they are as long as one, and only then.
pub proof fn only_whole_writes_are_read(data: Seq<u8>)
    ensures
        write_in(data) is Some <==> data.len() == 24,
{
}

/// Two writes are turned into the same data only if they are the same.
pub proof fn writes_are_told_apart(p: Point, q: Point)
    requires
        record(p) == record(q),
    ensures
        p == q,
{
    write_reads_back(p);
    write_reads_back(q);
}

/// A view that holds the beginning of what was applied holds all of it once it was brought
/// up to date. If what is new are writes, then each of them comes out, once and in order,
/// and whatever is no write is passed over.
pub proof fn new_writes_come_out(
    before: Seq<Seq<u8>>,
    fresh: Seq<Point>,
    other: Seq<u8>,
    data: Seq<Seq<u8>>,
    after: Seq<Seq<u8>>,
    points: Seq<Point>,
)
    requires
        caught_up(before, data, after, points),
        before == data.take(before.len() as int),
        before.len() <= data.len(),
    ensures
        after == data,
        data == before + fresh.map_values(|p: Point| record(p)) ==> points == fresh,
        other.len() != 24 && data == before + seq![other] + fresh.map_values(
            |p: Point| record(p),
        ) ==> points == fresh,
{
    let records = fresh.map_values(|p: Point| record(p));
    assert(after =~= data);
    proposed_points_come_out(fresh);
    assert(data == before + records ==> data.skip(before.len() as int) =~= records);
    if other.len() != 24 && data == before + seq![other] + records {
        assert(data.skip(before.len() as int) =~= seq![other] + records);
        writes_come_out_once(seq![other], records);
        assert(seq![other].drop_last() =~= Seq::<Seq<u8>>::empty());
        assert(writes_in(seq![other].drop_last()) =~= Seq::<Point>::empty());
        assert(writes_in(seq![other]) + writes_in(records) =~= fresh);
    }
}

/// Every message to a peer that can be written goes out, once and in order, and no other.
pub proof fn route_sends_every_message(
    messages: &[RaftMessage],
    peers: &[u64],
    out: Vec<(u64, Vec<u8>)>,
)
    requires
        call_ensures(route, (messages, peers), out),
    ensures
        exists|at: Seq<int>| #[trigger] sent_from(at, as_bytes(out@), messages@, peers@),
{
    every_message_to_a_peer_is_sent(out@, messages@, peers@);
}

/// A driver has the node and the peers that it was given; a turn of it hands the command to
/// that node, and what comes of it to those peers.
pub proof fn driver_reaches_its_peers(
    node: RaftNode,
    peers: Vec<u64>,
    made: RaftDriver,
    driver: &mut RaftDriver,
    cmd: Option<Command>,
    r: Result<Vec<(u64, Message)>>,
)
    requires
        call_ensures(RaftDriver::new, (node, peers), made),
        *old(driver) == made,
        call_ensures(RaftDriver::turn, (driver, cmd), r),
        r is Ok,
    ensures
        final(driver).peers() == peers@,
        exists|woken: RaftNode, messages: Vec<RaftMessage>, at: Seq<int>|
            {
                &&& node.same_but_raw(woken)
                &&& match cmd {
                    Some(Command::Step(m)) => exists|r: Result<()>| stepped(node, m, woken, r),
                    Some(Command::Propose(data)) => exists|r: Result<()>|
                        proposed(node, data@, woken, r),
                    Some(Command::Campaign) => exists|r: Result<()>| campaigned(node, woken, r),
                    None => exists|ready: bool| ticked(node, woken, Ok(ready)),
                }
                &&& #[trigger] processed(woken, final(driver).node(), Ok(messages))
                &&& #[trigger] sent_from(at, carried(r->Ok_0@), messages@, peers@)
            },
        node.data().is_prefix_of(final(driver).node().data()),
{
    turn_reaches_every_peer(cmd, node, peers@, final(driver).node(), r->Ok_0);
    turn_sends_and_shares(cmd, node, peers@, final(driver).node(), r->Ok_0, node.data());
}

/// A command reaches the node, and only the state of its protocol may differ.
pub proof fn command_reaches_the_node(driver: &mut RaftDriver, cmd: Command)
    requires
        call_ensures(RaftDriver::command, (driver, cmd), ()),
    ensures
        old(driver).node().same_but_raw(final(driver).node()),
        final(driver).peers() == old(driver).peers(),
        match cmd {
            Command::Step(m) => exists|r: Result<()>|
                stepped(old(driver).node(), m, final(driver).node(), r),
            Command::Propose(data) => exists|r: Result<()>|
                proposed(old(driver).node(), data@, final(driver).node(), r),
            Command::Campaign => exists|r: Result<()>|
                campaigned(old(driver).node(), final(driver).node(), r),
        },
{
    let (a, b) = (old(driver).node(), final(driver).node());
    let r = choose|r: Result<()>| #[trigger] carried_out(cmd, a, b, r);
    match cmd {
        Command::Step(m) => {
            assert(stepped(a, m, b, r));
        },
        Command::Propose(data) => {
            assert(proposed(a, data@, b, r));
        },
        Command::Campaign => {
            assert(campaigned(a, b, r));
        },
    }
}

/// Bringing a view up to date that holds the beginning of what the node has applied gives
/// all of it, and of what is new every write, once and in order.
pub proof fn apply_committed_gives_every_write(
    driver: &RaftDriver,
    shared: &mut RaftShared,
    points: Vec<Point>,
    fresh: Seq<Point>,
)
    requires
        call_ensures(RaftDriver::apply_committed, (driver, shared), points),
        old(shared).data().len() <= driver.node().data().len(),
        old(shared).data() == driver.node().data().take(old(shared).data().len() as int),
    ensures
        final(shared).data() == driver.node().data(),
        final(shared).is_leader <==> leads(driver.node().raw()),
        driver.node().data() == old(shared).data() + fresh.map_values(|p: Point| record(p))
            ==> points@ == fresh,
{
    new_writes_come_out(
        old(shared).data(),
        fresh,
        seq![],
        driver.node().data(),
        final(shared).data(),
        points@,
    );
}

/// A write is read from the data that it was turned into, with all its fields; data of any
/// other length are no write.
pub proof fn decode_write_inverts_encode_write(
    series: u64,
    ts: i64,
    value: u64,
    written: Vec<u8>,
    data: &[u8],
    read: Option<(u64, i64, u64)>,
)
    requires
        call_ensures(encode_write, (series, ts, value), written),
        call_ensures(decode_write, (data,), read),
    ensures
        written@.len() == 24,
        data@ == written@ ==> read == Some((series, ts, value)),
        data@.len() != 24 ==> read is None,
{
    write_reads_back(Point { series, ts, value });
}

/// What a node wants sent goes out to the peers of its driver, every message that can be
/// written, once and in order; and time passes for the node of a driver as for any other.
pub proof fn outbox_sends_every_message(
    driver: &mut RaftDriver,
    r: Result<Vec<(u64, Vec<u8>)>>,
    other: &mut RaftDriver,
    ticked_on: Result<bool>,
)
    requires
        call_ensures(RaftDriver::outbox, (driver,), r),
        call_ensures(RaftDriver::tick, (other,), ticked_on),
    ensures
        r matches Ok(out) ==> exists|messages: Vec<RaftMessage>, at: Seq<int>|
            {
                &&& #[trigger] processed(
                    old(driver).node(),
                    final(driver).node(),
                    Ok(messages),
                )
                &&& #[trigger] sent_from(at, as_bytes(out@), messages@, old(driver).peers())
            },
        final(driver).peers() == old(driver).peers(),
        ticked(old(other).node(), final(other).node(), ticked_on),
        final(other).peers() == old(other).peers(),
{
    if let Ok(out) = r {
        let messages = choose|messages: Vec<RaftMessage>| #[trigger]
            processed(old(driver).node(), final(driver).node(), Ok(messages)) && post(
                out@,
                messages@,
                old(driver).peers(),
            );
        let at = lemma_places(out@, messages@, old(driver).peers());
        assert(processed(old(driver).node(), final(driver).node(), Ok(messages)) && sent_from(
            at,
            as_bytes(out@),
            messages@,
            old(driver).peers(),
        ));
    }
}

/// A view is in step with a node if it is no longer than what the node has applied.
pub proof fn view_in_step_is_no_longer(driver: &RaftDriver, shared: &RaftShared, b: bool)
    requires
        call_ensures(RaftDriver::in_step, (driver, shared), b),
    ensures
        b <==> shared.data().len() <= driver.node().data().len(),
{
}

} // verus!
