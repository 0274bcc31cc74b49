//! One node of the replicated log.
//!
//! The `raft` crate holds the protocol; this module keeps its log and hard state,
//! collects what it wants to send, and applies what it has committed.
pub use crate::cluster::raw::{discard_logger, Logger};
use crate::cluster::raw::{
    apart, appended, approves, bare_message, begins, can_append, can_campaign, can_follow, can_propose, can_ready,
    can_restore, can_step, can_take, can_take_entries, can_take_snapshot, can_tick, can_win,
    commit_index, committed_to, conf_ok, emptied, entries_in, entries_of, entry_data, entry_index,
    entry_is_normal, entry_parts, entry_term, first_index, first_new, fresh_store, granted,
    hard_state_of, has_change, head_of, is_due, is_leading, is_refused, joins, kept, known, leads,
    last_index, light_parts, log_first, log_has, log_last, log_of, log_slice, may_advance, may_apply, may_campaign,
    may_have_ready, may_propose, may_ready, may_start, may_step, may_tick, may_write, message_entries, message_head,
    message_snapshot, new_raw, new_store, none_but, parsed_message, plain_message, position_of, put_commit, put_entries,
    put_hard_state, put_snapshot, quorum, read_message, reads_back, ready_parts,
    role_after_campaign, role_of, roomy, settled, sizable, sizable_entry, snapshot_auto_leave,
    snapshot_coming, snapshot_in, snapshot_index, snapshot_is_empty, snapshot_learners,
    snapshot_of, snapshot_outgoing, snapshot_parts, snapshot_term, snapshot_voters, store_first,
    store_last, store_parts, take_committed, take_light_committed, take_light_messages,
    take_messages, take_persisted, takes_proposals, tracks, validate, voters_ok, votes_of, with_snapshot,
    with_term_of, within, writable, write_fault, write_message, MessageHead, NodeHead, Position,
    RawNode, ReadyParts, Role, StoreParts, MSG_APPEND, MSG_APPEND_RESPONSE, MSG_BEAT,
    MSG_CHECK_QUORUM, MSG_HEARTBEAT, MSG_HEARTBEAT_RESPONSE, MSG_HUP, MSG_PRE_VOTE,
    MSG_PRE_VOTE_RESPONSE, MSG_PROPOSE, MSG_READ_INDEX, MSG_READ_INDEX_RESPONSE, MSG_SNAPSHOT,
    MSG_SNAP_STATUS, MSG_TIMEOUT_NOW, MSG_TRANSFER_LEADER, MSG_UNREACHABLE, MSG_VOTE,
    MSG_VOTE_RESPONSE,
};
use crate::cluster::weight::{entries_are_sizable, entry_is_sizable, is_sizable, LIMIT};
use crate::error::{is_corrupt, is_network, LatticeError, Result};
use raft::prelude::Message as RaftMessage;
use raft::prelude::{Entry, Snapshot};
use raft::storage::MemStorage;
use raft::{LightReady, Ready};
use vstd::prelude::*;
use vstd::string::*;

verus! {

/// What is to be kept fits the store.
pub open spec fn keepable(s: StoreParts, ready: ReadyParts) -> bool {
    &&& ready.snapshot.index != 0 ==> can_restore(s, ready.snapshot)
    &&& can_append(with_snapshot(s, ready), ready.entries)
}

/// The data of the entries that carry some. The entry that a new leader appends
/// carries none.
pub open spec fn payloads(entries: Seq<Entry>) -> Seq<Seq<u8>>
    decreases entries.len(),
{
    if entries.len() == 0 {
        seq![]
    } else {
        let e = entry_parts(entries.last());
        let before = payloads(entries.drop_last());
        if e.data.len() > 0 && e.normal {
            before.push(e.data)
        } else {
            before
        }
    }
}

/// Why a message cannot be written, if it cannot.
pub open spec fn fault_of(m: RaftMessage) -> Option<Seq<char>> {
    if sizable(m) {
        write_fault(m)
    } else {
        Some("message has no size"@)
    }
}

/// The result is the message as bytes, which read back as the message, or the error that
/// reports why it cannot be written.
pub open spec fn encoded_as(m: RaftMessage, r: Result<Vec<u8>>) -> bool {
    match r {
        Ok(bytes) => {
            &&& writable(m)
            &&& may_write(m, bytes@)
            &&& reads_back(m) && bytes@.len() <= i32::MAX ==> parsed_message(bytes@) == Ok::<
                RaftMessage,
                Seq<char>,
            >(m)
        },
        Err(e) => fault_of(m) matches Some(text) && is_network(e, "raft encode: "@ + text),
    }
}

/// The result is the message in some bytes, or the error that reports why there is none.
pub open spec fn decoded_as(bytes: Seq<u8>, r: Result<RaftMessage>) -> bool {
    match parsed_message(bytes) {
        Ok(m) => r == Ok::<RaftMessage, LatticeError>(m) && plain_message(m),
        Err(text) => r matches Err(e) && is_network(e, "raft decode: "@ + text),
    }
}

/// A message as bytes, which read back as the message. It can be written if its size can
/// be computed and it lacks nothing.
pub fn encode_message(msg: &RaftMessage) -> (r: Result<Vec<u8>>)
    ensures
        encoded_as(*msg, r),
        r is Ok <==> sizable(*msg) && write_fault(*msg) is None,
        r matches Ok(bytes) ==> may_write(*msg, bytes@),
{
    if !is_sizable(msg) {
        return Err(unwritten(String::from_str("message has no size")));
    }
    match write_message(msg) {
        Ok(bytes) => Ok(bytes),
        Err(text) => Err(unwritten(text)),
    }
}

/// The error that reports why a message cannot be written.
pub fn unwritten(text: String) -> (e: LatticeError)
    ensures
        is_network(e, "raft encode: "@ + text@),
{
    LatticeError::Network(String::from_str("raft encode: ").concat(text.as_str()))
}

/// The message in some bytes.
pub fn decode_message(bytes: &[u8]) -> (r: Result<RaftMessage>)
    ensures
        decoded_as(bytes@, r),
        r is Ok <==> parsed_message(bytes@) is Ok,
{
    received_message(read_message(bytes))
}

/// The message that came out of some bytes, or the error that reports why there
/// is none.
pub fn received_message(parsed: core::result::Result<RaftMessage, String>) -> (r: Result<RaftMessage>)
    ensures
        match parsed {
            Ok(m) => r == Ok::<RaftMessage, LatticeError>(m),
            Err(text) => r matches Err(e) && is_network(e, "raft decode: "@ + text@),
        },
{
    match parsed {
        Ok(m) => Ok(m),
        Err(text) => Err(
            LatticeError::Network(String::from_str("raft decode: ").concat(text.as_str())),
        ),
    }
}

/// What byte strings hold.
pub open spec fn blobs(v: Seq<Vec<u8>>) -> Seq<Seq<u8>> {
    v.map_values(|b: Vec<u8>| b@)
}

/// The result of a call into the protocol, in the terms of the library.
pub open spec fn reported(
    r: Result<()>,
    from: core::result::Result<(), raft::Error>,
) -> bool {
    match from {
        Ok(_) => r is Ok,
        Err(e) => r matches Err(LatticeError::Raft(f)) && f == e,
    }
}

/// The result of a call into the protocol, in the terms of the library.
pub fn report(from: core::result::Result<(), raft::Error>) -> (r: Result<()>)
    ensures
        reported(r, from),
{
    match from {
        Ok(_) => Ok(()),
        Err(e) => Err(LatticeError::Raft(e)),
    }
}

/// The error says why something cannot be kept: a snapshot from before the log, or else
/// no room, or entries that do not follow upon the log.
pub open spec fn unkept(e: LatticeError, s: StoreParts, ready: ReadyParts) -> bool {
    if ready.snapshot.index != 0 && ready.snapshot.index < first_index(s) <= u64::MAX {
        e is Raft
    } else {
        is_corrupt(e, "raft entries do not follow the log"@)
    }
}

/// The log and hard state of a node, and the data that were applied.
pub struct Replica {
    store: MemStorage,
    /// The number of entries in the log.
    count: usize,
    applied: Vec<Vec<u8>>,
}

impl Replica {
    /// The log and hard state.
    pub closed spec fn store(self) -> StoreParts {
        store_parts(self.store)
    }

    /// The data that were applied, in their order.
    pub closed spec fn data(self) -> Seq<Seq<u8>> {
        blobs(self.applied@)
    }

    pub closed spec fn wf(self) -> bool {
        self.count == store_parts(self.store).entries.len()
    }

    /// Which log it is.
    pub closed spec fn log(self) -> int {
        log_of(self.store)
    }

    /// An empty log with the given voters.
    pub fn new(voters: &[u64]) -> (replica: Self)
        ensures
            replica.wf(),
            replica.store() == fresh_store(voters@),
            replica.data() == Seq::<Seq<u8>>::empty(),
    {
        let replica = Replica { store: new_store(voters), count: 0, applied: Vec::new() };
        assert(replica.data() =~= Seq::<Seq<u8>>::empty());
        replica
    }

    /// The data that were applied, in their order.
    pub fn applied(&self) -> (data: &[Vec<u8>])
        ensures
            blobs(data@) == self.data(),
    {
        self.applied.as_slice()
    }

    /// Keeps the snapshot, the entries and the hard state, applies the committed
    /// entries, and collects the messages.
    pub fn persist(&mut self, ready: &mut Ready) -> (r: Result<Vec<RaftMessage>>)
        requires
            old(self).wf(),
        ensures
            final(self).wf(),
            final(self).log() == old(self).log(),
            match r {
                Ok(out) => {
                    let parts = ready_parts(*old(ready));
                    &&& keepable(old(self).store(), parts)
                    &&& out@ == parts.messages + parts.persisted
                    &&& final(self).store() == kept(old(self).store(), parts)
                    &&& final(self).data() == old(self).data() + payloads(parts.committed)
                    &&& ready_parts(*final(ready)) == emptied(parts)
                },
                Err(e) => {
                    &&& !keepable(old(self).store(), ready_parts(*old(ready)))
                    &&& unkept(e, old(self).store(), ready_parts(*old(ready)))
                    &&& final(self).data() == old(self).data() || final(self).data() == old(
                        self,
                    ).data() + payloads(ready_parts(*old(ready)).committed)
                },
            },
    {
        let ghost parts = ready_parts(*ready);
        let ghost before = self.store();
        let mut out = take_messages(ready);
        let snapshot = snapshot_of(ready);
        if !snapshot_is_empty(&snapshot) {
            if self.is_full() {
                return Err(gap());
            }
            match put_snapshot(&mut self.store, snapshot) {
                Ok(_) => {
                    self.count = 0;
                },
                Err(e) => {
                    return Err(LatticeError::Raft(e));
                },
            }
        }
        assert(self.store() == with_snapshot(before, parts));
        let committed = take_committed(ready);
        self.apply(committed);
        let entries = entries_of(ready);
        if !self.fits(entries.as_slice()) {
            return Err(gap());
        }
        if entries.len() > 0 {
            let first = entry_index(&entries[0]);
            let start = match store_first(&self.store) {
                Ok(index) => index,
                Err(e) => {
                    return Err(LatticeError::Raft(e));
                },
            };
            let ghost grown = appended(self.store(), entries@);
            assert(grown.entries.len() == first - start + entries@.len());
            match put_entries(&mut self.store, entries.as_slice()) {
                Ok(_) => {
                    self.count = (first - start) as usize + entries.len();
                },
                Err(e) => {
                    return Err(LatticeError::Raft(e));
                },
            }
        }
        match hard_state_of(ready) {
            Some(hs) => {
                put_hard_state(&mut self.store, hs);
            },
            None => {},
        }
        let mut persisted = take_persisted(ready);
        out.append(&mut persisted);
        Ok(out)
    }

    /// Keeps the commit index, applies the committed entries, and collects the
    /// messages.
    pub fn settle(&mut self, light: &mut LightReady) -> (out: Vec<RaftMessage>)
        requires
            old(self).wf(),
        ensures
            final(self).wf(),
            final(self).log() == old(self).log(),
            out@ == light_parts(*old(light)).messages,
            final(self).store() == committed_to(old(self).store(), light_parts(*old(light)).commit),
            final(self).data() == old(self).data() + payloads(light_parts(*old(light)).committed),
    {
        match commit_index(light) {
            Some(commit) => {
                put_commit(&mut self.store, commit);
            },
            None => {},
        }
        let out = take_light_messages(light);
        let committed = take_light_committed(light);
        self.apply(committed);
        out
    }

    /// Takes over the data of the entries that carry some.
    fn apply(&mut self, entries: Vec<Entry>)
        ensures
            final(self).store == old(self).store,
            final(self).count == old(self).count,
            final(self).data() == old(self).data() + payloads(entries@),
    {
        let ghost before = self.data();
        let mut i: usize = 0;
        assert(before + payloads(entries@.take(0)) =~= before);
        while i < entries.len()
            invariant
                i <= entries@.len(),
                self.store == old(self).store,
                self.count == old(self).count,
                self.data() == before + payloads(entries@.take(i as int)),
            decreases entries@.len() - i,
        {
            let data = entry_data(&entries[i]);
            let ghost sofar = self.data();
            proof {
                let grown = entries@.take(i + 1);
                assert(grown.drop_last() =~= entries@.take(i as int));
                assert(grown.last() == entries@[i as int]);
            }
            if data.len() > 0 && entry_is_normal(&entries[i]) {
                let ghost pushed = data@;
                self.applied.push(data);
                assert(self.data() =~= sofar.push(pushed));
            }
            assert(self.data() =~= before + payloads(entries@.take(i + 1)));
            i = i + 1;
        }
        assert(entries@.take(i as int) =~= entries@);
    }

    /// Whether the log is empty and no index comes behind it.
    fn is_full(&self) -> (b: bool)
        requires
            self.wf(),
        ensures
            b == (first_index(self.store()) > u64::MAX),
    {
        if self.count > 0 {
            return false;
        }
        match store_last(&self.store) {
            Ok(last) => last == u64::MAX,
            Err(_) => false,
        }
    }

    /// Whether entries can be appended to the log.
    fn fits(&self, entries: &[Entry]) -> (b: bool)
        requires
            self.wf(),
        ensures
            b == can_append(self.store(), entries@),
    {
        if entries.len() == 0 {
            return true;
        }
        let first = entry_index(&entries[0]);
        let hi = match store_last(&self.store) {
            Ok(hi) => hi,
            Err(_) => {
                return false;
            },
        };
        if hi == u64::MAX {
            return false;
        }
        match store_first(&self.store) {
            Ok(lo) => lo <= first && first <= hi + 1 && first - lo <= self.count as u64,
            Err(_) => false,
        }
    }
}

/// The error for entries that do not follow upon the log.
fn gap() -> (e: LatticeError)
    ensures
        is_corrupt(e, "raft entries do not follow the log"@),
{
    LatticeError::Corrupt(String::from_str("raft entries do not follow the log"))
}

/// The error for a node that can no longer be used.
fn stopped() -> (e: LatticeError)
    ensures
        is_corrupt(e, "raft node has stopped"@),
{
    LatticeError::Corrupt(String::from_str("raft node has stopped"))
}

/// The error for a node that cannot stand for election.
fn unelectable() -> (e: LatticeError)
    ensures
        is_corrupt(e, "raft node cannot stand for election"@),
{
    LatticeError::Corrupt(String::from_str("raft node cannot stand for election"))
}

/// The error for a log without room.
fn full() -> (e: LatticeError)
    ensures
        is_corrupt(e, "raft log is full"@),
{
    LatticeError::Corrupt(String::from_str("raft log is full"))
}

/// The error for data too large for an entry.
fn oversized() -> (e: LatticeError)
    ensures
        is_corrupt(e, "raft entry is too large"@),
{
    LatticeError::Corrupt(String::from_str("raft entry is too large"))
}

/// The error for a message that contradicts the state of the node.
fn unacceptable() -> (e: LatticeError)
    ensures
        is_corrupt(e, "raft message contradicts the node"@),
{
    LatticeError::Corrupt(String::from_str("raft message contradicts the node"))
}

/// Whether an id is among some others.
pub(crate) fn is_among(ids: &[u64], id: u64) -> (b: bool)
    ensures
        b == ids@.contains(id),
{
    let mut i: usize = 0;
    while i < ids.len()
        invariant
            i <= ids@.len(),
            forall|k: int| 0 <= k < i ==> ids@[k] != id,
        decreases ids@.len() - i,
    {
        if ids[i] == id {
            return true;
        }
        i = i + 1;
    }
    false
}

impl Position {
    fn is_roomy(&self) -> (b: bool)
        ensures
            b == roomy(*self),
    {
        self.last < u64::MAX - 1
    }

    fn may_win(&self) -> (b: bool)
        ensures
            b == can_win(*self),
    {
        self.member && self.last == self.log.persisted
    }

    /// Whether the node can be told to stand for election.
    fn may_stand(&self) -> (b: bool)
        ensures
            b == can_campaign(*self),
    {
        self.role == Role::Leader || self.readable && (self.changing || self.is_roomy()
            && self.head.term < u64::MAX && (!self.alone || self.may_win()))
    }

    /// Whether the node can be told that time has passed.
    fn may_wait(&self) -> (b: bool)
        ensures
            b == can_tick(*self),
    {
        self.head.elapsed < usize::MAX && (self.role == Role::Leader || !self.head.promotable
            || self.head.elapsed + 1 < self.head.timeout || self.may_stand())
    }

    /// Whether the node can be asked what is to be done.
    fn may_ready(&self) -> (b: bool)
        ensures
            b == can_ready(*self),
    {
        self.role != Role::Leader || !self.head.auto_leave || self.last < u64::MAX - 4
    }

    /// Whether the node answers yes to a candidate.
    fn approving(&self, h: &MessageHead) -> (b: bool)
        ensures
            b == approves(*self, *h),
    {
        (self.head.vote == h.from || self.head.vote == 0 && self.head.leader == 0 || h.kind
            == MSG_PRE_VOTE && h.term > self.head.term) && (h.log_term > self.last_term
            || h.log_term == self.last_term && h.index >= self.last) && (h.index > self.last
            || h.priority >= 0)
    }

    /// Where the node stands once it has taken over the term of a message.
    fn after(self, h: &MessageHead) -> (p: Position)
        ensures
            p == with_term_of(self, *h),
    {
        if h.term > self.head.term && h.kind != MSG_PRE_VOTE && (h.kind != MSG_PRE_VOTE_RESPONSE
            || h.reject) {
            let leader: u64 = if leading(h.kind) {
                h.from
            } else {
                0
            };
            Position {
                role: Role::Follower,
                head: NodeHead { term: h.term, vote: 0, leader, ..self.head },
                ..self
            }
        } else {
            self
        }
    }

    /// Whether entries can take their place in the log from an index on.
    fn joining(&self, entries: &[Entry], start: usize, index: u64) -> (b: bool)
        requires
            start <= entries@.len(),
        ensures
            b == joins(*self, entries@.skip(start as int), index),
    {
        let n: u64 = (entries.len() - start) as u64;
        let ghost rest = entries@.skip(start as int);
        if index <= self.log.committed || index - 1 > self.last || n >= u64::MAX - 1 || index
            >= u64::MAX - 1 - n {
            return false;
        }
        let mut i: usize = start;
        while i < entries.len()
            invariant
                start <= i <= entries@.len(),
                rest == entries@.skip(start as int),
                index + rest.len() + 1 < u64::MAX,
                forall|k: int|
                    0 <= k < i - start ==> {
                        &&& entry_parts(#[trigger] rest[k]).index == index + k
                        &&& sizable_entry(entry_parts(rest[k]))
                    },
            decreases entries@.len() - i,
        {
            assert(rest[i - start] == entries@[i as int]);
            if entry_index(&entries[i]) != index + (i - start) as u64 || !entry_is_sizable(
                &entries[i],
            ) {
                return false;
            }
            i = i + 1;
        }
        true
    }
}

/// Whether messages of this kind come from a leader.
fn leading(kind: i32) -> (b: bool)
    ensures
        b == is_leading(kind),
{
    kind == MSG_APPEND || kind == MSG_HEARTBEAT || kind == MSG_SNAPSHOT
}

/// Whether none of the ids is among others.
fn are_apart(ids: &[u64], others: &[u64]) -> (b: bool)
    ensures
        b == apart(ids@, others@),
{
    let mut i: usize = 0;
    while i < ids.len()
        invariant
            i <= ids@.len(),
            forall|k: int| 0 <= k < i ==> !others@.contains(#[trigger] ids@[k]),
        decreases ids@.len() - i,
    {
        if is_among(others, ids[i]) {
            assert(others@.contains(ids@[i as int]));
            return false;
        }
        i = i + 1;
    }
    true
}

/// Whether all of the ids are among others.
fn are_within(ids: &[u64], others: &[u64]) -> (b: bool)
    ensures
        b == within(ids@, others@),
{
    let mut i: usize = 0;
    while i < ids.len()
        invariant
            i <= ids@.len(),
            forall|k: int| 0 <= k < i ==> others@.contains(#[trigger] ids@[k]),
        decreases ids@.len() - i,
    {
        if !is_among(others, ids[i]) {
            assert(!others@.contains(ids@[i as int]));
            return false;
        }
        i = i + 1;
    }
    true
}

/// Whether the configuration in a snapshot can be taken over.
fn conf_is_ok(s: &Snapshot) -> (b: bool)
    ensures
        b == conf_ok(snapshot_parts(*s)),
{
    let voters = snapshot_voters(s);
    let learners = snapshot_learners(s);
    let outgoing = snapshot_outgoing(s);
    let coming = snapshot_coming(s);
    voters.len() > 0 && !is_among(voters, 0) && !is_among(learners, 0) && !is_among(outgoing, 0)
        && are_apart(learners, voters) && are_apart(learners, outgoing) && are_apart(coming, voters)
        && are_within(coming, outgoing) && (!snapshot_auto_leave(s) || outgoing.len() > 0)
}

/// A node: the protocol over a log of its own. Once a batch could not be carried out
/// the node has stopped.
pub struct RaftNode {
    id: u64,
    raw: RawNode,
    replica: Replica,
    stopped: bool,
}

impl RaftNode {
    /// The state of the protocol.
    pub closed spec fn raw(self) -> RawNode {
        self.raw
    }

    /// The log and hard state.
    pub closed spec fn store(self) -> StoreParts {
        self.replica.store()
    }

    /// The id of the node.
    pub closed spec fn number(self) -> u64 {
        self.id
    }

    /// The data that were applied, in their order.
    pub closed spec fn data(self) -> Seq<Seq<u8>> {
        self.replica.data()
    }

    /// A batch could not be carried out.
    pub closed spec fn has_stopped(self) -> bool {
        self.stopped
    }

    /// Unless the node has stopped, the protocol waits for nothing and its log holds
    /// what it expects.
    pub closed spec fn wf(self) -> bool {
        &&& self.replica.wf()
        &&& !self.stopped ==> settled(self.raw, self.replica.store)
    }

    /// Where the node stands.
    pub open spec fn position(self) -> Position {
        position_of(self.raw(), self.store())
    }

    /// Only the state of the protocol may differ.
    pub open spec fn same_but_raw(self, other: RaftNode) -> bool {
        &&& other.store() == self.store()
        &&& other.number() == self.number()
        &&& other.data() == self.data()
        &&& other.has_stopped() == self.has_stopped()
    }

    /// A node with an empty log, which follows nobody yet. Its id, and the first voter, must not be 0.
    pub fn new(id: u64, voters: &[u64], logger: &Logger) -> (r: Result<Self>)
        requires
            id != 0 ==> voters_ok(voters@),
        ensures
            started(id, voters@, r),
            r matches Ok(node) ==> node.wf() && node.number() == id && node.store().voters
                == voters@,
    {
        let election_tick: usize = 10;
        let heartbeat_tick: usize = 3;
        match validate(id, election_tick, heartbeat_tick) {
            Ok(_) => {},
            Err(e) => {
                return Err(LatticeError::Raft(e));
            },
        }
        let replica = Replica::new(voters);
        match new_raw(id, election_tick, heartbeat_tick, &replica.store, logger) {
            Ok(raw) => Ok(RaftNode { id, raw, replica, stopped: false }),
            Err(e) => Err(LatticeError::Raft(e)),
        }
    }

    pub fn id(&self) -> (id: u64)
        ensures
            id == self.number(),
    {
        self.id
    }

    pub fn is_leader(&self) -> (b: bool)
        ensures
            b == leads(self.raw()),
    {
        self.raw.role() == Role::Leader
    }

    /// Where the node stands.
    fn sight(&self) -> (p: Position)
        requires
            self.wf(),
            !self.has_stopped(),
        ensures
            p == self.position(),
    {
        let head = self.raw.head();
        let log = self.raw.log();
        let last = self.raw.last(&self.replica.store);
        let first = self.raw.first(&self.replica.store);
        let (readable, low) = match log.unstable {
            Some(index) => (true, index),
            None => if log.applied < u64::MAX {
                (true, log.applied + 1)
            } else {
                (false, 0)
            },
        };
        let readable = readable && log.committed < u64::MAX && first <= low && low <= log.committed
            + 1 && log.committed <= last;
        let changing = readable && self.changes(low, log.committed + 1);
        let own = [head.id];
        assert(own@.to_set() =~= set![head.id]) by {
            assert(own@ =~= seq![head.id]);
            assert forall|id: u64| own@.contains(id) == (id == head.id) by {
                assert(own@[0] == head.id);
            }
        }
        Position {
            role: self.raw.role(),
            head,
            log,
            last,
            last_term: self.raw.last_term(&self.replica.store),
            member: self.raw.tracks(head.id),
            alone: self.raw.has_quorum(own.as_slice()),
            readable,
            changing,
        }
    }

    /// Whether there is a change of the configuration in the log from an index up to
    /// another.
    fn changes(&self, low: u64, high: u64) -> (b: bool)
        requires
            self.wf(),
            !self.has_stopped(),
            log_first(self.raw(), self.store()) <= low <= high <= log_last(self.raw(), self.store())
                + 1,
        ensures
            b == has_change(log_slice(self.raw(), self.store(), low, high)),
    {
        match self.raw.slice(&self.replica.store, low, high) {
            Ok(entries) => {
                let mut i: usize = 0;
                while i < entries.len()
                    invariant
                        i <= entries@.len(),
                        entries@ == log_slice(self.raw(), self.store(), low, high),
                        forall|k: int| 0 <= k < i ==> entry_parts(#[trigger] entries@[k]).normal,
                    decreases entries@.len() - i,
                {
                    if !entry_is_normal(&entries[i]) {
                        assert(!entry_parts(entries@[i as int]).normal);
                        return true;
                    }
                    i = i + 1;
                }
                false
            },
            Err(_) => false,
        }
    }

    /// Whether the votes for this node are enough with one more.
    fn decides(&self, from: u64) -> (b: bool)
        ensures
            b == quorum(self.raw(), granted(votes_of(self.raw()), from)),
    {
        let votes = self.raw.votes();
        let ghost map = votes_of(self.raw());
        let mut ids: Vec<u64> = Vec::new();
        let mut voted = false;
        let mut i: usize = 0;
        while i < votes.len()
            invariant
                i <= votes@.len(),
                forall|k: int|
                    0 <= k < votes@.len() ==> map.contains_pair(
                        (#[trigger] votes@[k]).0,
                        votes@[k].1,
                    ),
                forall|id: u64| #[trigger]
                    ids@.contains(id) ==> map.contains_key(id) && map[id],
                forall|k: int|
                    0 <= k < i && (#[trigger] votes@[k]).1 ==> ids@.contains(votes@[k].0),
                voted ==> map.contains_key(from),
                forall|k: int| 0 <= k < i && (#[trigger] votes@[k]).0 == from ==> voted,
            decreases votes@.len() - i,
        {
            let (id, vote) = votes[i];
            if vote {
                let ghost before = ids@;
                ids.push(id);
                assert(forall|k: u64| #[trigger] before.push(id).contains(k) == (before.contains(k)
                    || k == id)) by {
                    broadcast use vstd::seq_lib::group_seq_properties;

                }
            }
            if id == from {
                voted = true;
            }
            i = i + 1;
        }
        let ghost before = ids@;
        if !voted {
            ids.push(from);
            assert(forall|k: u64| #[trigger] before.push(from).contains(k) == (before.contains(k)
                || k == from)) by {
                broadcast use vstd::seq_lib::group_seq_properties;

            }
        }
        assert(ids@.to_set() =~= granted(map, from)) by {
            assert forall|id: u64| ids@.contains(id) == granted(map, from).contains(id) by {
                if map.contains_key(id) {
                    let k = votes@.index_of((id, map[id]));
                    assert(votes@[k] == (id, map[id]));
                }
            }
        }
        self.raw.has_quorum(ids.as_slice())
    }

    /// Lets time pass.
    pub fn tick(&mut self) -> (r: Result<bool>)
        requires
            old(self).wf(),
        ensures
            final(self).wf(),
            old(self).same_but_raw(*final(self)),
            ticked(*old(self), *final(self), r),
    {
        if self.stopped {
            return Err(stopped());
        }
        if !self.sight().may_wait() {
            return Err(unelectable());
        }
        Ok(self.raw.tick(&self.replica.store))
    }

    /// Stands for election.
    pub fn campaign(&mut self) -> (r: Result<()>)
        requires
            old(self).wf(),
        ensures
            final(self).wf(),
            old(self).same_but_raw(*final(self)),
            campaigned(*old(self), *final(self), r),
    {
        if self.stopped {
            return Err(stopped());
        }
        if !self.sight().may_stand() {
            return Err(unelectable());
        }
        let from = self.raw.campaign(&self.replica.store);
        assert(may_campaign(old(self).raw(), self.raw(), from));
        report(from)
    }

    /// Proposes data for the log.
    pub fn propose(&mut self, data: Vec<u8>) -> (r: Result<()>)
        requires
            old(self).wf(),
        ensures
            final(self).wf(),
            old(self).same_but_raw(*final(self)),
            proposed(*old(self), data@, *final(self), r),
    {
        if self.stopped {
            return Err(stopped());
        }
        let p = self.sight();
        if p.role == Role::Leader {
            if !p.is_roomy() {
                return Err(full());
            }
            if data.len() as u64 >= LIMIT - 96 {
                return Err(oversized());
            }
        }
        let context: Vec<u8> = Vec::new();
        assert(context@ =~= Seq::<u8>::empty());
        let ghost given = data@;
        let from = self.raw.propose(&self.replica.store, context, data);
        assert(may_propose(old(self).raw(), Seq::<u8>::empty(), given, self.raw(), from));
        report(from)
    }

    /// Takes in a message of another node.
    pub fn step(&mut self, msg: RaftMessage) -> (r: Result<()>)
        requires
            old(self).wf(),
        ensures
            final(self).wf(),
            old(self).same_but_raw(*final(self)),
            stepped(*old(self), msg, *final(self), r),
    {
        if self.stopped {
            return Err(stopped());
        }
        if !self.accepts(&msg) {
            return Err(unacceptable());
        }
        let from = self.raw.step(&self.replica.store, msg);
        assert(may_step(old(self).raw(), msg, self.raw(), from));
        report(from)
    }

    /// Whether the node can be given a message.
    fn accepts(&self, msg: &RaftMessage) -> (b: bool)
        requires
            self.wf(),
            !self.has_stopped(),
        ensures
            b == can_step(self.raw(), self.store(), *msg),
    {
        let h = head_of(msg);
        let local = h.kind == MSG_HUP || h.kind == MSG_BEAT || h.kind == MSG_UNREACHABLE || h.kind
            == MSG_SNAP_STATUS || h.kind == MSG_CHECK_QUORUM;
        let response = h.kind == MSG_APPEND_RESPONSE || h.kind == MSG_VOTE_RESPONSE || h.kind
            == MSG_HEARTBEAT_RESPONSE || h.kind == MSG_PRE_VOTE_RESPONSE;
        if local || response && !self.raw.tracks(h.from) {
            return true;
        }
        let p = self.sight();
        if h.term != 0 && h.term < p.head.term {
            return true;
        }
        self.takes(msg, &h, &p.after(&h))
    }

    /// Whether a node at this position can take in a message.
    fn takes(&self, msg: &RaftMessage, h: &MessageHead, p: &Position) -> (b: bool)
        requires
            self.wf(),
            !self.has_stopped(),
            *h == message_head(*msg),
        ensures
            b == can_take(self.raw(), self.store(), *msg, *p),
    {
        if !p.is_roomy() {
            return false;
        }
        if h.kind == MSG_VOTE || h.kind == MSG_PRE_VOTE {
            return if p.approving(h) {
                h.term != 0
            } else {
                p.head.term != 0
            };
        }
        match p.role {
            Role::Leader => if h.kind == MSG_PROPOSE {
                let n = entries_in(msg).len() as u64;
                n > 0 && n < u64::MAX - p.last && entries_are_sizable(entries_in(msg))
            } else if h.kind == MSG_READ_INDEX {
                entries_in(msg).len() > 0 || !self.raw.has(
                    &self.replica.store,
                    p.log.committed,
                    p.head.term,
                ) || p.head.singleton && h.from != 0 && h.from != p.head.id
            } else if h.kind == MSG_APPEND_RESPONSE {
                h.index < u64::MAX - 1 && h.reject_hint < u64::MAX && h.request_snapshot
                    < u64::MAX
            } else {
                true
            },
            Role::Follower => self.follows(msg, h, p),
            _ => if leading(h.kind) {
                h.term != 0 && self.follows(msg, h, p)
            } else if p.role == Role::Candidate && h.kind == MSG_VOTE_RESPONSE || p.role
                == Role::PreCandidate && h.kind == MSG_PRE_VOTE_RESPONSE {
                h.reject || p.may_win() && (p.role == Role::Candidate || p.head.term < u64::MAX)
                    || !self.decides(h.from)
            } else {
                true
            },
        }
    }

    /// Whether a follower at this position can take in a message.
    fn follows(&self, msg: &RaftMessage, h: &MessageHead, p: &Position) -> (b: bool)
        requires
            self.wf(),
            !self.has_stopped(),
            *h == message_head(*msg),
        ensures
            b == can_follow(self.raw(), self.store(), *msg, *p),
    {
        if h.kind == MSG_PROPOSE || h.kind == MSG_TRANSFER_LEADER || h.kind == MSG_READ_INDEX {
            h.term == 0 || p.head.leader == 0
        } else if h.kind == MSG_APPEND {
            if h.index < p.log.committed || !self.raw.has(
                &self.replica.store,
                h.index,
                h.log_term,
            ) {
                return true;
            }
            self.takes_entries(entries_in(msg), h, p)
        } else if h.kind == MSG_HEARTBEAT {
            h.commit <= p.last
        } else if h.kind == MSG_SNAPSHOT {
            self.restores(snapshot_in(msg), p)
        } else if h.kind == MSG_TIMEOUT_NOW {
            !p.head.promotable || p.may_stand()
        } else if h.kind == MSG_READ_INDEX_RESPONSE {
            h.term != 0 || h.index <= p.last || entries_in(msg).len() != 1
        } else {
            true
        }
    }

    /// The position of the first entry that the log does not have.
    fn find_new(&self, entries: &[Entry]) -> (i: usize)
        requires
            self.wf(),
            !self.has_stopped(),
        ensures
            i <= entries@.len(),
            i == first_new(self.raw(), self.store(), entries@, 0),
    {
        let mut i: usize = 0;
        while i < entries.len()
            invariant
                self.wf(),
                !self.has_stopped(),
                i <= entries@.len(),
                first_new(self.raw(), self.store(), entries@, 0) == first_new(
                    self.raw(),
                    self.store(),
                    entries@,
                    i as int,
                ),
            decreases entries@.len() - i,
        {
            let e = &entries[i];
            if !self.raw.has(&self.replica.store, entry_index(e), entry_term(e)) {
                return i;
            }
            i = i + 1;
        }
        i
    }

    /// Whether a follower at this position can take in entries.
    fn takes_entries(&self, entries: &[Entry], h: &MessageHead, p: &Position) -> (b: bool)
        requires
            self.wf(),
            !self.has_stopped(),
        ensures
            b == can_take_entries(self.raw(), self.store(), *h, entries@, *p),
    {
        let i = self.find_new(entries);
        let n: u64 = entries.len() as u64;
        if n > u64::MAX - h.index {
            return false;
        }
        let commit: u64 = if h.commit <= h.index + n {
            h.commit
        } else {
            h.index + n
        };
        if i == entries.len() {
            return commit <= p.last;
        }
        let at = entry_index(&entries[i]);
        if at == 0 {
            return commit <= p.last;
        }
        if at <= p.log.committed || at - 1 < h.index || at - 1 - h.index > n {
            return false;
        }
        let start: usize = (at - 1 - h.index) as usize;
        if start == entries.len() {
            commit <= p.last
        } else {
            p.joining(entries, start, at) && commit < at + (n - start as u64)
        }
    }

    /// Whether a follower at this position can take in a snapshot.
    fn restores(&self, s: &Snapshot, p: &Position) -> (b: bool)
        requires
            self.wf(),
            !self.has_stopped(),
        ensures
            b == can_take_snapshot(self.raw(), self.store(), *p, snapshot_parts(*s)),
    {
        let index = snapshot_index(s);
        if index < p.log.committed {
            return true;
        }
        let id = p.head.id;
        if !is_among(snapshot_voters(s), id) && !is_among(snapshot_learners(s), id) && !is_among(
            snapshot_outgoing(s),
            id,
        ) {
            return true;
        }
        if self.raw.has(&self.replica.store, index, snapshot_term(s)) {
            index <= p.last
        } else {
            conf_is_ok(s) && index > 0 && index < u64::MAX - 2
        }
    }

    /// The data that were applied, in their order.
    pub fn applied(&self) -> (data: &[Vec<u8>])
        ensures
            blobs(data@) == self.data(),
    {
        self.replica.applied()
    }

    /// Does what the protocol wants done, if anything: keeps state, applies committed
    /// entries, and collects the messages to be sent. What cannot be done stops the
    /// node.
    pub fn process_ready(&mut self) -> (r: Result<Vec<RaftMessage>>)
        requires
            old(self).wf(),
        ensures
            final(self).wf(),
            processed(*old(self), *final(self), r),
    {
        if self.stopped {
            return Err(stopped());
        }
        if !self.raw.has_ready() {
            return Ok(Vec::new());
        }
        if !self.sight().may_ready() {
            return Err(full());
        }
        let ghost start = *self;
        let mut ready = self.raw.ready(&self.replica.store);
        let ghost first = ready;
        let ghost begun = *self;
        assert(may_ready(start.raw(), first, begun.raw()));
        let mut out = match self.replica.persist(&mut ready) {
            Ok(out) => out,
            Err(e) => {
                self.stopped = true;
                assert(start.data().is_prefix_of(self.data()));
                assert(ready_handled(start, first, *self, Err(e)));
                return Err(e);
            },
        };
        let ghost rest = ready;
        let mut light = self.raw.advance(&self.replica.store, ready);
        let ghost second = light;
        let ghost advanced = *self;
        assert(may_advance(begun.raw(), rest, second, advanced.raw()));
        let mut more = self.replica.settle(&mut light);
        out.append(&mut more);
        self.raw.advance_apply(&self.replica.store);
        proof {
            assert(may_apply(advanced.raw(), self.raw()));
            assert(light_handled(start, first, begun.raw(), rest, second, advanced.raw(), *self));
            assert(out@ =~= ready_parts(first).messages + ready_parts(first).persisted
                + light_parts(second).messages);
            assert(ready_handled(start, first, *self, Ok(out)));
        }
        Ok(out)
    }
}

/// A node was started with this id and these voters, or refused: its id, and the first
/// voter, must not be 0.
pub open spec fn started(id: u64, voters: Seq<u64>, r: Result<RaftNode>) -> bool {
    match r {
        Ok(node) => {
            &&& id != 0
            &&& voters.len() == 0 || voters[0] != 0
            &&& node.wf()
            &&& !node.has_stopped()
            &&& node.number() == id
            &&& node.store() == fresh_store(voters)
            &&& node.data() == Seq::<Seq<u8>>::empty()
            &&& begins(node.position(), id, 10, voters)
            &&& may_start(id, 10, 3, node.store(), node.raw())
        },
        Err(e) => {
            &&& id == 0 || voters.len() > 0 && voters[0] == 0
            &&& e is Raft
        },
    }
}

/// The node refused something with an error and did not change.
pub open spec fn refused(a: RaftNode, b: RaftNode, e: LatticeError, text: Seq<char>) -> bool {
    b == a && is_corrupt(e, text)
}

/// Time passed for the node, unless it has stopped or cannot stand for election.
pub open spec fn ticked(a: RaftNode, b: RaftNode, r: Result<bool>) -> bool {
    if a.has_stopped() {
        r matches Err(e) && refused(a, b, e, "raft node has stopped"@)
    } else if !can_tick(a.position()) {
        r matches Err(e) && refused(a, b, e, "raft node cannot stand for election"@)
    } else {
        r matches Ok(ready) && {
            &&& may_tick(a.raw(), b.raw(), ready)
            &&& !leads(a.raw()) ==> ready == is_due(a.position())
            &&& role_of(b.raw()) == if is_due(a.position()) {
                role_after_campaign(a.position())
            } else {
                role_of(a.raw())
            }
        }
    }
}

/// The node stood for election, unless it has stopped or cannot. Where its own vote is
/// enough and no change of the configuration is pending, it leads from then on.
pub open spec fn campaigned(a: RaftNode, b: RaftNode, r: Result<()>) -> bool {
    if a.has_stopped() {
        r matches Err(e) && refused(a, b, e, "raft node has stopped"@)
    } else if !can_campaign(a.position()) {
        r matches Err(e) && refused(a, b, e, "raft node cannot stand for election"@)
    } else {
        &&& r is Ok
        &&& role_of(b.raw()) == role_after_campaign(a.position())
        &&& exists|from: core::result::Result<(), raft::Error>| #[trigger]
            may_campaign(a.raw(), b.raw(), from) && reported(r, from)
    }
}

/// Data were proposed, unless the node has stopped, or leads and has no room for them. A
/// node that neither leads nor knows a leader reports an error.
pub open spec fn proposed(a: RaftNode, data: Seq<u8>, b: RaftNode, r: Result<()>) -> bool {
    if a.has_stopped() {
        r matches Err(e) && refused(a, b, e, "raft node has stopped"@)
    } else if leads(a.raw()) && !roomy(a.position()) {
        r matches Err(e) && refused(a, b, e, "raft log is full"@)
    } else if !can_propose(a.position(), 0, data.len()) {
        r matches Err(e) && refused(a, b, e, "raft entry is too large"@)
    } else {
        &&& r is Ok == takes_proposals(a.position())
        &&& role_of(b.raw()) == role_of(a.raw())
        &&& exists|from: core::result::Result<(), raft::Error>| #[trigger]
            may_propose(a.raw(), Seq::<u8>::empty(), data, b.raw(), from) && reported(r, from)
    }
}

/// A message was taken in, unless the node has stopped or the message contradicts it.
pub open spec fn stepped(a: RaftNode, m: RaftMessage, b: RaftNode, r: Result<()>) -> bool {
    if a.has_stopped() {
        r matches Err(e) && refused(a, b, e, "raft node has stopped"@)
    } else if !can_step(a.raw(), a.store(), m) {
        r matches Err(e) && refused(a, b, e, "raft message contradicts the node"@)
    } else {
        &&& is_refused(a.raw(), m) ==> r is Err && role_of(b.raw()) == role_of(a.raw())
        &&& r is Err ==> is_refused(a.raw(), m) || message_head(m).kind == MSG_PROPOSE
        &&& exists|from: core::result::Result<(), raft::Error>| #[trigger]
            may_step(a.raw(), m, b.raw(), from) && reported(r, from)
    }
}

/// The protocol went on after everything in a batch was done, and what it then
/// wanted done was done, too.
pub open spec fn light_handled(
    a: RaftNode,
    ready: Ready,
    begun: RawNode,
    rest: Ready,
    light: LightReady,
    advanced: RawNode,
    b: RaftNode,
) -> bool {
    &&& ready_parts(rest) == emptied(ready_parts(ready))
    &&& may_advance(begun, rest, light, advanced)
    &&& may_apply(advanced, b.raw())
    &&& b.number() == a.number()
    &&& b.has_stopped() == a.has_stopped()
    &&& b.store() == committed_to(kept(a.store(), ready_parts(ready)), light_parts(light).commit)
    &&& b.data() == a.data() + payloads(ready_parts(ready).committed) + payloads(
        light_parts(light).committed,
    )
}

/// The protocol wanted a batch of things done, and they were done in order, or could
/// not be done.
pub open spec fn ready_handled(
    a: RaftNode,
    ready: Ready,
    b: RaftNode,
    r: Result<Vec<RaftMessage>>,
) -> bool {
    exists|begun: RawNode| #[trigger]
        may_ready(a.raw(), ready, begun) && match r {
            Ok(out) => keepable(a.store(), ready_parts(ready)) && exists|
                rest: Ready,
                light: LightReady,
                advanced: RawNode,
            | #[trigger]
                light_handled(a, ready, begun, rest, light, advanced, b) && out@ == ready_parts(
                    ready,
                ).messages + ready_parts(ready).persisted + light_parts(light).messages,
            Err(e) => {
                &&& !keepable(a.store(), ready_parts(ready))
                &&& unkept(e, a.store(), ready_parts(ready))
                &&& b.has_stopped()
                &&& b.number() == a.number()
                &&& a.data().is_prefix_of(b.data())
            },
        }
}

/// The node has stopped, nothing was to be done, there is no room for what was to be
/// done, or it was handled.
pub open spec fn processed(a: RaftNode, b: RaftNode, r: Result<Vec<RaftMessage>>) -> bool {
    if a.has_stopped() {
        r matches Err(e) && refused(a, b, e, "raft node has stopped"@)
    } else {
        ||| may_have_ready(a.raw(), false) && b == a && r is Ok && r->Ok_0@.len() == 0
        ||| may_have_ready(a.raw(), true) && if !can_ready(a.position()) {
            r matches Err(e) && refused(a, b, e, "raft log is full"@)
        } else {
            exists|ready: Ready| #[trigger] ready_handled(a, ready, b, r)
        }
    }
}

/// A node whose own vote is enough leads as soon as it stands for election, unless a
/// change of the configuration is pending.
pub proof fn lone_node_leads(a: RaftNode, b: RaftNode, r: Result<()>)
    requires
        campaigned(a, b, r),
        !a.has_stopped(),
        can_campaign(a.position()),
        a.position().alone,
        !a.position().changing,
    ensures
        r is Ok,
        leads(b.raw()),
{
}

/// A new node that is the only voter leads as soon as it stands for election.
pub proof fn only_voter_leads(
    a: RaftNode,
    id: u64,
    voters: Seq<u64>,
    b: RaftNode,
    r: Result<()>,
)
    requires
        begins(a.position(), id, 10, voters),
        !a.has_stopped(),
        voters.len() > 0,
        none_but(voters, id),
        campaigned(a, b, r),
    ensures
        r is Ok,
        leads(b.raw()),
{
    assert(voters.contains(voters[0]));
}

/// A new node refuses data until it leads or hears of a leader.
pub proof fn new_node_refuses_data(
    a: RaftNode,
    id: u64,
    voters: Seq<u64>,
    data: Seq<u8>,
    b: RaftNode,
    r: Result<()>,
)
    requires
        begins(a.position(), id, 10, voters),
        !a.has_stopped(),
        proposed(a, data, b, r),
    ensures
        r matches Err(LatticeError::Raft(_)),
        role_of(b.raw()) is Follower,
{
}

/// What was applied stays applied, in its place: further data come behind it.
pub proof fn applied_only_grows(a: RaftNode, b: RaftNode, r: Result<Vec<RaftMessage>>)
    requires
        processed(a, b, r),
        r is Ok,
    ensures
        a.data().is_prefix_of(b.data()),
        b.number() == a.number(),
{
    if b != a {
        let ready = choose|ready: Ready| #[trigger] ready_handled(a, ready, b, r);
        let begun = choose|begun: RawNode| #[trigger] may_ready(a.raw(), ready, begun) && (exists|
            rest: Ready,
            light: LightReady,
            advanced: RawNode,
        | #[trigger]
            light_handled(a, ready, begun, rest, light, advanced, b));
        let (rest, light, advanced) = choose|rest: Ready, light: LightReady, advanced: RawNode|
            #[trigger]
            light_handled(a, ready, begun, rest, light, advanced, b);
        assert(a.data() =~= b.data().take(a.data().len() as int));
    }
}

/// Each byte string counts once, in its place, with all its bytes.
pub proof fn blobs_hold_every_byte(v: Seq<Vec<u8>>)
    ensures
        blobs(v).len() == v.len(),
        forall|i: int| 0 <= i < v.len() ==> #[trigger] blobs(v)[i] == v[i]@,
{
}

/// However the committed entries are split in two batches, the same data are applied,
/// each once and in the same order.
pub proof fn batches_make_no_difference(a: Seq<Entry>, b: Seq<Entry>)
    ensures
        payloads(a + b) == payloads(a) + payloads(b),
    decreases b.len(),
{
    if b.len() == 0 {
        assert(a + b =~= a);
        assert(payloads(a) + payloads(b) =~= payloads(a));
    } else {
        batches_make_no_difference(a, b.drop_last());
        assert((a + b).drop_last() =~= a + b.drop_last());
        assert(payloads(a + b) =~= payloads(a) + payloads(b));
    }
}

/// Of committed entries that are all normal and carry data, each is applied: as many data
/// come out as there are entries, and each is the data of the entry in its place.
pub proof fn every_full_entry_is_applied(entries: Seq<Entry>)
    requires
        forall|i: int|
            0 <= i < entries.len() ==> entry_parts(#[trigger] entries[i]).normal && entry_parts(
                entries[i],
            ).data.len() > 0,
    ensures
        payloads(entries).len() == entries.len(),
        forall|i: int|
            0 <= i < entries.len() ==> #[trigger] payloads(entries)[i] == entry_parts(
                entries[i],
            ).data,
    decreases entries.len(),
{
    if entries.len() > 0 {
        let init = entries.drop_last();
        assert forall|i: int| 0 <= i < init.len() implies entry_parts(#[trigger] init[i]).normal
            && entry_parts(init[i]).data.len() > 0 by {
            assert(init[i] == entries[i]);
        }
        every_full_entry_is_applied(init);
        assert(entry_parts(entries[entries.len() - 1]).normal);
    }
}

/// The entries that are to be applied: the normal ones that carry data.
pub open spec fn carriers(entries: Seq<Entry>) -> Seq<Entry> {
    entries.filter(|e: Entry| entry_parts(e).normal && entry_parts(e).data.len() > 0)
}

/// The data that are applied are those of the normal entries that carry some, one for
/// one and in their order.
pub proof fn payloads_are_those_of_the_carriers(entries: Seq<Entry>)
    ensures
        payloads(entries).len() == carriers(entries).len(),
        forall|i: int|
            0 <= i < payloads(entries).len() ==> #[trigger] payloads(entries)[i] == entry_parts(
                carriers(entries)[i],
            ).data,
    decreases entries.len(),
{
    reveal(Seq::filter);
    if entries.len() > 0 {
        payloads_are_those_of_the_carriers(entries.drop_last());
    }
}

/// Entries are picked from two batches as from one.
proof fn lemma_carriers_concat(a: Seq<Entry>, b: Seq<Entry>)
    ensures
        carriers(a + b) == carriers(a) + carriers(b),
{
    Seq::filter_distributes_over_add(
        a,
        b,
        |e: Entry| entry_parts(e).normal && entry_parts(e).data.len() > 0,
    );
}

/// A node that does what the protocol wants done applies what is committed: behind the
/// data that were applied before come those of each committed entry that is normal and
/// carries some, of the first part of the batch and then of the second, one for one and
/// in their order. It hands out all the messages of both parts, and keeps the log and the
/// hard state.
pub proof fn batch_is_carried_out(
    a: RaftNode,
    ready: Ready,
    begun: RawNode,
    rest: Ready,
    light: LightReady,
    advanced: RawNode,
    b: RaftNode,
)
    requires
        keepable(a.store(), ready_parts(ready)),
        light_handled(a, ready, begun, rest, light, advanced, b),
    ensures
        ({
            let fresh = carriers(ready_parts(ready).committed + light_parts(light).committed);
            &&& a.data().is_prefix_of(b.data())
            &&& b.data().len() == a.data().len() + fresh.len()
            &&& forall|i: int|
                0 <= i < fresh.len() ==> b.data()[a.data().len() + i] == entry_parts(
                    #[trigger] fresh[i],
                ).data
        }),
        ({
            let before = a.store();
            let after = b.store();
            let parts = ready_parts(ready);
            let n = parts.entries.len();
            &&& parts.hard matches Some(hard) ==> after.hard.term == hard.term && after.hard.vote
                == hard.vote
            &&& light_parts(light).commit matches Some(commit) ==> after.hard.commit == commit
            &&& light_parts(light).commit is None && parts.hard is Some ==> after.hard.commit
                == parts.hard->0.commit
            &&& n > 0 ==> n <= after.entries.len() && after.entries.skip(after.entries.len() - n)
                == parts.entries
            &&& parts.snapshot.index == 0 ==> {
                &&& after.snapshot == before.snapshot
                &&& after.voters == before.voters
                &&& n == 0 ==> after.entries == before.entries
                &&& n > 0 ==> after.entries.take(after.entries.len() - n) == before.entries.take(
                    after.entries.len() - n,
                ) && after.entries.len() - n == entry_parts(parts.entries[0]).index - first_index(
                    before,
                )
                &&& parts.hard is None && light_parts(light).commit is None ==> after.hard
                    == before.hard
            }
            &&& parts.snapshot.index != 0 ==> {
                &&& after.snapshot == parts.snapshot.index
                &&& after.voters == parts.snapshot.voters
                &&& after.entries == parts.entries
            }
        }),
        b.number() == a.number(),
        b.has_stopped() == a.has_stopped(),
{
    let parts = ready_parts(ready);
    let one = parts.committed;
    let two = light_parts(light).committed;
    lemma_carriers_concat(one, two);
    payloads_are_those_of_the_carriers(one);
    payloads_are_those_of_the_carriers(two);
    let fresh = carriers(one + two);
    assert(a.data() =~= b.data().take(a.data().len() as int));
    assert forall|i: int| 0 <= i < fresh.len() implies b.data()[a.data().len() + i]
        == entry_parts(#[trigger] fresh[i]).data by {
        if i < carriers(one).len() {
            assert(b.data()[a.data().len() + i] == payloads(one)[i]);
            assert(fresh[i] == carriers(one)[i]);
        } else {
            let k = i - carriers(one).len();
            assert(b.data()[a.data().len() + i] == payloads(two)[k]);
            assert(fresh[i] == carriers(two)[k]);
        }
    }
    let base = with_snapshot(a.store(), parts);
    if parts.entries.len() > 0 {
        let k = entry_parts(parts.entries[0]).index - first_index(base);
        assert(b.store().entries == base.entries.take(k) + parts.entries);
        assert(b.store().entries.skip(k) =~= parts.entries);
        assert(b.store().entries.take(k) =~= base.entries.take(k));
        if parts.snapshot.index != 0 {
            assert(k == 0);
            assert(b.store().entries =~= parts.entries);
        }
    } else if parts.snapshot.index != 0 {
        assert(b.store().entries =~= parts.entries);
    }
}

/// What was done was what the protocol wanted done.
pub open spec fn did(
    a: RaftNode,
    ready: Ready,
    light: LightReady,
    b: RaftNode,
    out: Seq<RaftMessage>,
) -> bool {
    let fresh = carriers(ready_parts(ready).committed + light_parts(light).committed);
    &&& a.data().is_prefix_of(b.data())
    &&& b.data().len() == a.data().len() + fresh.len()
    &&& forall|i: int|
        0 <= i < fresh.len() ==> b.data()[a.data().len() + i] == entry_parts(
            #[trigger] fresh[i],
        ).data
    &&& out == ready_parts(ready).messages + ready_parts(ready).persisted + light_parts(
        light,
    ).messages
}

/// A node that has not stopped and is asked to do what is to be done either has nothing to
/// do, and stays as it is, or applies the data of every committed entry that carries some,
/// and hands out every message.
pub proof fn ready_node_does_everything(a: RaftNode, b: RaftNode, out: Vec<RaftMessage>)
    requires
        processed(a, b, Ok(out)),
    ensures
        ({
            ||| may_have_ready(a.raw(), false) && b == a && out@.len() == 0
            ||| exists|ready: Ready, begun: RawNode, rest: Ready, light: LightReady, advanced: RawNode|
                {
                    &&& #[trigger] may_ready(a.raw(), ready, begun)
                    &&& #[trigger] may_advance(begun, rest, light, advanced)
                    &&& may_apply(advanced, b.raw())
                    &&& did(a, ready, light, b, out@)
                }
        }),
{
    if !(may_have_ready(a.raw(), false) && b == a && out@.len() == 0) {
        let r: Result<Vec<RaftMessage>> = Ok(out);
        let ready = choose|ready: Ready| #[trigger] ready_handled(a, ready, b, r);
        let begun = choose|begun: RawNode| #[trigger]
            may_ready(a.raw(), ready, begun) && keepable(a.store(), ready_parts(ready)) && (exists|
                rest: Ready,
                light: LightReady,
                advanced: RawNode,
            | #[trigger]
                light_handled(a, ready, begun, rest, light, advanced, b) && out@ == ready_parts(
                    ready,
                ).messages + ready_parts(ready).persisted + light_parts(light).messages);
        let (rest, light, advanced) = choose|rest: Ready, light: LightReady, advanced: RawNode|
            #[trigger]
            light_handled(a, ready, begun, rest, light, advanced, b) && out@ == ready_parts(
                ready,
            ).messages + ready_parts(ready).persisted + light_parts(light).messages;
        batch_is_carried_out(a, ready, begun, rest, light, advanced, b);
        assert(did(a, ready, light, b, out@));
        assert(may_ready(a.raw(), ready, begun) && may_advance(begun, rest, light, advanced));
    }
}

/// A log without gaps can keep entries that follow upon its last one, and a newer snapshot
/// with entries that follow upon that: nothing else keeps a batch from being carried out.
pub proof fn following_batch_is_kept(s: StoreParts, ready: ReadyParts)
    requires
        s.entries.len() > 0 ==> entry_parts(s.entries.last()).index == entry_parts(
            s.entries[0],
        ).index + s.entries.len() - 1,
        ready.snapshot.index == 0 ==> (ready.entries.len() > 0 ==> last_index(s) < u64::MAX
            && entry_parts(ready.entries[0]).index == last_index(s) + 1),
        ready.snapshot.index != 0 ==> {
            &&& ready.snapshot.index > last_index(s)
            &&& ready.entries.len() > 0 ==> ready.snapshot.index < u64::MAX && entry_parts(
                ready.entries[0],
            ).index == ready.snapshot.index + 1
        },
    ensures
        keepable(s, ready),
{
}

/// A new node has the id, the voters and nothing else: an empty log, no data, and no
/// leader. It stands for election at the earliest when ten ticks have passed, and at the
/// latest with the twentieth.
pub proof fn new_node_begins_empty(id: u64, voters: Seq<u64>, node: RaftNode)
    requires
        started(id, voters, Ok(node)),
    ensures
        node.number() == id,
        node.position().head.id == id,
        node.store().voters == voters,
        node.store().entries.len() == 0,
        node.store().hard.term == 0 && node.store().hard.vote == 0 && node.store().hard.commit == 0,
        node.data().len() == 0,
        !leads(node.raw()),
        node.position().head.leader == 0,
        node.position().head.promotable <==> voters.contains(id),
        10 <= node.position().head.timeout < 20,
        may_start(id, 10, 3, node.store(), node.raw()),
        !is_due(node.position()),
{
}

/// A node is refused only for an id 0, or for a first voter 0.
pub proof fn node_with_an_id_is_started(id: u64, voters: Seq<u64>, r: Result<RaftNode>)
    requires
        started(id, voters, r),
    ensures
        r is Ok <==> id != 0 && (voters.len() > 0 ==> voters[0] != 0),
{
}

/// A leader that is part of its configuration and does not hand the lead over takes all
/// data for which there is room, and goes on leading.
pub proof fn leader_takes_data(a: RaftNode, data: Seq<u8>, b: RaftNode, r: Result<()>)
    requires
        proposed(a, data, b, r),
        !a.has_stopped(),
        leads(a.raw()),
        a.position().member,
        !a.position().head.handing_over,
        a.position().last < u64::MAX - 1,
        data.len() < 0xffff_ff00,
    ensures
        r is Ok,
        leads(b.raw()),
        exists|from: core::result::Result<(), raft::Error>| #[trigger]
            may_propose(a.raw(), Seq::<u8>::empty(), data, b.raw(), from) && from is Ok,
{
}

/// A follower that knows a leader hands all data on to it; any other node that does not
/// lead reports an error of the protocol.
pub proof fn others_hand_data_on(a: RaftNode, data: Seq<u8>, b: RaftNode, r: Result<()>)
    requires
        proposed(a, data, b, r),
        !a.has_stopped(),
        !leads(a.raw()),
    ensures
        r is Ok <==> role_of(a.raw()) is Follower && a.position().head.leader != 0,
        r is Ok || r matches Err(LatticeError::Raft(_)),
        role_of(b.raw()) == role_of(a.raw()),
        exists|from: core::result::Result<(), raft::Error>| #[trigger]
            may_propose(a.raw(), Seq::<u8>::empty(), data, b.raw(), from),
{
}

/// A node whose log is in order can always be told to stand for election: it leads if its
/// own vote is enough, and is a candidate otherwise. A leader goes on leading.
pub proof fn node_stands_for_election(a: RaftNode, b: RaftNode, r: Result<()>)
    requires
        campaigned(a, b, r),
        !a.has_stopped(),
        leads(a.raw()) || {
            &&& a.position().readable
            &&& !a.position().changing
            &&& a.position().last < u64::MAX - 1
            &&& a.position().head.term < u64::MAX
            &&& a.position().alone ==> a.position().member && a.position().last
                == a.position().log.persisted
        },
    ensures
        r is Ok,
        leads(a.raw()) || a.position().alone ==> leads(b.raw()),
        !leads(a.raw()) && !a.position().alone ==> role_of(b.raw()) is Candidate,
        exists|from: core::result::Result<(), raft::Error>| #[trigger]
            may_campaign(a.raw(), b.raw(), from),
{
}

/// Until its timeout has passed, time changes nothing of the role of a node; with the
/// tick that completes it, a voter whose log is in order stands for election.
pub proof fn time_passes(a: RaftNode, b: RaftNode, r: Result<bool>)
    requires
        ticked(a, b, r),
        !a.has_stopped(),
        a.position().head.elapsed < usize::MAX,
        a.position().readable,
        !a.position().changing,
        a.position().last < u64::MAX - 1,
        a.position().head.term < u64::MAX,
        a.position().alone ==> a.position().member && a.position().last
            == a.position().log.persisted,
    ensures
        r is Ok,
        may_tick(a.raw(), b.raw(), r->Ok_0),
        ({
            let p = a.position();
            let due = p.head.promotable && p.head.elapsed + 1 >= p.head.timeout;
            &&& leads(a.raw()) ==> leads(b.raw())
            &&& !leads(a.raw()) && !due ==> role_of(b.raw()) == role_of(a.raw()) && !r->Ok_0
            &&& !leads(a.raw()) && due ==> r->Ok_0 && if p.alone {
                leads(b.raw())
            } else {
                role_of(b.raw()) is Candidate
            }
        }),
{
}

/// The node took the message in, and did not report an error.
pub open spec fn took(a: RaftNode, m: RaftMessage, b: RaftNode, r: Result<()>) -> bool {
    &&& r is Ok
    &&& exists|from: core::result::Result<(), raft::Error>| #[trigger]
        may_step(a.raw(), m, b.raw(), from)
}

/// A node that has room in its log takes in what other nodes send as long as the protocol
/// goes on as it should: heartbeats that commit what the log has, requests for votes,
/// answers of nodes that it knows, and whatever is of an earlier term.
pub proof fn messages_of_others_are_taken(
    a: RaftNode,
    m: RaftMessage,
    b: RaftNode,
    r: Result<()>,
)
    requires
        stepped(a, m, b, r),
        !a.has_stopped(),
        a.position().last < u64::MAX - 1,
        message_head(m).term > 0,
    ensures
        ({
            let h = message_head(m);
            let p = a.position();
            let known = tracks(a.raw(), h.from);
            &&& h.kind == MSG_HEARTBEAT && h.commit <= p.last ==> took(a, m, b, r)
            &&& h.kind == MSG_VOTE ==> took(a, m, b, r)
            &&& h.kind == MSG_HEARTBEAT_RESPONSE && known ==> took(a, m, b, r)
            &&& h.kind == MSG_APPEND_RESPONSE && known && h.index < u64::MAX - 1 && h.reject_hint
                < u64::MAX && h.request_snapshot < u64::MAX ==> took(a, m, b, r)
            &&& h.kind == MSG_VOTE_RESPONSE && known && (h.reject || p.member && p.last
                == p.log.persisted) ==> took(a, m, b, r)
            &&& (h.kind == MSG_APPEND || h.kind == MSG_SNAPSHOT || h.kind == MSG_TIMEOUT_NOW)
                && h.term < p.head.term ==> took(a, m, b, r)
        }),
{
}

/// The entries before the first new one are known, and that one is not.
proof fn lemma_first_new(raw: RawNode, store: StoreParts, entries: Seq<Entry>, i: int)
    requires
        0 <= i <= entries.len(),
    ensures
        i <= first_new(raw, store, entries, i) <= entries.len(),
        forall|k: int|
            i <= k < first_new(raw, store, entries, i) ==> known(
                raw,
                store,
                #[trigger] entries[k],
            ),
    decreases entries.len() - i,
{
    if i < entries.len() && known(raw, store, entries[i]) {
        lemma_first_new(raw, store, entries, i + 1);
    }
}

/// A node that has room takes in entries that follow upon an index that its log has, and
/// upon each other, with whatever they commit: those that it has already, those that come
/// behind its log, and those that replace others that were not committed. Entries behind
/// an index that it does not have, or that lies before what is committed, are answered,
/// too.
pub proof fn following_entries_are_taken(
    a: RaftNode,
    m: RaftMessage,
    b: RaftNode,
    r: Result<()>,
)
    requires
        stepped(a, m, b, r),
        !a.has_stopped(),
        a.position().last < u64::MAX - 1,
        message_head(m).term > 0,
        message_head(m).kind == MSG_APPEND,
        ({
            let h = message_head(m);
            let p = a.position();
            let entries = message_entries(m);
            ||| h.index < p.log.committed
            ||| !log_has(a.raw(), a.store(), h.index, h.log_term)
            ||| {
                &&& h.index <= p.last
                &&& h.index + entries.len() + 2 < u64::MAX
                &&& forall|i: int|
                    0 <= i < entries.len() ==> {
                        let e = entry_parts(#[trigger] entries[i]);
                        &&& e.index == h.index + 1 + i
                        &&& log_has(a.raw(), a.store(), e.index, e.term) ==> e.index <= p.last
                        &&& sizable_entry(e)
                    }
            }
        }),
    ensures
        took(a, m, b, r),
{
    let h = message_head(m);
    let p = a.position();
    let entries = message_entries(m);
    let i = first_new(a.raw(), a.store(), entries, 0);
    lemma_first_new(a.raw(), a.store(), entries, 0);
    if h.index >= p.log.committed && log_has(a.raw(), a.store(), h.index, h.log_term) {
        if i > 0 {
            assert(known(a.raw(), a.store(), entries[i - 1]));
        }
        if i < entries.len() {
            let rest = entries.skip(i);
            assert forall|k: int| 0 <= k < rest.len() implies {
                &&& entry_parts(#[trigger] rest[k]).index == h.index + 1 + i + k
                &&& sizable_entry(entry_parts(rest[k]))
            } by {
                assert(rest[k] == entries[i + k]);
            }
            assert(entry_parts(entries[i]).index == h.index + 1 + i);
        }
    }
}

/// A node takes in a snapshot that is newer than what it has committed and that it does
/// not have, with any voters, none of them 0.
pub proof fn newer_snapshot_is_taken(a: RaftNode, m: RaftMessage, b: RaftNode, r: Result<()>)
    requires
        stepped(a, m, b, r),
        !a.has_stopped(),
        a.position().last < u64::MAX - 1,
        message_head(m).term > 0,
        message_head(m).kind == MSG_SNAPSHOT,
        ({
            let s = message_snapshot(m);
            &&& s.voters.len() > 0
            &&& !s.voters.contains(0)
            &&& s.learners.len() == 0 && s.outgoing.len() == 0 && s.coming.len() == 0
            &&& !s.auto_leave
            &&& 0 < s.index < u64::MAX - 2
            &&& !log_has(a.raw(), a.store(), s.index, s.term)
        }),
    ensures
        took(a, m, b, r),
{
}

/// Answers of a node that is not known, and messages that a node may only send to itself,
/// are refused with an error of the protocol, and the node stays what it is.
pub proof fn foreign_messages_are_refused(
    a: RaftNode,
    m: RaftMessage,
    b: RaftNode,
    r: Result<()>,
)
    requires
        stepped(a, m, b, r),
        !a.has_stopped(),
        ({
            let h = message_head(m);
            ||| h.kind == MSG_HUP || h.kind == MSG_BEAT || h.kind == MSG_UNREACHABLE || h.kind
                == MSG_SNAP_STATUS || h.kind == MSG_CHECK_QUORUM
            ||| !tracks(a.raw(), h.from) && (h.kind == MSG_APPEND_RESPONSE || h.kind
                == MSG_VOTE_RESPONSE || h.kind == MSG_HEARTBEAT_RESPONSE || h.kind
                == MSG_PRE_VOTE_RESPONSE)
        }),
    ensures
        r matches Err(LatticeError::Raft(_)),
        role_of(b.raw()) == role_of(a.raw()),
{
}

/// A node that has stopped refuses everything and stays as it is.
pub proof fn stopped_node_stays_as_it_is(
    a: RaftNode,
    m: RaftMessage,
    data: Seq<u8>,
    b: RaftNode,
)
    requires
        a.has_stopped(),
    ensures
        forall|r: Result<bool>| #[trigger] ticked(a, b, r) ==> r is Err && b == a,
        forall|r: Result<()>| #[trigger] campaigned(a, b, r) ==> r is Err && b == a,
        forall|r: Result<()>| #[trigger] proposed(a, data, b, r) ==> r is Err && b == a,
        forall|r: Result<()>| #[trigger] stepped(a, m, b, r) ==> r is Err && b == a,
        forall|r: Result<Vec<RaftMessage>>| #[trigger]
            processed(a, b, r) ==> r is Err && b == a,
{
}

/// A node that has not stopped fails to do what is to be done only where there is no room
/// left in its log to end a change of the configuration, and then stays as it is; or where
/// what it is to keep does not follow upon its log, and then it stops, and loses nothing
/// that it has applied.
pub proof fn node_stops_only_for_a_gap(
    a: RaftNode,
    b: RaftNode,
    r: Result<Vec<RaftMessage>>,
)
    requires
        processed(a, b, r),
        !a.has_stopped(),
        r is Err,
    ensures
        ({
            ||| b == a && leads(a.raw()) && a.position().head.auto_leave && a.position().last
                >= u64::MAX - 4
            ||| {
                &&& b.has_stopped()
                &&& b.number() == a.number()
                &&& a.data().is_prefix_of(b.data())
                &&& exists|ready: Ready, begun: RawNode| #[trigger]
                    may_ready(a.raw(), ready, begun) && !keepable(a.store(), ready_parts(ready))
            }
        }),
{
    if can_ready(a.position()) {
        let ready = choose|ready: Ready| #[trigger] ready_handled(a, ready, b, r);
        let begun = choose|begun: RawNode| #[trigger]
            may_ready(a.raw(), ready, begun) && !keepable(a.store(), ready_parts(ready));
        assert(may_ready(a.raw(), ready, begun));
    }
}

/// A change of the configuration that is pending keeps a node from standing for election,
/// without an error.
pub proof fn pending_change_is_waited_for(a: RaftNode, b: RaftNode, r: Result<()>)
    requires
        campaigned(a, b, r),
        !a.has_stopped(),
        a.position().readable,
        a.position().changing,
    ensures
        r is Ok,
        role_of(b.raw()) == role_of(a.raw()),
{
}

/// A message whose size can be computed and that lacks nothing can be written, and nothing
/// else can; and one that holds nothing unknown is read from what was written for it.
pub proof fn written_message_is_read(
    m: RaftMessage,
    r: Result<Vec<u8>>,
    back: Result<RaftMessage>,
)
    requires
        encoded_as(m, r),
        r matches Ok(bytes) ==> decoded_as(bytes@, back),
    ensures
        r is Ok <==> sizable(m) && write_fault(m) is None,
        r matches Ok(bytes) ==> may_write(m, bytes@) && (bare_message(m) && bytes@.len() <= i32::MAX
            ==> back == Ok::<RaftMessage, LatticeError>(m)),
        r matches Err(e) ==> e is Network,
{
}

/// Bytes are read if, and only if, they hold a message, and then as that message.
pub proof fn held_message_is_read(bytes: Seq<u8>, r: Result<RaftMessage>)
    requires
        decoded_as(bytes, r),
    ensures
        r is Ok <==> parsed_message(bytes) is Ok,
        r matches Ok(m) ==> parsed_message(bytes) == Ok::<RaftMessage, Seq<char>>(m),
        r matches Err(e) ==> e is Network,
{
}

/// A node that does what is to be done, and says so, either has nothing to do or applies
/// the data of every committed entry that carries some, in order, and hands out every
/// message.
pub proof fn process_ready_does_everything(node: &mut RaftNode, r: Result<Vec<RaftMessage>>)
    requires
        call_ensures(RaftNode::process_ready, (node,), r),
        r is Ok,
    ensures
        ({
            let out = r->Ok_0@;
            let a = *old(node);
            let b = *final(node);
            ||| may_have_ready(a.raw(), false) && b == a && out.len() == 0
            ||| exists|ready: Ready, begun: RawNode, rest: Ready, light: LightReady, advanced: RawNode|
                {
                    &&& #[trigger] may_ready(a.raw(), ready, begun)
                    &&& #[trigger] may_advance(begun, rest, light, advanced)
                    &&& may_apply(advanced, b.raw())
                    &&& did(a, ready, light, b, out)
                }
        }),
        old(node).data().is_prefix_of(final(node).data()),
        final(node).number() == old(node).number(),
        final(node).wf(),
{
    ready_node_does_everything(*old(node), *final(node), r->Ok_0);
    applied_only_grows(*old(node), *final(node), r);
}

/// A node that fails to do what is to be done has stopped before, stays as it is for want
/// of room, or stops at a gap without losing what it has applied.
pub proof fn process_ready_fails_for_a_reason(node: &mut RaftNode, r: Result<Vec<RaftMessage>>)
    requires
        call_ensures(RaftNode::process_ready, (node,), r),
        r is Err,
    ensures
        old(node).has_stopped() ==> *final(node) == *old(node),
        !old(node).has_stopped() ==> {
            ||| *final(node) == *old(node) && leads(old(node).raw()) && old(
                node,
            ).position().head.auto_leave && old(node).position().last >= u64::MAX - 4
            ||| {
                &&& final(node).has_stopped()
                &&& old(node).data().is_prefix_of(final(node).data())
                &&& exists|ready: Ready, begun: RawNode| #[trigger]
                    may_ready(old(node).raw(), ready, begun) && !keepable(
                        old(node).store(),
                        ready_parts(ready),
                    )
            }
        },
{
    if !old(node).has_stopped() {
        node_stops_only_for_a_gap(*old(node), *final(node), r);
    }
}

/// The data that a node shows are those that it has applied, each as it is.
pub proof fn applied_shows_everything(node: &RaftNode, data: &[Vec<u8>])
    requires
        call_ensures(RaftNode::applied, (node,), data),
    ensures
        data@.len() == node.data().len(),
        forall|i: int| 0 <= i < data@.len() ==> (#[trigger] data@[i])@ == node.data()[i],
{
    blobs_hold_every_byte(data@);
    assert forall|i: int| 0 <= i < data@.len() implies (#[trigger] data@[i])@ == node.data()[i] by {
        assert(blobs(data@)[i] == data@[i]@);
    }
}

/// A new node has the id and the voters that it was given, has applied nothing, leads
/// nobody, and stands for election with the tenth tick at the earliest.
pub proof fn new_gives_an_empty_node(
    id: u64,
    voters: &[u64],
    logger: &Logger,
    r: Result<RaftNode>,
)
    requires
        call_ensures(RaftNode::new, (id, voters, logger), r),
    ensures
        r is Ok <==> id != 0 && (voters@.len() > 0 ==> voters@[0] != 0),
        r matches Ok(node) ==> {
            &&& node.wf()
            &&& !node.has_stopped()
            &&& node.number() == id
            &&& node.position().head.id == id
            &&& node.store().voters == voters@
            &&& node.store().entries.len() == 0
            &&& node.data().len() == 0
            &&& !leads(node.raw())
            &&& node.position().head.promotable <==> voters@.contains(id)
            &&& 10 <= node.position().head.timeout < 20
            &&& may_start(id, 10, 3, node.store(), node.raw())
        },
{
    if let Ok(node) = r {
        new_node_begins_empty(id, voters@, node);
    }
}

/// A new node that is the only voter leads as soon as it is told to stand for election.
pub proof fn only_voter_elects_itself(
    id: u64,
    voters: &[u64],
    logger: &Logger,
    started: Result<RaftNode>,
    node: &mut RaftNode,
    r: Result<()>,
)
    requires
        call_ensures(RaftNode::new, (id, voters, logger), started),
        started == Ok::<RaftNode, LatticeError>(*old(node)),
        voters@.len() > 0,
        none_but(voters@, id),
        call_ensures(RaftNode::campaign, (node,), r),
    ensures
        r is Ok,
        leads(final(node).raw()),
        final(node).data() == old(node).data(),
{
    only_voter_leads(*old(node), id, voters@, *final(node), r);
}

/// A node whose log is in order stands for election when it is told to: it leads if its own
/// vote is enough, and is a candidate otherwise. Nothing else changes.
pub proof fn campaign_stands_for_election(node: &mut RaftNode, r: Result<()>)
    requires
        call_ensures(RaftNode::campaign, (node,), r),
        !old(node).has_stopped(),
        leads(old(node).raw()) || {
            let p = old(node).position();
            &&& p.readable
            &&& !p.changing
            &&& p.last < u64::MAX - 1
            &&& p.head.term < u64::MAX
            &&& p.alone ==> p.member && p.last == p.log.persisted
        },
    ensures
        r is Ok,
        leads(old(node).raw()) || old(node).position().alone ==> leads(final(node).raw()),
        !leads(old(node).raw()) && !old(node).position().alone ==> role_of(
            final(node).raw(),
        ) is Candidate,
        final(node).data() == old(node).data(),
        final(node).store() == old(node).store(),
        final(node).number() == old(node).number(),
{
    node_stands_for_election(*old(node), *final(node), r);
}

/// A leader takes data for which there is room; a follower hands them on to the leader that
/// it knows; any other node reports an error. Nothing is applied by that.
pub proof fn propose_reaches_the_leader(node: &mut RaftNode, data: Vec<u8>, r: Result<()>)
    requires
        call_ensures(RaftNode::propose, (node, data), r),
        !old(node).has_stopped(),
    ensures
        ({
            let p = old(node).position();
            &&& leads(old(node).raw()) && p.member && !p.head.handing_over && p.last < u64::MAX - 1
                && data@.len() < 0xffff_ff00 ==> r is Ok && leads(final(node).raw())
            &&& !leads(old(node).raw()) ==> (r is Ok <==> p.role is Follower && p.head.leader != 0)
            &&& r is Ok ==> exists|from: core::result::Result<(), raft::Error>| #[trigger]
                may_propose(
                    old(node).raw(),
                    Seq::<u8>::empty(),
                    data@,
                    final(node).raw(),
                    from,
                )
        }),
        final(node).data() == old(node).data(),
        final(node).store() == old(node).store(),
{
    if !leads(old(node).raw()) {
        others_hand_data_on(*old(node), data@, *final(node), r);
    }
}

/// Time passes for a node whose log is in order: it changes nothing of its role until the
/// timeout of a voter is complete, and then that node stands for election.
pub proof fn tick_lets_time_pass(node: &mut RaftNode, r: Result<bool>)
    requires
        call_ensures(RaftNode::tick, (node,), r),
        !old(node).has_stopped(),
        ({
            let p = old(node).position();
            &&& p.head.elapsed < usize::MAX
            &&& p.readable
            &&& !p.changing
            &&& p.last < u64::MAX - 1
            &&& p.head.term < u64::MAX
            &&& p.alone ==> p.member && p.last == p.log.persisted
        }),
    ensures
        r is Ok,
        may_tick(old(node).raw(), final(node).raw(), r->Ok_0),
        ({
            let p = old(node).position();
            let due = p.head.promotable && p.head.elapsed + 1 >= p.head.timeout;
            &&& leads(old(node).raw()) ==> leads(final(node).raw())
            &&& !leads(old(node).raw()) && !due ==> role_of(final(node).raw()) == p.role && !r->Ok_0
            &&& !leads(old(node).raw()) && due ==> r->Ok_0 && if p.alone {
                leads(final(node).raw())
            } else {
                role_of(final(node).raw()) is Candidate
            }
        }),
        final(node).data() == old(node).data(),
        final(node).store() == old(node).store(),
{
    time_passes(*old(node), *final(node), r);
}

/// A node that has room in its log takes in what other nodes send as long as the protocol
/// goes on as it should. Nothing is kept or applied by that.
pub proof fn step_takes_in_messages(node: &mut RaftNode, m: RaftMessage, r: Result<()>)
    requires
        call_ensures(RaftNode::step, (node, m), r),
        !old(node).has_stopped(),
        old(node).position().last < u64::MAX - 1,
        message_head(m).term > 0,
    ensures
        ({
            let h = message_head(m);
            let p = old(node).position();
            let known = tracks(old(node).raw(), h.from);
            let taken = took(*old(node), m, *final(node), r);
            &&& h.kind == MSG_HEARTBEAT && h.commit <= p.last ==> taken
            &&& h.kind == MSG_VOTE ==> taken
            &&& h.kind == MSG_HEARTBEAT_RESPONSE && known ==> taken
            &&& h.kind == MSG_APPEND_RESPONSE && known && h.index < u64::MAX - 1 && h.reject_hint
                < u64::MAX && h.request_snapshot < u64::MAX ==> taken
            &&& h.kind == MSG_VOTE_RESPONSE && known && (h.reject || p.member && p.last
                == p.log.persisted) ==> taken
            &&& h.kind == MSG_APPEND && message_entries(m).len() == 0 && h.index <= p.last ==> taken
            &&& h.kind == MSG_APPEND && h.term < p.head.term ==> taken
            &&& (h.kind == MSG_APPEND_RESPONSE || h.kind == MSG_VOTE_RESPONSE) && !known ==> r
                is Err
        }),
        final(node).data() == old(node).data(),
        final(node).store() == old(node).store(),
{
    messages_of_others_are_taken(*old(node), m, *final(node), r);
    let h = message_head(m);
    if h.kind == MSG_APPEND && message_entries(m).len() == 0 && h.index <= old(node).position().last
        && h.index < u64::MAX - 2 {
        following_entries_are_taken(*old(node), m, *final(node), r);
    }
}

/// What is written for a message that holds nothing unknown is read as that message; every
/// message whose size can be computed and that lacks nothing can be written.
pub proof fn decode_inverts_encode(
    m: &RaftMessage,
    written: Result<Vec<u8>>,
    bytes: &[u8],
    back: Result<RaftMessage>,
)
    requires
        call_ensures(encode_message, (m,), written),
        call_ensures(decode_message, (bytes,), back),
        written matches Ok(v) ==> v@ == bytes@,
    ensures
        written is Ok <==> sizable(*m) && write_fault(*m) is None,
        written is Ok && bare_message(*m) && bytes@.len() <= i32::MAX ==> back == Ok::<
            RaftMessage,
            LatticeError,
        >(*m),
        back is Ok <==> parsed_message(bytes@) is Ok,
{
}

/// A batch that can be kept is kept and applied, and its messages come out.
pub proof fn persist_keeps_the_batch(
    replica: &mut Replica,
    ready: &mut Ready,
    r: Result<Vec<RaftMessage>>,
)
    requires
        call_ensures(Replica::persist, (replica, ready), r),
    ensures
        ({
            let parts = ready_parts(*old(ready));
            let fresh = carriers(parts.committed);
            &&& r is Ok <==> keepable(old(replica).store(), parts)
            &&& r matches Ok(out) ==> {
                &&& out@ == parts.messages + parts.persisted
                &&& old(replica).data().is_prefix_of(final(replica).data())
                &&& final(replica).data().len() == old(replica).data().len() + fresh.len()
                &&& forall|i: int|
                    0 <= i < fresh.len() ==> final(replica).data()[old(replica).data().len() + i]
                        == entry_parts(#[trigger] fresh[i]).data
                &&& parts.hard matches Some(hard) ==> final(replica).store().hard == hard
                &&& parts.entries.len() > 0 ==> final(replica).store().entries.len()
                    >= parts.entries.len() && final(replica).store().entries.skip(
                    final(replica).store().entries.len() - parts.entries.len(),
                ) == parts.entries
            }
            &&& r is Err ==> old(replica).data().is_prefix_of(final(replica).data())
        }),
{
    let parts = ready_parts(*old(ready));
    let fresh = carriers(parts.committed);
    payloads_are_those_of_the_carriers(parts.committed);
    let (a, b) = (old(replica).data(), final(replica).data());
    if r is Ok {
        assert(a =~= b.take(a.len() as int));
        assert forall|i: int| 0 <= i < fresh.len() implies b[a.len() + i] == entry_parts(
            #[trigger] fresh[i],
        ).data by {
            assert(b[a.len() + i] == payloads(parts.committed)[i]);
        }
        let base = with_snapshot(old(replica).store(), parts);
        if parts.entries.len() > 0 {
            let k = entry_parts(parts.entries[0]).index - first_index(base);
            assert(final(replica).store().entries == base.entries.take(k) + parts.entries);
            assert(final(replica).store().entries.skip(k) =~= parts.entries);
        }
    } else {
        assert(a =~= b.take(a.len() as int));
    }
}

/// What comes after a batch is kept and applied, too, and its messages come out.
pub proof fn settle_keeps_the_rest(
    replica: &mut Replica,
    light: &mut LightReady,
    out: Vec<RaftMessage>,
)
    requires
        call_ensures(Replica::settle, (replica, light), out),
    ensures
        ({
            let parts = light_parts(*old(light));
            let fresh = carriers(parts.committed);
            &&& out@ == parts.messages
            &&& old(replica).data().is_prefix_of(final(replica).data())
            &&& final(replica).data().len() == old(replica).data().len() + fresh.len()
            &&& forall|i: int|
                0 <= i < fresh.len() ==> final(replica).data()[old(replica).data().len() + i]
                    == entry_parts(#[trigger] fresh[i]).data
            &&& parts.commit matches Some(commit) ==> final(replica).store().hard.commit == commit
            &&& final(replica).store().entries == old(replica).store().entries
        }),
{
    let parts = light_parts(*old(light));
    let fresh = carriers(parts.committed);
    payloads_are_those_of_the_carriers(parts.committed);
    let (a, b) = (old(replica).data(), final(replica).data());
    assert(a =~= b.take(a.len() as int));
    assert forall|i: int| 0 <= i < fresh.len() implies b[a.len() + i] == entry_parts(
        #[trigger] fresh[i],
    ).data by {
        assert(b[a.len() + i] == payloads(parts.committed)[i]);
    }
}

/// A new node tells the id that it was given, and does not lead.
pub proof fn new_node_tells_its_id(
    id: u64,
    voters: &[u64],
    logger: &Logger,
    r: Result<RaftNode>,
    told: u64,
    leader: bool,
)
    requires
        call_ensures(RaftNode::new, (id, voters, logger), r),
        r is Ok,
        call_ensures(RaftNode::id, (&r->Ok_0,), told),
        call_ensures(RaftNode::is_leader, (&r->Ok_0,), leader),
    ensures
        told == id,
        !leader,
{
}

/// A node that is the only voter and was told to stand for election says that it leads.
pub proof fn elected_node_says_so(node: &mut RaftNode, r: Result<()>, leader: bool)
    requires
        call_ensures(RaftNode::campaign, (node,), r),
        !old(node).has_stopped(),
        can_campaign(old(node).position()),
        old(node).position().alone,
        !old(node).position().changing,
        call_ensures(RaftNode::is_leader, (final(node),), leader),
    ensures
        r is Ok,
        leader,
{
    lone_node_leads(*old(node), *final(node), r);
}

} // verus!
