//! The `raft` crate as this library sees it: what its values hold, what its calls do,
//! and on which states a call is sound.
use protobuf::Message as ProtobufMessage;
use protobuf::{UnknownFields, UnknownValues};
use raft::prelude::Message as RaftMessage;
use raft::prelude::{Entry, EntryType, HardState, Snapshot};
use raft::storage::MemStorage;
use raft::{Config, GetEntriesContext, LightReady, Ready, StateRole, Storage as RaftStorage};
use vstd::prelude::*;
use vstd::string::*;

verus! {

/// The messages of the `raft` crate.
#[verifier::external_type_specification]
#[verifier::external_body]
pub struct ExMessage(RaftMessage);

/// The log entries of the `raft` crate.
#[verifier::external_type_specification]
#[verifier::external_body]
pub struct ExEntry(raft::prelude::Entry);

/// The hard state of the `raft` crate: term, vote and commit index.
#[verifier::external_type_specification]
#[verifier::external_body]
pub struct ExHardState(raft::prelude::HardState);

/// The snapshots of the `raft` crate.
#[verifier::external_type_specification]
#[verifier::external_body]
pub struct ExSnapshot(raft::prelude::Snapshot);

/// What the `raft` crate wants done before it goes on.
#[verifier::external_type_specification]
#[verifier::external_body]
pub struct ExReady(raft::Ready);

/// What the `raft` crate wants done after that.
#[verifier::external_type_specification]
#[verifier::external_body]
pub struct ExLightReady(raft::LightReady);

/// The log and hard state of a node, kept in memory. The handle is shared with the
/// protocol, which only reads through it.
#[verifier::external_type_specification]
#[verifier::external_body]
pub struct ExMemStorage(raft::storage::MemStorage);

/// What a message of the `protobuf` crate holds beyond its known fields.
#[verifier::external_type_specification]
#[verifier::external_body]
pub struct ExUnknownFields(protobuf::UnknownFields);

/// What it holds under one number.
#[verifier::external_type_specification]
#[verifier::external_body]
pub struct ExUnknownValues(protobuf::UnknownValues);

/// The protocol of the `raft` crate.
#[verifier::external_body]
pub struct RawNode {
    raw: raft::RawNode<raft::storage::MemStorage>,
}

/// A logger of the `slog` crate.
#[verifier::external_body]
pub struct Logger {
    inner: slog::Logger,
}

/// How many values a message holds under a number that it does not know, by how they are
/// written, and the lengths of those that are bytes.
pub struct ValueParts {
    pub fixed32: nat,
    pub fixed64: nat,
    pub varint: nat,
    pub lengths: Seq<nat>,
}

/// What an entry holds.
pub struct EntryParts {
    pub index: u64,
    pub term: u64,
    /// It carries data, not a change of the configuration.
    pub normal: bool,
    pub data: Seq<u8>,
    pub context: Seq<u8>,
    /// The table of unknown fields, if there is one.
    pub unknown: Option<Map<u32, ValueParts>>,
}

/// What a hard state holds.
pub struct HardParts {
    pub term: u64,
    pub vote: u64,
    pub commit: u64,
}

/// What a snapshot says about itself.
pub struct SnapshotParts {
    pub index: u64,
    pub term: u64,
    pub voters: Seq<u64>,
    pub learners: Seq<u64>,
    /// The voters that a change under way is about to replace.
    pub outgoing: Seq<u64>,
    /// The learners that a change under way is about to bring.
    pub coming: Seq<u64>,
    /// A change under way ends by itself.
    pub auto_leave: bool,
    /// The number of bytes that it carries.
    pub len: nat,
    /// The tables of unknown fields of the snapshot, of its metadata and of its
    /// configuration, if there are any.
    pub unknown: Option<Map<u32, ValueParts>>,
    pub metadata_unknown: Option<Map<u32, ValueParts>>,
    pub conf_unknown: Option<Map<u32, ValueParts>>,
}

/// What is to be done before the protocol goes on.
pub struct ReadyParts {
    pub number: u64,
    /// To be sent at once.
    pub messages: Seq<RaftMessage>,
    /// To be kept; there is none if its index is 0.
    pub snapshot: SnapshotParts,
    /// To be applied.
    pub committed: Seq<Entry>,
    /// To be appended to the log.
    pub entries: Seq<Entry>,
    /// To be kept.
    pub hard: Option<HardParts>,
    /// To be sent after the rest was kept.
    pub persisted: Seq<RaftMessage>,
}

/// What is to be done after that.
pub struct LightParts {
    pub commit: Option<u64>,
    pub messages: Seq<RaftMessage>,
    pub committed: Seq<Entry>,
}

/// What a log and hard state hold.
pub struct StoreParts {
    pub entries: Seq<Entry>,
    /// The index of the last snapshot.
    pub snapshot: u64,
    pub hard: HardParts,
    pub voters: Seq<u64>,
}

/// What a node is in the protocol.
#[derive(Clone, Copy, PartialEq, Eq, Structural)]
pub enum Role {
    Follower,
    Candidate,
    Leader,
    PreCandidate,
}

/// What a node knows of itself.
#[derive(Clone, Copy)]
pub struct NodeHead {
    pub id: u64,
    pub term: u64,
    /// The node that it voted for, or 0.
    pub vote: u64,
    /// The leader, or 0.
    pub leader: u64,
    /// It is one of the voters.
    pub promotable: bool,
    /// There is one voter only.
    pub singleton: bool,
    /// A change of the configuration under way ends by itself.
    pub auto_leave: bool,
    /// It hands the lead over to another node.
    pub handing_over: bool,
    /// The ticks since it last heard of a leader.
    pub elapsed: usize,
    /// The ticks after which it stands for election.
    pub timeout: usize,
}

/// What a node knows of its log.
#[derive(Clone, Copy)]
pub struct LogHead {
    pub committed: u64,
    /// The index up to which the log was kept.
    pub persisted: u64,
    /// The index up to which it was applied.
    pub applied: u64,
    /// The first index behind a snapshot that was not kept yet, if there is one.
    pub unstable: Option<u64>,
}

/// What a message says, but for what it carries.
#[derive(Clone, Copy)]
pub struct MessageHead {
    pub kind: i32,
    pub to: u64,
    pub from: u64,
    pub term: u64,
    pub log_term: u64,
    pub index: u64,
    pub commit: u64,
    pub reject: bool,
    pub reject_hint: u64,
    pub request_snapshot: u64,
    pub priority: i64,
    /// The number of bytes of its context.
    pub context: usize,
}

// The numbers of the message types.
pub const MSG_HUP: i32 = 0;

pub const MSG_BEAT: i32 = 1;

pub const MSG_PROPOSE: i32 = 2;

pub const MSG_APPEND: i32 = 3;

pub const MSG_APPEND_RESPONSE: i32 = 4;

pub const MSG_VOTE: i32 = 5;

pub const MSG_VOTE_RESPONSE: i32 = 6;

pub const MSG_SNAPSHOT: i32 = 7;

pub const MSG_HEARTBEAT: i32 = 8;

pub const MSG_HEARTBEAT_RESPONSE: i32 = 9;

pub const MSG_UNREACHABLE: i32 = 10;

pub const MSG_SNAP_STATUS: i32 = 11;

pub const MSG_CHECK_QUORUM: i32 = 12;

pub const MSG_TRANSFER_LEADER: i32 = 13;

pub const MSG_TIMEOUT_NOW: i32 = 14;

pub const MSG_READ_INDEX: i32 = 15;

pub const MSG_READ_INDEX_RESPONSE: i32 = 16;

pub const MSG_PRE_VOTE: i32 = 17;

pub const MSG_PRE_VOTE_RESPONSE: i32 = 18;

/// What the protocol waits for. It reads the log through a handle of its own, and goes
/// on only if the log holds what it expects.
pub enum Standing {
    /// Nothing: every batch that it handed out was carried out, and the log holds this.
    Settled(StoreParts),
    /// That this batch is carried out, after which the log holds this.
    Owed { ready: ReadyParts, kept: StoreParts },
    /// That what followed upon a batch is carried out, after which the log holds this.
    Applying(StoreParts),
}

/// What an entry holds.
pub uninterp spec fn entry_parts(e: Entry) -> EntryParts;

/// What a hard state holds.
pub uninterp spec fn hard_parts(h: HardState) -> HardParts;

/// What a snapshot says about itself.
pub uninterp spec fn snapshot_parts(s: Snapshot) -> SnapshotParts;

/// What is to be done before the protocol goes on.
pub uninterp spec fn ready_parts(r: Ready) -> ReadyParts;

/// What is to be done after that.
pub uninterp spec fn light_parts(l: LightReady) -> LightParts;

/// What a log and hard state hold.
pub uninterp spec fn store_parts(s: MemStorage) -> StoreParts;

/// Which log a handle is one of. Handles of one log share it; nothing else is claimed
/// of the number.
pub uninterp spec fn log_of(s: MemStorage) -> int;

/// Which log the protocol reads.
pub uninterp spec fn log_read(raw: RawNode) -> int;

/// What the protocol waits for.
pub uninterp spec fn standing(raw: RawNode) -> Standing;

/// The protocol waits for nothing, and the log that it reads, which this is a handle of,
/// holds what it expects.
pub open spec fn settled(raw: RawNode, store: MemStorage) -> bool {
    log_read(raw) == log_of(store) && standing(raw) == Standing::Settled(store_parts(store))
}

/// What the node is in the protocol.
pub uninterp spec fn role_of(raw: RawNode) -> Role;

/// What the node knows of itself.
pub uninterp spec fn node_head(raw: RawNode) -> NodeHead;

/// What the node knows of its log.
pub uninterp spec fn log_head(raw: RawNode) -> LogHead;

/// The node follows the progress of a node with this id.
pub uninterp spec fn tracks(raw: RawNode, id: u64) -> bool;

/// These nodes are enough to decide.
pub uninterp spec fn quorum(raw: RawNode, ids: Set<u64>) -> bool;

/// The votes in the election for which the node stands.
pub uninterp spec fn votes_of(raw: RawNode) -> Map<u64, bool>;

/// The first index of the node's log, over this store.
pub uninterp spec fn log_first(raw: RawNode, store: StoreParts) -> u64;

/// The entries of the node's log, over this store, from an index up to another.
pub uninterp spec fn log_slice(raw: RawNode, store: StoreParts, low: u64, high: u64) -> Seq<Entry>;

/// The last index of the node's log, over this store.
pub uninterp spec fn log_last(raw: RawNode, store: StoreParts) -> u64;

/// The term at the last index of the node's log, over this store.
pub uninterp spec fn log_last_term(raw: RawNode, store: StoreParts) -> u64;

/// The node's log, over this store, has this term at this index. Where it has no entry
/// the term is 0.
pub uninterp spec fn log_has(raw: RawNode, store: StoreParts, index: u64, term: u64) -> bool;

/// What a message says.
pub uninterp spec fn message_head(m: RaftMessage) -> MessageHead;

/// The entries that a message carries.
pub uninterp spec fn message_entries(m: RaftMessage) -> Seq<Entry>;

/// The snapshot that a message carries.
pub uninterp spec fn message_snapshot(m: RaftMessage) -> SnapshotParts;

/// A message's own table of unknown fields, if there is one.
pub uninterp spec fn message_unknown(m: RaftMessage) -> Option<Map<u32, ValueParts>>;

/// What a table of unknown fields holds, if there is one.
pub uninterp spec fn unknown_parts(u: UnknownFields) -> Option<Map<u32, ValueParts>>;

/// What is held under one number.
pub uninterp spec fn value_parts(v: UnknownValues) -> ValueParts;

/// What is unknown in a message, in its entries or in its snapshot would be unknown to
/// a reader, too: a field with a number that the format allows and no known field has,
/// or a value that a known field cannot take. Where nothing is unknown there is no table
/// for it.
pub uninterp spec fn plain_message(m: RaftMessage) -> bool;

/// The reason why a message cannot be written as bytes, if there is one.
pub uninterp spec fn write_fault(m: RaftMessage) -> Option<Seq<char>>;

/// The message may be written as these bytes.
pub uninterp spec fn may_write(m: RaftMessage, bytes: Seq<u8>) -> bool;

/// The message in some bytes, or the reason why there is none.
pub uninterp spec fn parsed_message(bytes: Seq<u8>) -> core::result::Result<RaftMessage, Seq<char>>;

/// The node that a message goes to.
pub open spec fn addressee(m: RaftMessage) -> u64 {
    message_head(m).to
}

/// The message can be written as bytes.
pub open spec fn writable(m: RaftMessage) -> bool {
    sizable(m) && write_fault(m) is None
}

/// At most so many bytes are written for bytes of these lengths, with their tags and
/// lengths.
pub open spec fn lengths_weight(lengths: Seq<nat>) -> nat
    decreases lengths.len(),
{
    if lengths.len() == 0 {
        0
    } else {
        lengths_weight(lengths.drop_last()) + lengths.last() + 15
    }
}

/// At most so many bytes are written for what is held under one number.
pub open spec fn value_weight(v: ValueParts) -> nat {
    9 * v.fixed32 + 13 * v.fixed64 + 15 * v.varint + lengths_weight(v.lengths)
}

/// At most so many bytes are written for a table.
pub open spec fn table_weight(table: Map<u32, ValueParts>) -> nat
    decreases table.dom().len(),
    when table.dom().finite()
{
    if table.dom().len() == 0 {
        0
    } else {
        let k = table.dom().choose();
        value_weight(table[k]) + table_weight(table.remove(k))
    }
}

/// At most so many bytes are written for unknown fields.
pub open spec fn unknown_weight(unknown: Option<Map<u32, ValueParts>>) -> nat {
    match unknown {
        Some(table) => table_weight(table),
        None => 0,
    }
}

/// The format allows the numbers of the unknown fields.
pub open spec fn numbers_ok(unknown: Option<Map<u32, ValueParts>>) -> bool {
    unknown matches Some(table) ==> allowed(table.dom())
}

/// The format allows the numbers.
pub open spec fn allowed(numbers: Set<u32>) -> bool {
    forall|n: u32| #[trigger] numbers.contains(n) ==> 1 <= n <= 0x1fff_ffff
}

/// At most so many bytes are written for an entry.
pub open spec fn entry_weight(e: EntryParts) -> nat {
    96 + e.data.len() + e.context.len() + unknown_weight(e.unknown)
}

/// At most so many bytes are written for entries within a message.
pub open spec fn entries_weight(entries: Seq<Entry>) -> nat
    decreases entries.len(),
{
    if entries.len() == 0 {
        0
    } else {
        entries_weight(entries.drop_last()) + entry_weight(entry_parts(entries.last())) + 16
    }
}

/// At most so many bytes are written for a snapshot.
pub open spec fn snapshot_weight(s: SnapshotParts) -> nat {
    128 + s.len + 12 * (s.voters.len() + s.learners.len() + s.outgoing.len() + s.coming.len())
        + unknown_weight(s.unknown) + unknown_weight(s.metadata_unknown) + unknown_weight(
        s.conf_unknown,
    )
}

/// At most so many bytes are written for a message.
pub open spec fn message_weight(m: RaftMessage) -> nat {
    256 + message_head(m).context as nat + entries_weight(message_entries(m)) + snapshot_weight(
        message_snapshot(m),
    ) + unknown_weight(message_unknown(m))
}

/// The size of the entry can be computed: its unknown fields have numbers that the
/// format allows, and the size stays within 32 bits.
pub open spec fn sizable_entry(e: EntryParts) -> bool {
    numbers_ok(e.unknown) && entry_weight(e) < u32::MAX
}

/// The size of the message can be computed, and those of its parts.
pub open spec fn sizable(m: RaftMessage) -> bool {
    &&& numbers_ok(message_unknown(m))
    &&& numbers_ok(message_snapshot(m).unknown)
    &&& numbers_ok(message_snapshot(m).metadata_unknown)
    &&& numbers_ok(message_snapshot(m).conf_unknown)
    &&& forall|i: int|
        0 <= i < message_entries(m).len() ==> numbers_ok(
            entry_parts(#[trigger] message_entries(m)[i]).unknown,
        )
    &&& message_weight(m) < u32::MAX
}

/// There is no table of unknown fields in the message, its entries or its snapshot.
pub open spec fn bare_message(m: RaftMessage) -> bool {
    &&& message_unknown(m) is None
    &&& message_snapshot(m).unknown is None
    &&& message_snapshot(m).metadata_unknown is None
    &&& message_snapshot(m).conf_unknown is None
    &&& forall|i: int|
        0 <= i < message_entries(m).len() ==> entry_parts(
            #[trigger] message_entries(m)[i],
        ).unknown is None
}

/// What is written for the message reads back as the message.
pub open spec fn reads_back(m: RaftMessage) -> bool {
    plain_message(m) || bare_message(m)
}

/// The node is the leader.
pub open spec fn leads(raw: RawNode) -> bool {
    role_of(raw) is Leader
}

// The protocol draws its timeouts by chance and reads the log through a handle of
// its own, so what comes of a call is not a function of what is seen of it here.
// The relations below say no more than that a call was made with its arguments,
// and what came of it.

/// A new node with this id and these timeouts over this store may be this one.
pub uninterp spec fn may_start(
    id: u64,
    election_tick: usize,
    heartbeat_tick: usize,
    store: StoreParts,
    raw: RawNode,
) -> bool;

/// A tick may lead from one state to another with this result.
pub uninterp spec fn may_tick(before: RawNode, after: RawNode, ready: bool) -> bool;

/// A call for an election may lead from one state to another with this result.
pub uninterp spec fn may_campaign(
    before: RawNode,
    after: RawNode,
    r: core::result::Result<(), raft::Error>,
) -> bool;

/// A proposal may lead from one state to another with this result.
pub uninterp spec fn may_propose(
    before: RawNode,
    context: Seq<u8>,
    data: Seq<u8>,
    after: RawNode,
    r: core::result::Result<(), raft::Error>,
) -> bool;

/// A message may lead from one state to another with this result.
pub uninterp spec fn may_step(
    before: RawNode,
    m: RaftMessage,
    after: RawNode,
    r: core::result::Result<(), raft::Error>,
) -> bool;

/// There may be something to be done, or nothing.
pub uninterp spec fn may_have_ready(raw: RawNode, ready: bool) -> bool;

/// This may be what is to be done.
pub uninterp spec fn may_ready(before: RawNode, ready: Ready, after: RawNode) -> bool;

/// After that was done, this may be what is to be done.
pub uninterp spec fn may_advance(
    before: RawNode,
    ready: Ready,
    light: LightReady,
    after: RawNode,
) -> bool;

/// After that was done, too, this may be the state.
pub uninterp spec fn may_apply(before: RawNode, after: RawNode) -> bool;

/// The store of a new node.
pub open spec fn fresh_store(voters: Seq<u64>) -> StoreParts {
    StoreParts {
        entries: seq![],
        snapshot: 0,
        hard: HardParts { term: 0, vote: 0, commit: 0 },
        voters,
    }
}

/// The index of the first entry, or of the one that would be the first.
pub open spec fn first_index(s: StoreParts) -> int {
    if s.entries.len() > 0 {
        entry_parts(s.entries[0]).index as int
    } else {
        s.snapshot + 1
    }
}

/// The index of the last entry, or of the snapshot.
pub open spec fn last_index(s: StoreParts) -> int {
    if s.entries.len() > 0 {
        entry_parts(s.entries.last()).index as int
    } else {
        s.snapshot as int
    }
}

/// The entries can be appended: there is room for an index, the first of them comes no
/// earlier than the first of the log, and there is no gap before it.
pub open spec fn can_append(s: StoreParts, entries: Seq<Entry>) -> bool {
    entries.len() > 0 ==> {
        &&& last_index(s) < u64::MAX
        &&& first_index(s) <= entry_parts(entries[0]).index <= last_index(s) + 1
        &&& entry_parts(entries[0]).index - first_index(s) <= s.entries.len()
    }
}

/// The store after entries were appended: those of the log from the first of them
/// on are replaced.
pub open spec fn appended(s: StoreParts, entries: Seq<Entry>) -> StoreParts {
    if entries.len() == 0 {
        s
    } else {
        StoreParts {
            entries: s.entries.take(entry_parts(entries[0]).index - first_index(s)) + entries,
            ..s
        }
    }
}

/// The snapshot can take the place of the log.
pub open spec fn can_restore(s: StoreParts, snapshot: SnapshotParts) -> bool {
    first_index(s) <= snapshot.index
}

/// The store after a snapshot took the place of the log.
pub open spec fn restored(s: StoreParts, snapshot: SnapshotParts) -> StoreParts {
    StoreParts {
        entries: seq![],
        snapshot: snapshot.index,
        hard: HardParts {
            term: if s.hard.term >= snapshot.term {
                s.hard.term
            } else {
                snapshot.term
            },
            commit: snapshot.index,
            ..s.hard
        },
        voters: snapshot.voters,
    }
}

/// The store with the snapshot, if there is one.
pub open spec fn with_snapshot(s: StoreParts, ready: ReadyParts) -> StoreParts {
    if ready.snapshot.index != 0 {
        restored(s, ready.snapshot)
    } else {
        s
    }
}

/// The store after everything was kept: the snapshot, then the entries, then the
/// hard state.
pub open spec fn kept(s: StoreParts, ready: ReadyParts) -> StoreParts {
    let grown = appended(with_snapshot(s, ready), ready.entries);
    match ready.hard {
        Some(hard) => StoreParts { hard, ..grown },
        None => grown,
    }
}

/// The store with a new commit index, if there is one.
pub open spec fn committed_to(s: StoreParts, commit: Option<u64>) -> StoreParts {
    match commit {
        Some(commit) => StoreParts { hard: HardParts { commit, ..s.hard }, ..s },
        None => s,
    }
}

/// What is left when messages and committed entries were taken.
pub open spec fn emptied(parts: ReadyParts) -> ReadyParts {
    ReadyParts { messages: seq![], committed: seq![], persisted: seq![], ..parts }
}

/// What decides whether a call into the protocol is sound.
#[derive(Clone, Copy)]
pub struct Position {
    pub role: Role,
    pub head: NodeHead,
    pub log: LogHead,
    /// The last index of the log.
    pub last: u64,
    /// The term at the last index.
    pub last_term: u64,
    /// The node follows its own progress.
    pub member: bool,
    /// The node's own vote is enough.
    pub alone: bool,
    /// The entries that were committed but not applied can be read.
    pub readable: bool,
    /// There is a change of the configuration among them.
    pub changing: bool,
}

/// The first index that is looked at for changes of the configuration.
pub open spec fn unapplied_low(log: LogHead) -> int {
    match log.unstable {
        Some(index) => index as int,
        None => log.applied + 1,
    }
}

/// The entries that were committed but not applied can be read.
pub open spec fn unapplied_readable(raw: RawNode, store: StoreParts) -> bool {
    let log = log_head(raw);
    log_first(raw, store) <= unapplied_low(log) <= log.committed + 1 <= log_last(raw, store) + 1
        && log.committed < u64::MAX
}

/// There is a change of the configuration among the entries.
pub open spec fn has_change(entries: Seq<Entry>) -> bool {
    exists|i: int| 0 <= i < entries.len() && !entry_parts(#[trigger] entries[i]).normal
}

/// A change of the configuration was committed but not applied.
pub open spec fn changing(raw: RawNode, store: StoreParts) -> bool {
    let log = log_head(raw);
    let entries = log_slice(
        raw,
        store,
        unapplied_low(log) as u64,
        (log.committed + 1) as u64,
    );
    unapplied_readable(raw, store) && has_change(entries)
}

/// Where a node stands, over this store.
pub open spec fn position_of(raw: RawNode, store: StoreParts) -> Position {
    Position {
        role: role_of(raw),
        head: node_head(raw),
        log: log_head(raw),
        last: log_last(raw, store),
        last_term: log_last_term(raw, store),
        member: tracks(raw, node_head(raw).id),
        alone: quorum(raw, set![node_head(raw).id]),
        readable: unapplied_readable(raw, store),
        changing: changing(raw, store),
    }
}

/// The voters are this node and no other. Without voters no vote is needed.
pub open spec fn none_but(voters: Seq<u64>, id: u64) -> bool {
    forall|i: int| 0 <= i < voters.len() ==> #[trigger] voters[i] == id
}

/// Where a new node stands, with an empty log and these voters.
pub open spec fn begins(p: Position, id: u64, election_tick: usize, voters: Seq<u64>) -> bool {
    &&& p.role is Follower
    &&& p.head.id == id
    &&& p.head.term == 0
    &&& p.head.vote == 0
    &&& p.head.leader == 0
    &&& p.head.promotable == voters.contains(id)
    &&& !p.head.auto_leave
    &&& !p.head.handing_over
    &&& p.head.elapsed == 0
    &&& election_tick <= p.head.timeout < 2 * election_tick
    &&& p.log == (LogHead { committed: 0, persisted: 0, applied: 0, unstable: None })
    &&& p.last == 0
    &&& p.last_term == 0
    &&& p.member == voters.contains(id)
    &&& p.alone == none_but(voters, id)
    &&& p.readable
    &&& !p.changing
}

/// There is room for another index behind the log.
pub open spec fn roomy(p: Position) -> bool {
    p.last + 1 < u64::MAX
}

/// The node can become the leader.
pub open spec fn can_win(p: Position) -> bool {
    p.member && p.last == p.log.persisted
}

/// The node can be told to stand for election: it already leads, a change of the
/// configuration keeps it from standing, or it can take the next term and, if its own
/// vote is enough, the lead.
pub open spec fn can_campaign(p: Position) -> bool {
    p.role is Leader || p.readable && (p.changing || {
        &&& roomy(p)
        &&& p.head.term < u64::MAX
        &&& p.alone ==> can_win(p)
    })
}

/// What the node is once it was told to stand for election.
pub open spec fn role_after_campaign(p: Position) -> Role {
    if p.role is Leader || p.changing {
        p.role
    } else if p.alone {
        Role::Leader
    } else {
        Role::Candidate
    }
}

/// The node stands for election as soon as time passes.
pub open spec fn is_due(p: Position) -> bool {
    !(p.role is Leader) && p.head.promotable && p.head.elapsed + 1 >= p.head.timeout
}

/// The node can be told that time has passed.
pub open spec fn can_tick(p: Position) -> bool {
    p.head.elapsed < usize::MAX && (is_due(p) ==> can_campaign(p))
}

/// The node can be given data with a context of these lengths: if it leads, there is
/// room for an entry, and its size can be computed.
pub open spec fn can_propose(p: Position, context: nat, data: nat) -> bool {
    p.role is Leader ==> roomy(p) && 96 + data + context < u32::MAX
}

/// Data are appended to the log, or handed on to the leader.
pub open spec fn takes_proposals(p: Position) -> bool {
    match p.role {
        Role::Leader => p.member && !p.head.handing_over,
        Role::Follower => p.head.leader != 0,
        _ => false,
    }
}

/// The node can be asked what is to be done: if it leads and a change of the
/// configuration is about to end by itself, there is room for the entries that end it.
pub open spec fn can_ready(p: Position) -> bool {
    p.role is Leader && p.head.auto_leave ==> p.last + 4 < u64::MAX
}

/// Messages of this kind are for the node itself; from outside they are refused.
pub open spec fn is_local(kind: i32) -> bool {
    kind == MSG_HUP || kind == MSG_BEAT || kind == MSG_UNREACHABLE || kind == MSG_SNAP_STATUS
        || kind == MSG_CHECK_QUORUM
}

/// Messages of this kind answer another; from an unknown node they are refused.
pub open spec fn is_response(kind: i32) -> bool {
    kind == MSG_APPEND_RESPONSE || kind == MSG_VOTE_RESPONSE || kind == MSG_HEARTBEAT_RESPONSE
        || kind == MSG_PRE_VOTE_RESPONSE
}

/// Messages of this kind come from a leader.
pub open spec fn is_leading(kind: i32) -> bool {
    kind == MSG_APPEND || kind == MSG_HEARTBEAT || kind == MSG_SNAPSHOT
}

/// Where a node stands once it has taken over the term of a message: a later term makes
/// it a follower, unless the message only asks about an election, or answers yes to
/// that.
pub open spec fn with_term_of(p: Position, h: MessageHead) -> Position {
    if h.term > p.head.term && h.kind != MSG_PRE_VOTE && (h.kind != MSG_PRE_VOTE_RESPONSE
        || h.reject) {
        Position {
            role: Role::Follower,
            head: NodeHead {
                term: h.term,
                vote: 0,
                leader: if is_leading(h.kind) {
                    h.from
                } else {
                    0
                },
                ..p.head
            },
            ..p
        }
    } else {
        p
    }
}

/// The node answers yes to a candidate.
pub open spec fn approves(p: Position, h: MessageHead) -> bool {
    &&& p.head.vote == h.from || p.head.vote == 0 && p.head.leader == 0 || h.kind == MSG_PRE_VOTE
        && h.term > p.head.term
    &&& h.log_term > p.last_term || h.log_term == p.last_term && h.index >= p.last
    &&& h.index > p.last || h.priority >= 0
}

/// The log has the entry.
pub open spec fn known(raw: RawNode, store: StoreParts, e: Entry) -> bool {
    log_has(raw, store, entry_parts(e).index, entry_parts(e).term)
}

/// The position of the first entry from `i` on that the log does not have.
pub open spec fn first_new(raw: RawNode, store: StoreParts, entries: Seq<Entry>, i: int) -> int
    decreases entries.len() - i,
{
    if i < 0 || i >= entries.len() || !known(raw, store, entries[i]) {
        i
    } else {
        first_new(raw, store, entries, i + 1)
    }
}

/// The entries can take their place in the log from an index on: they follow upon each
/// other from there, what was committed stays, there is no gap before them, and their
/// sizes can be computed. Entries out of line would be taken at first, too, but the
/// protocol panics as soon as it finds that they were kept where they do not belong, or
/// commits up to one of them.
pub open spec fn joins(p: Position, entries: Seq<Entry>, index: u64) -> bool {
    &&& p.log.committed < index <= p.last + 1
    &&& index + entries.len() + 1 < u64::MAX
    &&& forall|i: int|
        0 <= i < entries.len() ==> {
            &&& entry_parts(#[trigger] entries[i]).index == index + i
            &&& sizable_entry(entry_parts(entries[i]))
        }
}

/// A follower can take in entries behind an index that it has: those from the first new
/// one on join its log, or nothing is new, and what is committed by the message is there
/// then.
pub open spec fn can_take_entries(
    raw: RawNode,
    store: StoreParts,
    h: MessageHead,
    entries: Seq<Entry>,
    p: Position,
) -> bool {
    let i = first_new(raw, store, entries, 0);
    let at = entry_parts(entries[i]).index;
    let commit = if h.commit <= h.index + entries.len() {
        h.commit as int
    } else {
        h.index + entries.len()
    };
    let start = at - (h.index + 1);
    h.index + entries.len() <= u64::MAX && if i == entries.len() || at == 0 {
        commit <= p.last
    } else {
        &&& p.log.committed < at
        &&& 0 <= start <= entries.len()
        &&& if start == entries.len() {
            commit <= p.last
        } else {
            joins(p, entries.skip(start), at) && commit < at + (entries.len() - start)
        }
    }
}

/// A node with this id is part of the configuration in the snapshot.
pub open spec fn mentions(s: SnapshotParts, id: u64) -> bool {
    s.voters.contains(id) || s.learners.contains(id) || s.outgoing.contains(id)
}

/// None of the ids is among others.
pub open spec fn apart(ids: Seq<u64>, others: Seq<u64>) -> bool {
    forall|i: int| 0 <= i < ids.len() ==> !others.contains(#[trigger] ids[i])
}

/// All of the ids are among others.
pub open spec fn within(ids: Seq<u64>, others: Seq<u64>) -> bool {
    forall|i: int| 0 <= i < ids.len() ==> others.contains(#[trigger] ids[i])
}

/// The configuration in the snapshot is one that a node can take over: it has voters, no
/// id is 0, no learner is a voter, those that are about to become learners are about to
/// stop being voters, and only a change under way ends by itself.
pub open spec fn conf_ok(s: SnapshotParts) -> bool {
    &&& s.voters.len() > 0
    &&& !s.voters.contains(0)
    &&& !s.learners.contains(0)
    &&& !s.outgoing.contains(0)
    &&& apart(s.learners, s.voters)
    &&& apart(s.learners, s.outgoing)
    &&& apart(s.coming, s.voters)
    &&& within(s.coming, s.outgoing)
    &&& s.auto_leave ==> s.outgoing.len() > 0
}

/// A follower can take in the snapshot, or passes it over because it is old, has no
/// place for the node, or ends with what the log has.
pub open spec fn can_take_snapshot(
    raw: RawNode,
    store: StoreParts,
    p: Position,
    s: SnapshotParts,
) -> bool {
    ||| s.index < p.log.committed
    ||| !mentions(s, p.head.id)
    ||| if log_has(raw, store, s.index, s.term) {
        s.index <= p.last
    } else {
        conf_ok(s) && 0 < s.index && s.index + 2 < u64::MAX
    }
}

/// A follower can take in the message.
pub open spec fn can_follow(raw: RawNode, store: StoreParts, m: RaftMessage, p: Position) -> bool {
    let h = message_head(m);
    let entries = message_entries(m);
    if h.kind == MSG_PROPOSE || h.kind == MSG_TRANSFER_LEADER || h.kind == MSG_READ_INDEX {
        h.term == 0 || p.head.leader == 0
    } else if h.kind == MSG_APPEND {
        ||| h.index < p.log.committed
        ||| !log_has(raw, store, h.index, h.log_term)
        ||| can_take_entries(raw, store, h, entries, p)
    } else if h.kind == MSG_HEARTBEAT {
        h.commit <= p.last
    } else if h.kind == MSG_SNAPSHOT {
        can_take_snapshot(raw, store, p, message_snapshot(m))
    } else if h.kind == MSG_TIMEOUT_NOW {
        !p.head.promotable || can_campaign(p)
    } else if h.kind == MSG_READ_INDEX_RESPONSE {
        h.term != 0 || h.index <= p.last || entries.len() != 1
    } else {
        true
    }
}

/// The nodes that have voted for this one, with one more unless it has already voted.
pub open spec fn granted(votes: Map<u64, bool>, from: u64) -> Set<u64> {
    Set::new(
        |id: u64|
            if votes.contains_key(id) {
                votes[id]
            } else {
                id == from
            },
    )
}

/// A leader has no answer to a request to read without entries: it would answer, and
/// takes the answer from them.
pub open spec fn must_read(raw: RawNode, store: StoreParts, h: MessageHead, p: Position) -> bool {
    &&& log_has(raw, store, p.log.committed, p.head.term)
    &&& !p.head.singleton || h.from == 0 || h.from == p.head.id
}

/// A node at this position can take in the message.
pub open spec fn can_take(raw: RawNode, store: StoreParts, m: RaftMessage, p: Position) -> bool {
    let h = message_head(m);
    let entries = message_entries(m);
    &&& roomy(p)
    &&& if h.kind == MSG_VOTE || h.kind == MSG_PRE_VOTE {
        if approves(p, h) {
            h.term != 0
        } else {
            p.head.term != 0
        }
    } else {
        match p.role {
            Role::Leader => if h.kind == MSG_PROPOSE {
                &&& entries.len() > 0
                &&& p.last + entries.len() < u64::MAX
                &&& forall|i: int|
                    0 <= i < entries.len() ==> sizable_entry(entry_parts(#[trigger] entries[i]))
            } else if h.kind == MSG_READ_INDEX {
                must_read(raw, store, h, p) ==> entries.len() > 0
            } else if h.kind == MSG_APPEND_RESPONSE {
                h.index + 1 < u64::MAX && h.reject_hint < u64::MAX && h.request_snapshot
                    < u64::MAX
            } else {
                true
            },
            Role::Follower => can_follow(raw, store, m, p),
            _ => if is_leading(h.kind) {
                h.term != 0 && can_follow(raw, store, m, p)
            } else if p.role is Candidate && h.kind == MSG_VOTE_RESPONSE || p.role
                is PreCandidate && h.kind == MSG_PRE_VOTE_RESPONSE {
                ||| h.reject
                ||| !quorum(raw, granted(votes_of(raw), h.from))
                ||| can_win(p) && (p.role is PreCandidate ==> p.head.term < u64::MAX)
            } else {
                true
            },
        }
    }
}

/// The message is refused for its kind or its sender.
pub open spec fn is_refused(raw: RawNode, m: RaftMessage) -> bool {
    let h = message_head(m);
    is_local(h.kind) || is_response(h.kind) && !tracks(raw, h.from)
}

/// The node can be given the message: it is refused or passed over for its kind, its
/// sender or its term, or the node can take it in.
pub open spec fn can_step(raw: RawNode, store: StoreParts, m: RaftMessage) -> bool {
    let h = message_head(m);
    let p = position_of(raw, store);
    ||| is_refused(raw, m)
    ||| h.term != 0 && h.term < p.head.term
    ||| can_take(raw, store, m, with_term_of(p, h))
}

/// The voters are such that a node can be started with them, or is refused: there
/// is no 0 among them, unless it comes first.
pub open spec fn voters_ok(voters: Seq<u64>) -> bool {
    voters.contains(0) ==> voters[0] == 0
}

/// `Config::validate` with the default settings but for these: a node needs an id
/// other than 0, and the election timeout must be above the heartbeat interval,
/// which must not be 0.
#[verifier::external_body]
pub(crate) fn validate(id: u64, election_tick: usize, heartbeat_tick: usize) -> (r: core::result::Result<
    (),
    raft::Error,
>)
    requires
        2 * election_tick <= usize::MAX,
    ensures
        r is Ok == (id != 0 && 0 < heartbeat_tick < election_tick),
{
    Config { id, election_tick, heartbeat_tick, ..Default::default() }.validate()
}

/// `MemStorage::new_with_conf_state`: an empty log with the given voters.
#[verifier::external_body]
pub(crate) fn new_store(voters: &[u64]) -> (s: MemStorage)
    ensures
        store_parts(s) == fresh_store(voters@),
{
    MemStorage::new_with_conf_state((voters.to_vec(), vec![]))
}

/// `Logger::root` over `Discard`: a logger that drops what it gets.
#[verifier::external_body]
pub fn discard_logger() -> Logger {
    Logger { inner: slog::Logger::root(slog::Discard, slog::OwnedKV(())) }
}

/// `RawNode::new` over an empty log. It adds the voters one by one and refuses a first
/// voter 0; a voter 0 further on is a panic. It waits for nothing, and follows nobody yet.
#[verifier::external_body]
pub(crate) fn new_raw(
    id: u64,
    election_tick: usize,
    heartbeat_tick: usize,
    store: &MemStorage,
    logger: &Logger,
) -> (r: core::result::Result<RawNode, raft::Error>)
    requires
        id != 0,
        0 < heartbeat_tick < election_tick,
        2 * election_tick <= usize::MAX,
        store_parts(*store) == fresh_store(store_parts(*store).voters),
        voters_ok(store_parts(*store).voters),
    ensures
        match r {
            Ok(raw) => {
                &&& store_parts(*store).voters.len() == 0 || store_parts(*store).voters[0] != 0
                &&& begins(
                    position_of(raw, store_parts(*store)),
                    id,
                    election_tick,
                    store_parts(*store).voters,
                )
                &&& settled(raw, *store)
                &&& may_start(id, election_tick, heartbeat_tick, store_parts(*store), raw)
            },
            Err(e) => store_parts(*store).voters.len() > 0 && store_parts(*store).voters[0] == 0,
        },
{
    let config = Config { id, election_tick, heartbeat_tick, ..Default::default() };
    Ok(RawNode { raw: raft::RawNode::new(&config, store.clone(), &logger.inner)? })
}

impl RawNode {
    /// The `state` of the node.
    #[verifier::external_body]
    pub(crate) fn role(&self) -> (r: Role)
        ensures
            r == role_of(*self),
    {
        match self.raw.raft.state {
            StateRole::Follower => Role::Follower,
            StateRole::Candidate => Role::Candidate,
            StateRole::Leader => Role::Leader,
            StateRole::PreCandidate => Role::PreCandidate,
        }
    }

    /// The fields of the node that say where it stands, with `Raft::promotable`,
    /// `ProgressTracker::is_singleton`, the flag `auto_leave` of its configuration and
    /// `Raft::randomized_election_timeout`.
    #[verifier::external_body]
    pub(crate) fn head(&self) -> (h: NodeHead)
        ensures
            h == node_head(*self),
    {
        let raft = &self.raw.raft;
        NodeHead {
            id: raft.id,
            term: raft.term,
            vote: raft.vote,
            leader: raft.leader_id,
            promotable: raft.promotable(),
            singleton: raft.prs().is_singleton(),
            auto_leave: *raft.prs().conf().auto_leave(),
            handing_over: raft.lead_transferee.is_some(),
            elapsed: raft.election_elapsed,
            timeout: raft.randomized_election_timeout(),
        }
    }

    /// The fields `committed` and `persisted` of the node's log, `RaftLog::applied`, and
    /// `Unstable::maybe_first_index`.
    #[verifier::external_body]
    pub(crate) fn log(&self) -> (l: LogHead)
        ensures
            l == log_head(*self),
    {
        let log = &self.raw.raft.raft_log;
        LogHead {
            committed: log.committed,
            persisted: log.persisted,
            applied: log.applied(),
            unstable: log.unstable().maybe_first_index(),
        }
    }

    /// `ProgressTracker::has_quorum`.
    #[verifier::external_body]
    pub(crate) fn has_quorum(&self, ids: &[u64]) -> (b: bool)
        ensures
            b == quorum(*self, ids@.to_set()),
    {
        self.raw.raft.prs().has_quorum(&ids.iter().cloned().collect())
    }

    /// `ProgressTracker::votes`, as pairs in no particular order.
    #[verifier::external_body]
    pub(crate) fn votes(&self) -> (votes: Vec<(u64, bool)>)
        ensures
            forall|i: int|
                0 <= i < votes@.len() ==> votes_of(*self).contains_pair(
                    (#[trigger] votes@[i]).0,
                    votes@[i].1,
                ),
            forall|id: u64| #[trigger]
                votes_of(*self).contains_key(id) ==> votes@.contains((id, votes_of(*self)[id])),
    {
        self.raw.raft.prs().votes().iter().map(|(id, vote)| (*id, *vote)).collect()
    }

    /// `ProgressTracker::get` finds something.
    #[verifier::external_body]
    pub(crate) fn tracks(&self, id: u64) -> (b: bool)
        ensures
            b == tracks(*self, id),
    {
        self.raw.raft.prs().get(id).is_some()
    }

    /// `RaftLog::first_index`, over the log that `store` is a handle of.
    #[verifier::external_body]
    pub(crate) fn first(&self, store: &MemStorage) -> (index: u64)
        requires
            settled(*self, *store),
        ensures
            index == log_first(*self, store_parts(*store)),
    {
        self.raw.raft.raft_log.first_index()
    }

    /// `RaftLog::slice` without a limit, over the log that `store` is a handle of. It
    /// panics, or gives an error, outside the log.
    #[verifier::external_body]
    pub(crate) fn slice(&self, store: &MemStorage, low: u64, high: u64) -> (r:
        core::result::Result<Vec<Entry>, raft::Error>)
        requires
            settled(*self, *store),
            log_first(*self, store_parts(*store)) <= low <= high <= log_last(
                *self,
                store_parts(*store),
            ) + 1,
        ensures
            r is Ok,
            r->Ok_0@ == log_slice(*self, store_parts(*store), low, high),
    {
        self.raw.raft.raft_log.slice(low, high, None, GetEntriesContext::empty(false))
    }

    /// `RaftLog::last_index`, over the log that `store` is a handle of.
    #[verifier::external_body]
    pub(crate) fn last(&self, store: &MemStorage) -> (index: u64)
        requires
            settled(*self, *store),
        ensures
            index == log_last(*self, store_parts(*store)),
    {
        self.raw.raft.raft_log.last_index()
    }

    /// `RaftLog::last_term`, over the log that `store` is a handle of.
    #[verifier::external_body]
    pub(crate) fn last_term(&self, store: &MemStorage) -> (term: u64)
        requires
            settled(*self, *store),
        ensures
            term == log_last_term(*self, store_parts(*store)),
    {
        self.raw.raft.raft_log.last_term()
    }

    /// `RaftLog::match_term`, over the log that `store` is a handle of.
    #[verifier::external_body]
    pub(crate) fn has(&self, store: &MemStorage, index: u64, term: u64) -> (b: bool)
        requires
            settled(*self, *store),
        ensures
            b == log_has(*self, store_parts(*store), index, term),
    {
        self.raw.raft.raft_log.match_term(index, term)
    }

    /// `RawNode::tick`, while it waits for nothing. When an election begins depends on
    /// chance. A node that has to begin one must be able to (see `campaign`).
    #[verifier::external_body]
    pub(crate) fn tick(&mut self, store: &MemStorage) -> (b: bool)
        requires
            settled(*old(self), *store),
            can_tick(position_of(*old(self), store_parts(*store))),
        ensures
            settled(*final(self), *store),
            role_of(*final(self)) == {
                let p = position_of(*old(self), store_parts(*store));
                if is_due(p) {
                    role_after_campaign(p)
                } else {
                    p.role
                }
            },
            !leads(*old(self)) ==> b == is_due(position_of(*old(self), store_parts(*store))),
            may_tick(*old(self), *final(self), b),
    {
        self.raw.tick()
    }

    /// `RawNode::campaign`, while it waits for nothing. The next timeout depends on
    /// chance. A node that wins by its own vote looks up its own progress and wants
    /// its log to be kept; otherwise it panics.
    #[verifier::external_body]
    pub(crate) fn campaign(&mut self, store: &MemStorage) -> (r: core::result::Result<
        (),
        raft::Error,
    >)
        requires
            settled(*old(self), *store),
            can_campaign(position_of(*old(self), store_parts(*store))),
        ensures
            settled(*final(self), *store),
            r is Ok,
            role_of(*final(self)) == role_after_campaign(
                position_of(*old(self), store_parts(*store)),
            ),
            may_campaign(*old(self), *final(self), r),
    {
        self.raw.campaign()
    }

    /// `RawNode::propose`, while it waits for nothing. A leader appends the data, unless
    /// it is no part of the configuration or hands the lead over, and a follower hands
    /// them on to the leader that it knows; otherwise they are refused.
    #[verifier::external_body]
    pub(crate) fn propose(
        &mut self,
        store: &MemStorage,
        context: Vec<u8>,
        data: Vec<u8>,
    ) -> (r: core::result::Result<(), raft::Error>)
        requires
            settled(*old(self), *store),
            can_propose(
                position_of(*old(self), store_parts(*store)),
                context@.len(),
                data@.len(),
            ),
        ensures
            settled(*final(self), *store),
            r is Ok == takes_proposals(position_of(*old(self), store_parts(*store))),
            role_of(*final(self)) == role_of(*old(self)),
            may_propose(*old(self), context@, data@, *final(self), r),
    {
        self.raw.propose(context, data)
    }

    /// `RawNode::step`, while it waits for nothing. The next timeout depends on chance.
    /// It panics on messages that no node sends that follows the protocol: those that
    /// contradict what was committed, whose entries do not follow upon their index,
    /// that lack a term, bear one, or lack entries where the type does not allow it, or
    /// that carry entries whose size cannot be computed. Only proposals are refused for
    /// other reasons than their kind or their sender.
    #[verifier::external_body]
    pub(crate) fn step(&mut self, store: &MemStorage, m: RaftMessage) -> (r: core::result::Result<
        (),
        raft::Error,
    >)
        requires
            settled(*old(self), *store),
            can_step(*old(self), store_parts(*store), m),
        ensures
            settled(*final(self), *store),
            is_refused(*old(self), m) ==> r is Err && role_of(*final(self)) == role_of(
                *old(self),
            ),
            r is Err ==> is_refused(*old(self), m) || message_head(m).kind == MSG_PROPOSE,
            may_step(*old(self), m, *final(self), r),
    {
        self.raw.step(m)
    }

    /// `RawNode::has_ready`.
    #[verifier::external_body]
    pub(crate) fn has_ready(&self) -> (b: bool)
        ensures
            may_have_ready(*self, b),
    {
        self.raw.has_ready()
    }

    /// `RawNode::ready`, while it waits for nothing. From then on it waits for the
    /// batch to be carried out. Carrying it out may append up to two entries that end a
    /// change of the configuration.
    #[verifier::external_body]
    pub(crate) fn ready(&mut self, store: &MemStorage) -> (ready: Ready)
        requires
            settled(*old(self), *store),
            can_ready(position_of(*old(self), store_parts(*store))),
        ensures
            log_read(*final(self)) == log_read(*old(self)),
            role_of(*final(self)) == role_of(*old(self)),
            standing(*final(self)) == (Standing::Owed {
                ready: ready_parts(ready),
                kept: kept(store_parts(*store), ready_parts(ready)),
            }),
            may_ready(*old(self), ready, *final(self)),
    {
        self.raw.ready()
    }

    /// `RawNode::advance`, with the batch that it waits for and once the log holds what
    /// it expects; it panics on any other batch. From then on it waits for what it
    /// hands out to be carried out.
    #[verifier::external_body]
    pub(crate) fn advance(&mut self, store: &MemStorage, ready: Ready) -> (light: LightReady)
        requires
            log_read(*old(self)) == log_of(*store),
            standing(*old(self)) matches Standing::Owed { ready: owed, kept } && emptied(owed)
                == emptied(ready_parts(ready)) && kept == store_parts(*store),
        ensures
            log_read(*final(self)) == log_read(*old(self)),
            standing(*final(self)) == Standing::Applying(
                committed_to(store_parts(*store), light_parts(light).commit),
            ),
            may_advance(*old(self), ready, light, *final(self)),
    {
        self.raw.advance(ready)
    }

    /// `RawNode::advance_apply`, once what it waits for was carried out.
    #[verifier::external_body]
    pub(crate) fn advance_apply(&mut self, store: &MemStorage)
        requires
            log_read(*old(self)) == log_of(*store),
            standing(*old(self)) == Standing::Applying(store_parts(*store)),
        ensures
            settled(*final(self), *store),
            may_apply(*old(self), *final(self)),
    {
        self.raw.advance_apply()
    }
}

/// `Ready::take_messages`.
#[verifier::external_body]
pub(crate) fn take_messages(ready: &mut Ready) -> (messages: Vec<RaftMessage>)
    ensures
        messages@ == ready_parts(*old(ready)).messages,
        ready_parts(*final(ready)) == (ReadyParts {
            messages: seq![],
            ..ready_parts(*old(ready))
        }),
{
    ready.take_messages()
}

/// `Ready::take_persisted_messages`.
#[verifier::external_body]
pub(crate) fn take_persisted(ready: &mut Ready) -> (messages: Vec<RaftMessage>)
    ensures
        messages@ == ready_parts(*old(ready)).persisted,
        ready_parts(*final(ready)) == (ReadyParts {
            persisted: seq![],
            ..ready_parts(*old(ready))
        }),
{
    ready.take_persisted_messages()
}

/// `Ready::take_committed_entries`.
#[verifier::external_body]
pub(crate) fn take_committed(ready: &mut Ready) -> (entries: Vec<Entry>)
    ensures
        entries@ == ready_parts(*old(ready)).committed,
        ready_parts(*final(ready)) == (ReadyParts {
            committed: seq![],
            ..ready_parts(*old(ready))
        }),
{
    ready.take_committed_entries()
}

/// `Ready::snapshot`, cloned.
#[verifier::external_body]
pub(crate) fn snapshot_of(ready: &Ready) -> (s: Snapshot)
    ensures
        snapshot_parts(s) == ready_parts(*ready).snapshot,
{
    ready.snapshot().clone()
}

/// `Ready::entries`.
#[verifier::external_body]
pub(crate) fn entries_of(ready: &Ready) -> (entries: &Vec<Entry>)
    ensures
        entries@ == ready_parts(*ready).entries,
{
    ready.entries()
}

/// `Ready::hs`, cloned.
#[verifier::external_body]
pub(crate) fn hard_state_of(ready: &Ready) -> (hs: Option<HardState>)
    ensures
        match hs {
            Some(h) => ready_parts(*ready).hard == Some(hard_parts(h)),
            None => ready_parts(*ready).hard is None,
        },
{
    ready.hs().cloned()
}

/// `LightReady::commit_index`.
#[verifier::external_body]
pub(crate) fn commit_index(light: &LightReady) -> (c: Option<u64>)
    ensures
        c == light_parts(*light).commit,
{
    light.commit_index()
}

/// `LightReady::take_messages`.
#[verifier::external_body]
pub(crate) fn take_light_messages(light: &mut LightReady) -> (messages: Vec<RaftMessage>)
    ensures
        messages@ == light_parts(*old(light)).messages,
        light_parts(*final(light)) == (LightParts {
            messages: seq![],
            ..light_parts(*old(light))
        }),
{
    light.take_messages()
}

/// `LightReady::take_committed_entries`.
#[verifier::external_body]
pub(crate) fn take_light_committed(light: &mut LightReady) -> (entries: Vec<Entry>)
    ensures
        entries@ == light_parts(*old(light)).committed,
        light_parts(*final(light)) == (LightParts {
            committed: seq![],
            ..light_parts(*old(light))
        }),
{
    light.take_committed_entries()
}

/// `Entry::get_index`.
#[verifier::external_body]
pub(crate) fn entry_index(e: &Entry) -> (index: u64)
    ensures
        index == entry_parts(*e).index,
{
    e.get_index()
}

/// `Entry::get_term`.
#[verifier::external_body]
pub(crate) fn entry_term(e: &Entry) -> (term: u64)
    ensures
        term == entry_parts(*e).term,
{
    e.get_term()
}

/// `Entry::get_entry_type` is `EntryNormal`.
#[verifier::external_body]
pub(crate) fn entry_is_normal(e: &Entry) -> (b: bool)
    ensures
        b == entry_parts(*e).normal,
{
    e.get_entry_type() == EntryType::EntryNormal
}

/// The length of `Entry::get_data`.
#[verifier::external_body]
pub(crate) fn entry_data_len(e: &Entry) -> (n: usize)
    ensures
        n == entry_parts(*e).data.len(),
{
    e.get_data().len()
}

/// The length of `Entry::get_context`.
#[verifier::external_body]
pub(crate) fn entry_context_len(e: &Entry) -> (n: usize)
    ensures
        n == entry_parts(*e).context.len(),
{
    e.get_context().len()
}

/// `Message::get_unknown_fields` of an entry.
#[verifier::external_body]
pub(crate) fn entry_unknown(e: &Entry) -> (u: &UnknownFields)
    ensures
        unknown_parts(*u) == entry_parts(*e).unknown,
{
    e.get_unknown_fields()
}

/// `Entry::get_data`, cloned.
#[verifier::external_body]
pub(crate) fn entry_data(e: &Entry) -> (data: Vec<u8>)
    ensures
        data@ == entry_parts(*e).data,
{
    e.get_data().to_vec()
}

/// `Snapshot::is_empty`: the index is 0.
#[verifier::external_body]
pub(crate) fn snapshot_is_empty(s: &Snapshot) -> (b: bool)
    ensures
        b == (snapshot_parts(*s).index == 0),
{
    s.is_empty()
}

/// The index in `Snapshot::get_metadata`.
#[verifier::external_body]
pub(crate) fn snapshot_index(s: &Snapshot) -> (index: u64)
    ensures
        index == snapshot_parts(*s).index,
{
    s.get_metadata().index
}

/// The term in `Snapshot::get_metadata`.
#[verifier::external_body]
pub(crate) fn snapshot_term(s: &Snapshot) -> (term: u64)
    ensures
        term == snapshot_parts(*s).term,
{
    s.get_metadata().term
}

/// The voters in `SnapshotMetadata::get_conf_state`.
#[verifier::external_body]
pub(crate) fn snapshot_voters(s: &Snapshot) -> (ids: &[u64])
    ensures
        ids@ == snapshot_parts(*s).voters,
{
    s.get_metadata().get_conf_state().get_voters()
}

/// The learners in `SnapshotMetadata::get_conf_state`.
#[verifier::external_body]
pub(crate) fn snapshot_learners(s: &Snapshot) -> (ids: &[u64])
    ensures
        ids@ == snapshot_parts(*s).learners,
{
    s.get_metadata().get_conf_state().get_learners()
}

/// The outgoing voters in `SnapshotMetadata::get_conf_state`.
#[verifier::external_body]
pub(crate) fn snapshot_outgoing(s: &Snapshot) -> (ids: &[u64])
    ensures
        ids@ == snapshot_parts(*s).outgoing,
{
    s.get_metadata().get_conf_state().get_voters_outgoing()
}

/// The next learners in `SnapshotMetadata::get_conf_state`.
#[verifier::external_body]
pub(crate) fn snapshot_coming(s: &Snapshot) -> (ids: &[u64])
    ensures
        ids@ == snapshot_parts(*s).coming,
{
    s.get_metadata().get_conf_state().get_learners_next()
}

/// The flag `auto_leave` in `SnapshotMetadata::get_conf_state`.
#[verifier::external_body]
pub(crate) fn snapshot_auto_leave(s: &Snapshot) -> (b: bool)
    ensures
        b == snapshot_parts(*s).auto_leave,
{
    s.get_metadata().get_conf_state().get_auto_leave()
}

/// The length of `Snapshot::get_data`.
#[verifier::external_body]
pub(crate) fn snapshot_len(s: &Snapshot) -> (n: usize)
    ensures
        n == snapshot_parts(*s).len,
{
    s.get_data().len()
}

/// `Message::get_unknown_fields` of a snapshot.
#[verifier::external_body]
pub(crate) fn snapshot_unknown(s: &Snapshot) -> (u: &UnknownFields)
    ensures
        unknown_parts(*u) == snapshot_parts(*s).unknown,
{
    s.get_unknown_fields()
}

/// `Message::get_unknown_fields` of the metadata of a snapshot.
#[verifier::external_body]
pub(crate) fn metadata_unknown(s: &Snapshot) -> (u: &UnknownFields)
    ensures
        unknown_parts(*u) == snapshot_parts(*s).metadata_unknown,
{
    s.get_metadata().get_unknown_fields()
}

/// `Message::get_unknown_fields` of the configuration in a snapshot.
#[verifier::external_body]
pub(crate) fn conf_unknown(s: &Snapshot) -> (u: &UnknownFields)
    ensures
        unknown_parts(*u) == snapshot_parts(*s).conf_unknown,
{
    s.get_metadata().get_conf_state().get_unknown_fields()
}

/// `UnknownFields::fields` is there.
#[verifier::external_body]
pub(crate) fn has_table(u: &UnknownFields) -> (b: bool)
    ensures
        b == unknown_parts(*u) is Some,
{
    u.fields.is_some()
}

/// The numbers that `UnknownFields::iter` gives, in no particular order.
#[verifier::external_body]
pub(crate) fn numbers_of(u: &UnknownFields) -> (numbers: Vec<u32>)
    ensures
        numbers@.no_duplicates(),
        numbers@.to_set() == match unknown_parts(*u) {
            Some(table) => table.dom(),
            None => Set::empty(),
        },
{
    u.iter().map(|(number, _)| number).collect()
}

/// `UnknownFields::get`.
#[verifier::external_body]
pub(crate) fn values_at(u: &UnknownFields, number: u32) -> (r: Option<&UnknownValues>)
    ensures
        match (r, unknown_parts(*u)) {
            (Some(v), Some(table)) => table.contains_pair(number, value_parts(*v)),
            (Some(v), None) => false,
            (None, Some(table)) => !table.contains_key(number),
            (None, None) => true,
        },
{
    u.get(number)
}

/// The number of `UnknownValues::fixed32`.
#[verifier::external_body]
pub(crate) fn fixed32_count(v: &UnknownValues) -> (n: usize)
    ensures
        n == value_parts(*v).fixed32,
{
    v.fixed32.len()
}

/// The number of `UnknownValues::fixed64`.
#[verifier::external_body]
pub(crate) fn fixed64_count(v: &UnknownValues) -> (n: usize)
    ensures
        n == value_parts(*v).fixed64,
{
    v.fixed64.len()
}

/// The number of `UnknownValues::varint`.
#[verifier::external_body]
pub(crate) fn varint_count(v: &UnknownValues) -> (n: usize)
    ensures
        n == value_parts(*v).varint,
{
    v.varint.len()
}

/// `UnknownValues::length_delimited`.
#[verifier::external_body]
pub(crate) fn delimited(v: &UnknownValues) -> (values: &Vec<Vec<u8>>)
    ensures
        value_parts(*v).lengths == values@.map_values(|b: Vec<u8>| b@.len()),
{
    &v.length_delimited
}

/// `MemStorage::first_index`, unless it would overflow.
#[verifier::external_body]
pub(crate) fn store_first(store: &MemStorage) -> (r: core::result::Result<u64, raft::Error>)
    requires
        first_index(store_parts(*store)) <= u64::MAX,
    ensures
        (r == Ok::<u64, raft::Error>(first_index(store_parts(*store)) as u64)),
{
    store.first_index()
}

/// `MemStorage::last_index`.
#[verifier::external_body]
pub(crate) fn store_last(store: &MemStorage) -> (r: core::result::Result<u64, raft::Error>)
    ensures
        (r == Ok::<u64, raft::Error>(last_index(store_parts(*store)) as u64)),
{
    store.last_index()
}

/// `MemStorageCore::apply_snapshot`: takes the place of the log, unless the log
/// begins behind it.
#[verifier::external_body]
pub(crate) fn put_snapshot(store: &mut MemStorage, snapshot: Snapshot) -> (r: core::result::Result<
    (),
    raft::Error,
>)
    requires
        first_index(store_parts(*old(store))) <= u64::MAX,
    ensures
        log_of(*final(store)) == log_of(*old(store)),
        r is Ok == can_restore(store_parts(*old(store)), snapshot_parts(snapshot)),
        store_parts(*final(store)) == if r is Ok {
            restored(store_parts(*old(store)), snapshot_parts(snapshot))
        } else {
            store_parts(*old(store))
        },
{
    store.wl().apply_snapshot(snapshot)
}

/// `MemStorageCore::append`: a gap before the entries, or an entry from before the log,
/// is a panic. The log is held in a `Vec`.
#[verifier::external_body]
pub(crate) fn put_entries(store: &mut MemStorage, entries: &[Entry]) -> (r: core::result::Result<
    (),
    raft::Error,
>)
    requires
        can_append(store_parts(*old(store)), entries@),
    ensures
        r is Ok,
        log_of(*final(store)) == log_of(*old(store)),
        store_parts(*final(store)) == appended(store_parts(*old(store)), entries@),
        store_parts(*final(store)).entries.len() <= usize::MAX,
{
    store.wl().append(entries)
}

/// `MemStorageCore::set_hardstate`.
#[verifier::external_body]
pub(crate) fn put_hard_state(store: &mut MemStorage, hs: HardState)
    ensures
        log_of(*final(store)) == log_of(*old(store)),
        store_parts(*final(store)) == (StoreParts {
            hard: hard_parts(hs),
            ..store_parts(*old(store))
        }),
{
    store.wl().set_hardstate(hs)
}

/// `HardState::set_commit` on `MemStorageCore::mut_hard_state`.
#[verifier::external_body]
pub(crate) fn put_commit(store: &mut MemStorage, commit: u64)
    ensures
        log_of(*final(store)) == log_of(*old(store)),
        store_parts(*final(store)) == committed_to(store_parts(*old(store)), Some(commit)),
{
    store.wl().mut_hard_state().set_commit(commit)
}

/// `Message::write_to_bytes` of the `protobuf` crate, the error as text. It first
/// computes the size of the message, in 32 bits, and panics where a field has a number
/// that the format does not allow. Reading back what it writes gives the message, if
/// what is unknown in it, if anything, is unknown to the reader, too. The order in which
/// it writes fields that it does not know is not determined, so the bytes are not a
/// function of the message.
#[verifier::external_body]
pub(crate) fn write_message(msg: &RaftMessage) -> (r: core::result::Result<Vec<u8>, String>)
    requires
        sizable(*msg),
    ensures
        match r {
            Ok(bytes) => {
                &&& write_fault(*msg) is None
                &&& may_write(*msg, bytes@)
                &&& reads_back(*msg) && bytes@.len() <= i32::MAX ==> parsed_message(bytes@)
                    == Ok::<RaftMessage, Seq<char>>(*msg)
            },
            Err(text) => write_fault(*msg) == Some(text@),
        },
{
    msg.write_to_bytes().map_err(|e| e.to_string())
}

/// `Message::parse_from_bytes` of the `protobuf` crate, the error as text. What it does
/// not know it keeps under the number that it found it with.
#[verifier::external_body]
pub(crate) fn read_message(bytes: &[u8]) -> (r: core::result::Result<RaftMessage, String>)
    ensures
        match r {
            Ok(m) => {
                &&& parsed_message(bytes@) == Ok::<RaftMessage, Seq<char>>(m)
                &&& plain_message(m)
            },
            Err(text) => parsed_message(bytes@) == Err::<RaftMessage, Seq<char>>(text@),
        },
{
    RaftMessage::parse_from_bytes(bytes).map_err(|e| e.to_string())
}

/// The fields of a `Message` that are numbers or flags, the type by its number, and the
/// length of its context.
#[verifier::external_body]
pub(crate) fn head_of(m: &RaftMessage) -> (h: MessageHead)
    ensures
        h == message_head(*m),
{
    MessageHead {
        kind: m.get_msg_type() as i32,
        to: m.to,
        from: m.from,
        term: m.term,
        log_term: m.log_term,
        index: m.index,
        commit: m.commit,
        reject: m.reject,
        reject_hint: m.reject_hint,
        request_snapshot: m.request_snapshot,
        priority: m.priority,
        context: m.context.len(),
    }
}

/// `Message::get_unknown_fields` of a message.
#[verifier::external_body]
pub(crate) fn unknown_in(m: &RaftMessage) -> (u: &UnknownFields)
    ensures
        unknown_parts(*u) == message_unknown(*m),
{
    m.get_unknown_fields()
}

/// `Message::get_entries`.
#[verifier::external_body]
pub(crate) fn entries_in(m: &RaftMessage) -> (entries: &[Entry])
    ensures
        entries@ == message_entries(*m),
{
    m.get_entries()
}

/// `Message::get_snapshot`.
#[verifier::external_body]
pub(crate) fn snapshot_in(m: &RaftMessage) -> (s: &Snapshot)
    ensures
        snapshot_parts(*s) == message_snapshot(*m),
{
    m.get_snapshot()
}

} // verus!
