use lattice::cluster::consensus::{
    decode_message, discard_logger, encode_message, received_message, unwritten, RaftNode, Replica,
};
use lattice::cluster::protocol::message::Message as WireMessage;
use lattice::cluster::driver::{
    decode_write, encode_write, route, Command, RaftDriver, RaftShared,
};
use lattice::cluster::{plan_write, WritePlan};
use lattice::config::Config;
use lattice::error::LatticeError;
use lattice::storage::manifest::Manifest;
use lattice::storage::{Event, Point, Step, Storage};
use lattice::cluster::weight::{is_bare, is_sizable};
use protobuf::Message as _;
use raft::prelude::{Entry, EntryType, Message, MessageType, Snapshot};
use raft::storage::MemStorage;
use std::collections::BTreeMap;

const MSG: &[u8] = b"hello-raft";

#[test]
fn elects_leader_and_replicates() {
    let ids = [1u64, 2, 3];

    let mut nodes: BTreeMap<u64, RaftNode> = BTreeMap::new();
    for &id in &ids {
        nodes.insert(id, RaftNode::new(id, &ids, &discard_logger()).unwrap());
    }

    // force node 1 to start an election rather than wait on timeouts
    nodes.get_mut(&1).unwrap().campaign().unwrap();

    let mut proposed = false;
    let mut committed_everywhere = false;

    for _ in 0..200 {
        for node in nodes.values_mut() {
            node.tick().unwrap();
        }

        let mut outbox: Vec<Message> = Vec::new();
        for node in nodes.values_mut() {
            outbox.append(&mut node.process_ready().unwrap());
        }
        for msg in outbox {
            if let Some(node) = nodes.get_mut(&msg.get_to()) {
                let _ = node.step(msg);
            }
        }

        if !proposed {
            if let Some(leader) = nodes.values_mut().find(|n| n.is_leader()) {
                leader.propose(MSG.to_vec()).unwrap();
                proposed = true;
            }
        }

        if proposed && nodes.values().all(|n| n.applied().iter().any(|d| d.as_slice() == MSG)) {
            committed_everywhere = true;
            break;
        }
    }

    assert!(nodes.values().any(|n| n.is_leader()), "no leader elected");
    assert!(committed_everywhere, "entry not replicated to all nodes");
}

#[test]
fn raft_message_roundtrips_through_bytes() {
    let mut m = Message::default();
    m.set_msg_type(MessageType::MsgRequestVote);
    m.set_to(2);
    m.set_from(1);
    m.set_term(5);

    let bytes = encode_message(&m).unwrap();
    let back = decode_message(&bytes).unwrap();

    assert_eq!(back, m);
}

#[test]
fn malformed_raft_message_is_reported() {
    match decode_message(&[0xff, 0xff, 0xff]) {
        Err(LatticeError::Network(text)) => {
            assert!(text.starts_with("raft decode: "), "unexpected: {text}");
            assert!(text.len() > "raft decode: ".len());
        }
        other => panic!("unexpected result {other:?}"),
    }
    match received_message(Err("why".to_string())) {
        Err(LatticeError::Network(text)) => assert_eq!(text, "raft decode: why"),
        other => panic!("unexpected result {other:?}"),
    }
    assert_eq!(decode_message(&[]).unwrap(), Message::default());
}

#[test]
fn new_node_needs_an_id() {
    assert!(matches!(RaftNode::new(0, &[1], &discard_logger()).err(), Some(LatticeError::Raft(_))));
    assert!(matches!(RaftNode::new(1, &[0], &discard_logger()).err(), Some(LatticeError::Raft(_))));
    let node = RaftNode::new(4, &[4, 4], &discard_logger()).unwrap();
    assert_eq!(node.id(), 4);
    assert!(!node.is_leader());
    assert!(node.applied().is_empty());
    assert!(RaftNode::new(4, &[], &discard_logger()).is_ok());
}

#[test]
fn single_node_leads_and_applies() {
    let mut node = RaftNode::new(1, &[1], &discard_logger()).unwrap();
    assert!(matches!(node.propose(vec![1]), Err(LatticeError::Raft(_))));
    node.campaign().unwrap();
    assert_eq!(node.process_ready().unwrap(), vec![]);
    assert!(node.is_leader());
    node.propose(vec![1, 2]).unwrap();
    node.propose(vec![]).unwrap();
    node.propose(vec![3]).unwrap();
    for _ in 0..5 {
        node.process_ready().unwrap();
    }
    // the empty entries are passed over
    assert_eq!(node.applied(), &[vec![1, 2], vec![3]]);
}

#[test]
fn empty_batches_change_nothing() {
    let mut node = RaftNode::new(1, &[1, 2], &discard_logger()).unwrap();
    assert_eq!(node.process_ready().unwrap(), vec![]);
    assert!(node.applied().is_empty());
    let mut replica = Replica::new(&[1, 2]);
    assert_eq!(replica.persist(&mut raft::Ready::default()).unwrap(), vec![]);
    assert_eq!(replica.settle(&mut raft::LightReady::default()), vec![]);
    assert!(replica.applied().is_empty());
}

fn snapshot_at(index: u64) -> Snapshot {
    let mut s = Snapshot::default();
    s.mut_metadata().index = index;
    s.mut_metadata().term = 1;
    s.mut_metadata().mut_conf_state().mut_voters().push(1);
    s
}

fn raw_node(id: u64, store: MemStorage) -> raft::RawNode<MemStorage> {
    let config = raft::Config { id, election_tick: 10, heartbeat_tick: 3, ..Default::default() };
    let logger = slog::Logger::root(slog::Discard, slog::OwnedKV(()));
    raft::RawNode::new(&config, store, &logger).unwrap()
}

/// What a new leader wants done whose log begins behind a snapshot.
fn entry_behind(index: u64) -> raft::Ready {
    let store = MemStorage::new_with_conf_state((vec![1], vec![]));
    store.wl().apply_snapshot(snapshot_at(index)).unwrap();
    let mut raw = raw_node(1, store);
    raw.campaign().unwrap();
    let ready = raw.ready();
    assert_eq!(ready.entries().len(), 1);
    assert_eq!(ready.entries()[0].get_index(), index + 1);
    ready
}

/// What a node wants done that got a snapshot.
fn snapshot_ready(index: u64) -> raft::Ready {
    let mut raw = raw_node(2, MemStorage::new_with_conf_state((vec![1, 2], vec![])));
    let mut m = Message::default();
    m.set_msg_type(MessageType::MsgSnapshot);
    m.set_from(1);
    m.set_to(2);
    m.set_term(1);
    let mut snapshot = snapshot_at(index);
    snapshot.mut_metadata().mut_conf_state().mut_voters().push(2);
    m.set_snapshot(snapshot);
    raw.step(m).unwrap();
    let ready = raw.ready();
    assert_eq!(ready.snapshot().get_metadata().index, index);
    ready
}

#[test]
fn entries_must_follow_the_log() {
    let mut replica = Replica::new(&[1, 2]);
    match replica.persist(&mut entry_behind(10)) {
        Err(LatticeError::Corrupt(text)) => {
            assert_eq!(text, "raft entries do not follow the log")
        }
        other => panic!("unexpected result {other:?}"),
    }
    // behind a snapshot they do
    replica.persist(&mut snapshot_ready(10)).unwrap();
    replica.persist(&mut entry_behind(10)).unwrap();
    replica.persist(&mut entry_behind(11)).unwrap();
    replica.persist(&mut entry_behind(10)).unwrap();
    assert!(replica.persist(&mut entry_behind(12)).is_err());
}

/// What a follower wants done that got two entries with a gap between them.
fn gapped_ready() -> raft::Ready {
    let mut raw = raw_node(2, MemStorage::new_with_conf_state((vec![1, 2], vec![])));
    let mut m = message(MessageType::MsgAppend, 1);
    for index in [1, 5] {
        let mut e = Entry::default();
        e.set_index(index);
        e.set_term(1);
        m.mut_entries().push(e);
    }
    raw.step(m).unwrap();
    let ready = raw.ready();
    assert_eq!(ready.entries().iter().map(|e| e.get_index()).collect::<Vec<_>>(), vec![1, 5]);
    ready
}

#[test]
fn entries_with_a_gap_inside_are_kept() {
    let mut replica = Replica::new(&[1, 2]);
    replica.persist(&mut gapped_ready()).unwrap();
    // index 5 is the last, but only two entries are there to be replaced
    assert!(replica.persist(&mut entry_behind(5)).is_err());
    replica.persist(&mut entry_behind(1)).unwrap();
    replica.persist(&mut entry_behind(2)).unwrap();
    assert!(replica.persist(&mut entry_behind(4)).is_err());
}

#[test]
fn snapshot_from_before_the_log_is_refused() {
    let mut replica = Replica::new(&[1, 2]);
    replica.persist(&mut snapshot_ready(10)).unwrap();
    assert!(matches!(replica.persist(&mut snapshot_ready(10)), Err(LatticeError::Raft(_))));
    assert!(matches!(replica.persist(&mut snapshot_ready(5)), Err(LatticeError::Raft(_))));
    replica.persist(&mut snapshot_ready(11)).unwrap();
    assert!(replica.applied().is_empty());
}

fn message(kind: MessageType, term: u64) -> Message {
    let mut m = Message::default();
    m.set_msg_type(kind);
    m.set_from(1);
    m.set_to(2);
    m.set_term(term);
    m
}

/// Entries of term 1 behind the start of the log.
fn append(term: u64, indexes: &[u64]) -> Message {
    let mut m = message(MessageType::MsgAppend, term);
    for index in indexes {
        let mut e = Entry::default();
        e.set_index(*index);
        e.set_term(1);
        m.mut_entries().push(e);
    }
    m
}

fn assert_corrupt<T: std::fmt::Debug>(r: lattice::error::Result<T>, text: &str) {
    match r {
        Err(LatticeError::Corrupt(got)) => assert_eq!(got, text),
        other => panic!("unexpected result {other:?}"),
    }
}

#[test]
fn messages_that_contradict_a_node_are_refused() {
    const TEXT: &str = "raft message contradicts the node";
    let new = || RaftNode::new(2, &[1, 2, 3], &discard_logger()).unwrap();

    // a heartbeat that commits what the node does not have
    let mut m = message(MessageType::MsgHeartbeat, 1);
    m.set_commit(1);
    assert_corrupt(new().step(m.clone()), TEXT);
    m.set_commit(0);
    let mut node = new();
    node.step(m).unwrap();
    let out = node.process_ready().unwrap();
    assert_eq!(out.len(), 1);
    assert_eq!(out[0].get_msg_type(), MessageType::MsgHeartbeatResponse);

    // an entry that leaves a gap, or entries out of line
    for indexes in [vec![3], vec![1, 3]] {
        assert_corrupt(new().step(append(1, &indexes)), TEXT);
    }
    // an entry that comes after those of the message is passed over
    let mut node = new();
    node.step(append(1, &[2])).unwrap();
    node.process_ready().unwrap();
    node.step(append(1, &[1])).unwrap();
    node.process_ready().unwrap();
    // and so is one without a term
    let mut m = append(1, &[1]);
    m.mut_entries()[0].set_term(0);
    let mut node = new();
    node.step(m).unwrap();
    node.process_ready().unwrap();

    // an entry whose size cannot be computed
    let mut m = append(1, &[1]);
    m.mut_entries()[0].mut_unknown_fields().add_varint(0, 1);
    assert_corrupt(new().step(m), TEXT);

    // an index that the node does not have, with the term of no entry
    let mut m = message(MessageType::MsgAppend, 1);
    m.set_index(7);
    m.set_commit(7);
    assert_corrupt(new().step(m.clone()), TEXT);
    // with another term it is answered
    m.set_log_term(1);
    new().step(m).unwrap();

    // a request for a vote without a term
    assert_corrupt(new().step(message(MessageType::MsgRequestVote, 0)), TEXT);

    // a snapshot with a configuration that cannot be
    for fault in 0..5 {
        let mut s = snapshot_at(10);
        let conf = s.mut_metadata().mut_conf_state();
        conf.mut_voters().push(2);
        conf.mut_voters_outgoing().push(3);
        match fault {
            0 => conf.mut_voters().push(0),
            1 => conf.mut_learners().push(2),
            2 => conf.mut_learners().push(3),
            3 => conf.mut_learners_next().push(4),
            _ => {
                conf.mut_voters_outgoing().clear();
                conf.set_auto_leave(true);
            }
        }
        let mut m = message(MessageType::MsgSnapshot, 1);
        m.set_snapshot(s);
        assert_corrupt(new().step(m), TEXT);
    }

    // messages for the node itself are refused by the protocol
    assert!(matches!(
        new().step(message(MessageType::MsgHup, 0)),
        Err(LatticeError::Raft(raft::Error::StepLocalMsg))
    ));
}

#[test]
fn messages_that_contradict_a_leader_are_refused() {
    const TEXT: &str = "raft message contradicts the node";
    let mut node = RaftNode::new(2, &[1, 2, 3], &discard_logger()).unwrap();
    node.campaign().unwrap();
    let requests = node.process_ready().unwrap();
    assert_eq!(requests.len(), 2);
    let vote = message(MessageType::MsgRequestVoteResponse, requests[0].get_term());
    node.step(vote).unwrap();
    assert!(node.is_leader());
    node.process_ready().unwrap();

    // nothing to propose
    assert_corrupt(node.step(message(MessageType::MsgPropose, 0)), TEXT);
    // nothing to read is passed over until something was committed in the term
    node.step(message(MessageType::MsgReadIndex, 0)).unwrap();

    // an entry whose size cannot be computed
    let mut m = message(MessageType::MsgPropose, 0);
    let mut e = Entry::default();
    e.mut_unknown_fields().add_fixed32(0x2000_0000, 1);
    m.mut_entries().push(e);
    assert_corrupt(node.step(m), TEXT);

    // more than can be counted
    let mut m = message(MessageType::MsgAppendResponse, 1);
    m.set_index(u64::MAX);
    assert_corrupt(node.step(m.clone()), TEXT);
    m.set_index(0);
    m.set_reject_hint(u64::MAX);
    assert_corrupt(node.step(m.clone()), TEXT);
    m.set_reject_hint(0);
    m.set_request_snapshot(u64::MAX);
    assert_corrupt(node.step(m.clone()), TEXT);

    // the node goes on
    m.set_request_snapshot(0);
    m.set_index(1);
    node.step(m).unwrap();
    node.propose(vec![5]).unwrap();
    node.process_ready().unwrap();
    let mut m = message(MessageType::MsgAppendResponse, 1);
    m.set_index(2);
    node.step(m).unwrap();
    node.process_ready().unwrap();
    assert_eq!(node.applied(), &[vec![5]]);
    assert_corrupt(node.step(message(MessageType::MsgReadIndex, 0)), TEXT);
}

#[test]
fn votes_that_do_not_decide_are_counted() {
    // the node is none of the voters, so it cannot lead them
    let mut node = RaftNode::new(9, &[1, 2, 3], &discard_logger()).unwrap();
    node.campaign().unwrap();
    let requests = node.process_ready().unwrap();
    let term = requests[0].get_term();
    let vote = message(MessageType::MsgRequestVoteResponse, term);
    node.step(vote.clone()).unwrap();
    node.step(vote.clone()).unwrap();
    let mut second = vote;
    second.set_from(2);
    assert_corrupt(node.step(second), "raft message contradicts the node");

    // one who has voted no does not change their mind
    let mut node = RaftNode::new(9, &[1], &discard_logger()).unwrap();
    node.campaign().unwrap();
    node.process_ready().unwrap();
    let mut vote = message(MessageType::MsgRequestVoteResponse, term);
    vote.set_reject(true);
    node.step(vote.clone()).unwrap();
    vote.set_reject(false);
    node.step(vote).unwrap();
    assert!(!node.is_leader());
}

#[test]
fn pending_change_keeps_a_node_from_standing() {
    let mut node = RaftNode::new(1, &[1], &discard_logger()).unwrap();
    let mut m = append(9, &[1]);
    m.mut_entries()[0].set_entry_type(EntryType::EntryConfChange);
    m.set_from(5);
    m.set_commit(1);
    node.step(m).unwrap();
    node.campaign().unwrap();
    assert!(!node.is_leader());
    assert!((0..50).any(|_| node.tick().unwrap()));
    assert!(!node.is_leader());
    // once it is applied the node leads
    node.process_ready().unwrap();
    node.campaign().unwrap();
    assert!(node.is_leader());
}

#[test]
fn proposals_need_a_leader() {
    let mut node = RaftNode::new(2, &[1, 2, 3], &discard_logger()).unwrap();
    assert!(matches!(
        node.propose(vec![1]),
        Err(LatticeError::Raft(raft::Error::ProposalDropped))
    ));
    node.step(message(MessageType::MsgHeartbeat, 1)).unwrap();
    node.propose(vec![1]).unwrap();
    let out = node.process_ready().unwrap();
    assert!(out.iter().any(|m| m.get_msg_type() == MessageType::MsgPropose && m.get_to() == 1));
    node.campaign().unwrap();
    assert!(matches!(
        node.propose(vec![1]),
        Err(LatticeError::Raft(raft::Error::ProposalDropped))
    ));
}

#[test]
fn snapshots_with_a_change_under_way_are_taken_in() {
    let mut s = snapshot_at(10);
    let conf = s.mut_metadata().mut_conf_state();
    conf.mut_voters().clear();
    conf.mut_voters().push(2);
    conf.mut_voters_outgoing().push(2);
    conf.mut_voters_outgoing().push(4);
    conf.mut_learners_next().push(4);
    conf.set_auto_leave(true);
    let mut m = message(MessageType::MsgSnapshot, 1);
    m.set_snapshot(s);
    let mut node = RaftNode::new(2, &[1, 2], &discard_logger()).unwrap();
    node.step(m).unwrap();
    let out = node.process_ready().unwrap();
    assert_eq!(out[0].get_index(), 10);
    // both its own vote and that of 4 are needed
    node.campaign().unwrap();
    assert!(!node.is_leader());
    let out = node.process_ready().unwrap();
    let mut vote = message(MessageType::MsgRequestVoteResponse, out[0].get_term());
    vote.set_from(4);
    node.step(vote).unwrap();
    assert!(node.is_leader());
    for _ in 0..3 {
        node.process_ready().unwrap();
    }
}

#[test]
fn change_under_way_needs_room_to_end() {
    let mut s = snapshot_at(u64::MAX - 5);
    let conf = s.mut_metadata().mut_conf_state();
    conf.mut_voters().clear();
    conf.mut_voters().push(2);
    conf.mut_voters_outgoing().push(2);
    conf.set_auto_leave(true);
    let mut m = message(MessageType::MsgSnapshot, 1);
    m.set_snapshot(s);
    let mut node = RaftNode::new(2, &[1, 2], &discard_logger()).unwrap();
    node.step(m).unwrap();
    node.process_ready().unwrap();
    node.campaign().unwrap();
    assert!(node.is_leader());
    assert_corrupt(node.process_ready(), "raft log is full");
    node.tick().unwrap();
}

#[test]
fn known_snapshot_is_passed_over() {
    let mut node = RaftNode::new(2, &[1, 2, 3], &discard_logger()).unwrap();
    let mut m = append(1, &[1]);
    m.mut_entries()[0].set_data(vec![7].into());
    node.step(m).unwrap();
    node.process_ready().unwrap();
    // the configuration is not looked at, but the entry counts as committed
    let mut s = snapshot_at(1);
    let conf = s.mut_metadata().mut_conf_state();
    conf.mut_voters().push(2);
    conf.mut_voters().push(0);
    let mut m = message(MessageType::MsgSnapshot, 1);
    m.set_snapshot(s);
    node.step(m).unwrap();
    node.process_ready().unwrap();
    assert_eq!(node.applied(), &[vec![7]]);
}

#[test]
fn messages_without_a_size_are_not_written() {
    let refused = |m: &Message| match encode_message(m) {
        Err(LatticeError::Network(text)) => text == "raft encode: message has no size",
        _ => false,
    };
    for number in [0, 0x2000_0000, u32::MAX] {
        let mut m = message(MessageType::MsgAppend, 1);
        m.mut_unknown_fields().add_varint(number, 1);
        assert!(refused(&m));

        let mut m = append(1, &[1, 2]);
        m.mut_entries()[1].mut_unknown_fields().add_fixed64(number, 1);
        assert!(refused(&m));

        for part in 0..3 {
            let mut m = message(MessageType::MsgSnapshot, 1);
            let s = m.mut_snapshot();
            let unknown = match part {
                0 => s.mut_unknown_fields(),
                1 => s.mut_metadata().mut_unknown_fields(),
                _ => s.mut_metadata().mut_conf_state().mut_unknown_fields(),
            };
            unknown.add_length_delimited(number, vec![1]);
            assert!(refused(&m));
            assert!(!is_sizable(&m));
            // such a message goes to nobody
            assert!(route(&[m], &[2]).is_empty());
        }
    }

    // other numbers are written, and read back
    let mut m = append(1, &[1, 2]);
    m.mut_unknown_fields().add_varint(0x1fff_ffff, u64::MAX);
    m.mut_unknown_fields().add_fixed32(0x1fff_ffff, 4);
    m.mut_entries()[1].mut_unknown_fields().add_fixed64(900, 5);
    m.mut_snapshot().mut_unknown_fields().add_length_delimited(901, vec![6, 7]);
    assert!(is_sizable(&m));
    assert_eq!(decode_message(&encode_message(&m).unwrap()).unwrap(), m);
}

#[test]
fn messages_of_nodes_are_bare() {
    let mut node = RaftNode::new(1, &[1, 2], &discard_logger()).unwrap();
    node.campaign().unwrap();
    let mut out = node.process_ready().unwrap();
    let mut vote = message(MessageType::MsgRequestVoteResponse, out[0].get_term());
    vote.set_from(2);
    node.step(vote).unwrap();
    node.propose(vec![3]).unwrap();
    out.append(&mut node.process_ready().unwrap());
    assert!(out.iter().any(|m| !m.get_entries().is_empty()));
    for m in &out {
        assert!(is_bare(m));
        assert_eq!(&decode_message(&encode_message(m).unwrap()).unwrap(), m);
    }

    let mut m = append(1, &[1]);
    assert!(is_bare(&m));
    m.mut_entries()[0].mut_unknown_fields().add_varint(900, 1);
    assert!(!is_bare(&m));
    let mut m = message(MessageType::MsgSnapshot, 1);
    m.mut_snapshot().mut_metadata().mut_unknown_fields().fields = Some(Default::default());
    assert!(!is_bare(&m));
}

#[test]
fn winner_without_a_place_is_refused() {
    // the node is none of the voters, so it cannot lead them
    let mut node = RaftNode::new(2, &[1], &discard_logger()).unwrap();
    node.campaign().unwrap();
    let requests = node.process_ready().unwrap();
    assert_eq!(requests.len(), 1);
    let mut vote = message(MessageType::MsgRequestVoteResponse, requests[0].get_term());
    assert_corrupt(node.step(vote.clone()), "raft message contradicts the node");
    vote.set_reject(true);
    node.step(vote).unwrap();
    assert!(!node.is_leader());
}

#[test]
fn snapshots_are_taken_in() {
    let mut node = RaftNode::new(2, &[1, 2], &discard_logger()).unwrap();
    let mut s = snapshot_at(10);
    s.mut_metadata().mut_conf_state().mut_voters().push(2);
    s.mut_metadata().mut_conf_state().mut_learners().push(3);
    let mut m = message(MessageType::MsgSnapshot, 1);
    m.set_snapshot(s);
    node.step(m).unwrap();
    let out = node.process_ready().unwrap();
    assert_eq!(out.len(), 1);
    assert_eq!(out[0].get_msg_type(), MessageType::MsgAppendResponse);
    assert_eq!(out[0].get_index(), 10);

    // the entry behind it follows
    let mut m = message(MessageType::MsgAppend, 1);
    m.set_index(10);
    m.set_log_term(1);
    m.set_commit(11);
    let mut e = Entry::default();
    e.set_index(11);
    e.set_term(1);
    e.set_data(vec![4, 2].into());
    m.mut_entries().push(e);
    node.step(m).unwrap();
    node.process_ready().unwrap();
    node.process_ready().unwrap();
    assert_eq!(node.applied(), &[vec![4, 2]]);
}

#[test]
fn only_a_member_stands_alone() {
    const TEXT: &str = "raft node cannot stand for election";
    // without voters the node would lead a cluster that it is no part of
    let mut node = RaftNode::new(4, &[], &discard_logger()).unwrap();
    assert_corrupt(node.campaign(), TEXT);
    for _ in 0..50 {
        node.tick().unwrap();
    }
    assert!(!node.is_leader());

    // a lone voter with entries that were not kept yet
    let mut node = RaftNode::new(1, &[1], &discard_logger()).unwrap();
    node.campaign().unwrap();
    node.process_ready().unwrap();
    node.propose(vec![1]).unwrap();
    let mut m = message(MessageType::MsgHeartbeat, 9);
    m.set_from(5);
    node.step(m).unwrap();
    assert!(!node.is_leader());
    assert_corrupt(node.campaign(), TEXT);
    let refused = (0..50).find_map(|_| node.tick().err());
    assert!(matches!(refused, Some(LatticeError::Corrupt(text)) if text == TEXT));
    node.process_ready().unwrap();
    node.campaign().unwrap();
    node.process_ready().unwrap();
    assert!(node.is_leader());
}

#[test]
fn unwritable_message_is_reported() {
    match unwritten("why".to_string()) {
        LatticeError::Network(text) => assert_eq!(text, "raft encode: why"),
        other => panic!("unexpected error {other:?}"),
    }
}

#[test]
fn unknown_sender_is_refused() {
    let mut node = RaftNode::new(1, &[1, 2], &discard_logger()).unwrap();
    let mut m = Message::default();
    m.set_msg_type(MessageType::MsgAppendResponse);
    m.set_from(9);
    assert!(matches!(node.step(m), Err(LatticeError::Raft(raft::Error::StepPeerNotFound))));
}

#[test]
fn writes_as_log_data() {
    let data = encode_write(7, -1, 1.5f64.to_bits());
    assert_eq!(
        data,
        vec![
            7, 0, 0, 0, 0, 0, 0, 0, 255, 255, 255, 255, 255, 255, 255, 255, 0, 0, 0, 0, 0, 0, 248,
            63
        ]
    );
    assert_eq!(decode_write(&data), Some((7, -1, 1.5f64.to_bits())));
    assert_eq!(decode_write(&data[..23]), None);
    assert_eq!(decode_write(&[data.clone(), vec![0]].concat()), None);
    assert_eq!(decode_write(b"hello-raft"), None);
}

#[test]
fn write_plans() {
    match plan_write(7, vec![(1, 2), (3, 4)], None) {
        WritePlan::Store(batch) => assert_eq!(
            batch,
            vec![Point { series: 7, ts: 1, value: 2 }, Point { series: 7, ts: 3, value: 4 }]
        ),
        other => panic!("unexpected plan {other:?}"),
    }
    match plan_write(7, vec![(1, 2), (3, 4)], Some(true)) {
        WritePlan::Propose(entries) => {
            assert_eq!(entries, vec![encode_write(7, 1, 2), encode_write(7, 3, 4)])
        }
        other => panic!("unexpected plan {other:?}"),
    }
    assert!(matches!(plan_write(7, vec![(1, 2)], Some(false)), WritePlan::Refuse));
}

#[test]
fn messages_go_to_peers_only() {
    let to = |id: u64| {
        let mut m = Message::default();
        m.set_to(id);
        m.set_term(id + 10);
        m
    };
    let out = route(&[to(2), to(5), to(3), to(2)], &[3, 2]);
    let back: Vec<(u64, Message)> =
        out.iter().map(|(id, b)| (*id, decode_message(b).unwrap())).collect();
    assert_eq!(back, vec![(2, to(2)), (3, to(3)), (2, to(2))]);
}

/// A store whose files are kept in memory.
struct Store {
    storage: Storage,
    files: BTreeMap<String, Vec<u8>>,
}

impl Store {
    fn new() -> Self {
        let cfg = Config::default();
        let storage = Storage::open(&cfg, Manifest::open(None), vec![], &[]);
        Store { storage, files: BTreeMap::new() }
    }

    fn run(&mut self, mut step: Step) {
        while !matches!(step, Step::Finished) {
            let event = match step {
                Step::Build { name, data } => {
                    self.files.insert(name, data);
                    Event::Done
                }
                Step::Open { name } => {
                    let data = self.files[&name].clone();
                    Event::Opened { path: name, data }
                }
                _ => Event::Done,
            };
            step = self.storage.advance(event).unwrap();
        }
    }

    fn query(&self, series: u64) -> Vec<(i64, f64)> {
        let got = self.storage.query(series, 0, 1000).unwrap();
        got.into_iter().map(|(ts, v)| (ts, f64::from_bits(v))).collect()
    }
}

/// Nodes that exchange messages without a network between them.
struct Cluster {
    drivers: BTreeMap<u64, RaftDriver>,
    shared: BTreeMap<u64, RaftShared>,
    stores: BTreeMap<u64, Store>,
}

impl Cluster {
    fn new(ids: &[u64]) -> Self {
        let mut c = Cluster {
            drivers: BTreeMap::new(),
            shared: BTreeMap::new(),
            stores: BTreeMap::new(),
        };
        for &id in ids {
            let node = RaftNode::new(id, ids, &discard_logger()).unwrap();
            c.drivers.insert(id, RaftDriver::new(node, ids.to_vec()));
            c.shared.insert(id, RaftShared::default());
            c.stores.insert(id, Store::new());
        }
        c
    }

    fn command(&mut self, id: u64, cmd: Command) {
        self.drivers.get_mut(&id).unwrap().command(cmd);
        self.turn(id);
    }

    fn turn(&mut self, id: u64) {
        let driver = self.drivers.get_mut(&id).unwrap();
        let out = driver.outbox().unwrap();
        let shared = self.shared.get_mut(&id).unwrap();
        assert!(driver.in_step(shared));
        let points = driver.apply_committed(shared);
        for p in points {
            let store = self.stores.get_mut(&id).unwrap();
            let step = store.storage.write(p);
            store.run(step);
        }
        for (to, bytes) in out {
            let msg = decode_message(&bytes).unwrap();
            self.command(to, Command::Step(msg));
        }
    }

    fn settle(&mut self) {
        for _ in 0..5 {
            for id in self.drivers.keys().copied().collect::<Vec<_>>() {
                self.drivers.get_mut(&id).unwrap().tick().unwrap();
                self.turn(id);
            }
        }
    }
}

#[test]
fn replicates_between_drivers() {
    let mut c = Cluster::new(&[1, 2, 3]);
    c.command(1, Command::Campaign);
    assert!(c.shared[&1].is_leader);
    c.command(1, Command::Propose(b"over-the-wire".to_vec()));
    c.settle();
    for s in c.shared.values() {
        assert_eq!(s.applied, vec![b"over-the-wire".to_vec()]);
    }
}

#[test]
fn replicates_writes_to_storage() {
    let mut c = Cluster::new(&[1, 2, 3]);
    c.command(1, Command::Campaign);
    assert!(c.shared[&1].is_leader, "no leader elected");
    c.command(1, Command::Propose(encode_write(7, 100, 1.5f64.to_bits())));
    c.settle();
    for st in c.stores.values() {
        assert_eq!(st.query(7), vec![(100, 1.5)]);
    }
}

#[test]
fn client_write_replicates_through_raft() {
    let mut c = Cluster::new(&[1, 2, 3]);
    c.command(1, Command::Campaign);
    assert!(c.shared[&1].is_leader, "node 1 did not become leader");

    // write to the leader -> accepted, and replicated to every node's storage
    match plan_write(7, vec![(100, 1.5f64.to_bits())], Some(c.shared[&1].is_leader)) {
        WritePlan::Propose(entries) => {
            for e in entries {
                c.command(1, Command::Propose(e));
            }
        }
        other => panic!("unexpected plan {other:?}"),
    }
    c.settle();
    for st in c.stores.values() {
        assert_eq!(st.query(7), vec![(100, 1.5)], "write not replicated to all replicas");
    }

    // write to a follower -> rejected
    let follower = if c.shared[&2].is_leader { 3 } else { 2 };
    let plan = plan_write(7, vec![(200, 2.5f64.to_bits())], Some(c.shared[&follower].is_leader));
    assert!(matches!(plan, WritePlan::Refuse));
}

#[test]
fn turns_of_the_loop() {
    let ids = [1u64, 2];
    let mut drivers = BTreeMap::new();
    let mut shared = BTreeMap::new();
    for id in ids {
        let node = RaftNode::new(id, &ids, &discard_logger()).unwrap();
        drivers.insert(id, RaftDriver::new(node, ids.to_vec()));
        shared.insert(id, RaftShared::default());
    }
    // there is no leader yet, so the first proposal is refused, which does not end the turn
    let mut due = vec![
        (2, Some(Command::Propose(encode_write(9, 9, 9)))),
        (1, Some(Command::Campaign)),
    ];
    // the follower hands its proposal on to the leader
    let mut wanted = vec![
        (2, Some(Command::Propose(encode_write(1, 2, 3)))),
        (1, Some(Command::Propose(encode_write(7, 100, 8)))),
    ];
    let mut stored: Vec<(u64, Point)> = Vec::new();
    for round in 0..40 {
        if round == 20 {
            due.append(&mut wanted);
        }
        due.extend(ids.iter().map(|id| (*id, None)));
        for (id, cmd) in std::mem::take(&mut due) {
            let driver: &mut RaftDriver = drivers.get_mut(&id).unwrap();
            for (to, message) in driver.turn(cmd).unwrap() {
                match message {
                    WireMessage::Raft(bytes) => {
                        let msg = decode_message(&bytes).unwrap();
                        assert_eq!(msg.get_to(), to);
                        assert_eq!(msg.get_from(), id);
                        due.push((to, Some(Command::Step(msg))));
                    }
                    _ => panic!("unexpected message"),
                }
            }
            let view = shared.get_mut(&id).unwrap();
            assert!(driver.in_step(view));
            for p in driver.apply_committed(view) {
                stored.push((id, p));
            }
        }
    }
    assert!(shared[&1].is_leader && !shared[&2].is_leader);
    let p = Point { series: 7, ts: 100, value: 8 };
    let q = Point { series: 1, ts: 2, value: 3 };
    for id in ids {
        let points: Vec<Point> = stored.iter().filter(|s| s.0 == id).map(|s| s.1).collect();
        assert_eq!(points, vec![p, q]);
    }
}
