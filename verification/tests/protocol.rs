use bytes::BytesMut;
use lattice::cluster::protocol::frame::{has_room, MessageCodec};
use lattice::cluster::protocol::message::{Message, WRITE};
use lattice::cluster::protocol::transport::{dispatch, Handler};
use lattice::error::LatticeError;
use std::collections::HashMap;
use std::sync::Mutex;

fn bits(points: &[(i64, f64)]) -> Vec<(i64, u64)> {
    points.iter().map(|&(ts, v)| (ts, v.to_bits())).collect()
}

fn roundtrip(m: Message) {
    assert_eq!(Message::deserialize(&m.serialize()).unwrap(), m);
}

fn corrupt_text(data: &[u8]) -> String {
    match Message::deserialize(data) {
        Err(LatticeError::Corrupt(text)) => text,
        other => panic!("unexpected result {other:?}"),
    }
}

#[test]
fn messages_roundtrip() {
    roundtrip(Message::Ping);
    roundtrip(Message::Pong);
    roundtrip(Message::Write { req_id: 9, series: 7, points: bits(&[(1, 1.5), (2, -3.0)]) });
    roundtrip(Message::WriteAck { req_id: 9, ok: true });
    roundtrip(Message::Query { req_id: 3, series: 7, start: 0, end: 100 });
    roundtrip(Message::QueryResult { req_id: 3, points: bits(&[(10, 2.0)]) });
    roundtrip(Message::Raft(vec![0xde, 0xad, 0xbe, 0xef]));
}

#[test]
fn oversized_points_count_rejected() {
    // a Write claiming a huge point count with no point data must error, not allocate
    let mut b = vec![WRITE];
    b.extend_from_slice(&1u64.to_le_bytes());
    b.extend_from_slice(&7u64.to_le_bytes());
    b.extend_from_slice(&u32::MAX.to_le_bytes());
    assert!(Message::deserialize(&b).is_err());
    assert_eq!(corrupt_text(&b), "points count exceeds message");
}

#[test]
fn messages_as_bytes() {
    assert_eq!(Message::Ping.serialize(), vec![1]);
    assert_eq!(Message::Pong.serialize(), vec![2]);
    assert_eq!(
        Message::Write { req_id: 1, series: 2, points: vec![(-1, 5)] }.serialize(),
        vec![
            3, 1, 0, 0, 0, 0, 0, 0, 0, 2, 0, 0, 0, 0, 0, 0, 0, 1, 0, 0, 0, 255, 255, 255, 255, 255,
            255, 255, 255, 5, 0, 0, 0, 0, 0, 0, 0
        ]
    );
    assert_eq!(
        Message::WriteAck { req_id: 258, ok: false }.serialize(),
        vec![4, 2, 1, 0, 0, 0, 0, 0, 0, 0]
    );
    assert_eq!(Message::Raft(vec![8, 9]).serialize(), vec![7, 2, 0, 0, 0, 8, 9]);
}

#[test]
fn faulty_bytes_are_reported() {
    assert_eq!(corrupt_text(&[]), "short message");
    assert_eq!(corrupt_text(&[0]), "unknown message tag 0");
    assert_eq!(corrupt_text(&[255, 1]), "unknown message tag 255");
    assert_eq!(corrupt_text(&[7, 2, 0, 0, 0, 8]), "short message");
    let all = vec![
        Message::Write { req_id: 1, series: 2, points: vec![] },
        Message::WriteAck { req_id: 1, ok: true },
        Message::Query { req_id: 1, series: 2, start: 3, end: 4 },
        Message::QueryResult { req_id: 1, points: vec![] },
        Message::Raft(vec![]),
    ];
    for m in all {
        let bytes = m.serialize();
        for n in 0..bytes.len() {
            assert_eq!(corrupt_text(&bytes[..n]), "short message");
        }
    }
}

#[test]
fn bytes_behind_a_message_are_ignored() {
    let m = Message::WriteAck { req_id: 7, ok: true };
    let mut bytes = m.serialize();
    bytes.extend([1, 2, 3]);
    assert_eq!(Message::deserialize(&bytes).unwrap(), m);
}

#[test]
fn frames_carry_their_length() {
    let mut codec = MessageCodec::new();
    let mut buf = BytesMut::new();
    assert!(has_room(&buf));
    codec.encode(Message::Raft(vec![8, 9]), &mut buf).unwrap();
    assert_eq!(&buf[..], &[0, 0, 0, 7, 7, 2, 0, 0, 0, 8, 9]);
    codec.encode(Message::Ping, &mut buf).unwrap();
    assert_eq!(codec.decode(&mut buf).unwrap(), Some(Message::Raft(vec![8, 9])));
    assert_eq!(codec.decode(&mut buf).unwrap(), Some(Message::Ping));
    assert_eq!(codec.decode(&mut buf).unwrap(), None);
    assert!(buf.is_empty());
}

#[test]
fn frames_arrive_in_pieces() {
    let m = Message::Query { req_id: 3, series: 7, start: -5, end: 100 };
    let mut whole = BytesMut::new();
    MessageCodec::default().encode(m.clone(), &mut whole).unwrap();
    let mut codec = MessageCodec::new();
    let mut buf = BytesMut::new();
    for (i, b) in whole.iter().enumerate() {
        buf.extend_from_slice(&[*b]);
        let got = codec.decode(&mut buf).unwrap();
        if i + 1 < whole.len() {
            assert_eq!(got, None);
        } else {
            assert_eq!(got, Some(m.clone()));
        }
    }
}

#[test]
fn long_frames_are_refused() {
    let mut codec = MessageCodec::new();
    let mut buf = BytesMut::from(&[0, 128, 0, 1][..]);
    assert!(matches!(codec.decode(&mut buf), Err(LatticeError::Io(_))));
    assert_eq!(&buf[..], &[0, 128, 0, 1]);

    let mut out = BytesMut::new();
    let long = Message::Raft(vec![0; 8 * 1024 * 1024 - 4]);
    assert!(matches!(codec.encode(long, &mut out), Err(LatticeError::Io(_))));
    assert!(out.is_empty());
    let longest = Message::Raft(vec![0; 8 * 1024 * 1024 - 5]);
    codec.encode(longest, &mut out).unwrap();
    assert_eq!(&out[..4], &[0, 128, 0, 0]);
}

#[test]
fn faulty_frames_are_reported() {
    let mut codec = MessageCodec::new();
    let mut buf = BytesMut::from(&[0, 0, 0, 1, 99, 0, 0, 0, 1, 1][..]);
    match codec.decode(&mut buf) {
        Err(LatticeError::Corrupt(text)) => assert_eq!(text, "unknown message tag 99"),
        other => panic!("unexpected result {other:?}"),
    }
    assert_eq!(codec.decode(&mut buf).unwrap(), Some(Message::Ping));
}

struct MapHandler {
    data: Mutex<HashMap<u64, Vec<(i64, u64)>>>,
    raft: Mutex<Vec<Vec<u8>>>,
}

impl MapHandler {
    fn new() -> Self {
        MapHandler { data: Mutex::new(HashMap::new()), raft: Mutex::new(Vec::new()) }
    }
}

impl Handler for MapHandler {
    fn on_write(&self, series: u64, points: Vec<(i64, u64)>) -> bool {
        self.data.lock().unwrap().entry(series).or_default().extend(points);
        true
    }

    fn on_query(&self, series: u64, start: i64, end: i64) -> Vec<(i64, u64)> {
        self.data
            .lock()
            .unwrap()
            .get(&series)
            .map(|v| v.iter().copied().filter(|&(ts, _)| ts >= start && ts < end).collect())
            .unwrap_or_default()
    }

    fn on_raft(&self, bytes: Vec<u8>) {
        self.raft.lock().unwrap().push(bytes);
    }
}

struct NoopHandler;

impl Handler for NoopHandler {
    fn on_write(&self, _: u64, _: Vec<(i64, u64)>) -> bool {
        false
    }

    fn on_query(&self, _: u64, _: i64, _: i64) -> Vec<(i64, u64)> {
        Vec::new()
    }
}

/// Sends a message through two codecs to a handler, and the answer back.
fn request<H: Handler>(server: &H, msg: Message) -> Option<Message> {
    let mut wire = BytesMut::new();
    MessageCodec::new().encode(msg, &mut wire).unwrap();
    let got = MessageCodec::new().decode(&mut wire).unwrap().unwrap();
    let answer = dispatch(server, got)?;
    let mut back = BytesMut::new();
    MessageCodec::new().encode(answer, &mut back).unwrap();
    MessageCodec::new().decode(&mut back).unwrap()
}

#[test]
fn write_then_query_over_wire() {
    let server = MapHandler::new();
    let points = bits(&[(100, 1.5), (200, 2.5), (5000, 9.0)]);
    let ack = request(&server, Message::Write { req_id: 1, series: 7, points }).unwrap();
    assert_eq!(ack, Message::WriteAck { req_id: 1, ok: true });

    let result =
        request(&server, Message::Query { req_id: 2, series: 7, start: 0, end: 1000 }).unwrap();
    assert_eq!(
        result,
        Message::QueryResult { req_id: 2, points: bits(&[(100, 1.5), (200, 2.5)]) }
    );
}

#[test]
fn answers_to_messages() {
    let server = MapHandler::new();
    assert_eq!(request(&server, Message::Ping), Some(Message::Pong));
    assert_eq!(request(&server, Message::Pong), None);
    assert_eq!(request(&server, Message::WriteAck { req_id: 1, ok: true }), None);
    assert_eq!(request(&server, Message::QueryResult { req_id: 1, points: vec![] }), None);
    assert_eq!(request(&server, Message::Raft(vec![1, 2])), None);
    assert_eq!(*server.raft.lock().unwrap(), vec![vec![1, 2]]);

    assert_eq!(request(&NoopHandler, Message::Raft(vec![1, 2])), None);
    assert_eq!(
        request(&NoopHandler, Message::Write { req_id: 4, series: 7, points: vec![] }),
        Some(Message::WriteAck { req_id: 4, ok: false })
    );
}
