//! Messages in frames: each is sent behind its length.
use crate::cluster::protocol::message::{
    meaning, message_reads_back, sendable, tells, wire, Fault, Meaning, Message,
};
use crate::endian::{be32, from_be32};
use crate::error::{LatticeError, Result};
use bytes::{Bytes, BytesMut};
use tokio_util::codec::{Decoder, Encoder, LengthDelimitedCodec};
use vstd::prelude::*;

verus! {

broadcast use crate::endian::group_endian;

/// The growable buffer of the `bytes` crate, opaque but for its contents.
#[verifier::external_type_specification]
#[verifier::external_body]
pub struct ExBytesMut(bytes::BytesMut);

/// The framing codec of the `tokio-util` crate, opaque but for its state.
#[verifier::external_type_specification]
#[verifier::external_body]
pub struct ExLengthDelimitedCodec(tokio_util::codec::LengthDelimitedCodec);

/// Frames are at most so long.
pub const MAX_FRAME: u32 = 8388608;

/// Where a codec stands in its input.
pub enum Awaiting {
    /// The settings are not the default ones.
    Unknown,
    /// The head of a frame comes next.
    Head,
    /// The head was read, and so many bytes of the frame come next.
    Body(nat),
}

/// The bytes that a buffer holds.
pub uninterp spec fn buffered(b: BytesMut) -> Seq<u8>;

/// What a codec waits for.
pub uninterp spec fn awaiting(c: LengthDelimitedCodec) -> Awaiting;

/// What one look at the input gives.
pub enum Outcome {
    /// A whole frame.
    Frame(Seq<u8>),
    /// Not enough bytes.
    More,
    /// A frame that is too long.
    TooLong,
}

/// The outcome of one look at the input, the bytes that are left, and what is
/// waited for then.
pub struct Look {
    pub outcome: Outcome,
    pub left: Seq<u8>,
    pub next: Awaiting,
}

/// The body of a frame, if it is all there.
pub open spec fn look_at_body(buf: Seq<u8>, n: nat) -> Look {
    if buf.len() < n {
        Look { outcome: Outcome::More, left: buf, next: Awaiting::Body(n) }
    } else {
        Look {
            outcome: Outcome::Frame(buf.take(n as int)),
            left: buf.skip(n as int),
            next: Awaiting::Head,
        }
    }
}

/// The next frame: its length in four bytes, the most significant first, and
/// then its body.
pub open spec fn look(state: Awaiting, buf: Seq<u8>) -> Look {
    match state {
        Awaiting::Body(n) => look_at_body(buf, n),
        _ => if buf.len() < 4 {
            Look { outcome: Outcome::More, left: buf, next: Awaiting::Head }
        } else if from_be32(buf.take(4)) > MAX_FRAME {
            Look { outcome: Outcome::TooLong, left: buf, next: Awaiting::Head }
        } else {
            look_at_body(buf.skip(4), from_be32(buf.take(4)) as nat)
        },
    }
}

/// A frame around some bytes.
pub open spec fn framed(data: Seq<u8>) -> Seq<u8> {
    be32(data.len() as u32) + data
}

/// `LengthDelimitedCodec::new`: a codec with the default settings, at the head of
/// a frame.
#[verifier::external_body]
fn new_codec() -> (c: LengthDelimitedCodec)
    ensures
        awaiting(c) == Awaiting::Head,
{
    LengthDelimitedCodec::new()
}

/// `LengthDelimitedCodec::decode` with the default settings: takes the next frame
/// off the buffer once it is all there. The four bytes of its length are taken
/// off as soon as they are there. A length above the limit of eight mebibytes is
/// an error and leaves the buffer as it is.
#[verifier::external_body]
fn take_frame(c: &mut LengthDelimitedCodec, src: &mut BytesMut) -> (r: core::result::Result<
    Option<Vec<u8>>,
    std::io::Error,
>)
    requires
        awaiting(*old(c)) !is Unknown,
    ensures
        match look(awaiting(*old(c)), buffered(*old(src))).outcome {
            Outcome::Frame(data) => r matches Ok(Some(v)) && v@ == data,
            Outcome::More => r matches Ok(None),
            Outcome::TooLong => r is Err,
        },
        buffered(*final(src)) == look(awaiting(*old(c)), buffered(*old(src))).left,
        awaiting(*final(c)) == look(awaiting(*old(c)), buffered(*old(src))).next,
{
    match c.decode(src) {
        Ok(frame) => Ok(frame.map(|f| f.to_vec())),
        Err(e) => Err(e),
    }
}

/// `LengthDelimitedCodec::encode` with the default settings: appends the length of
/// the data in four bytes, the most significant first, and the data. Data above
/// the limit of eight mebibytes are an error and leave the buffer as it is. A
/// buffer cannot grow beyond what memory can address.
#[verifier::external_body]
fn put_frame(c: &mut LengthDelimitedCodec, data: Vec<u8>, dst: &mut BytesMut) -> (r:
    core::result::Result<(), std::io::Error>)
    requires
        awaiting(*old(c)) !is Unknown,
        data@.len() <= MAX_FRAME ==> buffered(*old(dst)).len() + data@.len() + 4 <= isize::MAX,
    ensures
        r is Ok == (data@.len() <= MAX_FRAME),
        buffered(*final(dst)) == if data@.len() <= MAX_FRAME {
            buffered(*old(dst)) + framed(data@)
        } else {
            buffered(*old(dst))
        },
        awaiting(*final(c)) == awaiting(*old(c)),
{
    c.encode(Bytes::from(data), dst)
}

/// `BytesMut::len`.
#[verifier::external_body]
fn buffer_len(b: &BytesMut) -> (n: usize)
    ensures
        n == buffered(*b).len(),
{
    b.len()
}

/// Whether a buffer has room for any frame.
pub fn has_room(dst: &BytesMut) -> (b: bool)
    ensures
        b == (buffered(*dst).len() + MAX_FRAME + 4 <= isize::MAX),
{
    let n = buffer_len(dst);
    n <= isize::MAX as usize && isize::MAX as usize - n >= 8388612
}

/// What comes of a look at the input: the message in a whole frame, nothing yet, or an
/// error.
pub open spec fn taken(outcome: Outcome, r: Result<Option<Message>>) -> bool {
    match outcome {
        Outcome::Frame(data) => match r {
            Ok(m) => m matches Some(m) && tells(Ok(m), meaning(data)),
            Err(e) => tells(Err(e), meaning(data)),
        },
        Outcome::More => r matches Ok(None),
        Outcome::TooLong => r matches Err(LatticeError::Io(_)),
    }
}

/// A message was put into a frame behind what was there, unless it is too long.
pub open spec fn given(m: Meaning, before: Seq<u8>, after: Seq<u8>, r: Result<()>) -> bool {
    if wire(m).len() <= MAX_FRAME {
        r is Ok && after == before + framed(wire(m))
    } else {
        r matches Err(LatticeError::Io(_)) && after == before
    }
}

pub struct MessageCodec {
    inner: LengthDelimitedCodec,
}

impl MessageCodec {
    /// What the codec waits for.
    pub closed spec fn state(self) -> Awaiting {
        awaiting(self.inner)
    }

    pub open spec fn wf(self) -> bool {
        self.state() !is Unknown
    }

    pub fn new() -> (c: Self)
        ensures
            c.wf(),
            c.state() is Head,
    {
        MessageCodec { inner: new_codec() }
    }

    /// Takes the next message off a buffer, once its frame is all there.
    pub fn decode(&mut self, src: &mut BytesMut) -> (r: Result<Option<Message>>)
        requires
            old(self).wf(),
        ensures
            final(self).wf(),
            taken(look(old(self).state(), buffered(*old(src))).outcome, r),
            buffered(*final(src)) == look(old(self).state(), buffered(*old(src))).left,
            final(self).state() == look(old(self).state(), buffered(*old(src))).next,
    {
        match take_frame(&mut self.inner, src) {
            Ok(Some(frame)) => match Message::deserialize(frame.as_slice()) {
                Ok(m) => Ok(Some(m)),
                Err(e) => Err(e),
            },
            Ok(None) => Ok(None),
            Err(e) => Err(LatticeError::Io(e)),
        }
    }

    /// Appends a message in its frame to a buffer, unless it is too long.
    pub fn encode(&mut self, item: Message, dst: &mut BytesMut) -> (r: Result<()>)
        requires
            old(self).wf(),
            wire(item@).len() <= MAX_FRAME ==> buffered(*old(dst)).len() + wire(item@).len() + 4
                <= isize::MAX,
        ensures
            final(self).wf(),
            final(self).state() == old(self).state(),
            given(item@, buffered(*old(dst)), buffered(*final(dst)), r),
            r is Ok <==> wire(item@).len() <= MAX_FRAME,
    {
        match put_frame(&mut self.inner, item.serialize(), dst) {
            Ok(_) => Ok(()),
            Err(e) => Err(LatticeError::Io(e)),
        }
    }
}

impl Default for MessageCodec {
    fn default() -> (c: Self)
        ensures
            c.wf(),
            c.state() is Head,
    {
        MessageCodec::new()
    }
}

/// A message that was put into a frame is what the frame is read as, and whatever
/// stands behind the frame is left.
pub proof fn framed_message_reads_back(m: Meaning, rest: Seq<u8>)
    requires
        sendable(m),
        wire(m).len() <= MAX_FRAME,
    ensures
        look(Awaiting::Head, framed(wire(m)) + rest) == (Look {
            outcome: Outcome::Frame(wire(m)),
            left: rest,
            next: Awaiting::Head,
        }),
        meaning(wire(m)) == Ok::<Meaning, Fault>(m),
{
    let buf = framed(wire(m)) + rest;
    let n = wire(m).len();
    assert(buf.take(4) =~= be32(n as u32));
    assert(buf.skip(4) =~= wire(m) + rest);
    assert(buf.skip(4).take(n as int) =~= wire(m));
    assert(buf.skip(4).skip(n as int) =~= rest);
    message_reads_back(m, seq![]);
    assert(wire(m) + Seq::<u8>::empty() =~= wire(m));
}

/// It makes no difference in how many pieces the bytes arrive: a look that found
/// too few bytes, followed by a look at what it left and more bytes, gives what
/// one look at all of them gives.
pub proof fn pieces_make_no_difference(state: Awaiting, buf: Seq<u8>, more: Seq<u8>)
    requires
        state !is Unknown,
        look(state, buf).outcome is More,
    ensures
        look(look(state, buf).next, look(state, buf).left + more) == look(state, buf + more),
{
    match state {
        Awaiting::Body(n) => {},
        _ => {
            if buf.len() >= 4 {
                assert((buf + more).take(4) =~= buf.take(4));
                assert((buf + more).skip(4) =~= buf.skip(4) + more);
            }
        },
    }
}

/// A message of up to eight mebibytes is put into a frame behind what was there, which
/// stays as it is; and from there it is taken again, as it was, however much comes behind
/// it.
pub proof fn framed_message_is_taken(
    m: Meaning,
    before: Seq<u8>,
    after: Seq<u8>,
    r: Result<()>,
    rest: Seq<u8>,
    got: Result<Option<Message>>,
)
    requires
        sendable(m),
        wire(m).len() <= 8388608,
        given(m, before, after, r),
        taken(look(Awaiting::Head, after.skip(before.len() as int) + rest).outcome, got),
    ensures
        r is Ok,
        after.len() == before.len() + 4 + wire(m).len(),
        after.take(before.len() as int) == before,
        got matches Ok(Some(back)) && back@ == m,
        look(Awaiting::Head, after.skip(before.len() as int) + rest).left == rest,
{
    assert(after.skip(before.len() as int) =~= framed(wire(m)));
    assert(after.take(before.len() as int) =~= before);
    framed_message_reads_back(m, rest);
}

/// A longer message is refused, and leaves nothing behind.
pub proof fn long_message_is_refused(m: Meaning, before: Seq<u8>, after: Seq<u8>, r: Result<()>)
    requires
        wire(m).len() > 8388608,
        given(m, before, after, r),
    ensures
        r is Err,
        after == before,
{
}

/// A message of up to eight mebibytes that is put behind the end of an empty buffer is taken
/// from there by a codec at the head of a frame, and the buffer is empty again.
pub proof fn decode_inverts_encode(
    m: Message,
    sender: &mut MessageCodec,
    out: &mut BytesMut,
    sent: Result<()>,
    receiver: &mut MessageCodec,
    input: &mut BytesMut,
    got: Result<Option<Message>>,
)
    requires
        sendable(m@),
        wire(m@).len() <= 8388608,
        call_ensures(MessageCodec::encode, (sender, m, out), sent),
        buffered(*old(out)).len() == 0,
        buffered(*old(input)) == buffered(*final(out)),
        old(receiver).state() is Head,
        call_ensures(MessageCodec::decode, (receiver, input), got),
    ensures
        sent is Ok,
        got matches Ok(Some(back)) && back@ == m@,
        buffered(*final(input)).len() == 0,
        final(receiver).state() is Head,
{
    let buf = buffered(*final(out));
    assert(buf.skip(0) =~= buf);
    assert(buf + Seq::<u8>::empty() =~= buf);
    assert(buf =~= framed(wire(m@)));
    framed_message_reads_back(m@, seq![]);
}

} // verus!
