//! Gorilla compression of a series: timestamps as deltas of deltas, values as
//! the bits in which they differ from the value before.
//!
//! A value is held as the bit pattern of its floating-point number.
use crate::endian::{of_bits, to_bits, twos, from_twos};
use crate::storage::bits::{
    bits_value, lemma_number_bits_of_value, lemma_signed_roundtrip, lemma_unpack_packed,
    lemma_value_of_number_bits, number_bits, packed, padded, read_signed, signed_value, two_to,
    unpack, write_signed, BitReader, BitWriter,
};
use vstd::prelude::*;
use vstd::std_specs::bits::{u64_leading_zeros, u64_trailing_zeros};

verus! {

/// What the codec remembers between two points: the last timestamp and delta,
/// the last value, and the window of bits in which the last change lay.
/// A `lead` of 64 says that there is no window yet.
#[derive(Clone, Copy)]
pub struct Tracker {
    pub ts: i64,
    pub delta: i64,
    pub bits: u64,
    pub lead: u32,
    pub trail: u32,
}

impl Tracker {
    /// The window leaves no negative number of bits.
    pub open spec fn readable(self) -> bool {
        &&& self.trail <= 63
        &&& self.lead + self.trail <= 64
    }

    /// There is no window yet, or the window holds at least one bit.
    pub open spec fn writable(self) -> bool {
        ||| self.lead == 64 && self.trail == 0
        ||| self.lead <= 31 && self.lead + self.trail <= 63
    }
}

/// The tracker after the first point.
pub open spec fn first_tracker(p: (i64, u64)) -> Tracker {
    Tracker { ts: p.0, delta: 0, bits: p.1, lead: 64, trail: 0 }
}

/// The bits that stand for a change of the delta.
pub open spec fn delta_bits(dod: i64) -> Seq<bool> {
    if dod == 0 {
        seq![false]
    } else if -64 <= dod <= 63 {
        seq![true, false] + number_bits(twos(dod), 7)
    } else if -256 <= dod <= 255 {
        seq![true, true, false] + number_bits(twos(dod), 9)
    } else if -2048 <= dod <= 2047 {
        seq![true, true, true, false] + number_bits(twos(dod), 12)
    } else {
        seq![true, true, true, true] + number_bits(twos(dod), 64)
    }
}

/// The leading zeros of a change, as far as five bits can say.
pub open spec fn lead_of(xor: u64) -> u32 {
    if u64_leading_zeros(xor) > 31 {
        31
    } else {
        u64_leading_zeros(xor) as u32
    }
}

/// The change lies within the window of the change before.
pub open spec fn fits_window(t: Tracker, xor: u64) -> bool {
    t.lead != 64 && lead_of(xor) >= t.lead && u64_trailing_zeros(xor) >= t.trail
}

/// The bits that stand for a change of the value.
pub open spec fn value_bits(t: Tracker, xor: u64) -> Seq<bool> {
    let lead = lead_of(xor);
    let trail = u64_trailing_zeros(xor);
    if xor == 0 {
        seq![false]
    } else if fits_window(t, xor) {
        seq![true, false] + number_bits(xor >> t.trail, (64 - t.lead - t.trail) as nat)
    } else {
        seq![true, true] + number_bits(lead as u64, 5) + number_bits(trail as u64, 6)
            + number_bits(xor >> trail, (64 - lead - trail) as nat)
    }
}

/// The bits that stand for a further point.
pub open spec fn point_bits(t: Tracker, p: (i64, u64)) -> Seq<bool> {
    delta_bits(p.0.wrapping_sub(t.ts).wrapping_sub(t.delta)) + value_bits(t, p.1 ^ t.bits)
}

/// The tracker after a further point.
pub open spec fn next_tracker(t: Tracker, p: (i64, u64)) -> Tracker {
    let xor = p.1 ^ t.bits;
    let moved = xor != 0 && !fits_window(t, xor);
    Tracker {
        ts: p.0,
        delta: p.0.wrapping_sub(t.ts),
        bits: p.1,
        lead: if moved {
            lead_of(xor)
        } else {
            t.lead
        },
        trail: if moved {
            u64_trailing_zeros(xor)
        } else {
            t.trail
        },
    }
}

/// The tracker after all the points of a series.
pub open spec fn tracker_after(pts: Seq<(i64, u64)>) -> Tracker
    decreases pts.len(),
{
    if pts.len() <= 1 {
        first_tracker(pts[0])
    } else {
        next_tracker(tracker_after(pts.drop_last()), pts.last())
    }
}

/// The bits that stand for a series.
pub open spec fn series_bits(pts: Seq<(i64, u64)>) -> Seq<bool>
    decreases pts.len(),
{
    if pts.len() == 0 {
        seq![]
    } else if pts.len() == 1 {
        number_bits(twos(pts[0].0), 64) + number_bits(pts[0].1, 64)
    } else {
        series_bits(pts.drop_last()) + point_bits(tracker_after(pts.drop_last()), pts.last())
    }
}

/// The bytes that a series is compressed to.
pub open spec fn encoded(pts: Seq<(i64, u64)>) -> Seq<u8> {
    packed(series_bits(pts))
}

/// Reads `n` bits as a two's complement number; `None` where the bits run out.
pub open spec fn signed_at(s: Seq<bool>, pos: int, n: int) -> Option<(i64, int)> {
    if pos + n <= s.len() {
        Some((signed_value(s.subrange(pos, pos + n)) as i64, pos + n))
    } else {
        None
    }
}

/// Reads a change of the delta, and the position behind it.
pub open spec fn delta_at(s: Seq<bool>, pos: int) -> Option<(i64, int)> {
    if pos >= s.len() {
        None
    } else if !s[pos] {
        Some((0i64, pos + 1))
    } else if pos + 1 >= s.len() {
        None
    } else if !s[pos + 1] {
        signed_at(s, pos + 2, 7)
    } else if pos + 2 >= s.len() {
        None
    } else if !s[pos + 2] {
        signed_at(s, pos + 3, 9)
    } else if pos + 3 >= s.len() {
        None
    } else if !s[pos + 3] {
        signed_at(s, pos + 4, 12)
    } else {
        signed_at(s, pos + 4, 64)
    }
}

/// Reads the bits of a window and applies them to the value.
pub open spec fn window_at(s: Seq<bool>, pos: int, t: Tracker, lead: u32, trail: u32) -> Option<
    (Tracker, int),
> {
    let m = 64 - lead - trail;
    if m < 0 || pos + m > s.len() {
        None
    } else {
        let change = bits_value(s.subrange(pos, pos + m)) << trail;
        Some((Tracker { bits: t.bits ^ change, lead, trail, ..t }, pos + m))
    }
}

/// Reads a change of the value, and the position behind it.
pub open spec fn value_at(s: Seq<bool>, pos: int, t: Tracker) -> Option<(Tracker, int)> {
    if pos >= s.len() {
        None
    } else if !s[pos] {
        Some((t, pos + 1))
    } else if pos + 1 >= s.len() {
        None
    } else if !s[pos + 1] {
        window_at(s, pos + 2, t, t.lead, t.trail)
    } else if pos + 13 > s.len() {
        None
    } else {
        let lead = bits_value(s.subrange(pos + 2, pos + 7)) as u32;
        let trail = bits_value(s.subrange(pos + 7, pos + 13)) as u32;
        window_at(s, pos + 13, t, lead, trail)
    }
}

/// Reads a further point, and the position behind it.
pub open spec fn point_at(s: Seq<bool>, pos: int, t: Tracker) -> Option<(Tracker, int)> {
    match delta_at(s, pos) {
        None => None,
        Some((dod, p)) => {
            let delta = t.delta.wrapping_add(dod);
            value_at(s, p, Tracker { ts: t.ts.wrapping_add(delta), delta, ..t })
        },
    }
}

/// A series read from bits: the points, the tracker behind them, and the position.
pub struct Reading {
    pub points: Seq<(i64, u64)>,
    pub tracker: Tracker,
    pub pos: int,
}

/// Reads a series of `n` points, at least one; `None` where the bits run out or
/// a window is wider than a value.
pub open spec fn reading(s: Seq<bool>, n: nat) -> Option<Reading>
    decreases n,
{
    if n <= 1 {
        if s.len() < 128 {
            None
        } else {
            let p = (
                from_twos(bits_value(s.subrange(0, 64))),
                bits_value(s.subrange(64, 128)),
            );
            Some(Reading { points: seq![p], tracker: first_tracker(p), pos: 128 })
        }
    } else {
        match reading(s, (n - 1) as nat) {
            None => None,
            Some(r) => match point_at(s, r.pos, r.tracker) {
                None => None,
                Some((t, pos)) => Some(
                    Reading { points: r.points.push((t.ts, t.bits)), tracker: t, pos },
                ),
            },
        }
    }
}

/// The series of `count` points that some bytes hold, if they hold one.
pub open spec fn decoded(data: Seq<u8>, count: nat) -> Option<Seq<(i64, u64)>> {
    if count == 0 {
        Some(seq![])
    } else {
        match reading(unpack(data), count) {
            None => None,
            Some(r) => Some(r.points),
        }
    }
}

/// Writes a change of the delta.
fn write_delta(w: &mut BitWriter, dod: i64)
    requires
        old(w).wf(),
    ensures
        final(w).wf(),
        final(w).bits() == old(w).bits() + delta_bits(dod),
{
    let ghost before = w.bits();
    proof {
        lemma_small_number_bits();
    }
    if dod == 0 {
        w.write_bit(0);
    } else if -64 <= dod && dod <= 63 {
        w.write_bits(0b10, 2);
        write_signed(w, dod, 7);
    } else if -256 <= dod && dod <= 255 {
        w.write_bits(0b110, 3);
        write_signed(w, dod, 9);
    } else if -2048 <= dod && dod <= 2047 {
        w.write_bits(0b1110, 4);
        write_signed(w, dod, 12);
    } else {
        w.write_bits(0b1111, 4);
        write_signed(w, dod, 64);
    }
    assert(w.bits() =~= before + delta_bits(dod));
}

/// Writes a change of the value and returns the window that then holds.
fn write_value(w: &mut BitWriter, t: Tracker, xor: u64) -> (window: (u32, u32))
    requires
        old(w).wf(),
        t.writable(),
    ensures
        final(w).wf(),
        final(w).bits() == old(w).bits() + value_bits(t, xor),
        xor == 0 || fits_window(t, xor) ==> window == (t.lead, t.trail),
        xor != 0 && !fits_window(t, xor) ==> window == (lead_of(xor), u64_trailing_zeros(xor)),
        (Tracker { lead: window.0, trail: window.1, ..t }).writable(),
{
    let ghost before = w.bits();
    if xor == 0 {
        w.write_bit(0);
        assert(w.bits() =~= before + value_bits(t, xor));
        return (t.lead, t.trail);
    }
    w.write_bit(1);
    let mut lead = xor.leading_zeros();
    let trail = xor.trailing_zeros();
    proof {
        lemma_zeros_bound(xor);
    }
    if lead > 31 {
        lead = 31;
    }
    if t.lead != 64 && lead >= t.lead && trail >= t.trail {
        // the change lies within the previous window
        w.write_bit(0);
        let meaningful = 64 - t.lead - t.trail;
        w.write_bits(xor >> t.trail, meaningful);
        assert(w.bits() =~= before + value_bits(t, xor));
        (t.lead, t.trail)
    } else {
        w.write_bit(1);
        w.write_bits(lead as u64, 5);
        w.write_bits(trail as u64, 6);
        let meaningful = 64 - lead - trail;
        w.write_bits(xor >> trail, meaningful);
        assert(w.bits() =~= before + value_bits(t, xor));
        (lead, trail)
    }
}

/// Writes a further point.
fn write_point(w: &mut BitWriter, t: Tracker, ts: i64, bits: u64) -> (n: Tracker)
    requires
        old(w).wf(),
        t.writable(),
    ensures
        final(w).wf(),
        final(w).bits() == old(w).bits() + point_bits(t, (ts, bits)),
        n == next_tracker(t, (ts, bits)),
        n.writable(),
{
    let ghost before = w.bits();
    let delta = ts.wrapping_sub(t.ts);
    let dod = delta.wrapping_sub(t.delta);
    write_delta(w, dod);
    let xor = bits ^ t.bits;
    let (lead, trail) = write_value(w, t, xor);
    assert(before + delta_bits(dod) + value_bits(t, xor) =~= before + (delta_bits(dod)
        + value_bits(t, xor)));
    Tracker { ts, delta, bits, lead, trail }
}

/// The prefixes that announce the width of a change of the delta.
proof fn lemma_small_number_bits()
    ensures
        number_bits(0b10, 2) == seq![true, false],
        number_bits(0b110, 3) == seq![true, true, false],
        number_bits(0b1110, 4) == seq![true, true, true, false],
        number_bits(0b1111, 4) == seq![true, true, true, true],
{
    assert((2u64 >> 0u64) & 1 == 0 && (2u64 >> 1u64) & 1 == 1 && (6u64 >> 0u64) & 1 == 0 && (6u64
        >> 1u64) & 1 == 1 && (6u64 >> 2u64) & 1 == 1 && (14u64 >> 0u64) & 1 == 0 && (14u64 >> 1u64)
        & 1 == 1 && (14u64 >> 2u64) & 1 == 1 && (14u64 >> 3u64) & 1 == 1 && (15u64 >> 0u64) & 1
        == 1 && (15u64 >> 1u64) & 1 == 1 && (15u64 >> 2u64) & 1 == 1 && (15u64 >> 3u64) & 1 == 1)
        by (bit_vector);
    assert(number_bits(0b10, 2) =~= seq![true, false]);
    assert(number_bits(0b110, 3) =~= seq![true, true, false]);
    assert(number_bits(0b1110, 4) =~= seq![true, true, true, false]);
    assert(number_bits(0b1111, 4) =~= seq![true, true, true, true]);
}

/// The zeros around a nonzero number leave room for a one.
proof fn lemma_zeros_bound(x: u64)
    requires
        x != 0,
    ensures
        0 <= u64_leading_zeros(x),
        u64_leading_zeros(x) + u64_trailing_zeros(x) <= 63,
{
    broadcast use vstd::std_specs::bits::axiom_u64_leading_zeros;
    broadcast use vstd::std_specs::bits::axiom_u64_trailing_zeros;

    let l: u64 = u64_leading_zeros(x) as u64;
    let t: u64 = u64_trailing_zeros(x) as u64;
    assert(l + t <= 63) by {
        if l + t >= 64 {
            assert(x == 0) by (bit_vector)
                requires
                    l < 64,
                    t < 64,
                    l + t >= 64,
                    x >> ((64 - l) as u64) == 0,
                    x << ((64 - t) as u64) == 0,
            ;
        }
    }
}

/// Compresses a series.
pub fn encode(points: &[(i64, u64)]) -> (out: Vec<u8>)
    ensures
        out@ == encoded(points@),
        decoded(out@, points@.len()) == Some(points@),
{
    let mut w = BitWriter::new();
    if points.len() == 0 {
        assert(points@ =~= seq![]);
        return w.finish();
    }
    let first = points[0];
    w.write_bits(to_bits(first.0), 64);
    w.write_bits(first.1, 64);
    let mut t = Tracker { ts: first.0, delta: 0, bits: first.1, lead: 64, trail: 0 };
    let mut i: usize = 1;
    assert(points@.take(1)[0] == first);
    assert(w.bits() =~= series_bits(points@.take(1)));
    while i < points.len()
        invariant
            1 <= i <= points@.len(),
            w.wf(),
            t.writable(),
            t == tracker_after(points@.take(i as int)),
            w.bits() == series_bits(points@.take(i as int)),
        decreases points@.len() - i,
    {
        let p = points[i];
        assert(points@.take(i + 1).drop_last() =~= points@.take(i as int));
        t = write_point(&mut w, t, p.0, p.1);
        i = i + 1;
    }
    assert(points@.take(i as int) =~= points@);
    let out = w.finish();
    proof {
        decode_inverts_encode(points@);
    }
    out
}

/// A number made of `n` bits is no wider than `n` bits.
proof fn lemma_value_bound(s: Seq<bool>)
    requires
        s.len() == 5 || s.len() == 6,
    ensures
        s.len() == 5 ==> bits_value(s) <= 31,
        s.len() == 6 ==> bits_value(s) <= 63,
{
    lemma_number_bits_of_value(s);
    let v = bits_value(s);
    lemma_value_of_number_bits(v, s.len());
    assert((v << 59u64) >> 59u64 <= 31 && (v << 58u64) >> 58u64 <= 63) by (bit_vector);
}

/// Reads a two's complement number, if its bits are there.
fn try_signed(r: &mut BitReader, n: u32) -> (out: Option<i64>)
    requires
        old(r).wf(),
        1 <= n <= 64,
    ensures
        final(r).wf(),
        final(r).bits() == old(r).bits(),
        match signed_at(old(r).bits(), old(r).pos() as int, n as int) {
            None => out is None,
            Some((v, pos)) => out == Some(v) && final(r).pos() == pos,
        },
{
    if r.has(n) {
        Some(read_signed(r, n))
    } else {
        None
    }
}

/// Reads a change of the delta, if its bits are there.
fn read_delta(r: &mut BitReader) -> (out: Option<i64>)
    requires
        old(r).wf(),
    ensures
        final(r).wf(),
        final(r).bits() == old(r).bits(),
        match delta_at(old(r).bits(), old(r).pos() as int) {
            None => out is None,
            Some((v, pos)) => out == Some(v) && final(r).pos() == pos,
        },
{
    if !r.has(1) {
        return None;
    }
    if r.read_bit() == 0 {
        return Some(0);
    }
    if !r.has(1) {
        return None;
    }
    if r.read_bit() == 0 {
        return try_signed(r, 7);
    }
    if !r.has(1) {
        return None;
    }
    if r.read_bit() == 0 {
        return try_signed(r, 9);
    }
    if !r.has(1) {
        return None;
    }
    if r.read_bit() == 0 {
        try_signed(r, 12)
    } else {
        try_signed(r, 64)
    }
}

/// Reads the bits of a window, if they are there.
fn read_window(r: &mut BitReader, t: Tracker, lead: u32, trail: u32) -> (out: Option<Tracker>)
    requires
        old(r).wf(),
        lead <= 64,
        trail <= 63,
    ensures
        final(r).wf(),
        final(r).bits() == old(r).bits(),
        match window_at(old(r).bits(), old(r).pos() as int, t, lead, trail) {
            None => out is None,
            Some((n, pos)) => out == Some(n) && final(r).pos() == pos && n.readable(),
        },
{
    if lead + trail > 64 {
        return None;
    }
    let meaningful = 64 - lead - trail;
    if !r.has(meaningful) {
        return None;
    }
    let change = r.read_bits(meaningful) << trail;
    Some(Tracker { ts: t.ts, delta: t.delta, bits: t.bits ^ change, lead, trail })
}

/// Reads a change of the value, if its bits are there.
fn read_value(r: &mut BitReader, t: Tracker) -> (out: Option<Tracker>)
    requires
        old(r).wf(),
        t.readable(),
    ensures
        final(r).wf(),
        final(r).bits() == old(r).bits(),
        match value_at(old(r).bits(), old(r).pos() as int, t) {
            None => out is None,
            Some((n, pos)) => out == Some(n) && final(r).pos() == pos && n.readable(),
        },
{
    let ghost s = r.bits();
    let ghost pos: int = r.pos() as int;
    if !r.has(1) {
        return None;
    }
    if r.read_bit() == 0 {
        return Some(t);
    }
    if !r.has(1) {
        return None;
    }
    if r.read_bit() == 0 {
        return read_window(r, t, t.lead, t.trail);
    }
    if !r.has(11) {
        return None;
    }
    proof {
        lemma_value_bound(s.subrange(pos + 2, pos + 7));
        lemma_value_bound(s.subrange(pos + 7, pos + 13));
    }
    let lead = r.read_bits(5) as u32;
    let trail = r.read_bits(6) as u32;
    read_window(r, t, lead, trail)
}

/// Decompresses a series of `count` points, or finds that the bytes hold none.
pub fn try_decode(data: &[u8], count: usize) -> (out: Option<Vec<(i64, u64)>>)
    ensures
        match decoded(data@, count as nat) {
            None => out is None,
            Some(points) => out matches Some(v) && v@ == points,
        },
{
    let mut out: Vec<(i64, u64)> = Vec::new();
    if count == 0 {
        assert(out@ =~= seq![]);
        return Some(out);
    }
    let mut r = BitReader::new(data);
    let ghost s = r.bits();
    proof {
        lemma_reading_prefix(s, 1, count as nat);
    }
    if !r.has(128) {
        return None;
    }
    let ts = of_bits(r.read_bits(64));
    let bits = r.read_bits(64);
    let mut t = Tracker { ts, delta: 0, bits, lead: 64, trail: 0 };
    out.push((ts, bits));
    assert(out@ =~= seq![(ts, bits)]);
    let mut n: usize = 1;
    while n < count
        invariant
            1 <= n <= count,
            r.wf(),
            r.bits() == s,
            s == unpack(data@),
            t.readable(),
            reading(s, n as nat) == Some(Reading { points: out@, tracker: t, pos: r.pos() as int }),
        decreases count - n,
    {
        proof {
            lemma_reading_prefix(s, (n + 1) as nat, count as nat);
        }
        let dod = match read_delta(&mut r) {
            Some(d) => d,
            None => {
                return None;
            },
        };
        let delta = t.delta.wrapping_add(dod);
        let moved = Tracker {
            ts: t.ts.wrapping_add(delta),
            delta,
            bits: t.bits,
            lead: t.lead,
            trail: t.trail,
        };
        t = match read_value(&mut r, moved) {
            Some(next) => next,
            None => {
                return None;
            },
        };
        out.push((t.ts, t.bits));
        n = n + 1;
    }
    Some(out)
}

/// Where a shorter series cannot be read, no longer one can.
proof fn lemma_reading_prefix(s: Seq<bool>, m: nat, n: nat)
    requires
        m <= n,
    ensures
        reading(s, m) is None ==> reading(s, n) is None,
    decreases n,
{
    if m < n && n > 1 {
        lemma_reading_prefix(s, m, (n - 1) as nat);
    }
}

/// Decompresses a series of `count` points.
pub fn decode(data: &[u8], count: usize) -> (out: Vec<(i64, u64)>)
    requires
        decoded(data@, count as nat) is Some,
    ensures
        Some(out@) == decoded(data@, count as nat),
{
    try_decode(data, count).unwrap()
}

/// Some bits stand at a position of others.
spec fn has_at(s: Seq<bool>, pos: int, part: Seq<bool>) -> bool {
    &&& 0 <= pos
    &&& pos + part.len() <= s.len()
    &&& forall|i: int| #![trigger part[i]] 0 <= i < part.len() ==> s[pos + i] == part[i]
}

/// Of two parts in a row each stands at its own position.
proof fn lemma_has_both(s: Seq<bool>, pos: int, a: Seq<bool>, b: Seq<bool>)
    requires
        has_at(s, pos, a + b),
    ensures
        has_at(s, pos, a),
        has_at(s, pos + a.len(), b),
        s.subrange(pos, pos + a.len()) == a,
        s.subrange(pos + a.len(), pos + a.len() + b.len()) == b,
{
    assert forall|i: int| #![trigger a[i]] 0 <= i < a.len() implies s[pos + i] == a[i] by {
        assert((a + b)[i] == a[i]);
    }
    assert forall|i: int| #![trigger b[i]] 0 <= i < b.len() implies s[pos + a.len() + i]
        == b[i] by {
        assert((a + b)[a.len() + i] == b[i]);
    }
    assert(s.subrange(pos, pos + a.len()) =~= a);
    assert(s.subrange(pos + a.len(), pos + a.len() + b.len()) =~= b);
}

/// A written change of the delta is read back.
proof fn lemma_delta_roundtrip(s: Seq<bool>, pos: int, dod: i64)
    requires
        has_at(s, pos, delta_bits(dod)),
    ensures
        delta_at(s, pos) == Some((dod, pos + delta_bits(dod).len())),
{
    let all = delta_bits(dod);
    let t = twos(dod);
    assert(s[pos] == all[0]);
    if dod != 0 {
        assert(s[pos + 1] == all[1]);
        reveal_with_fuel(two_to, 65);
        if -64 <= dod <= 63 {
            lemma_has_both(s, pos, seq![true, false], number_bits(t, 7));
            lemma_signed_roundtrip(dod, 7);
        } else {
            assert(s[pos + 2] == all[2]);
            if -256 <= dod <= 255 {
                lemma_has_both(s, pos, seq![true, true, false], number_bits(t, 9));
                lemma_signed_roundtrip(dod, 9);
            } else {
                assert(s[pos + 3] == all[3]);
                if -2048 <= dod <= 2047 {
                    lemma_has_both(s, pos, seq![true, true, true, false], number_bits(t, 12));
                    lemma_signed_roundtrip(dod, 12);
                } else {
                    lemma_has_both(s, pos, seq![true, true, true, true], number_bits(t, 64));
                    lemma_signed_roundtrip(dod, 64);
                }
            }
        }
    }
}

/// The bits of a change within a window give the change back.
proof fn lemma_window_roundtrip(xor: u64, lead: u32, trail: u32)
    requires
        lead + trail <= 63,
        lead <= u64_leading_zeros(xor),
        trail <= u64_trailing_zeros(xor),
    ensures
        bits_value(number_bits(xor >> trail, (64 - lead - trail) as nat)) << trail == xor,
{
    broadcast use vstd::std_specs::bits::axiom_u64_leading_zeros;
    broadcast use vstd::std_specs::bits::axiom_u64_trailing_zeros;

    let m: nat = (64 - lead - trail) as nat;
    lemma_value_of_number_bits(xor >> trail, m);
    let l: u64 = u64_leading_zeros(xor) as u64;
    let t: u64 = u64_trailing_zeros(xor) as u64;
    let z: u64 = (64 - m) as u64;
    let d: u64 = lead as u64;
    let r: u64 = trail as u64;
    let y = xor >> r;
    assert(xor << ((64 - r) as u64) == 0) by (bit_vector)
        requires
            r <= t <= 64,
            xor << ((64 - t) as u64) == 0,
    ;
    assert(y << r == xor) by (bit_vector)
        requires
            r <= 63,
            y == xor >> r,
            xor << ((64 - r) as u64) == 0,
    ;
    assert(xor >> ((64 - d) as u64) == 0) by (bit_vector)
        requires
            d <= l <= 64,
            xor >> ((64 - l) as u64) == 0,
    ;
    assert((y << z) >> z == y) by (bit_vector)
        requires
            z == d + r,
            z <= 63,
            y == xor >> r,
            xor >> ((64 - d) as u64) == 0,
    ;
}

/// A written change of the value is read back.
proof fn lemma_value_roundtrip(s: Seq<bool>, pos: int, t: Tracker, bits: u64)
    requires
        t.writable(),
        has_at(s, pos, value_bits(t, bits ^ t.bits)),
    ensures
        value_at(s, pos, t) == Some(
            (
                Tracker {
                    ts: t.ts,
                    delta: t.delta,
                    ..next_tracker(t, (t.ts, bits))
                },
                pos + value_bits(t, bits ^ t.bits).len(),
            ),
        ),
{
    let xor = bits ^ t.bits;
    let old = t.bits;
    let all = value_bits(t, xor);
    assert(s[pos] == all[0]);
    assert(old ^ xor == bits && (xor == 0 ==> bits == old)) by (bit_vector)
        requires
            xor == bits ^ old,
    ;
    if xor != 0 {
        assert(s[pos + 1] == all[1]);
        lemma_zeros_bound(xor);
        if fits_window(t, xor) {
            let body = number_bits(xor >> t.trail, (64 - t.lead - t.trail) as nat);
            lemma_has_both(s, pos, seq![true, false], body);
            lemma_window_roundtrip(xor, t.lead, t.trail);
        } else {
            let lead = lead_of(xor);
            let trail = u64_trailing_zeros(xor);
            let lead_bits = number_bits(lead as u64, 5);
            let trail_bits = number_bits(trail as u64, 6);
            let body = number_bits(xor >> trail, (64 - lead - trail) as nat);
            let head = seq![true, true];
            lemma_has_both(s, pos, head + lead_bits + trail_bits, body);
            lemma_has_both(s, pos, head + lead_bits, trail_bits);
            lemma_has_both(s, pos, head, lead_bits);
            lemma_value_of_number_bits(lead as u64, 5);
            lemma_value_of_number_bits(trail as u64, 6);
            let l: u64 = lead as u64;
            let r: u64 = trail as u64;
            assert((l << 59u64) >> 59u64 == l && (r << 58u64) >> 58u64 == r) by (bit_vector)
                requires
                    l <= 31,
                    r <= 63,
            ;
            lemma_window_roundtrip(xor, lead, trail);
        }
    }
}

/// A written point is read back.
proof fn lemma_point_roundtrip(s: Seq<bool>, pos: int, t: Tracker, p: (i64, u64))
    requires
        t.writable(),
        has_at(s, pos, point_bits(t, p)),
    ensures
        point_at(s, pos, t) == Some((next_tracker(t, p), pos + point_bits(t, p).len())),
        next_tracker(t, p).writable(),
{
    let delta = p.0.wrapping_sub(t.ts);
    let dod = delta.wrapping_sub(t.delta);
    let xor = p.1 ^ t.bits;
    lemma_has_both(s, pos, delta_bits(dod), value_bits(t, xor));
    lemma_delta_roundtrip(s, pos, dod);
    let moved = Tracker { ts: p.0, delta, ..t };
    assert(t.delta.wrapping_add(dod) == delta);
    assert(t.ts.wrapping_add(delta) == p.0);
    assert(value_bits(moved, xor) == value_bits(t, xor));
    lemma_value_roundtrip(s, pos + delta_bits(dod).len(), moved, p.1);
    if xor != 0 {
        lemma_zeros_bound(xor);
    }
}

/// Bits that begin with those of a series are read as that series.
proof fn lemma_series_roundtrip(s: Seq<bool>, pts: Seq<(i64, u64)>)
    requires
        pts.len() > 0,
        has_at(s, 0, series_bits(pts)),
    ensures
        tracker_after(pts).writable(),
        reading(s, pts.len()) == Some(
            Reading {
                points: pts,
                tracker: tracker_after(pts),
                pos: series_bits(pts).len() as int,
            },
        ),
    decreases pts.len(),
{
    if pts.len() == 1 {
        let a = number_bits(twos(pts[0].0), 64);
        let b = number_bits(pts[0].1, 64);
        lemma_has_both(s, 0, a, b);
        lemma_value_of_number_bits(twos(pts[0].0), 64);
        lemma_value_of_number_bits(pts[0].1, 64);
        let v = twos(pts[0].0);
        let w = pts[0].1;
        assert((v << 0u64) >> 0u64 == v && (w << 0u64) >> 0u64 == w) by (bit_vector);
        assert(seq![pts[0]] =~= pts);
    } else {
        let init = pts.drop_last();
        let t = tracker_after(init);
        lemma_has_both(s, 0, series_bits(init), point_bits(t, pts.last()));
        lemma_series_roundtrip(s, init);
        lemma_point_roundtrip(s, series_bits(init).len() as int, t, pts.last());
        assert(init.push(pts.last()) =~= pts);
    }
}

/// Decompressing what a series was compressed to gives the series back.
pub proof fn decode_inverts_encode(points: Seq<(i64, u64)>)
    ensures
        decoded(encoded(points), points.len()) == Some(points),
{
    let bits = series_bits(points);
    lemma_unpack_packed(bits);
    if points.len() > 0 {
        lemma_series_roundtrip(unpack(encoded(points)), points);
    } else {
        assert(points =~= seq![]);
    }
}

/// A compressed series takes at most 19 bytes for each point, and at least one for four.
pub proof fn lemma_encoded_len(points: Seq<(i64, u64)>)
    ensures
        encoded(points).len() <= 19 * points.len(),
        points.len() <= 4 * encoded(points).len(),
{
    lemma_series_bits_len(points);
}

proof fn lemma_series_bits_len(points: Seq<(i64, u64)>)
    ensures
        points.len() > 0 ==> tracker_after(points).writable(),
        2 * points.len() <= series_bits(points).len() <= 145 * points.len(),
    decreases points.len(),
{
    if points.len() > 1 {
        let init = points.drop_last();
        lemma_series_bits_len(init);
        let xor = points.last().1 ^ tracker_after(init).bits;
        if xor != 0 {
            lemma_zeros_bound(xor);
        }
    }
}

/// A further point only adds bits behind those of the points before. A timestamp that
/// comes after the same interval as the one before takes one bit, and others take 9, 12,
/// 16 or 68, the fewer the closer the intervals are; a value that stays the same takes one
/// bit, and no value takes more than 77.
pub proof fn steady_points_take_two_bits(pts: Seq<(i64, u64)>, p: (i64, u64))
    requires
        pts.len() > 0,
    ensures
        ({
            let all = series_bits(pts.push(p));
            let t = tracker_after(pts);
            let dod = p.0.wrapping_sub(t.ts).wrapping_sub(t.delta);
            let cost = if dod == 0 {
                1int
            } else if -64 <= dod < 64 {
                9
            } else if -256 <= dod < 256 {
                12
            } else if -2048 <= dod < 2048 {
                16
            } else {
                68
            };
            &&& series_bits(pts).is_prefix_of(all)
            &&& t.ts == pts.last().0
            &&& t.bits == pts.last().1
            &&& pts.len() > 1 ==> t.delta == pts.last().0.wrapping_sub(pts[pts.len() - 2].0)
            &&& pts.len() == 1 ==> t.delta == 0
            &&& p.1 == pts.last().1 ==> all.len() == series_bits(pts).len() + cost + 1
            &&& all.len() <= series_bits(pts).len() + cost + 77
        }),
{
    let grown = pts.push(p);
    assert(grown.drop_last() =~= pts);
    lemma_series_bits_len(pts);
    let t = tracker_after(pts);
    let xor = p.1 ^ t.bits;
    if xor != 0 {
        lemma_zeros_bound(xor);
    }
    assert(p.1 == t.bits ==> xor == 0) by {
        let (x, y) = (p.1, t.bits);
        assert(x == y ==> x ^ y == 0) by (bit_vector);
    }
    if pts.len() > 1 {
        let init = pts.drop_last();
        assert(pts.drop_last().last() == pts[pts.len() - 2]);
        lemma_tracker_last(init);
    }
    lemma_tracker_last(pts);
    assert(series_bits(pts) =~= series_bits(grown).take(series_bits(pts).len() as int));
}

/// The tracker knows the last point.
proof fn lemma_tracker_last(pts: Seq<(i64, u64)>)
    requires
        pts.len() > 0,
    ensures
        tracker_after(pts).ts == pts.last().0,
        tracker_after(pts).bits == pts.last().1,
{
}

/// The bytes of a series hold its bits, the most significant bit of each byte first, and
/// end with fewer than eight zero bits.
pub proof fn bytes_hold_the_bits(pts: Seq<(i64, u64)>)
    ensures
        series_bits(pts).is_prefix_of(unpack(encoded(pts))),
        8 * encoded(pts).len() < series_bits(pts).len() + 8,
        pts.len() > 0 ==> number_bits(twos(pts[0].0), 64).is_prefix_of(series_bits(pts)),
    decreases pts.len(),
{
    lemma_unpack_packed(series_bits(pts));
    let s = series_bits(pts);
    assert(padded(s).take(s.len() as int) =~= s);
    if pts.len() > 1 {
        let init = pts.drop_last();
        bytes_hold_the_bits(init);
        let head = number_bits(twos(pts[0].0), 64);
        assert(init[0] == pts[0]);
        assert(series_bits(init) =~= s.take(series_bits(init).len() as int));
        assert(head =~= s.take(head.len() as int)) by {
            assert(head == series_bits(init).take(head.len() as int));
        }
    } else if pts.len() == 1 {
        let head = number_bits(twos(pts[0].0), 64);
        assert(head =~= s.take(head.len() as int));
    }
}

/// A series that was compressed is read back from its bytes, every timestamp and value as
/// it was, by both ways of reading.
pub proof fn decode_gives_the_series_back(
    points: &[(i64, u64)],
    bytes: Vec<u8>,
    data: &[u8],
    count: usize,
    tried: Option<Vec<(i64, u64)>>,
    out: Vec<(i64, u64)>,
)
    requires
        call_ensures(encode, (points,), bytes),
        data@ == bytes@,
        count == points@.len(),
        call_ensures(try_decode, (data, count), tried),
        call_ensures(decode, (data, count), out),
    ensures
        tried matches Some(v) && v@ == points@,
        out@ == points@,
        bytes@.len() <= 19 * points@.len(),
{
    decode_inverts_encode(points@);
    lemma_encoded_len(points@);
}

/// A change of the value that lies within the window of the change before takes two bits
/// and those of the window, which stays. Any other change takes thirteen bits and its own
/// window, from its first bit that is set, or its bit 31 if that comes first, to its last.
/// There is no window before the first change.
pub proof fn change_takes_the_bits_of_its_window(pts: Seq<(i64, u64)>, p: (i64, u64))
    requires
        pts.len() > 0,
    ensures
        ({
            let t = tracker_after(pts);
            let u = tracker_after(pts.push(p));
            let x = p.1 ^ pts.last().1;
            let added = series_bits(pts.push(p)).len() - series_bits(pts).len() - delta_bits(
                p.0.wrapping_sub(t.ts).wrapping_sub(t.delta),
            ).len();
            let within = t.lead <= 31 && u64_leading_zeros(x) >= t.lead && u64_trailing_zeros(x)
                >= t.trail;
            &&& pts.len() == 1 ==> t.lead == 64
            &&& x != 0 && within ==> added == 66 - t.lead - t.trail
            &&& x == 0 || within ==> u.lead == t.lead && u.trail == t.trail
            &&& x != 0 && !within ==> {
                &&& added == 77 - u.lead - u.trail
                &&& u.trail == u64_trailing_zeros(x)
                &&& u.lead == (if u64_leading_zeros(x) < 31 {
                    u64_leading_zeros(x) as int
                } else {
                    31
                })
            }
        }),
{
    let grown = pts.push(p);
    assert(grown.drop_last() =~= pts);
    lemma_series_bits_len(pts);
    lemma_tracker_last(pts);
    let x = p.1 ^ pts.last().1;
    if x != 0 {
        lemma_zeros_bound(x);
    }
}

/// A byte of a number, counted from its most significant byte.
proof fn lemma_byte_of_number(v: u64, k: int)
    requires
        0 <= k < 8,
    ensures
        bits_value(number_bits(v, 64).subrange(8 * k, 8 * k + 8)) == (v >> ((56 - 8 * k) as u64))
            % 256,
{
    let part = number_bits(v, 64).subrange(8 * k, 8 * k + 8);
    let s: u64 = (56 - 8 * k) as u64;
    let w = v >> s;
    assert(part =~= number_bits(w, 8)) by {
        assert forall|i: int| 0 <= i < 8 implies part[i] == number_bits(w, 8)[i] by {
            let a: u64 = (7 - i) as u64;
            let b: u64 = (63 - 8 * k - i) as u64;
            assert((v >> b) & 1 == ((v >> s) >> a) & 1) by (bit_vector)
                requires
                    s <= 56,
                    a < 8,
                    b == s + a,
            ;
        }
    }
    lemma_value_of_number_bits(w, 8);
    assert((w << 56u64) >> 56u64 == w % 256) by (bit_vector);
}

/// The bytes of a series begin with the timestamp and the value of its first point, eight
/// bytes each, the most significant byte first.
pub proof fn series_begins_with_its_first_point(pts: Seq<(i64, u64)>, k: int)
    requires
        pts.len() > 0,
        0 <= k < 8,
    ensures
        encoded(pts).len() >= 16,
        encoded(pts)[k] == (twos(pts[0].0) >> ((56 - 8 * k) as u64)) % 256,
        encoded(pts)[8 + k] == (pts[0].1 >> ((56 - 8 * k) as u64)) % 256,
{
    let s = series_bits(pts);
    let (a, b) = (number_bits(twos(pts[0].0), 64), number_bits(pts[0].1, 64));
    lemma_first_bits(pts);
    assert(padded(s).subrange(8 * k, 8 * k + 8) =~= a.subrange(8 * k, 8 * k + 8)) by {
        assert(a =~= s.subrange(0, 64));
    }
    assert(padded(s).subrange(8 * (8 + k), 8 * (8 + k) + 8) =~= b.subrange(8 * k, 8 * k + 8)) by {
        assert(b =~= s.subrange(64, 128));
    }
    lemma_byte_of_number(twos(pts[0].0), k);
    lemma_byte_of_number(pts[0].1, k);
}

/// The bits of a series begin with those of its first point.
proof fn lemma_first_bits(pts: Seq<(i64, u64)>)
    requires
        pts.len() > 0,
    ensures
        series_bits(pts).len() >= 128,
        series_bits(pts).subrange(0, 64) == number_bits(twos(pts[0].0), 64),
        series_bits(pts).subrange(64, 128) == number_bits(pts[0].1, 64),
    decreases pts.len(),
{
    let s = series_bits(pts);
    if pts.len() == 1 {
        assert(s.subrange(0, 64) =~= number_bits(twos(pts[0].0), 64));
        assert(s.subrange(64, 128) =~= number_bits(pts[0].1, 64));
    } else {
        let init = pts.drop_last();
        lemma_first_bits(init);
        assert(s.subrange(0, 64) =~= series_bits(init).subrange(0, 64));
        assert(s.subrange(64, 128) =~= series_bits(init).subrange(64, 128));
    }
}

} // verus!
