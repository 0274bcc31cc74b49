//! Bit streams over bytes, most significant bit first.
use crate::endian::{twos, to_bits};
use vstd::prelude::*;

verus! {

/// Bit `i` of a byte, counted from the most significant bit.
pub open spec fn bit_of(b: u8, i: int) -> bool {
    (b >> ((7 - i) as u8)) & 1 == 1
}

/// The bits of a byte string.
pub open spec fn unpack(s: Seq<u8>) -> Seq<bool> {
    Seq::new(8 * s.len(), |i: int| bit_of(s[i / 8], i % 8))
}

/// The low `n` bits of a number, most significant first.
pub open spec fn number_bits(v: u64, n: nat) -> Seq<bool> {
    Seq::new(n, |i: int| (v >> ((n - 1 - i) as u64)) & 1 == 1)
}

/// The number whose bits are given, most significant first.
pub open spec fn bits_value(s: Seq<bool>) -> u64
    decreases s.len(),
{
    if s.len() == 0 {
        0
    } else {
        (bits_value(s.drop_last()) << 1u64) | (if s.last() {
            1u64
        } else {
            0u64
        })
    }
}

/// A number cut down to its low `n` bits.
pub open spec fn low_bits(v: u64, n: u64) -> u64 {
    if n == 0 {
        0
    } else {
        (v << ((64 - n) as u64)) >> ((64 - n) as u64)
    }
}

/// The smallest power of two that `n` bits cannot hold.
pub open spec fn two_to(n: nat) -> int
    decreases n,
{
    if n == 0 {
        1
    } else {
        2 * two_to((n - 1) as nat)
    }
}

/// The number whose two's complement bits are given, most significant first.
pub open spec fn signed_value(s: Seq<bool>) -> int {
    if s.len() > 0 && s[0] {
        bits_value(s) - two_to(s.len())
    } else {
        bits_value(s) as int
    }
}

/// Bits followed by as many zero bits as fill the last byte.
pub open spec fn padded(s: Seq<bool>) -> Seq<bool> {
    s + Seq::new(((8 - s.len() % 8) % 8) as nat, |i: int| false)
}

/// The bytes that hold some bits, the last one filled up with zero bits.
pub open spec fn packed(s: Seq<bool>) -> Seq<u8> {
    Seq::new(
        padded(s).len() / 8,
        |k: int| bits_value(padded(s).subrange(8 * k, 8 * k + 8)) as u8,
    )
}

/// Bytes are determined by their bits.
pub proof fn lemma_packed(data: Seq<u8>, s: Seq<bool>)
    requires
        unpack(data) == padded(s),
    ensures
        data == packed(s),
{
    assert(packed(s).len() == data.len());
    assert forall|k: int| 0 <= k < data.len() implies data[k] == packed(s)[k] by {
        let b = data[k];
        let part = unpack(data).subrange(8 * k, 8 * k + 8);
        assert(part =~= number_bits(b as u64, 8)) by {
            assert forall|i: int| 0 <= i < 8 implies part[i] == number_bits(b as u64, 8)[i] by {
                assert((8 * k + i) / 8 == k && (8 * k + i) % 8 == i);
                let k8: u8 = (7 - i) as u8;
                let k64: u64 = (7 - i) as u64;
                assert(((b >> k8) & 1 == 1) == (((b as u64) >> k64) & 1 == 1)) by (bit_vector)
                    requires
                        k8 < 8,
                        k64 == k8,
                ;
            }
        }
        lemma_value_of_number_bits(b as u64, 8);
        assert(((b as u64) << 56u64) >> 56u64 == b) by (bit_vector);
    }
    assert(data =~= packed(s));
}

/// Writing the low bits of a number and reading them gives those low bits.
pub proof fn lemma_value_of_number_bits(v: u64, n: nat)
    requires
        n <= 64,
    ensures
        bits_value(number_bits(v, n)) == low_bits(v, n as u64),
    decreases n,
{
    if n > 0 {
        let s = number_bits(v, n);
        let half = v >> 1u64;
        assert(s.drop_last() =~= number_bits(half, (n - 1) as nat)) by {
            assert forall|i: int| 0 <= i < n - 1 implies s[i] == number_bits(
                half,
                (n - 1) as nat,
            )[i] by {
                let k: u64 = (n - 2 - i) as u64;
                let k1: u64 = (n - 1 - i) as u64;
                assert((v >> 1u64) >> k == v >> k1) by (bit_vector)
                    requires
                        k1 == k + 1,
                        k < 64,
                ;
            }
        }
        lemma_value_of_number_bits(half, (n - 1) as nat);
        let m: u64 = n as u64;
        let z: u64 = (64 - n) as u64;
        let z1: u64 = (65 - n) as u64;
        let c: u64 = v & 1;
        assert(v >> 0u64 == v) by (bit_vector);
        assert(c == 0 || c == 1) by (bit_vector)
            requires
                c == v & 1,
        ;
        if n == 1 {
            assert((0u64 << 1u64) | (v & 1) == (v << 63u64) >> 63u64) by (bit_vector);
        } else {
            assert(((((v >> 1u64) << z1) >> z1) << 1u64) | (v & 1) == (v << z) >> z)
                by (bit_vector)
                requires
                    z1 == z + 1,
                    z1 <= 63,
            ;
        }
    }
}

/// The bits of the number that some bits stand for are those bits.
pub proof fn lemma_number_bits_of_value(s: Seq<bool>)
    requires
        s.len() <= 64,
    ensures
        number_bits(bits_value(s), s.len()) == s,
    decreases s.len(),
{
    if s.len() > 0 {
        let rest = s.drop_last();
        lemma_number_bits_of_value(rest);
        let w = bits_value(rest);
        let b: u64 = if s.last() {
            1
        } else {
            0
        };
        let v = bits_value(s);
        let got = number_bits(v, s.len());
        assert forall|i: int| 0 <= i < s.len() implies got[i] == s[i] by {
            let k1: u64 = (s.len() - 1 - i) as u64;
            if k1 == 0 {
                assert((v >> k1) & 1 == b) by (bit_vector)
                    requires
                        k1 == 0,
                        b < 2,
                        v == (w << 1u64) | b,
                ;
            } else {
                let k: u64 = (k1 - 1) as u64;
                assert((v >> k1) & 1 == (w >> k) & 1) by (bit_vector)
                    requires
                        k1 == k + 1,
                        k1 < 64,
                        b < 2,
                        v == (w << 1u64) | b,
                ;
                assert(number_bits(w, rest.len())[i] == rest[i]);
            }
        }
        assert(got =~= s);
    }
}

/// The bits of packed bits are those bits, filled up.
pub proof fn lemma_unpack_packed(s: Seq<bool>)
    ensures
        unpack(packed(s)) == padded(s),
{
    let all = padded(s);
    let got = unpack(packed(s));
    assert(all.len() % 8 == 0);
    assert forall|i: int| 0 <= i < all.len() implies got[i] == all[i] by {
        let k = i / 8;
        let j = i % 8;
        let part = all.subrange(8 * k, 8 * k + 8);
        lemma_number_bits_of_value(part);
        let v = bits_value(part);
        lemma_value_of_number_bits(v, 8);
        let b: u8 = v as u8;
        let k8: u8 = (7 - j) as u8;
        let k64: u64 = (7 - j) as u64;
        assert(((b >> k8) & 1 == 1) == ((v >> k64) & 1 == 1)) by (bit_vector)
            requires
                k8 < 8,
                k64 == k8,
                b == v as u8,
        ;
        assert(number_bits(v, 8)[j] == part[j]);
    }
    assert(got =~= all);
}

/// A shifted one is a power of two.
proof fn lemma_two_to_shift(n: u64)
    requires
        n < 64,
    ensures
        1u64 << n == two_to(n as nat),
    decreases n,
{
    if n == 0 {
        assert(1u64 << 0u64 == 1) by (bit_vector);
    } else {
        let m: u64 = (n - 1) as u64;
        lemma_two_to_shift(m);
        assert(1u64 << n == 2 * (1u64 << m)) by (bit_vector)
            requires
                n == m + 1,
                n < 64,
        ;
    }
}

/// A number that fits `n` two's complement bits is what those bits stand for.
pub proof fn lemma_signed_roundtrip(d: i64, n: nat)
    requires
        1 <= n <= 64,
        -two_to((n - 1) as nat) <= d < two_to((n - 1) as nat),
    ensures
        signed_value(number_bits(twos(d), n)) == d,
{
    let t = twos(d);
    let s = number_bits(t, n);
    let top: u64 = (n - 1) as u64;
    lemma_value_of_number_bits(t, n);
    lemma_two_to_shift(top);
    let p: u64 = 1u64 << top;
    let z: u64 = (64 - n) as u64;
    let low = low_bits(t, n as u64);
    if d >= 0 {
        assert((t << z) >> z == t && (t >> top) & 1 != 1) by (bit_vector)
            requires
                p == 1u64 << top,
                top + z == 63,
                t < p,
        ;
    } else if n == 64 {
        assert(two_to(64) == 0x1_0000_0000_0000_0000) by {
            reveal_with_fuel(two_to, 65);
        }
        assert((t << 0u64) >> 0u64 == t && (t >= 0x8000_0000_0000_0000 ==> (t >> 63u64) & 1 == 1))
            by (bit_vector);
    } else {
        lemma_two_to_shift(n as u64);
        let q: u64 = 1u64 << (n as u64);
        assert(low as int == t as int + q as int - 0x1_0000_0000_0000_0000 && (t >> top) & 1 == 1)
            by (bit_vector)
            requires
                p == 1u64 << top,
                q == 1u64 << ((top + 1) as u64),
                top + z == 63,
                z >= 1,
                t as int + p as int >= 0x1_0000_0000_0000_0000,
                low == (t << z) >> z,
        ;
    }
}

pub struct BitWriter {
    buf: Vec<u8>,
    cur: u8,
    nbits: u8,
}

impl BitWriter {
    /// The unfinished byte holds fewer than eight bits.
    pub closed spec fn wf(self) -> bool {
        self.nbits < 8
    }

    /// The bits written so far.
    pub closed spec fn bits(self) -> Seq<bool> {
        unpack(self.buf@) + number_bits(self.cur as u64, self.nbits as nat)
    }

    pub fn new() -> (w: Self)
        ensures
            w.wf(),
            w.bits() == Seq::<bool>::empty(),
    {
        let w = BitWriter { buf: Vec::new(), cur: 0, nbits: 0 };
        assert(w.bits() =~= Seq::<bool>::empty());
        w
    }

    /// Appends the low bit of `bit`.
    pub fn write_bit(&mut self, bit: u32)
        requires
            old(self).wf(),
        ensures
            final(self).wf(),
            final(self).bits() == old(self).bits().push(bit % 2 == 1),
    {
        let ghost before = *self;
        let low: u8 = (bit % 2) as u8;
        self.cur = (self.cur << 1) | low;
        self.nbits = self.nbits + 1;
        let ghost grown = number_bits(self.cur as u64, self.nbits as nat);
        let ghost c0 = before.cur;
        let ghost c1 = self.cur;
        assert(grown =~= number_bits(c0 as u64, before.nbits as nat).push(low == 1)) by {
            assert forall|i: int| 0 <= i < self.nbits implies grown[i] == number_bits(
                c0 as u64,
                before.nbits as nat,
            ).push(low == 1)[i] by {
                let k1: u64 = (self.nbits - 1 - i) as u64;
                if k1 == 0 {
                    assert(((c1 as u64) >> k1) & 1 == low as u64) by (bit_vector)
                        requires
                            k1 == 0,
                            c1 == (c0 << 1u8) | low,
                            low < 2,
                    ;
                } else {
                    let k: u64 = (k1 - 1) as u64;
                    assert(((c1 as u64) >> k1) & 1 == ((c0 as u64) >> k) & 1) by (bit_vector)
                        requires
                            k1 == k + 1,
                            k1 < 8,
                            c1 == (c0 << 1u8) | low,
                            low < 2,
                    ;
                }
            }
        }
        if self.nbits == 8 {
            self.buf.push(self.cur);
            self.cur = 0;
            self.nbits = 0;
            proof {
                let whole = unpack(self.buf@);
                assert(whole =~= unpack(before.buf@) + grown) by {
                    assert forall|i: int| 0 <= i < whole.len() implies whole[i] == (unpack(
                        before.buf@,
                    ) + grown)[i] by {
                        if i >= 8 * before.buf@.len() {
                            let j = i - 8 * before.buf@.len();
                            let k8: u8 = (7 - j) as u8;
                            let k: u64 = (7 - j) as u64;
                            assert(i / 8 == before.buf@.len() && i % 8 == j);
                            assert(((c1 >> k8) & 1 == 1) == (((c1 as u64) >> k) & 1 == 1))
                                by (bit_vector)
                                requires
                                    k8 < 8,
                                    k == k8,
                            ;
                        }
                    }
                }
            }
        }
        assert(self.bits() =~= before.bits().push(bit % 2 == 1));
    }

    /// Appends the low `n` bits of `val`, most significant first.
    pub fn write_bits(&mut self, val: u64, n: u32)
        requires
            old(self).wf(),
            n <= 64,
        ensures
            final(self).wf(),
            final(self).bits() == old(self).bits() + number_bits(val, n as nat),
    {
        let ghost start = self.bits();
        let mut left: u32 = n;
        assert(start =~= start + number_bits(val, n as nat).take(0));
        while left > 0
            invariant
                self.wf(),
                left <= n <= 64,
                self.bits() == start + number_bits(val, n as nat).take(n - left),
            decreases left,
        {
            left = left - 1;
            let bit: u32 = ((val >> left) & 1) as u32;
            let ghost all = number_bits(val, n as nat);
            let ghost l: u64 = left as u64;
            assert((val >> left) & 1 == (val >> l) & 1 && (val >> left) & 1 < 2) by (bit_vector)
                requires
                    l == left,
            ;
            self.write_bit(bit);
            assert(all.take(n - left) =~= all.take(n - left - 1).push(all[n - left - 1]));
            assert(start + all.take(n - left) =~= (start + all.take(n - left - 1)).push(
                all[n - left - 1],
            ));
        }
        assert(number_bits(val, n as nat).take(n as int) =~= number_bits(val, n as nat));
    }

    /// The bytes that hold the written bits, the last one filled up with zero bits.
    pub fn finish(self) -> (out: Vec<u8>)
        requires
            self.wf(),
        ensures
            out@ == packed(self.bits()),
            unpack(out@) == padded(self.bits()),
    {
        let mut buf = self.buf;
        let ghost start = buf@;
        if self.nbits > 0 {
            let shift: u8 = 8 - self.nbits;
            let last: u8 = self.cur << shift;
            buf.push(last);
            proof {
                let c = self.cur;
                let whole = unpack(buf@);
                let want = padded(self.bits());
                assert(self.bits().len() == 8 * start.len() + self.nbits);
                assert(whole.len() == want.len());
                assert forall|i: int| 0 <= i < whole.len() implies whole[i] == want[i] by {
                    if i >= 8 * start.len() {
                        let j = i - 8 * start.len();
                        assert(i / 8 == start.len() && i % 8 == j);
                        let k8: u8 = (7 - j) as u8;
                        if j < self.nbits {
                            let k: u64 = (self.nbits - 1 - j) as u64;
                            assert((((c << shift) >> k8) & 1 == 1) == (((c as u64) >> k) & 1 == 1))
                                by (bit_vector)
                                requires
                                    k8 < 8,
                                    k8 == k + shift,
                            ;
                        } else {
                            assert(((c << shift) >> k8) & 1 != 1) by (bit_vector)
                                requires
                                    k8 < shift,
                                    shift < 8,
                            ;
                        }
                    }
                }
                assert(whole =~= want);
            }
        }
        assert(unpack(buf@) =~= padded(self.bits()));
        proof {
            lemma_packed(buf@, self.bits());
        }
        buf
    }
}

pub struct BitReader<'a> {
    buf: &'a [u8],
    byte: usize,
    bit: u8,
}

impl<'a> BitReader<'a> {
    /// The position lies within the bytes.
    pub closed spec fn wf(self) -> bool {
        &&& self.bit < 8
        &&& 8 * self.byte + self.bit <= 8 * self.buf@.len()
    }

    /// All the bits of the stream.
    pub closed spec fn bits(self) -> Seq<bool> {
        unpack(self.buf@)
    }

    /// The number of bits read so far.
    pub closed spec fn pos(self) -> nat {
        (8 * self.byte + self.bit) as nat
    }

    pub fn new(buf: &'a [u8]) -> (r: Self)
        ensures
            r.wf(),
            r.bits() == unpack(buf@),
            r.pos() == 0,
    {
        BitReader { buf, byte: 0, bit: 0 }
    }

    /// Whether at least `n` bits are left.
    pub fn has(&self, n: u32) -> (b: bool)
        requires
            self.wf(),
        ensures
            b == (self.pos() + n <= self.bits().len()),
    {
        let left: u128 = (self.buf.len() - self.byte) as u128 * 8;
        self.bit as u128 + n as u128 <= left
    }

    /// Reads the next bit.
    pub fn read_bit(&mut self) -> (b: u32)
        requires
            old(self).wf(),
            old(self).pos() < old(self).bits().len(),
        ensures
            final(self).wf(),
            final(self).bits() == old(self).bits(),
            final(self).pos() == old(self).pos() + 1,
            b == (if old(self).bits()[old(self).pos() as int] {
                1u32
            } else {
                0u32
            }),
    {
        let at = self.buf[self.byte];
        let shift: u8 = 7 - self.bit;
        let b: u8 = (at >> shift) & 1;
        assert(b < 2) by (bit_vector)
            requires
                b == (at >> shift) & 1,
        ;
        assert(self.bits()[self.pos() as int] == bit_of(at, self.bit as int));
        self.bit = self.bit + 1;
        if self.bit == 8 {
            self.bit = 0;
            self.byte = self.byte + 1;
        }
        b as u32
    }

    /// Reads the next `n` bits as a number.
    pub fn read_bits(&mut self, n: u32) -> (v: u64)
        requires
            old(self).wf(),
            n <= 64,
            old(self).pos() + n <= old(self).bits().len(),
        ensures
            final(self).wf(),
            final(self).bits() == old(self).bits(),
            final(self).pos() == old(self).pos() + n,
            v == bits_value(old(self).bits().subrange(old(self).pos() as int, old(self).pos() + n)),
    {
        let mut v: u64 = 0;
        let ghost all = self.bits();
        let ghost from: int = self.pos() as int;
        let mut done: u32 = 0;
        while done < n
            invariant
                self.wf(),
                done <= n <= 64,
                self.bits() == all,
                0 <= from,
                self.pos() == from + done,
                from + n <= all.len(),
                v == bits_value(all.subrange(from, from + done)),
            decreases n - done,
        {
            let b = self.read_bit();
            proof {
                let s = all.subrange(from, from + done + 1);
                assert(s.drop_last() =~= all.subrange(from, from + done));
            }
            v = (v << 1) | b as u64;
            done = done + 1;
        }
        v
    }
}

/// Appends the low `n` two's complement bits of a signed number.
pub fn write_signed(w: &mut BitWriter, val: i64, n: u32)
    requires
        old(w).wf(),
        n <= 64,
    ensures
        final(w).wf(),
        final(w).bits() == old(w).bits() + number_bits(twos(val), n as nat),
{
    w.write_bits(to_bits(val), n);
}

/// Reads the next `n` bits as a two's complement number.
pub fn read_signed(r: &mut BitReader, n: u32) -> (v: i64)
    requires
        old(r).wf(),
        1 <= n <= 64,
        old(r).pos() + n <= old(r).bits().len(),
    ensures
        final(r).wf(),
        final(r).bits() == old(r).bits(),
        final(r).pos() == old(r).pos() + n,
        v == signed_value(old(r).bits().subrange(old(r).pos() as int, old(r).pos() + n)),
{
    let ghost s = r.bits().subrange(r.pos() as int, r.pos() + n);
    let raw = r.read_bits(n);
    let shift: u32 = 64 - n;
    let v = ((raw << shift) as i64) >> shift;
    proof {
        lemma_number_bits_of_value(s);
        lemma_value_of_number_bits(raw, n as nat);
        let z: u64 = shift as u64;
        let top: u64 = (n - 1) as u64;
        assert(s[0] == ((raw >> top) & 1 == 1));
        assert((raw >> top) & 1 != 1 ==> v as int == raw as int) by (bit_vector)
            requires
                z == shift,
                z <= 63,
                top + z == 63,
                raw == (raw << z) >> z,
                v == ((raw << shift) as i64) >> shift,
        ;
        if n == 64 {
            assert((raw >> top) & 1 == 1 ==> v as int == raw as int - 0x1_0000_0000_0000_0000)
                by (bit_vector)
                requires
                    shift == 0,
                    top == 63,
                    v == ((raw << shift) as i64) >> shift,
            ;
            assert(two_to(64) == 0x1_0000_0000_0000_0000) by {
                reveal_with_fuel(two_to, 65);
            }
        } else {
            lemma_two_to_shift(n as u64);
            let p: u64 = 1u64 << (n as u64);
            assert((raw >> top) & 1 == 1 ==> v as int == raw as int - p as int) by (bit_vector)
                requires
                    z == shift,
                    1 <= z <= 63,
                    top + z == 63,
                    p == 1u64 << n as u64,
                    n as int + z as int == 64,
                    raw == (raw << z) >> z,
                    v == ((raw << shift) as i64) >> shift,
            ;
        }
    }
    v
}

} // verus!
