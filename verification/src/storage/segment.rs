//! Immutable files of compressed series.
//!
//! A segment holds a header, an index with one entry for each series, and the
//! compressed series in the order of the index.
use crate::endian::{
    from_le32, from_le64, get_le32, get_le64, le32, le64, put_le32, put_le64,
};
use crate::error::{is_corrupt, LatticeError, Result};
use crate::storage::column;
use crate::storage::gorilla::{decode_inverts_encode, decoded, encoded, try_decode};
use crate::storage::memtable::block_views;
use crate::storage::series::{in_range, select_range};
use vstd::prelude::*;
use vstd::slice::slice_subrange;
use vstd::string::*;

verus! {

broadcast use crate::endian::group_endian;

/// "LSEG"
pub const MAGIC: u32 = 0x4C53_4547;

pub const VERSION: u32 = 1;

/// The bytes of the header: magic, version and count.
pub const HEADER: usize = 12;

/// The bytes of an index entry: series, offset, length and count.
pub const ENTRY: usize = 24;

#[derive(Clone, Copy)]
pub struct IndexEntry {
    pub series: u64,
    pub offset: u64,
    pub len: u32,
    pub count: u32,
}

/// The compressed series of the first `k` blocks, one behind the other.
pub open spec fn data_bytes(blocks: Seq<(u64, Seq<(i64, u64)>)>, k: int) -> Seq<u8>
    decreases k,
{
    if k <= 0 {
        seq![]
    } else {
        data_bytes(blocks, k - 1) + encoded(blocks[k - 1].1)
    }
}

/// Where the compressed series of a block begins within the file.
pub open spec fn data_offset(blocks: Seq<(u64, Seq<(i64, u64)>)>, i: int) -> nat {
    12 + 24 * blocks.len() + data_bytes(blocks, i).len()
}

/// The index entry of a block.
pub open spec fn entry_bytes(blocks: Seq<(u64, Seq<(i64, u64)>)>, i: int) -> Seq<u8> {
    le64(blocks[i].0) + le64((data_offset(blocks, i) % 0x1_0000_0000_0000_0000) as u64) + le32(
        encoded(blocks[i].1).len() as u32,
    ) + le32(blocks[i].1.len() as u32)
}

/// The index entries of the first `k` blocks.
pub open spec fn index_bytes(blocks: Seq<(u64, Seq<(i64, u64)>)>, k: int) -> Seq<u8>
    decreases k,
{
    if k <= 0 {
        seq![]
    } else {
        index_bytes(blocks, k - 1) + entry_bytes(blocks, k - 1)
    }
}

/// The bytes of a segment file with the given blocks.
pub open spec fn image(blocks: Seq<(u64, Seq<(i64, u64)>)>) -> Seq<u8> {
    le32(MAGIC) + le32(VERSION) + le32(blocks.len() as u32) + index_bytes(
        blocks,
        blocks.len() as int,
    ) + data_bytes(blocks, blocks.len() as int)
}

/// The blocks stay within what the fields of the format can say.
pub open spec fn fits_format(blocks: Seq<(u64, Seq<(i64, u64)>)>) -> bool {
    &&& blocks.len() <= u32::MAX
    &&& image(blocks).len() <= u64::MAX
    &&& forall|i: int|
        #![trigger blocks[i]]
        0 <= i < blocks.len() ==> blocks[i].1.len() <= u32::MAX && encoded(blocks[i].1).len()
            <= u32::MAX
}

/// The index entry at a position of a file.
pub open spec fn entry_at(data: Seq<u8>, at: int) -> IndexEntry {
    IndexEntry {
        series: from_le64(data.subrange(at, at + 8)),
        offset: from_le64(data.subrange(at + 8, at + 16)),
        len: from_le32(data.subrange(at + 16, at + 20)),
        count: from_le32(data.subrange(at + 20, at + 24)),
    }
}

/// The file has a whole header.
pub open spec fn has_header(data: Seq<u8>) -> bool {
    data.len() >= 12
}

/// The header begins with the magic number.
pub open spec fn has_magic(data: Seq<u8>) -> bool {
    from_le32(data.subrange(0, 4)) == MAGIC
}

/// The number of index entries that the header announces.
pub open spec fn entry_count(data: Seq<u8>) -> nat {
    from_le32(data.subrange(8, 12)) as nat
}

/// The file is long enough for the index that its header announces.
pub open spec fn has_index(data: Seq<u8>) -> bool {
    12 + 24 * entry_count(data) <= data.len()
}

/// The index of a file.
pub open spec fn index_of(data: Seq<u8>) -> Seq<IndexEntry> {
    Seq::new(entry_count(data), |i: int| entry_at(data, 12 + 24 * i))
}

/// The compressed bytes that an entry points at lie within the file and hold a
/// series.
pub open spec fn readable(data: Seq<u8>, e: IndexEntry) -> bool {
    &&& e.offset + e.len <= data.len()
    &&& decoded(data.subrange(e.offset as int, e.offset + e.len), e.count as nat) is Some
}

/// The series that an entry points at.
pub open spec fn entry_points(data: Seq<u8>, e: IndexEntry) -> Seq<(i64, u64)> {
    decoded(data.subrange(e.offset as int, e.offset + e.len), e.count as nat)->0
}

/// The index is in the order of the series, each once.
pub open spec fn index_sorted(index: Seq<IndexEntry>) -> bool {
    forall|i: int, j: int| 0 <= i < j < index.len() ==> index[i].series < index[j].series
}

/// The index has an entry for a series.
pub open spec fn indexed(index: Seq<IndexEntry>, series: u64) -> bool {
    exists|i: int| 0 <= i < index.len() && (#[trigger] index[i]).series == series
}

/// An entry for a series.
pub open spec fn entry_of(index: Seq<IndexEntry>, series: u64) -> IndexEntry {
    let i = choose|i: int| 0 <= i < index.len() && (#[trigger] index[i]).series == series;
    index[i]
}

/// The points that a file with a sorted index holds for a series.
pub open spec fn stored(data: Seq<u8>, index: Seq<IndexEntry>, series: u64) -> Seq<(i64, u64)> {
    if indexed(index, series) {
        entry_points(data, entry_of(index, series))
    } else {
        seq![]
    }
}

/// Appends an index entry.
fn put_entry(out: &mut Vec<u8>, series: u64, offset: u64, len: u32, count: u32)
    ensures
        final(out)@ == old(out)@ + (le64(series) + le64(offset) + le32(len) + le32(count)),
{
    put_le64(out, series);
    put_le64(out, offset);
    put_le32(out, len);
    put_le32(out, count);
    assert(out@ =~= old(out)@ + (le64(series) + le64(offset) + le32(len) + le32(count)));
}

pub struct Segment {
    data: Vec<u8>,
    index: Vec<IndexEntry>,
    path: String,
}

impl Segment {
    /// The bytes of the file.
    pub closed spec fn data(self) -> Seq<u8> {
        self.data@
    }

    /// The index of the file.
    pub closed spec fn index(self) -> Seq<IndexEntry> {
        self.index@
    }

    /// The path of the file.
    pub closed spec fn name(self) -> Seq<char> {
        self.path@
    }

    /// Every entry for a series can be read.
    pub open spec fn serves(self, series: u64) -> bool {
        forall|i: int|
            #![trigger self.index()[i]]
            0 <= i < self.index().len() && self.index()[i].series == series ==> readable(
                self.data(),
                self.index()[i],
            )
    }

    /// Every series can be read.
    pub open spec fn serves_all(self) -> bool {
        forall|series: u64| #[trigger] self.serves(series)
    }

    /// Every entry can be read, and the index is sorted.
    pub open spec fn intact(self) -> bool {
        &&& index_sorted(self.index())
        &&& forall|series: u64| self.serves(series)
    }

    /// The points that the segment holds for a series.
    pub open spec fn points(self, series: u64) -> Seq<(i64, u64)> {
        stored(self.data(), self.index(), series)
    }

    /// Lays out the bytes of a segment file.
    pub fn build(blocks: &[(u64, Vec<(i64, u64)>)]) -> (out: Vec<u8>)
        ensures
            out@ == image(block_views(blocks@)),
    {
        let ghost views = block_views(blocks@);
        let n = blocks.len();
        let mut out: Vec<u8> = Vec::new();
        put_le32(&mut out, MAGIC);
        put_le32(&mut out, VERSION);
        put_le32(&mut out, n as u32);
        let ghost head = out@;
        let mut body: Vec<u8> = Vec::new();
        let mut offset: u64 = (HEADER as u64).wrapping_add((n as u64).wrapping_mul(ENTRY as u64));
        proof {
            lemma_wrapped_start(n as nat);
        }
        let mut i: usize = 0;
        while i < n
            invariant
                i <= n == blocks@.len(),
                views == block_views(blocks@),
                out@ == head + index_bytes(views, i as int),
                body@ == data_bytes(views, i as int),
                offset == data_offset(views, i as int) % 0x1_0000_0000_0000_0000,
            decreases n - i,
        {
            let block = &blocks[i];
            assert(views[i as int] == (block.0, block.1@));
            let mut data = column::encode(block.1.as_slice());
            let ghost bytes = data@;
            put_entry(&mut out, block.0, offset, data.len() as u32, block.1.len() as u32);
            assert(head + index_bytes(views, i as int) + entry_bytes(views, i as int) =~= head
                + index_bytes(views, i + 1));
            proof {
                lemma_wrapped_step(data_offset(views, i as int), bytes.len());
            }
            offset = offset.wrapping_add(data.len() as u64);
            body.append(&mut data);
            assert(body@ =~= data_bytes(views, i + 1));
            i = i + 1;
        }
        out.append(&mut body);
        assert(out@ =~= image(views));
        out
    }

    /// Whether a file with a good header is long enough for its index.
    pub fn index_complete(data: &[u8]) -> (b: bool)
        ensures
            b == has_whole_index(data@),
    {
        if data.len() < HEADER || get_le32(data, 0) != MAGIC {
            return true;
        }
        let count = get_le32(data, 8);
        12 + 24 * (count as u64) <= data.len() as u64
    }

    /// Takes up the bytes of a segment file.
    pub fn open(path: String, data: Vec<u8>) -> (r: Result<Segment>)
        requires
            has_whole_index(data@),
        ensures
            match r {
                Ok(seg) => opened_from(seg, path@, data@),
                Err(e) => refused(e, path@, data@),
            },
    {
        if data.len() < HEADER {
            return Err(LatticeError::Corrupt(path.concat(": short header")));
        }
        if get_le32(data.as_slice(), 0) != MAGIC {
            return Err(LatticeError::Corrupt(path.concat(": bad magic")));
        }
        let count = get_le32(data.as_slice(), 8) as usize;
        let mut index: Vec<IndexEntry> = Vec::new();
        let mut off: usize = HEADER;
        let mut i: usize = 0;
        while i < count
            invariant
                i <= count,
                count == entry_count(data@),
                has_index(data@),
                off == 12 + 24 * i,
                index@ == index_of(data@).take(i as int),
            decreases count - i,
        {
            let bytes = data.as_slice();
            assert(off + ENTRY <= data.len());
            index.push(
                IndexEntry {
                    series: get_le64(bytes, off),
                    offset: get_le64(bytes, off + 8),
                    len: get_le32(bytes, off + 16),
                    count: get_le32(bytes, off + 20),
                },
            );
            assert(index@ =~= index_of(data@).take(i + 1));
            off = off + ENTRY;
            i = i + 1;
        }
        assert(index@ =~= index_of(data@));
        Ok(Segment { data, index, path })
    }

    /// Finds an entry for a series by binary search.
    fn find(&self, series: u64) -> (r: Option<usize>)
        ensures
            match r {
                Some(i) => i < self.index().len() && self.index()[i as int].series == series,
                None => index_sorted(self.index()) ==> !indexed(self.index(), series),
            },
    {
        let mut lo: usize = 0;
        let mut hi: usize = self.index.len();
        while lo < hi
            invariant
                lo <= hi <= self.index@.len(),
                index_sorted(self.index@) ==> forall|k: int|
                    #![trigger self.index@[k]]
                    0 <= k < lo ==> self.index@[k].series < series,
                index_sorted(self.index@) ==> forall|k: int|
                    #![trigger self.index@[k]]
                    hi <= k < self.index@.len() ==> self.index@[k].series > series,
            decreases hi - lo,
        {
            let mid = lo + (hi - lo) / 2;
            let at = self.index[mid].series;
            if at == series {
                return Some(mid);
            }
            if at < series {
                lo = mid + 1;
            } else {
                hi = mid;
            }
        }
        None
    }

    /// The series that an entry points at, if it can be read.
    fn try_entry(&self, i: usize) -> (r: Option<Vec<(i64, u64)>>)
        requires
            i < self.index().len(),
        ensures
            r is Some == readable(self.data(), self.index()[i as int]),
            r matches Some(out) ==> out@ == entry_points(self.data(), self.index()[i as int]),
    {
        let e = self.index[i];
        let size = self.data.len() as u64;
        if e.offset > size || e.len as u64 > size - e.offset {
            return None;
        }
        let lo = e.offset as usize;
        let hi = lo + e.len as usize;
        try_decode(slice_subrange(self.data.as_slice(), lo, hi), e.count as usize)
    }

    /// Whether every entry for a series can be read.
    pub fn can_serve(&self, series: u64) -> (b: bool)
        ensures
            b == self.serves(series),
    {
        let mut i: usize = 0;
        while i < self.index.len()
            invariant
                i <= self.index@.len(),
                forall|k: int|
                    #![trigger self.index@[k]]
                    0 <= k < i && self.index@[k].series == series ==> readable(
                        self.data@,
                        self.index@[k],
                    ),
            decreases self.index@.len() - i,
        {
            if self.index[i].series == series && self.try_entry(i).is_none() {
                assert(!readable(self.data(), self.index()[i as int]));
                return false;
            }
            i = i + 1;
        }
        true
    }

    /// Whether every entry can be read.
    pub fn is_readable(&self) -> (b: bool)
        ensures
            b == self.serves_all(),
    {
        let mut i: usize = 0;
        while i < self.index.len()
            invariant
                i <= self.index@.len(),
                forall|k: int|
                    #![trigger self.index@[k]]
                    0 <= k < i ==> readable(self.data@, self.index@[k]),
            decreases self.index@.len() - i,
        {
            if self.try_entry(i).is_none() {
                assert(!self.serves(self.index()[i as int].series));
                return false;
            }
            i = i + 1;
        }
        true
    }

    /// The points of a series, unless they cannot be read. With a sorted index these
    /// are the ones that the segment holds for it; otherwise those of some entry for
    /// it, or none.
    pub fn try_series(&self, series: u64) -> (r: Option<Vec<(i64, u64)>>)
        ensures
            self.serves(series) ==> r is Some,
            index_sorted(self.index()) ==> match r {
                Some(out) => self.serves(series) && out@ == self.points(series),
                None => !self.serves(series),
            },
            r matches Some(out) ==> out@.len() == 0 || exists|i: int|
                0 <= i < self.index().len() && (#[trigger] self.index()[i]).series == series
                    && out@ == entry_points(self.data(), self.index()[i]),
    {
        match self.find(series) {
            Some(i) => {
                let r = self.try_entry(i);
                assert(self.index()[i as int].series == series);
                assert(index_sorted(self.index()) ==> forall|k: int|
                    #![trigger self.index()[k]]
                    0 <= k < self.index().len() && self.index()[k].series == series ==> k == i);
                r
            },
            None => Some(Vec::new()),
        }
    }

    /// The points of a series. With a sorted index these are the ones that the
    /// segment holds for it; otherwise those of some entry for it, or none.
    pub fn read_series(&self, series: u64) -> (out: Vec<(i64, u64)>)
        requires
            self.serves(series),
        ensures
            index_sorted(self.index()) ==> out@ == self.points(series),
            out@.len() == 0 || exists|i: int|
                0 <= i < self.index().len() && (#[trigger] self.index()[i]).series == series
                    && out@ == entry_points(self.data(), self.index()[i]),
    {
        match self.find(series) {
            Some(i) => {
                let e = self.index[i];
                assert(readable(self.data(), self.index()[i as int]));
                assert(self.data@.len() == self.data.len());
                let lo = e.offset as usize;
                let hi = lo + e.len as usize;
                column::decode(slice_subrange(self.data.as_slice(), lo, hi), e.count as usize)
            },
            None => Vec::new(),
        }
    }

    /// The points of a series within a time range.
    pub fn query(&self, series: u64, start: i64, end: i64) -> (out: Vec<(i64, u64)>)
        requires
            self.serves(series),
        ensures
            index_sorted(self.index()) ==> out@ == in_range(self.points(series), start, end),
            out@.len() == 0 || exists|i: int|
                0 <= i < self.index().len() && (#[trigger] self.index()[i]).series == series
                    && out@ == in_range(entry_points(self.data(), self.index()[i]), start, end),
    {
        let all = self.read_series(series);
        proof {
            all@.lemma_filter_len(|p: (i64, u64)| start <= p.0 && p.0 < end);
        }
        select_range(all.as_slice(), start, end)
    }

    /// The ids of the series in the order of the index.
    pub fn series_ids(&self) -> (ids: Vec<u64>)
        ensures
            ids@ == self.index().map_values(|e: IndexEntry| e.series),
    {
        let mut ids: Vec<u64> = Vec::new();
        let mut i: usize = 0;
        while i < self.index.len()
            invariant
                i <= self.index@.len(),
                ids@.len() == i,
                forall|k: int| 0 <= k < i ==> ids@[k] == self.index@[k].series,
            decreases self.index@.len() - i,
        {
            ids.push(self.index[i].series);
            i = i + 1;
        }
        assert(ids@ =~= self.index().map_values(|e: IndexEntry| e.series));
        ids
    }

    pub fn path(&self) -> (p: &str)
        ensures
            p@ == self.name(),
    {
        self.path.as_str()
    }
}

/// The segment is the one of a file with a good header.
pub open spec fn opened_from(seg: Segment, path: Seq<char>, data: Seq<u8>) -> bool {
    &&& has_header(data)
    &&& has_magic(data)
    &&& seg.data() == data
    &&& seg.index() == index_of(data)
    &&& seg.name() == path
}

/// The error says what is wrong with the header of a file.
pub open spec fn refused(e: LatticeError, path: Seq<char>, data: Seq<u8>) -> bool {
    ||| !has_header(data) && is_corrupt(e, path + ": short header"@)
    ||| has_header(data) && !has_magic(data) && is_corrupt(e, path + ": bad magic"@)
}

/// The file can be taken up: a good header is followed by a whole index.
pub open spec fn has_whole_index(data: Seq<u8>) -> bool {
    has_header(data) && has_magic(data) ==> has_index(data)
}

/// The offset of the first block, cut down to 64 bits.
proof fn lemma_wrapped_start(n: nat)
    requires
        n <= u64::MAX,
    ensures
        12u64.wrapping_add((n as u64).wrapping_mul(24)) == (12 + 24 * n)
            % 0x1_0000_0000_0000_0000,
{
}

/// The offset of a further block, cut down to 64 bits.
proof fn lemma_wrapped_step(offset: nat, len: nat)
    requires
        len <= u64::MAX,
    ensures
        ((offset % 0x1_0000_0000_0000_0000) as u64).wrapping_add(len as u64) == (offset + len)
            % 0x1_0000_0000_0000_0000,
{
}

/// Entries are all of one size.
pub proof fn lemma_index_len(blocks: Seq<(u64, Seq<(i64, u64)>)>, k: int)
    requires
        0 <= k,
    ensures
        index_bytes(blocks, k).len() == 24 * k,
    decreases k,
{
    if k > 0 {
        lemma_index_len(blocks, k - 1);
    }
}

/// The index holds each entry at its place.
proof fn lemma_index_part(blocks: Seq<(u64, Seq<(i64, u64)>)>, k: int, i: int)
    requires
        0 <= i < k,
    ensures
        24 * i + 24 <= index_bytes(blocks, k).len(),
        index_bytes(blocks, k).subrange(24 * i, 24 * i + 24) == entry_bytes(blocks, i),
    decreases k,
{
    lemma_index_len(blocks, k);
    lemma_index_len(blocks, k - 1);
    if i < k - 1 {
        lemma_index_part(blocks, k - 1, i);
        assert(index_bytes(blocks, k).subrange(24 * i, 24 * i + 24) =~= index_bytes(
            blocks,
            k - 1,
        ).subrange(24 * i, 24 * i + 24));
    } else {
        assert(index_bytes(blocks, k).subrange(24 * i, 24 * i + 24) =~= entry_bytes(blocks, i));
    }
}

/// The data holds each compressed series at its place.
proof fn lemma_data_part(blocks: Seq<(u64, Seq<(i64, u64)>)>, k: int, i: int)
    requires
        0 <= i < k,
    ensures
        data_bytes(blocks, i).len() + encoded(blocks[i].1).len() <= data_bytes(blocks, k).len(),
        data_bytes(blocks, k).subrange(
            data_bytes(blocks, i).len() as int,
            data_bytes(blocks, i).len() + encoded(blocks[i].1).len() as int,
        ) == encoded(blocks[i].1),
    decreases k,
{
    let lo = data_bytes(blocks, i).len() as int;
    let hi = lo + encoded(blocks[i].1).len() as int;
    if i < k - 1 {
        lemma_data_part(blocks, k - 1, i);
        assert(data_bytes(blocks, k).subrange(lo, hi) =~= data_bytes(blocks, k - 1).subrange(
            lo,
            hi,
        ));
    } else {
        assert(data_bytes(blocks, k).subrange(lo, hi) =~= encoded(blocks[i].1));
    }
}

/// A written index entry is read back.
proof fn lemma_entry_fields(
    data: Seq<u8>,
    at: int,
    series: u64,
    offset: u64,
    len: u32,
    count: u32,
)
    requires
        0 <= at,
        at + 24 <= data.len(),
        data.subrange(at, at + 24) == le64(series) + le64(offset) + le32(len) + le32(count),
    ensures
        entry_at(data, at) == (IndexEntry { series, offset, len, count }),
{
    let entry = data.subrange(at, at + 24);
    assert(data.subrange(at, at + 8) =~= entry.subrange(0, 8));
    assert(data.subrange(at + 8, at + 16) =~= entry.subrange(8, 16));
    assert(data.subrange(at + 16, at + 20) =~= entry.subrange(16, 20));
    assert(data.subrange(at + 20, at + 24) =~= entry.subrange(20, 24));
    lemma_four_parts(le64(series), le64(offset), le32(len), le32(count));
}

/// The parts of a sequence of four parts.
proof fn lemma_four_parts(a: Seq<u8>, b: Seq<u8>, c: Seq<u8>, d: Seq<u8>)
    requires
        a.len() == 8,
        b.len() == 8,
        c.len() == 4,
        d.len() == 4,
    ensures
        (a + b + c + d).subrange(0, 8) == a,
        (a + b + c + d).subrange(8, 16) == b,
        (a + b + c + d).subrange(16, 20) == c,
        (a + b + c + d).subrange(20, 24) == d,
{
    assert((a + b + c + d).subrange(0, 8) =~= a);
    assert((a + b + c + d).subrange(8, 16) =~= b);
    assert((a + b + c + d).subrange(16, 20) =~= c);
    assert((a + b + c + d).subrange(20, 24) =~= d);
}

/// Ranges within the middle and the last of three parts.
proof fn lemma_three_parts(h: Seq<u8>, m: Seq<u8>, d: Seq<u8>, lo: int, hi: int)
    requires
        0 <= lo <= hi,
    ensures
        (h + m + d).len() == h.len() + m.len() + d.len(),
        hi <= m.len() ==> (h + m + d).subrange(h.len() + lo, h.len() + hi) == m.subrange(lo, hi),
        hi <= d.len() ==> (h + m + d).subrange(
            h.len() + m.len() + lo,
            h.len() + m.len() + hi,
        ) == d.subrange(lo, hi),
{
    if hi <= m.len() {
        assert((h + m + d).subrange(h.len() + lo, h.len() + hi) =~= m.subrange(lo, hi));
    }
    if hi <= d.len() {
        assert((h + m + d).subrange(h.len() + m.len() + lo, h.len() + m.len() + hi)
            =~= d.subrange(lo, hi));
    }
}

/// Where the index and the data of a built file lie.
proof fn lemma_image_parts(blocks: Seq<(u64, Seq<(i64, u64)>)>, i: int)
    requires
        0 <= i < blocks.len(),
    ensures
        image(blocks).len() == data_offset(blocks, blocks.len() as int),
        data_offset(blocks, i) + encoded(blocks[i].1).len() <= image(blocks).len(),
        image(blocks).subrange(12 + 24 * i, 12 + 24 * i + 24) == entry_bytes(blocks, i),
        image(blocks).subrange(
            data_offset(blocks, i) as int,
            (data_offset(blocks, i) + encoded(blocks[i].1).len()) as int,
        ) == encoded(blocks[i].1),
{
    let n = blocks.len() as int;
    let h = le32(MAGIC) + le32(VERSION) + le32(blocks.len() as u32);
    let m = index_bytes(blocks, n);
    let d = data_bytes(blocks, n);
    assert(h.len() == 12);
    lemma_index_len(blocks, n);
    lemma_index_part(blocks, n, i);
    lemma_data_part(blocks, n, i);
    lemma_three_parts(h, m, d, 24 * i, 24 * i + 24);
    let lo = data_bytes(blocks, i).len() as int;
    lemma_three_parts(h, m, d, lo, lo + encoded(blocks[i].1).len());
}

/// An entry that points at a compressed series reads that series.
proof fn lemma_entry_reads(
    data: Seq<u8>,
    at: int,
    series: u64,
    offset: u64,
    points: Seq<(i64, u64)>,
)
    requires
        0 <= at,
        at + 24 <= data.len(),
        points.len() <= u32::MAX,
        encoded(points).len() <= u32::MAX,
        data.subrange(at, at + 24) == le64(series) + le64(offset) + le32(
            encoded(points).len() as u32,
        ) + le32(points.len() as u32),
        offset + encoded(points).len() <= data.len(),
        data.subrange(offset as int, offset + encoded(points).len()) == encoded(points),
    ensures
        entry_at(data, at).series == series,
        readable(data, entry_at(data, at)),
        entry_points(data, entry_at(data, at)) == points,
{
    lemma_entry_fields(
        data,
        at,
        series,
        offset,
        encoded(points).len() as u32,
        points.len() as u32,
    );
    decode_inverts_encode(points);
}

/// An entry of a built file says what was written.
proof fn lemma_built_entry(blocks: Seq<(u64, Seq<(i64, u64)>)>, i: int)
    requires
        fits_format(blocks),
        0 <= i < blocks.len(),
    ensures
        entry_at(image(blocks), 12 + 24 * i).series == blocks[i].0,
        readable(image(blocks), entry_at(image(blocks), 12 + 24 * i)),
        entry_points(image(blocks), entry_at(image(blocks), 12 + 24 * i)) == blocks[i].1,
{
    lemma_image_parts(blocks, i);
    lemma_entry_within(blocks.len(), image(blocks).len(), i);
    lemma_entry_of_block(blocks, image(blocks), i);
}

/// An entry lies within a file that has room for all of them.
proof fn lemma_entry_within(n: nat, size: nat, i: int)
    requires
        0 <= i < n,
        12 + 24 * n <= size,
    ensures
        12 + 24 * i + 24 <= size,
{
}

/// An entry of a file that holds a block where its index says reads that block.
proof fn lemma_entry_of_block(blocks: Seq<(u64, Seq<(i64, u64)>)>, data: Seq<u8>, i: int)
    requires
        0 <= i < blocks.len(),
        data.len() <= u64::MAX,
        12 + 24 * i + 24 <= data.len(),
        blocks[i].1.len() <= u32::MAX,
        encoded(blocks[i].1).len() <= u32::MAX,
        data_offset(blocks, i) + encoded(blocks[i].1).len() <= data.len(),
        data.subrange(12 + 24 * i, 12 + 24 * i + 24) == entry_bytes(blocks, i),
        data.subrange(
            data_offset(blocks, i) as int,
            (data_offset(blocks, i) + encoded(blocks[i].1).len()) as int,
        ) == encoded(blocks[i].1),
    ensures
        entry_at(data, 12 + 24 * i).series == blocks[i].0,
        readable(data, entry_at(data, 12 + 24 * i)),
        entry_points(data, entry_at(data, 12 + 24 * i)) == blocks[i].1,
{
    let off = data_offset(blocks, i);
    assert(off % 0x1_0000_0000_0000_0000 == off);
    lemma_entry_reads(data, 12 + 24 * i, blocks[i].0, off as u64, blocks[i].1);
}

/// A file that was built from blocks in the order of their series has an index in
/// that order, and holds for each of them its points, and nothing for any other series.
pub proof fn built_file_reads_back(blocks: Seq<(u64, Seq<(i64, u64)>)>)
    requires
        fits_format(blocks),
        forall|i: int, j: int| 0 <= i < j < blocks.len() ==> blocks[i].0 < blocks[j].0,
    ensures
        has_header(image(blocks)),
        has_magic(image(blocks)),
        has_index(image(blocks)),
        index_sorted(index_of(image(blocks))),
        index_of(image(blocks)).len() == blocks.len(),
        forall|i: int|
            #![trigger index_of(image(blocks))[i]]
            0 <= i < blocks.len() ==> index_of(image(blocks))[i].series == blocks[i].0 && readable(
                image(blocks),
                index_of(image(blocks))[i],
            ),
        forall|series: u64| #[trigger]
            stored(image(blocks), index_of(image(blocks)), series) == block_points(blocks, series),
{
    let data = image(blocks);
    let n = blocks.len() as int;
    lemma_index_len(blocks, n);
    assert(data.subrange(0, 4) =~= le32(MAGIC));
    assert(data.subrange(8, 12) =~= le32(blocks.len() as u32));
    let index = index_of(data);
    assert forall|i: int| #![trigger index[i]] 0 <= i < n implies index[i].series == blocks[i].0
        && readable(data, index[i]) && entry_points(data, index[i]) == blocks[i].1 by {
        lemma_built_entry(blocks, i);
    }
    assert(index_sorted(index));
    assert forall|series: u64| #[trigger]
        stored(data, index, series) == block_points(blocks, series) by {
        if indexed(index, series) {
            let k = choose|k: int| 0 <= k < index.len() && (#[trigger] index[k]).series == series;
            assert(blocks[k].0 == series);
            let i = choose|i: int| 0 <= i < blocks.len() && (#[trigger] blocks[i]).0 == series;
            assert(i == k);
        } else {
            assert forall|i: int| 0 <= i < blocks.len() implies (#[trigger] blocks[i]).0
                != series by {
                assert(index[i].series == blocks[i].0);
            }
        }
    }
}

/// A segment that was taken up from such a file is intact and gives the same.
pub proof fn built_segment_reads_back(blocks: Seq<(u64, Seq<(i64, u64)>)>, seg: Segment)
    requires
        fits_format(blocks),
        forall|i: int, j: int| 0 <= i < j < blocks.len() ==> blocks[i].0 < blocks[j].0,
        seg.data() == image(blocks),
        seg.index() == index_of(image(blocks)),
    ensures
        has_header(image(blocks)),
        has_magic(image(blocks)),
        has_index(image(blocks)),
        seg.intact(),
        seg.index().len() == blocks.len(),
        forall|i: int|
            #![trigger blocks[i]]
            0 <= i < blocks.len() ==> seg.index()[i].series == blocks[i].0 && seg.points(
                blocks[i].0,
            ) == blocks[i].1,
        forall|series: u64| #[trigger]
            seg.points(series) == block_points(blocks, series),
{
    built_file_reads_back(blocks);
    assert forall|series: u64| #[trigger]
        seg.points(series) == block_points(blocks, series) by {
        assert(stored(image(blocks), index_of(image(blocks)), series) == block_points(
            blocks,
            series,
        ));
    }
    assert forall|i: int| #![trigger blocks[i]] 0 <= i < blocks.len() implies seg.index()[i].series
        == blocks[i].0 && seg.points(blocks[i].0) == blocks[i].1 by {
        assert(index_of(image(blocks))[i].series == blocks[i].0);
        let k = choose|k: int| 0 <= k < blocks.len() && (#[trigger] blocks[k]).0 == blocks[i].0;
        assert(k == i);
    }
}

/// The points of a series among blocks.
pub open spec fn block_points(blocks: Seq<(u64, Seq<(i64, u64)>)>, series: u64) -> Seq<(i64, u64)> {
    if exists|i: int| 0 <= i < blocks.len() && (#[trigger] blocks[i]).0 == series {
        let i = choose|i: int| 0 <= i < blocks.len() && (#[trigger] blocks[i]).0 == series;
        blocks[i].1
    } else {
        seq![]
    }
}

/// A file begins with "LSEG" as a number, the version 1 and the number of blocks; behind
/// that stands an entry of 24 bytes for each block, in their order, with its series, where
/// its points begin, how many bytes they take and how many they are; and there the points
/// of the block stand, compressed.
pub proof fn file_is_laid_out(blocks: Seq<(u64, Seq<(i64, u64)>)>, i: int)
    requires
        fits_format(blocks),
        0 <= i < blocks.len(),
    ensures
        ({
            let data = image(blocks);
            let at = 12 + 24 * i;
            let offset = from_le64(data.subrange(at + 8, at + 16));
            let len = from_le32(data.subrange(at + 16, at + 20));
            &&& from_le32(data.subrange(0, 4)) == 0x4C53_4547
            &&& from_le32(data.subrange(4, 8)) == 1
            &&& from_le32(data.subrange(8, 12)) == blocks.len()
            &&& from_le64(data.subrange(at, at + 8)) == blocks[i].0
            &&& from_le32(data.subrange(at + 20, at + 24)) == blocks[i].1.len()
            &&& 12 + 24 * blocks.len() <= offset
            &&& offset + len <= data.len()
            &&& data.subrange(offset as int, offset + len) == encoded(blocks[i].1)
        }),
{
    lemma_header(blocks);
    lemma_image_parts(blocks, i);
    lemma_entry_within(blocks.len(), image(blocks).len(), i);
    lemma_placed(
        image(blocks),
        12 + 24 * i,
        blocks[i].0,
        data_offset(blocks, i),
        encoded(blocks[i].1).len(),
        blocks[i].1.len(),
    );
}

/// The header of a built file.
proof fn lemma_header(blocks: Seq<(u64, Seq<(i64, u64)>)>)
    requires
        blocks.len() <= u32::MAX,
    ensures
        image(blocks).len() >= 12 + 24 * blocks.len(),
        from_le32(image(blocks).subrange(0, 4)) == 0x4C53_4547,
        from_le32(image(blocks).subrange(4, 8)) == 1,
        from_le32(image(blocks).subrange(8, 12)) == blocks.len(),
{
    let data = image(blocks);
    lemma_index_len(blocks, blocks.len() as int);
    assert(data.subrange(0, 4) =~= le32(MAGIC));
    assert(data.subrange(4, 8) =~= le32(VERSION));
    assert(data.subrange(8, 12) =~= le32(blocks.len() as u32));
}

/// The fields of an entry, each read where it stands.
proof fn lemma_placed(data: Seq<u8>, at: int, series: u64, offset: nat, len: nat, count: nat)
    requires
        0 <= at,
        at + 24 <= data.len(),
        offset + len <= data.len() <= u64::MAX,
        len <= u32::MAX,
        count <= u32::MAX,
        data.subrange(at, at + 24) == le64(series) + le64(
            (offset % 0x1_0000_0000_0000_0000) as u64,
        ) + le32(len as u32) + le32(count as u32),
    ensures
        from_le64(data.subrange(at, at + 8)) == series,
        from_le64(data.subrange(at + 8, at + 16)) == offset,
        from_le32(data.subrange(at + 16, at + 20)) == len,
        from_le32(data.subrange(at + 20, at + 24)) == count,
{
    assert(offset % 0x1_0000_0000_0000_0000 == offset);
    lemma_entry_fields(data, at, series, offset as u64, len as u32, count as u32);
    let e = entry_at(data, at);
    assert(e.series == series && e.offset == offset && e.len == len && e.count == count);
}

/// A file is taken up if, and only if, it has twelve bytes and begins with "LSEG" as a
/// number, and then with all that it holds; otherwise the error says which of the two is
/// missing.
pub proof fn foreign_file_is_refused(seg: Segment, e: LatticeError, path: Seq<char>, data: Seq<u8>)
    ensures
        opened_from(seg, path, data) ==> {
            &&& data.len() >= 12
            &&& from_le32(data.subrange(0, 4)) == 0x4C53_4547
            &&& seg.data() == data
            &&& seg.name() == path
            &&& seg.index().len() == from_le32(data.subrange(8, 12))
        },
        refused(e, path, data) ==> {
            ||| data.len() < 12 && is_corrupt(e, path + ": short header"@)
            ||| data.len() >= 12 && from_le32(data.subrange(0, 4)) != 0x4C53_4547 && is_corrupt(
                e,
                path + ": bad magic"@,
            )
        },
        has_whole_index(data) <==> (data.len() >= 12 && from_le32(data.subrange(0, 4))
            == 0x4C53_4547 ==> 12 + 24 * from_le32(data.subrange(8, 12)) <= data.len()),
{
}

/// A file that was built from blocks in the order of their series is taken up, and gives
/// for each series the points of its block, or those in a range, and nothing for any
/// other.
pub proof fn open_inverts_build(
    blocks: &[(u64, Vec<(i64, u64)>)],
    bytes: Vec<u8>,
    path: String,
    data: Vec<u8>,
    r: Result<Segment>,
    seg: Segment,
    series: u64,
    start: i64,
    end: i64,
    all: Vec<(i64, u64)>,
    some: Vec<(i64, u64)>,
    ids: Vec<u64>,
)
    requires
        call_ensures(Segment::build, (blocks,), bytes),
        fits_format(block_views(blocks@)),
        forall|i: int, j: int| 0 <= i < j < blocks@.len() ==> blocks@[i].0 < blocks@[j].0,
        data@ == bytes@,
        call_ensures(Segment::open, (path, data), r),
        r matches Ok(s) ==> s == seg,
        call_ensures(Segment::read_series, (&seg, series), all),
        call_ensures(Segment::query, (&seg, series, start, end), some),
        call_ensures(Segment::series_ids, (&seg,), ids),
    ensures
        r is Ok,
        seg.name() == path@,
        forall|i: int| 0 <= i < blocks@.len() && (#[trigger] blocks@[i]).0 == series ==> all@
            == blocks@[i].1@,
        (forall|i: int| 0 <= i < blocks@.len() ==> (#[trigger] blocks@[i]).0 != series) ==> all@.len()
            == 0,
        some@ == in_range(all@, start, end),
        ids@.len() == blocks@.len(),
        forall|i: int| 0 <= i < blocks@.len() ==> #[trigger] ids@[i] == blocks@[i].0,
{
    let views = block_views(blocks@);
    assert(forall|i: int| 0 <= i < blocks@.len() ==> views[i] == (blocks@[i].0, blocks@[i].1@));
    built_file_reads_back(views);
    assert(r is Ok);
    built_segment_reads_back(views, seg);
    assert forall|i: int| 0 <= i < blocks@.len() && (#[trigger] blocks@[i]).0 == series implies all@
        == blocks@[i].1@ by {
        assert(views[i].0 == series);
        assert(seg.points(views[i].0) == views[i].1);
    }
    if forall|i: int| 0 <= i < blocks@.len() ==> (#[trigger] blocks@[i]).0 != series {
        assert forall|i: int| 0 <= i < views.len() implies (#[trigger] views[i]).0 != series by {
            assert(blocks@[i].0 != series);
        }
        assert(seg.points(series) == block_points(views, series));
    }
    assert forall|i: int| 0 <= i < blocks@.len() implies #[trigger] ids@[i] == blocks@[i].0 by {
        assert(seg.index()[i].series == views[i].0);
    }
}

/// A segment serves a series if each of its entries can be read, and then its points are
/// read by both ways of reading; a file can be taken up if it is long enough for its index.
pub proof fn served_series_is_read(
    seg: &Segment,
    series: u64,
    serves: bool,
    whole: bool,
    tried: Option<Vec<(i64, u64)>>,
    read: Vec<(i64, u64)>,
    data: &[u8],
    complete: bool,
)
    requires
        call_ensures(Segment::can_serve, (seg, series), serves),
        call_ensures(Segment::is_readable, (seg,), whole),
        call_ensures(Segment::try_series, (seg, series), tried),
        call_ensures(Segment::read_series, (seg, series), read),
        call_ensures(Segment::index_complete, (data,), complete),
        index_sorted(seg.index()),
    ensures
        whole ==> serves,
        serves <==> tried is Some,
        tried matches Some(v) ==> v@ == read@,
        complete <==> (data@.len() >= 12 && from_le32(data@.subrange(0, 4)) == 0x4C53_4547 ==> 12
            + 24 * from_le32(data@.subrange(8, 12)) <= data@.len()),
{
}

} // verus!
