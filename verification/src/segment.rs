//! One fixed-capacity segment file: header, overhead table, entry data area.
//!
//! File layout:
//!
//! | offset          | size             | field                          |
//! |-----------------|------------------|--------------------------------|
//! | 0               | 16               | magic number                   |
//! | 16              | 8                | entry limit, big-endian        |
//! | 24              | limit * 28       | overhead table                 |
//! | 24 + limit * 28 | variable         | entry data area                |
//!
//! The segment works on an in-memory image of the file's bytes; the
//! surrounding program reads the file in and persists the image's growth and
//! its record writes back out.

use vstd::prelude::*;
use crate::buf::{append_slice, bytes_eq, overlay, push_zeros, splice, sub_vec};
use crate::codec::{
    be64_bytes, be64_value, crc32, crc32_sum, hex_encode, hex_seq, lemma_be64_round_trip,
    u64_from_be, u64_to_be,
};
use crate::errors::WalError;
use crate::overhead::{record_dec, record_enc, Overhead, OVERHEAD_SIZE};
use vstd::slice::slice_subrange;

verus! {

/// Width of the magic number.
pub const MAGIC_SIZE: usize = 16;

/// Width of the stored entry limit.
pub const ENTRY_LIMIT_SIZE: usize = 8;

/// Width of the fixed header: magic number plus entry limit.
pub const HEAD_SIZE: usize = MAGIC_SIZE + ENTRY_LIMIT_SIZE;

/// Entry limit substituted when a segment is created with limit 0.
pub const DEFAULT_ENTRY_LIMIT: usize = 10240;

/// First eight bytes of the magic number, as a big-endian integer.
pub const MAGIC_HI: u64 = 0x1174efedab186000;

/// Last eight bytes of the magic number, as a big-endian integer.
pub const MAGIC_LO: u64 = 0x1174efedab186075;

/// The 16 magic bytes that identify a segment file.
pub open spec fn magic_bytes() -> Seq<u8> {
    be64_bytes(MAGIC_HI) + be64_bytes(MAGIC_LO)
}

/// Byte offset of overhead table slot `i`.
pub open spec fn slot_at(i: int) -> int {
    HEAD_SIZE + i * OVERHEAD_SIZE
}

/// The overhead record stored in table slot `i` of a segment image.
pub open spec fn slot_of(img: Seq<u8>, i: int) -> Overhead
    recommends
        slot_at(i) + OVERHEAD_SIZE <= img.len(),
{
    record_dec(img.subrange(slot_at(i), slot_at(i) + OVERHEAD_SIZE))
}

/// Whether table slot `i` holds a valid (fully written) record.
pub open spec fn slot_valid(img: Seq<u8>, i: int) -> bool {
    slot_of(img, i).valid
}

/// Index of the first invalid slot at or after `i`, bounded by `limit`: the
/// recovery scan's result when started at `i`.
pub open spec fn scan_from(img: Seq<u8>, i: int, limit: int) -> int
    decreases limit - i,
{
    if i >= limit {
        i
    } else if !slot_valid(img, i) {
        i
    } else {
        scan_from(img, i + 1, limit)
    }
}

/// The mathematical state of one segment.
#[verifier::ext_equal]
pub ghost struct SegModel {
    /// The segment's sequence number.
    pub sequence: u64,
    /// Maximum number of entries the segment can hold.
    pub entry_limit: int,
    /// Number of committed entries.
    pub entry_number: int,
    /// Next free offset in the data area; always the image's length.
    pub data_written: int,
    /// The full content of the segment file.
    pub image: Seq<u8>,
}

impl SegModel {
    /// End of the overhead table; start of the entry data area.
    pub open spec fn table_end(self) -> int {
        HEAD_SIZE + self.entry_limit * OVERHEAD_SIZE
    }

    /// Remaining write capacity in entries.
    pub open spec fn space(self) -> int {
        self.entry_limit - self.entry_number
    }

    /// The overhead record in table slot `i`.
    pub open spec fn slot(self, i: int) -> Overhead {
        slot_of(self.image, i)
    }

    /// Whether table slot `i` holds a valid record.
    pub open spec fn slot_ok(self, i: int) -> bool {
        slot_valid(self.image, i)
    }

    /// Recorded start offset of entry `i`'s data.
    pub open spec fn entry_off(self, i: int) -> int {
        self.slot(i).offset as int
    }

    /// Recorded byte length of entry `i`'s data.
    pub open spec fn entry_len(self, i: int) -> int {
        self.slot(i).size as int
    }

    /// Whether entry `i`'s recorded data region lies within the image.
    pub open spec fn entry_in_bounds(self, i: int) -> bool {
        self.entry_off(i) + self.entry_len(i) <= self.image.len()
    }

    /// The bytes of entry `i`, as recorded by its overhead record.
    pub open spec fn entry_at(self, i: int) -> Seq<u8> {
        self.image.subrange(self.entry_off(i), self.entry_off(i) + self.entry_len(i))
    }

    /// Whether entry `i` can be read back, verifying its checksum if `check`.
    pub open spec fn entry_ok(self, i: int, check: bool) -> bool {
        &&& self.slot_ok(i)
        &&& self.entry_in_bounds(i)
        &&& (check ==> self.slot(i).checksum == crc32_sum(self.entry_at(i)))
    }

    /// Structural well-formedness of a segment.
    pub open spec fn wf(self) -> bool {
        &&& self.image.len() == self.data_written
        &&& self.image.len() <= usize::MAX
        &&& HEAD_SIZE <= self.image.len()
        &&& self.image.subrange(0, MAGIC_SIZE as int) == magic_bytes()
        &&& 0 <= self.entry_limit <= usize::MAX
        &&& be64_value(self.image.subrange(MAGIC_SIZE as int, HEAD_SIZE as int))
            == self.entry_limit as u64
        &&& self.table_end() <= self.image.len()
        &&& 0 <= self.entry_number <= self.entry_limit
        &&& forall|i: int| 0 <= i < self.entry_number ==> #[trigger] self.slot_ok(i)
    }

    /// Every slot past the committed entries is still invalid: the segment's
    /// table was never touched beyond its own history.
    pub open spec fn tail_blank(self) -> bool {
        forall|i: int| self.entry_number <= i < self.entry_limit ==> !#[trigger] self.slot_ok(i)
    }

    /// Every committed entry's record points at data below the current write
    /// offset and beyond the table, and its checksum matches the data: what
    /// holds of every segment the library itself wrote.
    pub open spec fn sound(self) -> bool {
        forall|i: int| 0 <= i < self.entry_number ==> #[trigger] self.entry_sound(i)
    }

    /// The soundness of one committed entry.
    pub open spec fn entry_sound(self, i: int) -> bool {
        &&& self.entry_in_bounds(i)
        &&& self.table_end() <= self.entry_off(i)
        &&& self.slot(i).checksum == crc32_sum(self.entry_at(i))
    }

    /// Number of entries a read starting at `start`, asking for `limit`,
    /// will cover.
    pub open spec fn take_count(self, start: int, limit: int) -> int {
        if start >= self.entry_number {
            0
        } else if limit > self.entry_number - start {
            self.entry_number - start
        } else {
            limit
        }
    }

    /// Whether a read of `limit` entries starting at `start` succeeds.
    pub open spec fn read_ok(self, start: int, limit: int, check: bool) -> bool {
        forall|j: int|
            start <= j < start + self.take_count(start, limit) ==> #[trigger] self.entry_ok(
                j,
                check,
            )
    }

    /// The entries such a read returns: `count` entries starting at `start`.
    pub open spec fn read_entries(self, start: int, count: int) -> Seq<Seq<u8>> {
        Seq::new(count as nat, |k: int| self.entry_at(start + k))
    }

    /// First index at or after `j`, below `end`, whose entry cannot be read.
    pub open spec fn first_bad(self, j: int, end: int, check: bool) -> int
        decreases end - j,
    {
        if j >= end {
            end
        } else if !self.entry_ok(j, check) {
            j
        } else {
            self.first_bad(j + 1, end, check)
        }
    }

    /// The error a failing read reports: decided by the first unreadable entry.
    pub open spec fn read_err(self, start: int, limit: int, check: bool) -> WalError {
        let j = self.first_bad(start, start + self.take_count(start, limit), check);
        if !self.slot_ok(j) {
            WalError::InvalidData
        } else if !self.entry_in_bounds(j) {
            WalError::UnexpectedEof
        } else {
            WalError::InvalidData
        }
    }
}

/// What is wrong with a stored segment image, if anything: too short for the
/// header, a foreign magic number, or an image shorter than the overhead
/// table its own header announces (a truncated file is treated as corrupt).
pub open spec fn image_fault(image: Seq<u8>) -> Option<WalError> {
    if image.len() < HEAD_SIZE {
        Some(WalError::UnexpectedEof)
    } else if image.subrange(0, MAGIC_SIZE as int) != magic_bytes() {
        Some(WalError::InvalidData)
    } else if HEAD_SIZE + (be64_value(image.subrange(MAGIC_SIZE as int, HEAD_SIZE as int)) as int)
        * OVERHEAD_SIZE > image.len() {
        Some(WalError::InvalidData)
    } else {
        None
    }
}

/// The segment recovered from a faultless stored image: the entry count is
/// what the recovery scan finds.
pub open spec fn spec_open(sequence: u64, image: Seq<u8>) -> SegModel {
    let limit = be64_value(image.subrange(MAGIC_SIZE as int, HEAD_SIZE as int)) as int;
    SegModel {
        sequence,
        entry_limit: limit,
        entry_number: scan_from(image, 0, limit),
        data_written: image.len() as int,
        image,
    }
}

/// The effective entry limit: a limit of 0 selects the default.
pub open spec fn eff_limit(limit: int) -> int {
    if limit == 0 {
        DEFAULT_ENTRY_LIMIT as int
    } else {
        limit
    }
}

/// A freshly created segment: header written, table zero-filled.
pub open spec fn spec_create(sequence: u64, limit: int) -> SegModel {
    let l = eff_limit(limit);
    SegModel {
        sequence,
        entry_limit: l,
        entry_number: 0,
        data_written: HEAD_SIZE + l * OVERHEAD_SIZE,
        image: magic_bytes() + be64_bytes(l as u64) + Seq::new((l * OVERHEAD_SIZE) as nat, |i: int| 0u8),
    }
}

/// The segment after one successful write of `e`: entry bytes appended at the
/// end of the image, then the next table slot filled with a valid record.
pub open spec fn spec_write(m: SegModel, e: Seq<u8>) -> SegModel {
    let rec = record_enc(m.image.len() as u64, e.len() as u64, crc32_sum(e));
    SegModel {
        sequence: m.sequence,
        entry_limit: m.entry_limit,
        entry_number: m.entry_number + 1,
        data_written: m.data_written + e.len(),
        image: overlay(m.image + e, slot_at(m.entry_number), rec),
    }
}

/// One segment, held as the in-memory image of its file.
pub struct Segment {
    sequence: u64,
    entry_number: usize,
    entry_limit: usize,
    data_written: usize,
    image: Vec<u8>,
}

impl View for Segment {
    type V = SegModel;

    closed spec fn view(&self) -> SegModel {
        SegModel {
            sequence: self.sequence,
            entry_limit: self.entry_limit as int,
            entry_number: self.entry_number as int,
            data_written: self.data_written as int,
            image: self.image@,
        }
    }
}

impl Segment {
    /// The invariant every segment satisfies.
    pub open spec fn inv(&self) -> bool {
        self@.wf()
    }

    /// The file name of the segment with the given sequence number: the
    /// big-endian hex encoding, which sorts lexicographically in numeric
    /// order.
    pub fn filename(sequence: u64) -> (r: String)
        ensures
            r@ == hex_seq(be64_bytes(sequence)),
    {
        let buf = u64_to_be(sequence);
        hex_encode(buf.as_slice())
    }

    /// Create a fresh segment: magic and limit written, table zero-filled.
    pub fn create(sequence: u64, limit: usize) -> (s: Segment)
        requires
            HEAD_SIZE + eff_limit(limit as int) * OVERHEAD_SIZE <= usize::MAX,
        ensures
            s.inv(),
            s@ == spec_create(sequence, limit as int),
    {
        let entry_limit = if limit == 0 {
            DEFAULT_ENTRY_LIMIT
        } else {
            limit
        };
        let mut image = u64_to_be(MAGIC_HI);
        let mut part = u64_to_be(MAGIC_LO);
        image.append(&mut part);
        let mut part = u64_to_be(entry_limit as u64);
        image.append(&mut part);
        push_zeros(&mut image, entry_limit * OVERHEAD_SIZE);
        let data_written = image.len();
        let s = Segment { sequence, entry_number: 0, entry_limit, data_written, image };
        proof {
            let m = spec_create(sequence, limit as int);
            assert(s@.image =~= m.image);
            assert(s@ =~= m);
            assert(m.image.subrange(0, MAGIC_SIZE as int) =~= magic_bytes());
            assert(m.image.subrange(MAGIC_SIZE as int, HEAD_SIZE as int) =~= be64_bytes(
                entry_limit as u64,
            ));
            lemma_be64_round_trip(entry_limit as u64);
        }
        s
    }

    /// Reopen a segment from its stored image. The stored entry limit governs;
    /// the entry count is recovered by scanning the overhead table from slot 0
    /// and stopping at the first invalid slot.
    pub fn open(sequence: u64, image: Vec<u8>) -> (r: Result<Segment, WalError>)
        ensures
            match r {
                Ok(s) => {
                    &&& image_fault(image@) is None
                    &&& s.inv()
                    &&& s@ == spec_open(sequence, image@)
                },
                Err(e) => image_fault(image@) == Some(e),
            },
    {
        let len = image.len();
        if len < HEAD_SIZE {
            return Err(WalError::UnexpectedEof);
        }
        let magic = {
            let mut m = u64_to_be(MAGIC_HI);
            let mut part = u64_to_be(MAGIC_LO);
            m.append(&mut part);
            m
        };
        proof {
            assert(magic@ =~= magic_bytes());
        }
        if !bytes_eq(slice_subrange(image.as_slice(), 0, MAGIC_SIZE), magic.as_slice()) {
            return Err(WalError::InvalidData);
        }
        let limit64 = u64_from_be(slice_subrange(image.as_slice(), MAGIC_SIZE, HEAD_SIZE));
        let needed: u128 = (HEAD_SIZE as u128) + (limit64 as u128) * (OVERHEAD_SIZE as u128);
        if needed > len as u128 {
            return Err(WalError::InvalidData);
        }
        let entry_limit = limit64 as usize;
        let ghost img = image@;
        let ghost limit = entry_limit as int;
        let mut n: usize = 0;
        let mut stop = false;
        while !stop && n < entry_limit
            invariant
                0 <= n <= entry_limit,
                limit == entry_limit as int,
                img == image@,
                HEAD_SIZE + limit * OVERHEAD_SIZE <= img.len(),
                img.len() <= usize::MAX,
                forall|j: int| 0 <= j < n ==> slot_valid(img, j),
                !stop ==> scan_from(img, n as int, limit) == scan_from(img, 0, limit),
                stop ==> scan_from(img, 0, limit) == n as int,
            decreases entry_limit - n + (if stop { 0int } else { 1int }),
        {
            let off = HEAD_SIZE + n * OVERHEAD_SIZE;
            let oh = Overhead::decode(slice_subrange(image.as_slice(), off, off + OVERHEAD_SIZE));
            if oh.valid() {
                n = n + 1;
            } else {
                stop = true;
            }
        }
        let s = Segment { sequence, entry_number: n, entry_limit, data_written: len, image };
        proof {
            lemma_be64_round_trip(limit64);
            assert(s@ =~= spec_open(sequence, img));
        }
        Ok(s)
    }

    /// Append one entry. Returns `false`, changing nothing, exactly when the
    /// segment is already at its entry limit. Entry bytes are placed before
    /// the record that points at them, so a crash between the two leaves only
    /// an unreferenced data tail.
    pub fn write(&mut self, entry: &[u8]) -> (r: bool)
        requires
            old(self).inv(),
            old(self)@.entry_number < old(self)@.entry_limit ==> old(self)@.image.len()
                + entry@.len() <= usize::MAX,
        ensures
            final(self).inv(),
            r == (old(self)@.entry_number < old(self)@.entry_limit),
            r ==> final(self)@ == spec_write(old(self)@, entry@),
            !r ==> final(self)@ == old(self)@,
    {
        if self.entry_number >= self.entry_limit {
            return false;
        }
        let ghost m = self@;
        let offset64 = self.data_written as u64;
        append_slice(&mut self.image, entry);
        self.data_written = self.data_written + entry.len();
        let checksum = crc32(entry);
        let mut oh = Overhead::new();
        oh.write(offset64, entry.len() as u64, checksum);
        let rec = oh.encode();
        let slot_pos = HEAD_SIZE + self.entry_number * OVERHEAD_SIZE;
        proof {
            assert(slot_pos as int == slot_at(m.entry_number));
            assert(slot_at(m.entry_number) + OVERHEAD_SIZE <= m.table_end());
        }
        splice(&mut self.image, slot_pos, rec.as_slice());
        self.entry_number = self.entry_number + 1;
        proof {
            let m2 = spec_write(m, entry@);
            assert(self@ =~= m2);
            lemma_write_wf(m, entry@);
        }
        true
    }

    /// Append entries until one does not fit; the count actually written is
    /// the lesser of the batch size and the remaining capacity.
    pub fn batch_write(&mut self, entries: &[&[u8]]) -> (r: usize)
        requires
            old(self).inv(),
            seg_batch_fits(old(self)@, views_of(entries@)),
        ensures
            final(self).inv(),
            r as int == seg_written_count(old(self)@, views_of(entries@)),
            final(self)@ == seg_batch(old(self)@, views_of(entries@)),
    {
        let ghost m0 = self@;
        let ghost es = views_of(entries@);
        proof {
            assert(es.skip(0) =~= es);
        }
        let mut i: usize = 0;
        let mut full = false;
        while !full && i < entries.len()
            invariant
                self.inv(),
                0 <= i <= entries@.len(),
                es == views_of(entries@),
                seg_batch_fits(self@, es.skip(i as int)),
                seg_batch(m0, es) == seg_batch(self@, es.skip(i as int)),
                seg_written_count(m0, es) == i + seg_written_count(self@, es.skip(i as int)),
                full ==> self@.space() == 0,
            decreases entries@.len() - i + (if full { 0int } else { 1int }),
        {
            proof {
                assert(es.skip(i as int)[0] == entries@[i as int]@);
                assert(es.skip(i as int).skip(1) =~= es.skip(i + 1));
            }
            let ok = self.write(entries[i]);
            if ok {
                i = i + 1;
            } else {
                full = true;
            }
        }
        proof {
            if !full {
                assert(es.skip(i as int) =~= Seq::<Seq<u8>>::empty());
            }
        }
        i
    }

    /// Read up to `limit` entries starting at table index `start`, appending
    /// them to `data`; verifies each record and, if `check`, each checksum.
    /// Returns how many entries were appended; on an error `data` is left
    /// unchanged.
    pub fn read_into(
        &self,
        start: usize,
        limit: usize,
        data: &mut Vec<Vec<u8>>,
        check: bool,
    ) -> (r: Result<usize, WalError>)
        requires
            self.inv(),
        ensures
            match r {
                Ok(n) => {
                    &&& self@.read_ok(start as int, limit as int, check)
                    &&& n as int == self@.take_count(start as int, limit as int)
                    &&& final(data).deep_view() == old(data).deep_view() + self@.read_entries(
                        start as int,
                        n as int,
                    )
                },
                Err(e) => {
                    &&& !self@.read_ok(start as int, limit as int, check)
                    &&& e == self@.read_err(start as int, limit as int, check)
                    &&& final(data)@ == old(data)@
                },
            },
    {
        let ghost m = self@;
        if start >= self.entry_number {
            assert(data.deep_view() =~= old(data).deep_view() + m.read_entries(start as int, 0));
            return Ok(0);
        }
        let mut count = limit;
        if count > self.entry_number - start {
            count = self.entry_number - start;
        }
        let ghost end = start + m.take_count(start as int, limit as int);
        let mut temp: Vec<Vec<u8>> = Vec::new();
        let mut read: usize = 0;
        while read < count
            invariant
                self.inv(),
                m == self@,
                0 <= read <= count,
                start + count <= m.entry_number,
                count as int == m.take_count(start as int, limit as int),
                end == start + count,
                forall|j: int| start <= j < start + read ==> #[trigger] m.entry_ok(j, check),
                temp@.len() == read as int,
                forall|k: int| 0 <= k < read ==> (#[trigger] temp@[k])@ == m.entry_at(
                    start + k,
                ),
            decreases count - read,
        {
            let idx = start + read;
            let off = HEAD_SIZE + idx * OVERHEAD_SIZE;
            proof {
                assert(off as int == slot_at(idx as int));
                assert(slot_at(idx as int) + OVERHEAD_SIZE <= m.table_end());
            }
            let oh = Overhead::decode(
                slice_subrange(self.image.as_slice(), off, off + OVERHEAD_SIZE),
            );
            proof {
                assert(oh == m.slot(idx as int));
                assert(m.slot_ok(idx as int));
            }
            // defensive re-validation; the invariant proves committed slots
            // are valid, so this branch is unreachable
            if !oh.valid() {
                proof {
                    assert(false);
                }
                return Err(WalError::InvalidData);
            }
            let len64 = self.image.len() as u64;
            if oh.offset() > len64 || oh.size() > len64 - oh.offset() {
                proof {
                    assert(!m.entry_in_bounds(idx as int));
                    assert(!m.entry_ok(idx as int, check));
                    lemma_first_bad_here(m, start as int, end, idx as int, check);
                    assert(!m.read_ok(start as int, limit as int, check));
                }
                return Err(WalError::UnexpectedEof);
            }
            proof {
                assert(m.entry_in_bounds(idx as int));
            }
            let entry = sub_vec(&self.image, oh.offset() as usize, oh.size() as usize);
            proof {
                assert(entry@ == m.entry_at(idx as int));
            }
            if check {
                let c = crc32(entry.as_slice());
                if c != oh.crc32() {
                    proof {
                        assert(m.slot(idx as int).checksum != crc32_sum(m.entry_at(idx as int)));
                        assert(!m.entry_ok(idx as int, check));
                        lemma_first_bad_here(m, start as int, end, idx as int, check);
                        assert(!m.read_ok(start as int, limit as int, check));
                    }
                    return Err(WalError::InvalidData);
                }
            }
            proof {
                assert(m.entry_ok(idx as int, check));
            }
            temp.push(entry);
            read = read + 1;
        }
        proof {
            assert forall|k: int| 0 <= k < read implies temp.deep_view()[k] == m.entry_at(
                start + k,
            ) by {
                assert(temp@[k].deep_view() =~= temp@[k]@);
            }
            assert(temp.deep_view() =~= m.read_entries(start as int, read as int));
        }
        let ghost before = data.deep_view();
        let ghost tdv = temp.deep_view();
        let ghost dv = data@;
        data.append(&mut temp);
        proof {
            assert forall|k: int| 0 <= k < data@.len() implies data.deep_view()[k] == (before
                + tdv)[k] by {
                if k < dv.len() {
                    assert(data@[k] == dv[k]);
                } else {
                    assert(data@[k].deep_view() == tdv[k - dv.len()]);
                }
            }
            assert(data.deep_view() =~= before + m.read_entries(start as int, read as int));
        }
        Ok(read)
    }

    /// The segment's sequence number.
    pub fn sequence(&self) -> (r: u64)
        ensures
            r == self@.sequence,
    {
        self.sequence
    }

    /// Number of committed entries.
    pub fn len(&self) -> (r: usize)
        ensures
            r as int == self@.entry_number,
    {
        self.entry_number
    }

    /// Remaining write capacity in entries.
    pub fn space(&self) -> (r: usize)
        requires
            self.inv(),
        ensures
            r as int == self@.space(),
    {
        self.entry_limit - self.entry_number
    }

    /// The segment's entry limit.
    pub fn limit(&self) -> (r: usize)
        ensures
            r as int == self@.entry_limit,
    {
        self.entry_limit
    }

    /// The full file image: what the surrounding program persists.
    pub fn image(&self) -> (r: &Vec<u8>)
        ensures
            r@ == self@.image,
    {
        &self.image
    }
}

/// The views of a batch of byte spans.
pub open spec fn views_of(entries: Seq<&[u8]>) -> Seq<Seq<u8>> {
    entries.map_values(|e: &[u8]| e@)
}

/// How many entries of a batch fit before the segment runs out of capacity.
pub open spec fn seg_written_count(m: SegModel, es: Seq<Seq<u8>>) -> int
    decreases es.len(),
{
    if es.len() == 0 || m.entry_number >= m.entry_limit {
        0
    } else {
        1 + seg_written_count(spec_write(m, es[0]), es.skip(1))
    }
}

/// The segment after a batch write: entries applied in order until one does
/// not fit.
pub open spec fn seg_batch(m: SegModel, es: Seq<Seq<u8>>) -> SegModel
    decreases es.len(),
{
    if es.len() == 0 || m.entry_number >= m.entry_limit {
        m
    } else {
        seg_batch(spec_write(m, es[0]), es.skip(1))
    }
}

/// The machine bound a batch write needs: every intermediate image fits usize.
pub open spec fn seg_batch_fits(m: SegModel, es: Seq<Seq<u8>>) -> bool
    decreases es.len(),
{
    if es.len() == 0 || m.entry_number >= m.entry_limit {
        true
    } else {
        &&& m.image.len() + es[0].len() <= usize::MAX
        &&& seg_batch_fits(spec_write(m, es[0]), es.skip(1))
    }
}

/// The first unreadable entry is `j` when everything before it reads fine.
proof fn lemma_first_bad_here(m: SegModel, start: int, end: int, j: int, check: bool)
    requires
        start <= j < end,
        forall|k: int| start <= k < j ==> #[trigger] m.entry_ok(k, check),
        !m.entry_ok(j, check),
    ensures
        m.first_bad(start, end, check) == j,
    decreases j - start,
{
    if start < j {
        lemma_first_bad_here(m, start + 1, end, j, check);
    }
}

/// Law: a successful write preserves well-formedness, commits exactly one
/// entry, and that entry reads back as the very bytes written, checksum
/// verified. (The round trip holds for any byte span, empty or not.)
pub proof fn lemma_write_round_trip(m: SegModel, e: Seq<u8>)
    requires
        m.wf(),
        m.entry_number < m.entry_limit,
        m.image.len() + e.len() <= usize::MAX,
    ensures
        spec_write(m, e).wf(),
        spec_write(m, e).entry_number == m.entry_number + 1,
        spec_write(m, e).entry_ok(m.entry_number, true),
        spec_write(m, e).entry_at(m.entry_number) == e,
        spec_write(m, e).read_ok(m.entry_number, 1, true),
        spec_write(m, e).read_entries(m.entry_number, 1) == seq![e],
{
    lemma_write_wf(m, e);
    let m2 = spec_write(m, e);
    assert(m2.read_entries(m.entry_number, 1) =~= seq![e]);
    assert(m2.take_count(m.entry_number, 1) == 1);
    assert forall|j: int|
        m.entry_number <= j < m.entry_number + m2.take_count(m.entry_number, 1) implies #[trigger] m2.entry_ok(
        j,
        true,
    ) by {
        assert(j == m.entry_number);
    }
}

/// A successful write keeps the segment well-formed: the new slot decodes to
/// the record just written, every earlier slot's bytes are untouched, and the
/// new entry's bytes sit beyond the table.
#[verifier::rlimit(100)]
pub proof fn lemma_write_wf(m: SegModel, e: Seq<u8>)
    requires
        m.wf(),
        m.entry_number < m.entry_limit,
        m.image.len() + e.len() <= usize::MAX,
    ensures
        spec_write(m, e).wf(),
        spec_write(m, e).slot(m.entry_number) == (Overhead {
            offset: m.image.len() as u64,
            size: e.len() as u64,
            checksum: crc32_sum(e),
            valid: true,
        }),
        spec_write(m, e).entry_at(m.entry_number) == e,
        spec_write(m, e).entry_sound(m.entry_number),
        forall|i: int|
            0 <= i < m.entry_limit && i != m.entry_number ==> #[trigger] spec_write(m, e).slot(i)
                == m.slot(i),
{
    let m2 = spec_write(m, e);
    let n = m.entry_number;
    let rec = record_enc(m.image.len() as u64, e.len() as u64, crc32_sum(e));
    assert(rec.len() == OVERHEAD_SIZE);
    assert(slot_at(n) + OVERHEAD_SIZE <= m.table_end());
    assert(m2.image.len() == m.image.len() + e.len());
    // the new slot holds exactly the record's bytes
    assert(m2.image.subrange(slot_at(n), slot_at(n) + OVERHEAD_SIZE) =~= rec);
    crate::overhead::lemma_record_round_trip(m.image.len() as u64, e.len() as u64, crc32_sum(e));
    // every other slot's bytes are untouched
    assert forall|i: int| 0 <= i < m.entry_limit && i != n implies #[trigger] m2.slot(i) == m.slot(
        i,
    ) by {
        assert(slot_at(i) + OVERHEAD_SIZE <= m.table_end());
        assert(m2.image.subrange(slot_at(i), slot_at(i) + OVERHEAD_SIZE) =~= m.image.subrange(
            slot_at(i),
            slot_at(i) + OVERHEAD_SIZE,
        ));
    }
    // header preserved
    assert(m2.image.subrange(0, MAGIC_SIZE as int) =~= m.image.subrange(0, MAGIC_SIZE as int));
    assert(m2.image.subrange(MAGIC_SIZE as int, HEAD_SIZE as int) =~= m.image.subrange(
        MAGIC_SIZE as int,
        HEAD_SIZE as int,
    ));
    // the new entry's bytes
    assert(m2.entry_at(n) =~= e) by {
        lemma_be64_round_trip(m.image.len() as u64);
        lemma_be64_round_trip(e.len() as u64);
        assert(rec.subrange(8, 16) =~= be64_bytes(m.image.len() as u64));
        assert(rec.subrange(16, 24) =~= be64_bytes(e.len() as u64));
        assert(m2.entry_off(n) == m.image.len());
        assert(m2.entry_len(n) == e.len());
        assert(m2.image.subrange(m.image.len() as int, m.image.len() + e.len() as int) =~= e);
    }
    // the committed slots all stay valid
    assert forall|i: int| 0 <= i < m2.entry_number implies #[trigger] m2.slot_ok(i) by {
        if i < n {
            assert(m2.slot(i) == m.slot(i));
            assert(m.slot_ok(i));
        } else {
            assert(m2.slot(n).valid);
        }
    }
    assert(m2.wf());
}

/// Law: writing never disturbs sound existing entries — the orphaned tail a
/// crash left behind is overwritten without colliding with committed data.
#[verifier::rlimit(100)]
pub proof fn lemma_write_preserves_entries(m: SegModel, e: Seq<u8>, i: int)
    requires
        m.wf(),
        m.entry_number < m.entry_limit,
        m.image.len() + e.len() <= usize::MAX,
        0 <= i < m.entry_number,
        m.entry_sound(i),
    ensures
        spec_write(m, e).slot(i) == m.slot(i),
        spec_write(m, e).entry_at(i) == m.entry_at(i),
        spec_write(m, e).entry_sound(i),
{
    let m2 = spec_write(m, e);
    lemma_write_wf(m, e);
    assert(m2.entry_at(i) =~= m.entry_at(i));
}

/// Law: a write keeps the soundness of the whole segment, so everything the
/// library itself wrote can always be read back, checksums verified.
pub proof fn lemma_write_sound(m: SegModel, e: Seq<u8>)
    requires
        m.wf(),
        m.sound(),
        m.entry_number < m.entry_limit,
        m.image.len() + e.len() <= usize::MAX,
    ensures
        spec_write(m, e).wf(),
        spec_write(m, e).sound(),
{
    let m2 = spec_write(m, e);
    lemma_write_wf(m, e);
    assert forall|i: int| 0 <= i < m2.entry_number implies #[trigger] m2.entry_sound(i) by {
        if i < m.entry_number {
            lemma_write_preserves_entries(m, e, i);
        }
    }
}

/// Law: a write keeps every slot past the new entry count untouched, so the
/// recovery scan of a segment built only by the library stays exact.
#[verifier::rlimit(100)]
pub proof fn lemma_write_tail_blank(m: SegModel, e: Seq<u8>)
    requires
        m.wf(),
        m.tail_blank(),
        m.entry_number < m.entry_limit,
        m.image.len() + e.len() <= usize::MAX,
    ensures
        spec_write(m, e).tail_blank(),
{
    let m2 = spec_write(m, e);
    lemma_write_wf(m, e);
    assert forall|i: int| m2.entry_number <= i < m2.entry_limit implies !#[trigger] m2.slot_ok(
        i,
    ) by {
        assert(m2.slot(i) == m.slot(i));
        assert(!m.slot_ok(i));
    }
}

/// Writes commit entries only while capacity remains: from any well-formed
/// segment, a batch commits the lesser of its size and the free space.
pub proof fn lemma_batch_capped_by_space(m: SegModel, es: Seq<Seq<u8>>)
    requires
        m.wf(),
        seg_batch_fits(m, es),
    ensures
        seg_written_count(m, es) == (if es.len() as int <= m.space() {
            es.len() as int
        } else {
            m.space()
        }),
        seg_batch(m, es).wf(),
        seg_batch(m, es).entry_number == m.entry_number + seg_written_count(m, es),
        seg_batch(m, es).entry_limit == m.entry_limit,
    decreases es.len(),
{
    if es.len() != 0 && m.entry_number < m.entry_limit {
        lemma_write_wf(m, es[0]);
        lemma_batch_capped_by_space(spec_write(m, es[0]), es.skip(1));
    }
}

/// Law: a segment created with entry limit `L` accepts exactly `L` writes —
/// a batch of more than `L` entries commits precisely the first `L`, and the
/// segment is left well-formed, not corrupted, at its limit.
pub proof fn lemma_capacity(sequence: u64, limit: int, es: Seq<Seq<u8>>)
    requires
        0 <= limit,
        HEAD_SIZE + eff_limit(limit) * OVERHEAD_SIZE <= usize::MAX,
        seg_batch_fits(spec_create(sequence, limit), es),
    ensures
        seg_written_count(spec_create(sequence, limit), es) == (if es.len() as int <= eff_limit(
            limit,
        ) {
            es.len() as int
        } else {
            eff_limit(limit)
        }),
        seg_batch(spec_create(sequence, limit), es).wf(),
        seg_batch(spec_create(sequence, limit), es).entry_number == seg_written_count(
            spec_create(sequence, limit),
            es,
        ),
{
    lemma_create_props(sequence, limit);
    lemma_batch_capped_by_space(spec_create(sequence, limit), es);
}

/// The recovery scan's characterization: everything below its result is
/// valid, and its result is the first invalid slot if one exists.
pub proof fn lemma_scan_props(img: Seq<u8>, i: int, limit: int)
    requires
        0 <= i <= limit,
    ensures
        i <= scan_from(img, i, limit) <= limit,
        forall|j: int| i <= j < scan_from(img, i, limit) ==> slot_valid(img, j),
        scan_from(img, i, limit) < limit ==> !slot_valid(img, scan_from(img, i, limit)),
    decreases limit - i,
{
    if i < limit && slot_valid(img, i) {
        lemma_scan_props(img, i + 1, limit);
    }
}

/// Law: if the slots below `k` are valid and slot `k` is not — the state a
/// crash between entry data and record leaves behind — recovery finds exactly
/// `k` entries, whatever bytes sit in the data area beyond: the dangling
/// bytes are simply never referenced again.
pub proof fn lemma_scan_stops_at(img: Seq<u8>, k: int, limit: int)
    requires
        0 <= k <= limit,
        forall|j: int| 0 <= j < k ==> slot_valid(img, j),
        k < limit ==> !slot_valid(img, k),
    ensures
        scan_from(img, 0, limit) == k,
{
    lemma_scan_to(img, 0, k, limit);
}

/// The scan walks from `i` to `k` over valid slots.
proof fn lemma_scan_to(img: Seq<u8>, i: int, k: int, limit: int)
    requires
        0 <= i <= k <= limit,
        forall|j: int| i <= j < k ==> slot_valid(img, j),
        k < limit ==> !slot_valid(img, k),
    ensures
        scan_from(img, i, limit) == k,
    decreases k - i,
{
    if i < k {
        lemma_scan_to(img, i + 1, k, limit);
    }
}

/// Law: reopening an unmodified image is idempotent — a segment whose entry
/// count agrees with its own recovery scan (as holds after open, after
/// create, and after any run of writes on a created segment) is recovered
/// exactly, entry count, capacity and contents alike.
pub proof fn lemma_reopen_identity(m: SegModel)
    requires
        m.wf(),
        m.entry_number == scan_from(m.image, 0, m.entry_limit),
    ensures
        image_fault(m.image) is None,
        spec_open(m.sequence, m.image) == m,
{
    assert(spec_open(m.sequence, m.image) =~= m);
}

/// Law: a well-formed segment with a blank tail scans to exactly its entry
/// count, so `lemma_reopen_identity` applies to every library-built segment.
pub proof fn lemma_blank_tail_scan(m: SegModel)
    requires
        m.wf(),
        m.tail_blank(),
    ensures
        scan_from(m.image, 0, m.entry_limit) == m.entry_number,
{
    assert forall|j: int| 0 <= j < m.entry_number implies slot_valid(m.image, j) by {
        assert(m.slot_ok(j));
    }
    assert(m.entry_number < m.entry_limit ==> !m.slot_ok(m.entry_number));
    lemma_scan_stops_at(m.image, m.entry_number, m.entry_limit);
}

/// Law: a fresh segment is well-formed, blank-tailed, sound and empty, and
/// its recovery scan finds no entries.
pub proof fn lemma_create_props(sequence: u64, limit: int)
    requires
        0 <= limit,
        HEAD_SIZE + eff_limit(limit) * OVERHEAD_SIZE <= usize::MAX,
    ensures
        spec_create(sequence, limit).wf(),
        spec_create(sequence, limit).tail_blank(),
        spec_create(sequence, limit).sound(),
        spec_create(sequence, limit).entry_number == 0,
        spec_create(sequence, limit).entry_limit == eff_limit(limit),
        scan_from(spec_create(sequence, limit).image, 0, eff_limit(limit)) == 0,
{
    let m = spec_create(sequence, limit);
    let l = eff_limit(limit);
    assert(m.image.subrange(0, MAGIC_SIZE as int) =~= magic_bytes());
    assert(m.image.subrange(MAGIC_SIZE as int, HEAD_SIZE as int) =~= be64_bytes(l as u64));
    lemma_be64_round_trip(l as u64);
    assert forall|i: int| m.entry_number <= i < m.entry_limit implies !#[trigger] m.slot_ok(
        i,
    ) by {
        let b = m.image.subrange(slot_at(i), slot_at(i) + OVERHEAD_SIZE);
        assert(slot_at(i) + OVERHEAD_SIZE <= m.table_end());
        assert forall|k: int| 0 <= k < b.len() implies b[k] == 0 by {
            assert(slot_at(i) + k >= HEAD_SIZE);
        }
        crate::overhead::lemma_zero_slot_invalid(b);
    }
    assert(0 < m.entry_limit ==> !m.slot_ok(0));
    lemma_scan_stops_at(m.image, 0, l);
}

/// Law: with checksum verification off, a read succeeds whenever every
/// covered record is valid and in bounds, and returns the stored bytes
/// unexamined — the entries a read returns never depend on the `check` flag.
pub proof fn lemma_read_unchecked(m: SegModel, start: int, limit: int)
    requires
        m.wf(),
        0 <= start,
        forall|j: int|
            start <= j < start + m.take_count(start, limit) ==> #[trigger] m.entry_in_bounds(j),
    ensures
        m.read_ok(start, limit, false),
{
    assert forall|j: int|
        start <= j < start + m.take_count(start, limit) implies #[trigger] m.entry_ok(
        j,
        false,
    ) by {
        assert(m.slot_ok(j));
        assert(m.entry_in_bounds(j));
    }
}

/// Law: with checksum verification on, a stored checksum that does not match
/// the checksum of the bytes in the entry's data region — as after any
/// corruption of those bytes that changes their checksum — makes the read
/// fail with a data-integrity error rather than return the entry.
pub proof fn lemma_read_detects_mismatch(m: SegModel, start: int, limit: int, j: int)
    requires
        m.wf(),
        start <= j < start + m.take_count(start, limit),
        forall|k: int| start <= k < j ==> #[trigger] m.entry_ok(k, true),
        m.slot_ok(j),
        m.entry_in_bounds(j),
        m.slot(j).checksum != crc32_sum(m.entry_at(j)),
    ensures
        !m.read_ok(start, limit, true),
        m.read_err(start, limit, true) == WalError::InvalidData,
{
    assert(!m.entry_ok(j, true));
    lemma_first_bad_here(m, start, start + m.take_count(start, limit), j, true);
}

} // verus!
