//! The write-ahead log: an ordered set of segments plus the consumer cursor.
//!
//! The log works on in-memory segment images; the surrounding program loads
//! the images of the segment files starting at the cursor's sequence (in
//! order, stopping at the first absent file) and persists images and the
//! cursor back out.

use vstd::prelude::*;
use crate::buf::sub_vec;
use crate::config::Config;
use crate::cursor::Cursor;
use crate::errors::WalError;
use crate::segment::{
    eff_limit, image_fault, spec_create, spec_open, spec_write, views_of, SegModel, Segment,
    HEAD_SIZE,
};
use crate::overhead::OVERHEAD_SIZE;

verus! {

/// The mathematical state of a log.
#[verifier::ext_equal]
pub ghost struct WalModel {
    /// The active settings.
    pub cfg: Config,
    /// The consumer position.
    pub cursor: Cursor,
    /// Sequence number the next created segment will get.
    pub next_sequence: u64,
    /// The loaded segments, ascending contiguous sequences.
    pub segments: Seq<SegModel>,
}

/// Whether the configured per-segment limit yields a segment whose
/// pre-allocated header and table fit the machine.
pub open spec fn cfg_fits(cfg: Config) -> bool {
    HEAD_SIZE + eff_limit(cfg.entry_per_segment as int) * OVERHEAD_SIZE <= usize::MAX
}

impl WalModel {
    /// Well-formedness of a log.
    pub open spec fn wf(self) -> bool {
        &&& cfg_fits(self.cfg)
        &&& forall|i: int| 0 <= i < self.segments.len() ==> (#[trigger] self.segments[i]).wf()
        &&& forall|i: int|
            0 <= i < self.segments.len() ==> (#[trigger] self.segments[i]).sequence as int
                == self.segments[0].sequence as int + i
        &&& self.segments.len() > 0 ==> self.next_sequence as int == self.segments[0].sequence
            as int + self.segments.len()
        &&& self.segments.len() > 0 ==> self.cursor.sequence as int <= self.segments[0].sequence
            as int
        &&& self.segments.len() == 0 ==> self.cursor.read == 0 && self.cursor.sequence as int
            <= self.next_sequence as int
        &&& forall|i: int|
            0 <= i < self.segments.len() && (#[trigger] self.segments[i]).sequence
                == self.cursor.sequence ==> self.cursor.read as int <= self.segments[i].entry_number
    }

    /// How many entries of segment `i` the cursor has already consumed.
    pub open spec fn seg_start(self, i: int) -> int {
        if self.segments[i].sequence == self.cursor.sequence {
            self.cursor.read as int
        } else {
            0
        }
    }

    /// Unconsumed entries in segments `i` and later.
    pub open spec fn unread_from(self, i: int) -> int
        decreases self.segments.len() - i when i >= 0
    {
        if i < 0 || i >= self.segments.len() {
            0
        } else {
            (self.segments[i].entry_number - self.seg_start(i)) + self.unread_from(i + 1)
        }
    }

    /// Total unconsumed entries in the log.
    pub open spec fn unread_total(self) -> int {
        self.unread_from(0)
    }

    /// The unconsumed entries of segments `i` and later, in order.
    pub open spec fn entries_from(self, i: int) -> Seq<Seq<u8>>
        decreases self.segments.len() - i when i >= 0
    {
        if i < 0 || i >= self.segments.len() {
            Seq::empty()
        } else {
            self.segments[i].read_entries(
                self.seg_start(i),
                self.segments[i].entry_number - self.seg_start(i),
            ) + self.entries_from(i + 1)
        }
    }

    /// All unconsumed entries of the log, in order.
    pub open spec fn unread_entries(self) -> Seq<Seq<u8>> {
        self.entries_from(0)
    }

    /// The unconsumed entries of segments before `j`, in order.
    pub open spec fn cat_upto(self, j: int) -> Seq<Seq<u8>>
        decreases j,
    {
        if j <= 0 {
            Seq::empty()
        } else {
            self.cat_upto(j - 1) + self.segments[j - 1].read_entries(
                self.seg_start(j - 1),
                self.segments[j - 1].entry_number - self.seg_start(j - 1),
            )
        }
    }

    /// Whether a write must create a new segment: none is loaded, or the tail
    /// is full.
    pub open spec fn needs_segment(self) -> bool {
        self.segments.len() == 0 || self.segments.last().space() == 0
    }

    /// Every loaded segment is sound: true of every log built by the library
    /// alone.
    pub open spec fn sound(self) -> bool {
        forall|i: int| 0 <= i < self.segments.len() ==> (#[trigger] self.segments[i]).sound()
    }

    /// Every loaded segment's overhead table is blank past its committed
    /// entries: also true of every log built by the library alone, and what
    /// makes reopening reproduce each segment exactly.
    pub open spec fn blank(self) -> bool {
        forall|i: int| 0 <= i < self.segments.len() ==> (#[trigger] self.segments[i]).tail_blank()
    }
}

/// The log after ensuring the tail segment has capacity.
pub open spec fn spec_alloc(w: WalModel) -> WalModel {
    if w.needs_segment() {
        WalModel {
            segments: w.segments.push(
                spec_create(w.next_sequence, w.cfg.entry_per_segment as int),
            ),
            next_sequence: (w.next_sequence + 1) as u64,
            ..w
        }
    } else {
        w
    }
}

/// The log after one write: the entry appended to the capacity-ensured tail.
pub open spec fn spec_wal_write(w: WalModel, e: Seq<u8>) -> WalModel {
    let w1 = spec_alloc(w);
    WalModel {
        segments: w1.segments.update(
            w1.segments.len() - 1,
            spec_write(w1.segments.last(), e),
        ),
        ..w1
    }
}

/// The machine bounds one write needs: room for a sequence number if a
/// segment must be created, and an image that still fits usize.
pub open spec fn write_fits(w: WalModel, elen: int) -> bool {
    if w.needs_segment() {
        &&& w.next_sequence < u64::MAX
        &&& HEAD_SIZE + eff_limit(w.cfg.entry_per_segment as int) * OVERHEAD_SIZE + elen
            <= usize::MAX
    } else {
        w.segments.last().image.len() + elen <= usize::MAX
    }
}

/// The log after a batch write: every entry appended in order, crossing
/// segment boundaries transparently.
pub open spec fn wal_batch(w: WalModel, es: Seq<Seq<u8>>) -> WalModel
    decreases es.len(),
{
    if es.len() == 0 {
        w
    } else {
        wal_batch(spec_wal_write(w, es[0]), es.skip(1))
    }
}

/// The machine bounds a batch write needs, at every intermediate state.
pub open spec fn wal_batch_fits(w: WalModel, es: Seq<Seq<u8>>) -> bool
    decreases es.len(),
{
    if es.len() == 0 {
        true
    } else {
        &&& write_fits(w, es[0].len() as int)
        &&& wal_batch_fits(spec_wal_write(w, es[0]), es.skip(1))
    }
}

/// The log recovered from stored state: one segment per image, sequences
/// counted up from the stored cursor's; the cursor reset to the start when no
/// segment was loaded, and its in-segment position reset to 0 when the first
/// segment is shorter than it claims.
pub open spec fn spec_wal_open(cfg: Config, stored: Cursor, imgs: Seq<Seq<u8>>) -> WalModel {
    let segs = Seq::new(
        imgs.len(),
        |i: int| spec_open((stored.sequence + i) as u64, imgs[i]),
    );
    let cursor = if imgs.len() == 0 {
        Cursor { sequence: 0, read: 0 }
    } else if segs[0].entry_number < stored.read as int {
        Cursor { sequence: stored.sequence, read: 0 }
    } else {
        stored
    };
    WalModel {
        cfg,
        cursor,
        next_sequence: (stored.sequence + imgs.len()) as u64,
        segments: segs,
    }
}

/// What a read of up to `k` entries returns, walking segments from `j` on.
pub open spec fn wal_read_from(w: WalModel, j: int, k: int) -> Seq<Seq<u8>>
    decreases w.segments.len() - j when j >= 0
{
    if j < 0 || j >= w.segments.len() || k <= 0 {
        Seq::empty()
    } else {
        let avail = w.segments[j].entry_number - w.seg_start(j);
        let take = if k < avail { k } else { avail };
        w.segments[j].read_entries(w.seg_start(j), take) + wal_read_from(w, j + 1, k - take)
    }
}

/// Unconsumed entry counts are never negative.
proof fn lemma_unread_nonneg(w: WalModel, i: int)
    requires
        w.wf(),
        0 <= i,
    ensures
        w.unread_from(i) >= 0,
        i < w.segments.len() ==> w.segments[i].entry_number - w.seg_start(i) >= 0,
    decreases w.segments.len() - i,
{
    if i < w.segments.len() {
        assert(w.segments[i].wf());
        lemma_unread_nonneg(w, i + 1);
    }
}

/// The unconsumed entries split at any segment boundary.
proof fn lemma_cat_split(w: WalModel, j: int)
    requires
        0 <= j <= w.segments.len(),
    ensures
        w.entries_from(0) == w.cat_upto(j) + w.entries_from(j),
    decreases j,
{
    if j == 0 {
        assert(w.cat_upto(0) + w.entries_from(0) =~= w.entries_from(0));
    } else {
        lemma_cat_split(w, j - 1);
        assert(w.cat_upto(j) + w.entries_from(j) =~= (w.cat_upto(j - 1) + w.entries_from(j - 1)));
    }
}

/// Law: a write keeps every loaded segment's unused table slots blank, in
/// the tail and in a freshly rotated segment alike — so
/// `lemma_reopen_wal_identity` applies to every log built by the library.
pub proof fn lemma_wal_write_blank(w: WalModel, e: Seq<u8>)
    requires
        w.wf(),
        w.blank(),
        write_fits(w, e.len() as int),
    ensures
        spec_wal_write(w, e).blank(),
{
    let w1 = spec_alloc(w);
    let tail = w1.segments.last();
    if w.needs_segment() {
        crate::segment::lemma_create_props(w.next_sequence, w.cfg.entry_per_segment as int);
    } else {
        assert(tail == w.segments[w.segments.len() - 1]);
        assert(tail.wf());
        assert(tail.tail_blank());
    }
    crate::segment::lemma_write_tail_blank(tail, e);
    let w2 = spec_wal_write(w, e);
    assert forall|i: int|
        0 <= i < w2.segments.len() implies (#[trigger] w2.segments[i]).tail_blank() by {
        if i < w2.segments.len() - 1 {
            assert(w2.segments[i] == w.segments[i]);
            assert(w.segments[i].tail_blank());
        }
    }
}

/// Law: a log recovered from its own persisted state is the log itself.
/// For a well-formed log whose cursor names its first segment and whose
/// segments agree with their own recovery scans (as every log built by the
/// library does, and every log just recovered does), handing the stored
/// cursor and the segment images back to `spec_wal_open` reproduces the
/// log exactly — so in particular its unconsumed entries, in order.
pub proof fn lemma_reopen_wal_identity(w: WalModel)
    requires
        w.wf(),
        w.segments.len() > 0,
        w.cursor.sequence == w.segments[0].sequence,
        forall|i: int|
            0 <= i < w.segments.len() ==> crate::segment::scan_from(
                (#[trigger] w.segments[i]).image,
                0,
                w.segments[i].entry_limit,
            ) == w.segments[i].entry_number,
    ensures
        spec_wal_open(
            w.cfg,
            w.cursor,
            Seq::new(w.segments.len(), |i: int| w.segments[i].image),
        ) == w,
{
    let imgs = Seq::new(w.segments.len(), |i: int| w.segments[i].image);
    let m = spec_wal_open(w.cfg, w.cursor, imgs);
    assert forall|i: int| 0 <= i < w.segments.len() implies m.segments[i] == w.segments[i] by {
        assert(w.segments[i].wf());
        crate::segment::lemma_reopen_identity(w.segments[i]);
        assert((w.cursor.sequence + i) as u64 == w.segments[i].sequence);
    }
    assert(m.segments =~= w.segments);
    assert(w.segments[0].wf());
    assert(m =~= w);
}

/// Law: a write keeps every loaded segment sound, whether it lands in the
/// tail or rotates to a fresh segment — so a log built by the library alone
/// stays sound, and every read of it succeeds.
pub proof fn lemma_wal_write_sound(w: WalModel, e: Seq<u8>)
    requires
        w.wf(),
        w.sound(),
        write_fits(w, e.len() as int),
    ensures
        spec_wal_write(w, e).sound(),
{
    let w1 = spec_alloc(w);
    let tail = w1.segments.last();
    if w.needs_segment() {
        crate::segment::lemma_create_props(w.next_sequence, w.cfg.entry_per_segment as int);
    } else {
        assert(tail == w.segments[w.segments.len() - 1]);
        assert(tail.wf());
        assert(tail.sound());
    }
    crate::segment::lemma_write_sound(tail, e);
    let w2 = spec_wal_write(w, e);
    assert forall|i: int| 0 <= i < w2.segments.len() implies (#[trigger] w2.segments[i]).sound() by {
        if i < w2.segments.len() - 1 {
            assert(w2.segments[i] == w.segments[i]);
            assert(w.segments[i].sound());
        }
    }
}

/// A log whose segments are the tail of another's sees the suffix of its
/// unconsumed entries.
proof fn lemma_entries_shift(w: WalModel, w2: WalModel, d: int, i: int)
    requires
        w.wf(),
        0 <= d < w.segments.len(),
        w2.segments == w.segments.skip(d),
        w2.cursor.sequence == w.segments[d].sequence,
        1 <= i <= w2.segments.len(),
    ensures
        w2.entries_from(i) == w.entries_from(d + i),
        w2.unread_from(i) == w.unread_from(d + i),
    decreases w2.segments.len() - i,
{
    if i < w2.segments.len() {
        assert(w2.segments[i] == w.segments[d + i]);
        assert(w.segments[d + i].sequence as int == w.segments[0].sequence as int + d + i);
        assert(w.segments[d].sequence as int == w.segments[0].sequence as int + d);
        assert(w2.seg_start(i) == 0);
        assert(w.seg_start(d + i) == 0);
        lemma_entries_shift(w, w2, d, i + 1);
        assert(w2.entries_from(i) =~= w.entries_from(d + i));
    } else {
        assert(w2.entries_from(i) =~= Seq::<Seq<u8>>::empty());
        assert(w.entries_from(d + i) =~= Seq::<Seq<u8>>::empty());
    }
}

/// Law: after consuming `k` entries — all of segments before `d`, and those
/// of segment `d` up to position `p` — the log that keeps segments `d` and
/// later with its cursor at `(sequence of d, p)` is well-formed and holds
/// exactly the unconsumed entries that remained.
proof fn lemma_after_read(w: WalModel, w2: WalModel, d: int, p: int, k: int)
    requires
        w.wf(),
        0 <= d < w.segments.len(),
        w2.cfg == w.cfg,
        w2.next_sequence == w.next_sequence,
        w2.segments == w.segments.skip(d),
        w2.cursor.sequence == w.segments[d].sequence,
        w2.cursor.read as int == p,
        w.seg_start(d) <= p <= w.segments[d].entry_number,
        k == w.cat_upto(d).len() + (p - w.seg_start(d)),
    ensures
        w2.wf(),
        w2.unread_entries() == w.unread_entries().skip(k),
{
    let n_d = w.segments[d].entry_number;
    let start_d = w.seg_start(d);
    assert(w.segments[d].wf());
    assert forall|i: int| 0 <= i < w2.segments.len() implies (#[trigger] w2.segments[i]).wf() by {
        assert(w2.segments[i] == w.segments[d + i]);
        assert(w.segments[d + i].wf());
    }
    assert forall|i: int|
        0 <= i < w2.segments.len() implies (#[trigger] w2.segments[i]).sequence as int
        == w2.segments[0].sequence as int + i by {
        assert(w2.segments[i] == w.segments[d + i]);
    }
    assert forall|i: int|
        0 <= i < w2.segments.len() && (#[trigger] w2.segments[i]).sequence
            == w2.cursor.sequence implies w2.cursor.read as int <= w2.segments[i].entry_number by {
        assert(w2.segments[i] == w.segments[d + i]);
        if i > 0 {
            assert(w.segments[d + i].sequence as int == w.segments[0].sequence as int + d + i);
            assert(w.segments[d].sequence as int == w.segments[0].sequence as int + d);
        }
    }
    assert(w2.wf());
    // the remaining entries are the suffix
    if w2.segments.len() > 1 {
        lemma_entries_shift(w, w2, d, 1);
    } else {
        assert(w2.entries_from(1) =~= Seq::<Seq<u8>>::empty());
        assert(w.entries_from(d + 1) =~= Seq::<Seq<u8>>::empty());
    }
    assert(w2.seg_start(0) == p);
    lemma_cat_split(w, d);
    assert(w2.unread_entries() =~= w.unread_entries().skip(k));
}

/// One log, held in memory.
pub struct WAL {
    cfg: Config,
    cursor: Cursor,
    next_sequence: u64,
    segments: Vec<Segment>,
}

impl View for WAL {
    type V = WalModel;

    closed spec fn view(&self) -> WalModel {
        WalModel {
            cfg: self.cfg,
            cursor: self.cursor,
            next_sequence: self.next_sequence,
            segments: Seq::new(self.segments@.len(), |i: int| self.segments@[i]@),
        }
    }
}

impl WAL {
    /// The invariant every log satisfies.
    pub open spec fn inv(&self) -> bool {
        self@.wf()
    }

    /// Recover a log from its stored state: the persisted cursor and the
    /// images of the segment files with sequences counted up from the
    /// cursor's, in order, as far as they exist on disk.
    pub fn open(cfg: Config, stored: Cursor, images: Vec<Vec<u8>>) -> (r: Result<WAL, WalError>)
        requires
            cfg_fits(cfg),
            stored.sequence as int + images@.len() <= u64::MAX,
        ensures
            match r {
                Ok(w) => {
                    &&& forall|i: int|
                        0 <= i < images@.len() ==> image_fault(
                            #[trigger] images.deep_view()[i],
                        ) is None
                    &&& w.inv()
                    &&& w@ == spec_wal_open(cfg, stored, images.deep_view())
                },
                Err(e) => exists|i: int|
                    0 <= i < images@.len() && image_fault(#[trigger] images.deep_view()[i])
                        == Some(e) && forall|j: int|
                        0 <= j < i ==> image_fault(images.deep_view()[j]) is None,
            },
    {
        let ghost gimgs = images.deep_view();
        let total = images.len();
        let mut segments: Vec<Segment> = Vec::new();
        let mut i: usize = 0;
        while i < total
            invariant
                total == images@.len(),
                gimgs == images.deep_view(),
                stored.sequence as int + images@.len() <= u64::MAX,
                0 <= i <= total,
                segments@.len() == i as int,
                forall|j: int|
                    0 <= j < i ==> (#[trigger] segments@[j])@ == spec_open(
                        (stored.sequence + j) as u64,
                        gimgs[j],
                    ),
                forall|j: int| 0 <= j < i ==> (#[trigger] segments@[j]).inv(),
                forall|j: int| 0 <= j < i ==> image_fault(#[trigger] gimgs[j]) is None,
            decreases total - i,
        {
            proof {
                assert(images@[i as int].deep_view() =~= images@[i as int]@);
            }
            let img = sub_vec(&images[i], 0, images[i].len());
            proof {
                assert(img@ =~= gimgs[i as int]);
            }
            match Segment::open(stored.sequence + i as u64, img) {
                Ok(s) => {
                    segments.push(s);
                },
                Err(e) => {
                    return Err(e);
                },
            }
            i = i + 1;
        }
        let mut cursor = stored;
        if segments.len() == 0 {
            cursor = Cursor { sequence: 0, read: 0 };
        } else {
            let first_len = segments[0].len();
            if first_len < cursor.read {
                cursor = Cursor { sequence: stored.sequence, read: 0 };
            }
        }
        let next_sequence = stored.sequence + total as u64;
        let w = WAL { cfg, cursor, next_sequence, segments };
        proof {
            let m = spec_wal_open(cfg, stored, gimgs);
            assert(w@.segments =~= m.segments);
            assert(w@ =~= m);
            assert forall|i2: int| 0 <= i2 < w@.segments.len() implies (
            #[trigger] w@.segments[i2]).wf() by {
                assert(w@.segments[i2] == spec_open((stored.sequence + i2) as u64, gimgs[i2]));
            }
            assert(w@.wf());
        }
        Ok(w)
    }

    /// Ensure one segment with free capacity is the tail, creating one if
    /// none is loaded or the tail is full; returns how many of `n` entries
    /// the tail can accept. Durably syncing a rotated-away tail is the
    /// surrounding program's task when it persists the images.
    fn try_allocate(&mut self, n: usize) -> (r: usize)
        requires
            old(self).inv(),
            old(self)@.needs_segment() ==> old(self)@.next_sequence < u64::MAX,
        ensures
            final(self).inv(),
            final(self)@ == spec_alloc(old(self)@),
            final(self)@.segments.len() > 0,
            final(self)@.segments.last().space() > 0,
            r as int == if n as int <= final(self)@.segments.last().space() {
                n as int
            } else {
                final(self)@.segments.last().space()
            },
    {
        let ghost w = self@;
        if self.segments.len() > 0 {
            let idx = self.segments.len() - 1;
            let s = &self.segments[idx];
            proof {
                assert(s@ == w.segments[idx as int]);
                assert(s@.wf());
            }
            let space = s.space();
            if space > 0 {
                proof {
                    assert(self@ =~= spec_alloc(w));
                }
                return if space > n {
                    n
                } else {
                    space
                };
            }
        }
        let seg = Segment::create(self.next_sequence, self.cfg.entry_per_segment);
        let space = seg.space();
        self.next_sequence = self.next_sequence + 1;
        self.segments.push(seg);
        proof {
            crate::segment::lemma_create_props(w.next_sequence, w.cfg.entry_per_segment as int);
            assert(self@.segments =~= spec_alloc(w).segments);
            assert(self@ =~= spec_alloc(w));
            assert forall|i: int| 0 <= i < self@.segments.len() implies (
            #[trigger] self@.segments[i]).wf() by {
                if i < w.segments.len() {
                    assert(w.segments[i].wf());
                }
            }
            assert(self@.wf());
        }
        if space > n {
            n
        } else {
            space
        }
    }

    /// Append one entry, rotating to a fresh segment when the tail is full.
    pub fn write(&mut self, data: &[u8])
        requires
            old(self).inv(),
            write_fits(old(self)@, data@.len() as int),
        ensures
            final(self).inv(),
            final(self)@ == spec_wal_write(old(self)@, data@),
    {
        let ghost w = self@;
        self.try_allocate(1);
        let ghost w1 = self@;
        let mut tail = self.segments.pop().unwrap();
        proof {
            assert(tail@ == w1.segments.last());
            assert(tail@.wf());
            if w.needs_segment() {
                assert(tail@.image.len() == HEAD_SIZE + eff_limit(w.cfg.entry_per_segment as int)
                    * OVERHEAD_SIZE);
            }
        }
        let ok = tail.write(data);
        self.segments.push(tail);
        proof {
            assert(ok);
            assert(self@.segments =~= spec_wal_write(w, data@).segments);
            assert(self@ =~= spec_wal_write(w, data@));
            assert forall|i: int| 0 <= i < self@.segments.len() implies (
            #[trigger] self@.segments[i]).wf() by {
                if i < self@.segments.len() - 1 {
                    assert(w1.segments[i].wf());
                }
            }
            assert(self@.wf());
        }
    }

    /// Append a batch of entries in order, crossing segment boundaries
    /// transparently; all of them are written.
    pub fn batch_write(&mut self, data: &[&[u8]])
        requires
            old(self).inv(),
            wal_batch_fits(old(self)@, views_of(data@)),
        ensures
            final(self).inv(),
            final(self)@ == wal_batch(old(self)@, views_of(data@)),
    {
        let ghost w0 = self@;
        let ghost es = views_of(data@);
        proof {
            assert(es.skip(0) =~= es);
        }
        let mut i: usize = 0;
        while i < data.len()
            invariant
                self.inv(),
                0 <= i <= data@.len(),
                es == views_of(data@),
                wal_batch_fits(self@, es.skip(i as int)),
                wal_batch(w0, es) == wal_batch(self@, es.skip(i as int)),
            decreases data@.len() - i,
        {
            proof {
                assert(es.skip(i as int)[0] == data@[i as int]@);
                assert(es.skip(i as int).skip(1) =~= es.skip(i + 1));
            }
            self.write(data[i]);
            i = i + 1;
        }
        proof {
            assert(es.skip(i as int) =~= Seq::<Seq<u8>>::empty());
        }
    }

    /// Number of unconsumed entries across all loaded segments.
    pub fn len(&self) -> (r: usize)
        requires
            self.inv(),
            self@.unread_total() <= usize::MAX,
        ensures
            r as int == self@.unread_total(),
    {
        let ghost w = self@;
        let mut size: usize = 0;
        let mut j: usize = 0;
        while j < self.segments.len()
            invariant
                self.inv(),
                w == self@,
                0 <= j <= w.segments.len(),
                w.unread_total() <= usize::MAX,
                size as int == w.unread_total() - w.unread_from(j as int),
            decreases w.segments.len() - j,
        {
            let s = &self.segments[j];
            proof {
                assert(s@ == w.segments[j as int]);
                assert(s@.wf());
                lemma_unread_nonneg(w, j as int);
                lemma_unread_nonneg(w, j as int + 1);
            }
            let n = s.len();
            let num = if s.sequence() == self.cursor.sequence {
                n - self.cursor.read
            } else {
                n
            };
            size = size + num;
            j = j + 1;
        }
        size
    }

    /// Read up to `max_n` unconsumed entries, starting at the cursor and
    /// crossing into later segments as earlier ones are exhausted, verifying
    /// checksums when the configuration asks for it. On success the in-memory
    /// cursor advances past the returned entries and fully consumed segments
    /// are dropped from the loaded set; persisting the cursor afterwards is
    /// what commits the consumption, so a crash before that re-delivers the
    /// same entries (at-least-once). On an error nothing changes; on a log
    /// built by this library alone, every read succeeds.
    pub fn read(&mut self, max_n: usize) -> (r: Result<Vec<Vec<u8>>, WalError>)
        requires
            old(self).inv(),
        ensures
            final(self).inv(),
            match r {
                Ok(v) => {
                    &&& v@.len() as int == (if max_n as int <= old(self)@.unread_total() {
                        max_n as int
                    } else {
                        old(self)@.unread_total()
                    })
                    &&& v.deep_view() == old(self)@.unread_entries().take(v@.len() as int)
                    &&& final(self)@.unread_entries() == old(self)@.unread_entries().skip(
                        v@.len() as int,
                    )
                    &&& final(self)@.cfg == old(self)@.cfg
                    &&& final(self)@.next_sequence == old(self)@.next_sequence
                    &&& exists|d: int|
                        0 <= d <= old(self)@.segments.len() && final(self)@.segments == old(
                            self,
                        )@.segments.skip(d)
                },
                Err(e) => {
                    &&& final(self)@ == old(self)@
                    &&& exists|sj: int, q: int|
                        0 <= sj < old(self)@.segments.len() && old(self)@.seg_start(sj) <= q < old(
                            self,
                        )@.segments[sj].entry_number && !(#[trigger] old(self)@.segments[
                            sj
                        ].entry_ok(q, old(self)@.cfg.check_crc32))
                },
            },
            old(self)@.sound() ==> r is Ok,
    {
        let ghost w = self@;
        let mut out: Vec<Vec<u8>> = Vec::new();
        if self.segments.len() == 0 || max_n == 0 {
            proof {
                lemma_unread_nonneg(w, 0);
                assert(out.deep_view() =~= w.unread_entries().take(0));
                assert(w.unread_entries() =~= w.unread_entries().skip(0));
                assert(w.segments =~= w.segments.skip(0));
                if w.segments.len() == 0 {
                    assert(w.unread_total() == 0);
                }
            }
            return Ok(out);
        }
        let check = self.cfg.check_crc32;
        let mut j: usize = 0;
        let first_seq = self.segments[0].sequence();
        let mut pos: usize = if first_seq == self.cursor.sequence {
            self.cursor.read
        } else {
            0
        };
        let mut done = false;
        while !done
            invariant
                self.inv(),
                w == self@,
                w.segments.len() > 0,
                max_n > 0,
                check == w.cfg.check_crc32,
                0 <= j < w.segments.len(),
                out@.len() <= max_n,
                w.seg_start(j as int) <= pos as int <= w.segments[j as int].entry_number,
                !done ==> out@.len() < max_n,
                !done ==> pos as int == w.seg_start(j as int),
                !done ==> out.deep_view() == w.cat_upto(j as int),
                !done ==> out@.len() as int == w.unread_total() - w.unread_from(j as int),
                done ==> out.deep_view() == w.cat_upto(j as int) + w.segments[
                    j as int
                ].read_entries(w.seg_start(j as int), pos - w.seg_start(j as int)),
                done ==> out@.len() as int == (if max_n as int <= w.unread_total() {
                    max_n as int
                } else {
                    w.unread_total()
                }),
            decreases w.segments.len() - j + (if done { 0int } else { 1int }),
        {
            let seg_count = self.segments.len();
            let s = &self.segments[j];
            proof {
                assert(s@ == w.segments[j as int]);
                assert(s@.wf());
                lemma_unread_nonneg(w, j as int + 1);
            }
            let remaining = max_n - out.len();
            let got = match s.read_into(pos, remaining, &mut out, check) {
                Ok(g) => g,
                Err(e) => {
                    proof {
                        let sm = w.segments[j as int];
                        if w.sound() {
                            assert(sm.sound());
                            assert forall|q: int|
                                pos <= q < pos + sm.take_count(
                                    pos as int,
                                    remaining as int,
                                ) implies #[trigger] sm.entry_ok(q, check) by {
                                assert(sm.entry_sound(q));
                                assert(sm.slot_ok(q));
                            }
                            assert(sm.read_ok(pos as int, remaining as int, check));
                            assert(false);
                        }
                        // the failing read names an unreadable unconsumed entry
                        let q = choose|q: int|
                            pos as int <= q < pos as int + sm.take_count(
                                pos as int,
                                remaining as int,
                            ) && !(#[trigger] sm.entry_ok(q, check));
                        assert(w.seg_start(j as int) <= q < sm.entry_number);
                        assert(!w.segments[j as int].entry_ok(q, w.cfg.check_crc32));
                    }
                    return Err(e);
                },
            };
            let ghost start_j = w.seg_start(j as int);
            let ghost nj = w.segments[j as int].entry_number;
            pos = pos + got;
            proof {
                assert(out.deep_view() =~= w.cat_upto(j as int) + w.segments[
                    j as int
                ].read_entries(start_j, pos - start_j));
            }
            if out.len() == max_n {
                done = true;
                proof {
                    lemma_unread_nonneg(w, j as int + 1);
                    assert(w.unread_from(j as int) == (nj - start_j) + w.unread_from(
                        j as int + 1,
                    ));
                    assert(max_n as int <= w.unread_total());
                }
            } else if j + 1 < seg_count {
                proof {
                    assert(got < remaining);
                    assert(pos as int == nj);
                    assert(w.cat_upto(j as int + 1) =~= w.cat_upto(j as int) + w.segments[
                        j as int
                    ].read_entries(start_j, nj - start_j));
                    assert(w.unread_from(j as int) == (nj - start_j) + w.unread_from(
                        j as int + 1,
                    ));
                    // the next segment's sequence differs from the cursor's
                    assert(w.segments[j as int + 1].sequence as int == w.segments[0].sequence
                        as int + j + 1);
                    assert(w.seg_start(j as int + 1) == 0);
                }
                j = j + 1;
                pos = 0;
            } else {
                done = true;
                proof {
                    assert(got < remaining);
                    assert(pos as int == nj);
                    assert(j as int + 1 == w.segments.len());
                    assert(w.unread_from(j as int) == (nj - start_j) + w.unread_from(
                        j as int + 1,
                    ));
                    assert(w.unread_from(j as int + 1) == 0);
                    assert(out@.len() as int == w.unread_total());
                }
            }
        }
        let ghost d = j as int;
        let ghost p = pos as int;
        let ghost k = out@.len() as int;
        let new_seq = self.segments[j].sequence();
        let mut t: usize = 0;
        while t < j
            invariant
                0 <= t <= j < w.segments.len(),
                self.segments@.len() == w.segments.len() - t,
                forall|q: int|
                    0 <= q < self.segments@.len() ==> (#[trigger] self.segments@[q])@
                        == w.segments[q + t],
                self.cfg == w.cfg,
                self.next_sequence == w.next_sequence,
                self.cursor == w.cursor,
            decreases j - t,
        {
            self.segments.remove(0);
            t = t + 1;
        }
        self.cursor = Cursor { sequence: new_seq, read: pos };
        proof {
            let w2 = self@;
            assert(w2.segments =~= w.segments.skip(d));
            assert(w2.cursor.sequence == w.segments[d].sequence);
            assert(k == w.cat_upto(d).len() + (p - w.seg_start(d)));
            lemma_after_read(w, w2, d, p, k);
            lemma_cat_split(w, d);
            assert(out.deep_view() =~= w.unread_entries().take(k));
            assert(w2.segments == w.segments.skip(d));
        }
        Ok(out)
    }

    /// The consumer position, as it stands in memory. Persisting its encoded
    /// bytes is what commits consumption across a restart.
    pub fn cursor(&self) -> (r: Cursor)
        ensures
            r == self@.cursor,
    {
        self.cursor
    }

    /// Sequence number the next created segment will receive.
    pub fn next_sequence(&self) -> (r: u64)
        ensures
            r == self@.next_sequence,
    {
        self.next_sequence
    }

    /// The loaded segments, ascending by sequence.
    pub fn segments(&self) -> (r: &Vec<Segment>)
        ensures
            r@.len() == self@.segments.len(),
            forall|i: int| 0 <= i < r@.len() ==> (#[trigger] r@[i])@ == self@.segments[i],
    {
        &self.segments
    }
}

} // verus!
