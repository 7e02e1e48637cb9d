use wal::config::Config;
use wal::cursor::Cursor;
use wal::errors::WalError;
use wal::overhead::Overhead;
use wal::segment::Segment;
use wal::wal::WAL;

fn cfg(entry_per_segment: usize, check_crc32: bool) -> Config {
    Config { entry_per_segment, check_crc32 }
}

#[test]
fn filename_is_big_endian_hex() {
    assert_eq!(Segment::filename(0), "0000000000000000");
    assert_eq!(Segment::filename(1), "0000000000000001");
    assert_eq!(Segment::filename(0x0102030405060708), "0102030405060708");
    assert_eq!(Segment::filename(u64::MAX), "ffffffffffffffff");
}

#[test]
fn round_trip_single_entry() {
    let mut s = Segment::create(0, 4);
    assert!(s.write(b"hello"));
    let mut out: Vec<Vec<u8>> = Vec::new();
    assert_eq!(s.read_into(0, 10, &mut out, true), Ok(1));
    assert_eq!(out.len(), 1);
    assert_eq!(out[0], b"hello".to_vec());
}

#[test]
fn round_trip_many_entries_in_order() {
    let mut s = Segment::create(3, 8);
    let entries: Vec<Vec<u8>> = vec![
        b"a".to_vec(),
        b"bb".to_vec(),
        b"ccc".to_vec(),
        b"dddd".to_vec(),
    ];
    for e in &entries {
        assert!(s.write(e));
    }
    let mut out: Vec<Vec<u8>> = Vec::new();
    assert_eq!(s.read_into(0, 100, &mut out, true), Ok(4));
    assert_eq!(out, entries);
    // partial read honours start and limit
    let mut part: Vec<Vec<u8>> = Vec::new();
    assert_eq!(s.read_into(1, 2, &mut part, true), Ok(2));
    assert_eq!(part, vec![b"bb".to_vec(), b"ccc".to_vec()]);
}

#[test]
fn capacity_exactly_limit_writes() {
    let mut s = Segment::create(7, 3);
    assert_eq!(s.sequence(), 7);
    assert!(s.write(b"one"));
    assert!(s.write(b"two"));
    assert!(s.write(b"three"));
    // the fourth write reports "no capacity" without failing or corrupting
    assert!(!s.write(b"four"));
    assert_eq!(s.len(), 3);
    assert_eq!(s.space(), 0);
    let mut out: Vec<Vec<u8>> = Vec::new();
    assert_eq!(s.read_into(0, 10, &mut out, true), Ok(3));
    assert_eq!(out[2], b"three".to_vec());
}

#[test]
fn zero_limit_selects_default() {
    let s = Segment::create(0, 0);
    assert_eq!(s.space(), 10240);
    assert_eq!(s.limit(), 10240);
}

#[test]
fn crash_tail_discard_and_safe_overwrite() {
    let mut s = Segment::create(0, 4);
    assert!(s.write(b"alpha"));
    assert!(s.write(b"beta"));
    assert!(s.write(b"gamma"));
    let mut image = s.image().clone();
    // clear the overhead record at index 2, as a crash mid-write would
    let slot: usize = 24 + 2 * 28;
    for b in image[slot..slot + 28].iter_mut() {
        *b = 0;
    }
    let mut reopened = Segment::open(0, image).unwrap();
    assert_eq!(reopened.len(), 2);
    // the orphaned tail is overwritten without touching committed entries
    assert!(reopened.write(b"delta"));
    let mut out: Vec<Vec<u8>> = Vec::new();
    assert_eq!(reopened.read_into(0, 10, &mut out, true), Ok(3));
    assert_eq!(
        out,
        vec![b"alpha".to_vec(), b"beta".to_vec(), b"delta".to_vec()]
    );
}

#[test]
fn idempotent_reopen() {
    let mut s = Segment::create(0, 5);
    assert!(s.write(b"first"));
    assert!(s.write(b"second"));
    let reopened = Segment::open(0, s.image().clone()).unwrap();
    assert_eq!(reopened.len(), s.len());
    assert_eq!(reopened.space(), s.space());
    let again = Segment::open(0, reopened.image().clone()).unwrap();
    assert_eq!(again.len(), reopened.len());
    assert_eq!(again.space(), reopened.space());
    let mut a: Vec<Vec<u8>> = Vec::new();
    let mut b: Vec<Vec<u8>> = Vec::new();
    assert_eq!(s.read_into(0, 10, &mut a, true), Ok(2));
    assert_eq!(again.read_into(0, 10, &mut b, true), Ok(2));
    assert_eq!(a, b);
}

#[test]
fn open_rejects_malformed_images() {
    // too short for the header
    assert_eq!(
        Segment::open(0, vec![0u8; 10]).err(),
        Some(WalError::UnexpectedEof)
    );
    // foreign magic number
    let s = Segment::create(0, 2);
    let mut bad_magic = s.image().clone();
    bad_magic[0] ^= 0xff;
    assert_eq!(Segment::open(0, bad_magic).err(), Some(WalError::InvalidData));
    // image truncated below its own overhead table
    let truncated = s.image()[..24 + 28].to_vec();
    assert_eq!(Segment::open(0, truncated).err(), Some(WalError::InvalidData));
}

#[test]
fn checksum_enforcement_on_corrupted_data() {
    let mut s = Segment::create(0, 2);
    assert!(s.write(b"abcdef"));
    let mut image = s.image().clone();
    // flip one byte inside the entry's data region
    let data_start: usize = 24 + 2 * 28;
    image[data_start] ^= 0x01;
    let corrupted = Segment::open(0, image).unwrap();
    assert_eq!(corrupted.len(), 1);
    // with verification on, the read fails with a data-integrity error
    let mut out: Vec<Vec<u8>> = Vec::new();
    assert_eq!(
        corrupted.read_into(0, 1, &mut out, true),
        Err(WalError::InvalidData)
    );
    assert!(out.is_empty());
    // with verification off, the corrupted bytes come back unexamined
    let mut raw: Vec<Vec<u8>> = Vec::new();
    assert_eq!(corrupted.read_into(0, 1, &mut raw, false), Ok(1));
    let mut expected = b"abcdef".to_vec();
    expected[0] ^= 0x01;
    assert_eq!(raw[0], expected);
}

#[test]
fn segment_batch_write_stops_when_full() {
    let mut s = Segment::create(0, 2);
    let entries: [&[u8]; 3] = [b"x", b"y", b"z"];
    assert_eq!(s.batch_write(&entries), 2);
    assert_eq!(s.len(), 2);
    assert_eq!(s.space(), 0);
    let mut out: Vec<Vec<u8>> = Vec::new();
    assert_eq!(s.read_into(0, 10, &mut out, true), Ok(2));
    assert_eq!(out, vec![b"x".to_vec(), b"y".to_vec()]);
}

#[test]
fn overhead_record_round_trip() {
    let mut oh = Overhead::new();
    assert!(!oh.valid());
    oh.write(5, 9, 77);
    assert!(oh.valid());
    assert_eq!(oh.offset(), 5);
    assert_eq!(oh.size(), 9);
    assert_eq!(oh.crc32(), 77);
    let enc = oh.encode();
    assert_eq!(enc.len(), 28);
    let dec = Overhead::decode(&enc);
    assert_eq!(dec, oh);
    // a zero-filled slot reads back invalid
    assert!(!Overhead::decode(&[0u8; 28]).valid());
    oh.reset();
    assert!(!oh.valid());
}

#[test]
fn cursor_codec_round_trip() {
    let c = Cursor { sequence: 3, read: 42 };
    let enc = c.encode();
    assert_eq!(enc.len(), 16);
    assert_eq!(Cursor::decode(&enc), Ok(c));
    assert_eq!(Cursor::decode(&[1, 2, 3]), Err(WalError::UnexpectedEof));
}

#[test]
fn wal_rotation_five_entries_three_segments() {
    let mut w = WAL::open(cfg(2, true), Cursor::start(), Vec::new()).unwrap();
    let entries: [&[u8]; 5] = [b"e1", b"e2", b"e3", b"e4", b"e5"];
    for e in entries.iter() {
        w.write(e);
    }
    let segs = w.segments();
    assert_eq!(segs.len(), 3);
    let lens: Vec<usize> = segs.iter().map(|s| s.len()).collect();
    assert_eq!(lens, vec![2, 2, 1]);
    let seqs: Vec<u64> = segs.iter().map(|s| s.sequence()).collect();
    assert_eq!(seqs, vec![0, 1, 2]);
    assert_eq!(w.len(), 5);
    assert_eq!(w.next_sequence(), 3);
}

#[test]
fn wal_batch_write_crosses_segments() {
    let mut w = WAL::open(cfg(2, true), Cursor::start(), Vec::new()).unwrap();
    let entries: [&[u8]; 5] = [b"e1", b"e2", b"e3", b"e4", b"e5"];
    w.batch_write(&entries);
    assert_eq!(w.len(), 5);
    assert_eq!(w.segments().len(), 3);
    let got = w.read(5).unwrap();
    let want: Vec<Vec<u8>> = entries.iter().map(|e| e.to_vec()).collect();
    assert_eq!(got, want);
}

#[test]
fn cursor_resume_after_reopen() {
    let mut w = WAL::open(cfg(2, true), Cursor::start(), Vec::new()).unwrap();
    let entries: [&[u8]; 5] = [b"e1", b"e2", b"e3", b"e4", b"e5"];
    for e in entries.iter() {
        w.write(e);
    }
    // keep the segment file images, as a disk would
    let images: Vec<Vec<u8>> = w.segments().iter().map(|s| s.image().clone()).collect();
    // consume three of five and persist the cursor
    let got = w.read(3).unwrap();
    assert_eq!(
        got,
        vec![b"e1".to_vec(), b"e2".to_vec(), b"e3".to_vec()]
    );
    assert_eq!(w.len(), 2);
    let persisted = Cursor::decode(&w.cursor().encode()).unwrap();
    assert_eq!(persisted, Cursor { sequence: 1, read: 1 });
    // restart: load the images from the cursor's sequence on
    let reopened_images: Vec<Vec<u8>> = images[1..].to_vec();
    let mut w2 = WAL::open(cfg(2, true), persisted, reopened_images).unwrap();
    assert_eq!(w2.len(), 2);
    let rest = w2.read(10).unwrap();
    assert_eq!(rest, vec![b"e4".to_vec(), b"e5".to_vec()]);
    assert_eq!(w2.len(), 0);
}

#[test]
fn wal_read_redelivers_without_commit() {
    let mut w = WAL::open(cfg(2, true), Cursor::start(), Vec::new()).unwrap();
    w.write(b"only");
    let images: Vec<Vec<u8>> = w.segments().iter().map(|s| s.image().clone()).collect();
    let stored = w.cursor();
    assert_eq!(w.read(1).unwrap(), vec![b"only".to_vec()]);
    // the cursor was never persisted: a restart delivers the entry again
    let mut again = WAL::open(cfg(2, true), stored, images).unwrap();
    assert_eq!(again.read(1).unwrap(), vec![b"only".to_vec()]);
}

#[test]
fn wal_open_resets_cursor_without_segments() {
    let w = WAL::open(cfg(2, true), Cursor { sequence: 9, read: 3 }, Vec::new()).unwrap();
    assert_eq!(w.cursor(), Cursor { sequence: 0, read: 0 });
    assert_eq!(w.next_sequence(), 9);
    assert_eq!(w.len(), 0);
}

#[test]
fn wal_open_resets_read_when_segment_shorter() {
    let mut s = Segment::create(0, 4);
    assert!(s.write(b"solo"));
    let image = s.image().clone();
    let w = WAL::open(cfg(4, true), Cursor { sequence: 0, read: 3 }, vec![image]).unwrap();
    assert_eq!(w.cursor(), Cursor { sequence: 0, read: 0 });
    assert_eq!(w.len(), 1);
}

#[test]
fn wal_open_propagates_segment_fault() {
    let err = WAL::open(cfg(2, true), Cursor::start(), vec![vec![0u8; 4]]).err();
    assert_eq!(err, Some(WalError::UnexpectedEof));
}

#[test]
fn empty_wal_reads_nothing() {
    let mut w = WAL::open(cfg(2, false), Cursor::start(), Vec::new()).unwrap();
    assert_eq!(w.len(), 0);
    assert_eq!(w.read(5).unwrap(), Vec::<Vec<u8>>::new());
}

#[test]
fn empty_entry_round_trips() {
    let mut s = Segment::create(0, 2);
    assert!(s.write(b""));
    let mut out: Vec<Vec<u8>> = Vec::new();
    assert_eq!(s.read_into(0, 1, &mut out, true), Ok(1));
    assert_eq!(out[0], Vec::<u8>::new());
}
