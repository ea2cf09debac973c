use eventfile::records::MmapFileHeader;
use eventfile::{EventFile, Error, IdxBound, NoCache};

fn collect_all(f: &mut EventFile<NoCache>, a: IdxBound, b: IdxBound) -> Vec<Vec<u8>> {
    let mut out = Vec::new();
    for slice in f.iter(a, b).unwrap() {
        for ev in slice.events() {
            out.push(ev);
        }
    }
    out
}

#[test]
fn align() {
    assert_eq!(MmapFileHeader::SIZE, 32);
}

#[test]
fn empty() {
    let mut f = EventFile::new(1, Vec::new(), 0, 20, 20, NoCache).unwrap();
    let evs = collect_all(&mut f, IdxBound::Unbounded, IdxBound::Unbounded);
    assert!(evs.is_empty());
}

#[test]
fn small() {
    let mut f = EventFile::new(1, Vec::new(), 0, 20, 20, NoCache).unwrap();
    f.append(b"abcd").unwrap();
    let evs = collect_all(&mut f, IdxBound::Unbounded, IdxBound::Unbounded);
    assert_eq!(evs, vec![b"abcd".to_vec()]);
    assert_eq!(f.end_offset(), 0);
}

#[test]
fn crosses_threshold() {
    let mut f = EventFile::new(1, Vec::new(), 0, 20, 20, NoCache).unwrap();
    f.append(b"abcd").unwrap();
    f.append(b"hello world!").unwrap();
    // 16 bytes staged so far: under the threshold, nothing finalized yet
    assert_eq!(f.end_offset(), 0);
    f.append("Crazy St\u{221a}\u{00bc}ff".as_bytes()).unwrap();
    // 29 bytes staged: the threshold fired and one leaf block was written
    assert!(f.end_offset() > 0);
    assert_eq!(f.end_offset() % 8, 0);
    let evs = collect_all(&mut f, IdxBound::Unbounded, IdxBound::Unbounded);
    assert_eq!(evs.len(), 3);
    assert_eq!(evs[0], b"abcd".to_vec());
    assert_eq!(evs[1], b"hello world!".to_vec());
    assert_eq!(evs[2], "Crazy St\u{221a}\u{00bc}ff".as_bytes().to_vec());
}

#[test]
fn cascade() {
    let mut f = EventFile::new(1, Vec::new(), 0, 16, 4, NoCache).unwrap();
    let mut all: Vec<Vec<u8>> = Vec::new();
    for i in 0..64u64 {
        let ev = i.to_be_bytes().to_vec();
        f.append(&ev).unwrap();
        all.push(ev);
    }
    let evs = collect_all(&mut f, IdxBound::Unbounded, IdxBound::Unbounded);
    assert_eq!(evs, all);
    for i in 0..64u64 {
        let one = collect_all(&mut f, IdxBound::Included(i), IdxBound::Included(i));
        assert_eq!(one, vec![all[i as usize].clone()], "at i={}", i);
    }
}

#[test]
fn monotone_growth() {
    let mut f = EventFile::new(1, Vec::new(), 0, 16, 4, NoCache).unwrap();
    let mut last = f.end_offset();
    for i in 0..40u64 {
        f.append(&i.to_be_bytes()).unwrap();
        let now = f.end_offset();
        assert!(now >= last);
        assert_eq!(now % 8, 0);
        last = now;
    }
}

#[test]
fn excluded_bounds() {
    let mut f = EventFile::new(1, Vec::new(), 0, 1000, 20, NoCache).unwrap();
    for i in 0..5u64 {
        f.append(&[i as u8]).unwrap();
    }
    let evs = collect_all(&mut f, IdxBound::Excluded(0), IdxBound::Excluded(4));
    assert_eq!(evs, vec![vec![1u8], vec![2u8], vec![3u8]]);
    let none = collect_all(&mut f, IdxBound::Unbounded, IdxBound::Excluded(0));
    assert!(none.is_empty());
    let none2 = collect_all(&mut f, IdxBound::Excluded(u64::MAX), IdxBound::Unbounded);
    assert!(none2.is_empty());
}

#[test]
fn reopen_wrong_user_version() {
    let f = EventFile::new(1, Vec::new(), 42, 20, 20, NoCache).unwrap();
    let image = f.image().clone();
    let r = EventFile::new(1, image, 43, 20, 20, NoCache);
    assert!(matches!(
        r,
        Err(Error::WrongUserVersion { expected: 43, found: 42 })
    ));
}

#[test]
fn reopen_same_user_version() {
    let f = EventFile::new(1, Vec::new(), 42, 20, 20, NoCache).unwrap();
    let image = f.image().clone();
    let mut g = EventFile::new(1, image, 42, 20, 20, NoCache).unwrap();
    let evs = collect_all(&mut g, IdxBound::Unbounded, IdxBound::Unbounded);
    assert!(evs.is_empty());
}

#[test]
fn reopen_round_trip() {
    // close and reopen with the same user version: iteration is preserved,
    // with both flushed blocks and staged events surviving
    let mut f = EventFile::new(9, Vec::new(), 5, 16, 4, NoCache).unwrap();
    let mut all: Vec<Vec<u8>> = Vec::new();
    for i in 0..70u64 {
        let ev = i.to_be_bytes().to_vec();
        f.append(&ev).unwrap();
        all.push(ev);
    }
    let image = f.image().clone();
    let mut g = EventFile::new(9, image, 5, 16, 4, NoCache).unwrap();
    let evs = collect_all(&mut g, IdxBound::Unbounded, IdxBound::Unbounded);
    assert_eq!(evs, all);
    assert_eq!(g.end_offset(), f.end_offset());
    // the reopened log keeps appending where the old one left off
    g.append(b"tail").unwrap();
    let evs2 = collect_all(&mut g, IdxBound::Included(70), IdxBound::Unbounded);
    assert_eq!(evs2, vec![b"tail".to_vec()]);
}

#[test]
fn reopen_staged_events() {
    // events still in staging survive a close and reopen unchanged
    let mut f = EventFile::new(3, Vec::new(), 0, 1000, 20, NoCache).unwrap();
    f.append(b"alpha").unwrap();
    f.append(b"beta").unwrap();
    assert_eq!(f.end_offset(), 0);
    let image = f.image().clone();
    let mut g = EventFile::new(3, image, 0, 1000, 20, NoCache).unwrap();
    let evs = collect_all(&mut g, IdxBound::Unbounded, IdxBound::Unbounded);
    assert_eq!(evs, vec![b"alpha".to_vec(), b"beta".to_vec()]);
}

#[test]
fn short_file_reinitialized() {
    // a file shorter than the header region is extended and given a fresh
    // header rather than rejected
    let mut f = EventFile::new(1, vec![7u8, 7, 7], 0, 20, 20, NoCache).unwrap();
    let evs = collect_all(&mut f, IdxBound::Unbounded, IdxBound::Unbounded);
    assert!(evs.is_empty());
    assert_eq!(f.end_offset(), 0);
    // header region plus a staging area sized for the threshold
    assert_eq!(f.image().len(), 4096 + 32 + 4 * 20 + 20);
}

#[test]
fn magic_discipline() {
    let f = EventFile::new(1, Vec::new(), 7, 20, 20, NoCache).unwrap();
    let mut image = f.image().clone();
    // flip a byte of the file header magic
    image[0] ^= 0xff;
    let r = EventFile::new(1, image, 7, 20, 20, NoCache);
    assert!(matches!(r, Err(Error::DataCorruption { .. })));
    // flip a byte of the staging header magic
    let mut image2 = f.image().clone();
    image2[4096] ^= 0xff;
    let r2 = EventFile::new(1, image2, 7, 20, 20, NoCache);
    assert!(matches!(r2, Err(Error::DataCorruption { .. })));
    // flip a byte of a finalized block's magic
    let mut g = EventFile::new(1, Vec::new(), 7, 16, 4, NoCache).unwrap();
    for i in 0..8u64 {
        g.append(&i.to_be_bytes()).unwrap();
    }
    assert!(g.end_offset() > 0);
    let mut image3 = g.image().clone();
    image3[4096] ^= 0xff;
    let r3 = EventFile::new(1, image3, 7, 16, 4, NoCache);
    assert!(matches!(r3, Err(Error::DataCorruption { .. })));
}

#[test]
fn frame_packing() {
    let h = eventfile::EventFrameIo::header(4, 9);
    assert_eq!(h.len() % 4, 0);
    assert_eq!(h.sig_len(), 4);
    assert_eq!(h.len(), 6 + 4 + 9 + h.padding());
    let slp = eventfile::SigLenPad::new(10, 3);
    assert_eq!(slp.sig_len(), 10);
    assert_eq!(slp.padding(), 3);
    let body = [1u8, 2, 3, 9, 9];
    let f = eventfile::EventFrame::new(&body[3..], &body[..3]);
    assert_eq!(f.data, &[9u8, 9][..]);
    assert_eq!(f.signature, &[1u8, 2, 3][..]);
}

#[test]
fn error_constructors() {
    assert!(matches!(
        Error::wrong_offset(1, 2),
        Error::WrongOffset { expected: 1, found: 2 }
    ));
    assert!(matches!(Error::wrong_stream_version(9), Error::WrongStreamVersion(9)));
    assert!(matches!(
        Error::wrong_user_version(1, 2),
        Error::WrongUserVersion { expected: 1, found: 2 }
    ));
    assert!(matches!(Error::numeric_overflow("x"), Error::NumericOverflow("x")));
    assert!(matches!(Error::data_corruption("m", 1, 2), Error::DataCorruption { .. }));
    assert!(matches!(Error::data_not_present("m", 1, 2), Error::DataNotPresent { .. }));
    assert!(matches!(Error::write_beyond_end(), Error::WriteBeyondEnd));
    assert!(matches!(
        eventfile::NodeType::from_level(0),
        eventfile::NodeType::Leaf
    ));
    assert!(matches!(
        eventfile::NodeType::from_level(3),
        eventfile::NodeType::Branch
    ));
}
