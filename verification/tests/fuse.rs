//! Tests for the random-access engine, the revision descriptor and the
//! revision catalog.

use backy_extract::fuse_access::{Error, FuseAccess, FuseDirectory, ReadOutcome, WriteOutcome};
use backy_extract::rev::{parse_timestamp, Rev, RevError};
use backy_extract::CHUNKSZ;

fn pair(k: &str, v: &str) -> (Vec<u8>, Vec<u8>) {
    (k.as_bytes().to_vec(), v.as_bytes().to_vec())
}

fn fixture_rev() -> Rev {
    Rev::new(
        b"pqEKi7Jfq4bps3NVNEU49K",
        b"chunked",
        b"JZ3zfSHq24Fy5ENgTgYLGF",
        b"2019-11-14 14:21:18.289+00:00",
        b"trusted",
        b"pqEKi7Jfq4bps3NVNEU49K",
        16777216,
    )
    .expect("valid revision")
}

/// An in-memory store: chunk contents by sequence number, standing in
/// for the backend files the caller would read.
struct Store {
    chunks: Vec<Option<Vec<u8>>>,
}

impl Store {
    /// Builds the engine and the store from per-position contents.
    fn build(spec: Vec<Option<(&str, Vec<u8>)>>) -> (FuseAccess, Store) {
        let mut fa = FuseAccess::new(b"rev0".to_vec(), fixture_rev(), 12 << 20);
        let mut pairs = Vec::new();
        let mut chunks = Vec::new();
        for (i, c) in spec.into_iter().enumerate() {
            match c {
                Some((id, data)) => {
                    pairs.push(pair(&i.to_string(), id));
                    chunks.push(Some(data));
                }
                None => chunks.push(None),
            }
        }
        let size = (chunks.len() * CHUNKSZ) as u64;
        fa.load_if_empty(&pairs, size).expect("load map");
        (fa, Store { chunks })
    }

    fn chunk(&self, seq: u64) -> Vec<u8> {
        self.chunks[seq as usize].clone().expect("chunk present in store")
    }
}

/// Drives a read like the filesystem adapter: loads missing chunks from
/// the store until the engine answers.
fn read(fa: &mut FuseAccess, store: &Store, offset: u64, want: usize) -> Result<Vec<u8>, Error> {
    loop {
        match fa.read_at(offset, want)? {
            ReadOutcome::Data(d) => return Ok(d),
            ReadOutcome::NeedChunk(seq, _id) => fa.insert_ro(seq, store.chunk(seq)),
        }
    }
}

/// Drives a write the same way.
fn write(fa: &mut FuseAccess, store: &Store, offset: u64, buf: &[u8]) -> Result<usize, Error> {
    loop {
        match fa.write_at(offset, buf)? {
            WriteOutcome::Written(n) => return Ok(n),
            WriteOutcome::NeedChunk(seq, _id) => fa.insert_ro(seq, store.chunk(seq)),
        }
    }
}

fn chunk2pos(seq: usize) -> u64 {
    (seq * CHUNKSZ) as u64
}

#[test]
fn initialize_rev() {
    let rev = fixture_rev();
    let t = rev.timestamp;
    assert_eq!(
        (t.year, t.month, t.day, t.hour, t.minute, t.second),
        (2019, 11, 14, 14, 21, 18)
    );
    assert_eq!(t.nanos, 289_000_000);
    assert_eq!(t.tz_minutes, 0);
    assert_eq!(rev.uuid, b"pqEKi7Jfq4bps3NVNEU49K".to_vec());
}

#[test]
fn wrong_backend_type() {
    match Rev::new(
        b"rev0",
        b"cowfile",
        b"",
        b"2019-11-14 14:21:18.289+00:00",
        b"trusted",
        b"rev0",
        0,
    ) {
        Err(RevError::WrongType(t)) => assert_eq!(t, b"cowfile".to_vec()),
        other => panic!("unexpected: {:?}", other),
    }
}

#[test]
fn bad_timestamp_is_parse_error() {
    match Rev::new(b"rev0", b"chunked", b"", b"2019-13-14 14:21:18+0000", b"t", b"rev0", 0) {
        Err(RevError::ParseRev(name, _)) => assert_eq!(name, b"rev0".to_vec()),
        other => panic!("unexpected: {:?}", other),
    }
}

#[test]
fn timestamp_formats() {
    // Zone without a colon, no fractional part.
    let t = parse_timestamp(b"2023-02-28 23:59:59+0130").expect("parse");
    assert_eq!((t.hour, t.minute, t.second, t.nanos), (23, 59, 59, 0));
    assert_eq!(t.tz_minutes, 90);
    // Negative offset.
    let t = parse_timestamp(b"2023-06-01 00:00:00-0500").expect("parse");
    assert_eq!(t.tz_minutes, -300);
    // Leap year: February 29 exists in 2020 but not in 2019 or 1900.
    assert!(parse_timestamp(b"2020-02-29 00:00:00+0000").is_some());
    assert!(parse_timestamp(b"2019-02-29 00:00:00+0000").is_none());
    assert!(parse_timestamp(b"1900-02-29 00:00:00+0000").is_none());
    assert!(parse_timestamp(b"2000-02-29 00:00:00+0000").is_some());
    // Out-of-range fields are rejected.
    assert!(parse_timestamp(b"2023-00-01 00:00:00+0000").is_none());
    assert!(parse_timestamp(b"2023-04-31 00:00:00+0000").is_none());
    assert!(parse_timestamp(b"2023-04-30 24:00:00+0000").is_none());
    assert!(parse_timestamp(b"not a timestamp at all....").is_none());
}

#[test]
fn init_map() {
    let (mut fa, store) = Store::build(vec![
        Some(("4355a46b19d348dc2f57c046f8ef63d4", vec![1u8; CHUNKSZ])),
        None,
    ]);
    assert_eq!(fa.size, 2 * CHUNKSZ as u64);
    // The mapped position names its chunk; the hole reads as zeros
    // without touching the store.
    match fa.read_at(0, 1).expect("read") {
        ReadOutcome::NeedChunk(seq, id) => {
            assert_eq!(seq, 0);
            assert_eq!(id, b"4355a46b19d348dc2f57c046f8ef63d4".to_vec());
        }
        other => panic!("unexpected: {:?}", other),
    }
    let d = read(&mut fa, &store, chunk2pos(1), 4).expect("read");
    assert_eq!(d, vec![0, 0, 0, 0]);
}

#[test]
fn read_data() {
    let (mut fa, store) = Store::build(vec![
        Some(("4355a46b19d348dc2f57c046f8ef63d4", vec![1u8; CHUNKSZ])),
        None,
        Some(("1121cfccd5913f0a63fec40a6ffd44ea", vec![3u8; CHUNKSZ])),
    ]);
    let read_size = CHUNKSZ / 16;
    assert_eq!(
        read(&mut fa, &store, chunk2pos(2), read_size).expect("read"),
        vec![3u8; read_size]
    );
    // empty chunk -> zeroes
    assert_eq!(
        read(&mut fa, &store, chunk2pos(1), read_size).expect("read"),
        vec![0u8; read_size]
    );
    // another chunk
    assert!(read(&mut fa, &store, chunk2pos(0), read_size).is_ok());
    // read over page boundary -> short read
    assert_eq!(
        read(&mut fa, &store, chunk2pos(1) - 32, read_size).expect("read"),
        vec![1u8; 32]
    );
    // read over the end -> short read
    assert_eq!(
        read(&mut fa, &store, chunk2pos(3) - 32, read_size).expect("read"),
        vec![3u8; 32]
    );
    // read at end -> []
    assert!(read(&mut fa, &store, chunk2pos(3), read_size).expect("read").is_empty());
    // offset > len
    match read(&mut fa, &store, chunk2pos(3) + 1, read_size) {
        Err(Error::UnexpectedEof) => {}
        other => panic!("unexpected: {:?}", other),
    }
}

#[test]
fn caching() {
    let (mut fa, store) = Store::build(vec![
        Some(("6746af67f7734d0e9d248a520674f20b", vec![0u8; CHUNKSZ])),
        Some(("7605119f98fc6d4630e1ed49e5f32a6d", vec![1u8; CHUNKSZ])),
        Some(("854e1ff5d5300914e3e65a0cefdc4baf", vec![2u8; CHUNKSZ])),
    ]);
    assert!(!fa.ro_has(1));
    read(&mut fa, &store, chunk2pos(1), 1).expect("read");
    assert!(fa.ro_has(1));
    read(&mut fa, &store, chunk2pos(0), 1).expect("read");
    assert!(fa.ro_has(0));
    // A write promotes the page from the read cache to the dirty cache.
    write(&mut fa, &store, chunk2pos(2), &[1]).expect("write");
    assert!(!fa.ro_has(2));
    assert!(fa.dirty_has(2));
    assert!(!fa.dirty_has(0));
    // Cleanup drops the read cache but keeps the dirty pages.
    fa.cleanup();
    assert!(!fa.ro_has(0));
    assert!(!fa.ro_has(1));
    assert!(fa.dirty_has(2));
}

#[test]
fn all_zero_chunks() {
    let (mut fa, store) = Store::build(vec![None, None]);
    assert_eq!(
        read(&mut fa, &store, chunk2pos(0), CHUNKSZ).expect("read"),
        vec![0u8; CHUNKSZ]
    );
    assert_eq!(
        read(&mut fa, &store, chunk2pos(1), CHUNKSZ).expect("read"),
        vec![0u8; CHUNKSZ]
    );
}

#[test]
fn read_offset() {
    let mut data = vec![11u8; CHUNKSZ];
    data[..10].clone_from_slice(&[0, 1, 2, 3, 4, 5, 6, 7, 8, 9]);
    let (mut fa, store) = Store::build(vec![
        Some(("25d4f2a86deb5e2574bb3210b67bb24f", vec![1u8; CHUNKSZ])),
        Some(("a1fb50e6c86fae1679ef3351296fd671", data)),
    ]);
    assert_eq!(
        read(&mut fa, &store, chunk2pos(1) + 4, 8).expect("read"),
        vec![4, 5, 6, 7, 8, 9, 11, 11]
    );
}

#[test]
fn write_cow() {
    let mut data = vec![11u8; CHUNKSZ];
    data[..10].clone_from_slice(&[0, 1, 2, 3, 4, 5, 6, 7, 8, 9]);
    let (mut fa, store) = Store::build(vec![
        Some(("00d4f2a86deb5e2574bb3210b67bb24f", vec![10u8; CHUNKSZ])),
        Some(("01fb50e6c86fae1679ef3351296fd671", data)),
    ]);
    // write at beginning boundary
    assert_eq!(write(&mut fa, &store, 0, &[0, 1, 2, 3]).expect("write"), 4);
    assert_eq!(read(&mut fa, &store, 0, 5).expect("read"), vec![0, 1, 2, 3, 10]);
    // write at page boundary
    assert_eq!(
        write(&mut fa, &store, chunk2pos(1) - 4, &[0, 1, 2, 3]).expect("write"),
        4
    );
    assert_eq!(
        read(&mut fa, &store, chunk2pos(1) - 5, 5).expect("read"),
        vec![10, 0, 1, 2, 3]
    );
    // write over page boundary -> short write
    assert_eq!(
        write(&mut fa, &store, chunk2pos(1) - 2, &[20, 21, 22, 23]).expect("write"),
        2
    );
    assert_eq!(
        read(&mut fa, &store, chunk2pos(1) - 4, 4).expect("read"),
        vec![0, 1, 20, 21]
    );
    // page 1 keeps its original contents
    assert_eq!(
        read(&mut fa, &store, chunk2pos(1), 5).expect("read"),
        vec![0, 1, 2, 3, 4]
    );
    // the tail of the clipped write goes in with a second call
    assert_eq!(write(&mut fa, &store, chunk2pos(1), &[22, 23]).expect("write"), 2);
    assert_eq!(
        read(&mut fa, &store, chunk2pos(1), 5).expect("read"),
        vec![22, 23, 2, 3, 4]
    );
    // write exactly to EOF
    assert_eq!(write(&mut fa, &store, chunk2pos(2) - 2, &[8, 9]).expect("write"), 2);
    // write over EOF
    match write(&mut fa, &store, chunk2pos(2) - 2, &[4, 5, 6, 7]) {
        Err(Error::UnexpectedEof) => {}
        other => panic!("unexpected: {:?}", other),
    }
}

#[test]
fn write_cow_empty_page() {
    let (mut fa, store) = Store::build(vec![None]);
    assert!(!fa.ro_has(0));
    assert_eq!(write(&mut fa, &store, 2, &[1]).expect("write"), 1);
    assert!(!fa.ro_has(0));
    assert!(fa.dirty_has(0));
    assert_eq!(read(&mut fa, &store, 0, 5).expect("read"), vec![0, 0, 1, 0, 0]);
}

#[test]
fn partial_write_loop_covers_buffer() {
    // A buffer spanning three pages goes in through the retry loop and
    // reads back exactly once each.
    let (mut fa, store) = Store::build(vec![None, None, None]);
    let len = CHUNKSZ + 1024;
    let buf: Vec<u8> = (0..len).map(|i| (i % 251) as u8 | 1).collect();
    let start = chunk2pos(1) - 512;
    let mut off = start;
    let mut rest: &[u8] = &buf;
    while !rest.is_empty() {
        let w = write(&mut fa, &store, off, rest).expect("write");
        assert!(w >= 1 && w <= rest.len());
        off += w as u64;
        rest = &rest[w..];
    }
    assert_eq!(off, start + len as u64);
    let mut back = Vec::new();
    let mut pos = start;
    while back.len() < len {
        let d = read(&mut fa, &store, pos, len - back.len()).expect("read");
        pos += d.len() as u64;
        back.extend_from_slice(&d);
    }
    assert_eq!(back, buf);
}

#[test]
fn read_is_deterministic() {
    let (mut fa, store) = Store::build(vec![
        Some(("7d0eae958fb3a9889774603cd049716b", vec![5u8; CHUNKSZ])),
        None,
    ]);
    let a = read(&mut fa, &store, 100, 64).expect("read");
    let b = read(&mut fa, &store, 100, 64).expect("read");
    assert_eq!(a, b);
}

#[test]
fn missing_chunk() {
    // The engine names the chunk it cannot serve; a store without it
    // would fail the load, which the caller reports as BackendLoad.
    let (mut fa, _store) = Store::build(vec![
        Some(("7d0eae958fb3a9889774603cd049716b", vec![1u8; CHUNKSZ])),
        Some(("95d2a0ce9869d4ec1395b7a7c8fae0c9", vec![2u8; CHUNKSZ])),
    ]);
    match fa.read_at(chunk2pos(1), 1).expect("read") {
        ReadOutcome::NeedChunk(seq, id) => {
            assert_eq!(seq, 1);
            assert_eq!(id, b"95d2a0ce9869d4ec1395b7a7c8fae0c9".to_vec());
        }
        other => panic!("unexpected result: {:?}", other),
    }
}

#[test]
fn broken_map() {
    let mut fa = FuseAccess::new(b"broken".to_vec(), fixture_rev(), 0);
    // A key that is not a number is rejected; the engine stays unloaded.
    let bad = vec![pair("zero", "6f9d15addefbbee6d9190df64706c58f")];
    match fa.load_if_empty(&bad, CHUNKSZ as u64) {
        Err(Error::ParseMap(name, _)) => assert_eq!(name, b"broken".to_vec()),
        other => panic!("Unexpected result: {:?}", other),
    }
    // An unaligned size is rejected too.
    let good = vec![pair("0", "6f9d15addefbbee6d9190df64706c58f")];
    assert!(matches!(
        fa.load_if_empty(&good, 30),
        Err(Error::ParseMap(_, _))
    ));
    // A well-formed map loads, and loading again changes nothing.
    fa.load_if_empty(&good, CHUNKSZ as u64).expect("load");
    fa.load_if_empty(&bad, 30).expect("idempotent");
    assert_eq!(fa.size, CHUNKSZ as u64);
}

#[test]
fn directory_catalog() {
    let mut d = FuseDirectory::new(b"/srv/backup".to_vec());
    assert!(d.is_empty());
    assert!(d.validate(true).is_err());
    let a = d.register(b"pqEKi7Jfq4bps3NVNEU49K".to_vec());
    let b = d.register(b"JZ3zfSHq24Fy5ENgTgYLGF".to_vec());
    assert_eq!(a, 4);
    assert_eq!(b, 5);
    assert_eq!(d.len(), 2);
    assert_eq!(d.get(a), Some(&b"pqEKi7Jfq4bps3NVNEU49K".to_vec()));
    assert_eq!(d.get(99), None);
    assert!(d.validate(true).is_ok());
    match d.validate(false) {
        Err(Error::NoRevisions(p)) => assert_eq!(p, b"/srv/backup".to_vec()),
        other => panic!("unexpected: {:?}", other),
    }
}
