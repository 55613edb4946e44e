//! Tests for the revision map grouping, the stream writer and the
//! extraction pipeline pieces.

use backy_extract::chunkvec::ChunkVec;
use backy_extract::stream::Stream;
use backy_extract::{Data, Extractor, ExtractError, CHUNKSZ};

fn pair(k: &str, v: &str) -> (Vec<u8>, Vec<u8>) {
    (k.as_bytes().to_vec(), v.as_bytes().to_vec())
}

#[test]
fn unaligned_size() {
    let pairs = vec![pair("0", "4db6e194fd398e8edb76e11054d73eb0")];
    match ChunkVec::decode(&pairs, 1234567) {
        Err(ExtractError::UnalignedSize(n)) => assert_eq!(n, 1234567),
        _ => panic!("expected ExtractError::UnalignedSize"),
    }
}

#[test]
fn restore_unaligned_size() {
    let pairs = vec![pair("0", "4db6e194fd398e8edb76e11054d73eb0")];
    assert!(matches!(
        ChunkVec::decode(&pairs, 1234567),
        Err(ExtractError::UnalignedSize(1234567))
    ));
}

#[test]
fn decode_rejects_bad_keys() {
    let sz = 4 * CHUNKSZ as u64;
    let bad_key = vec![pair("x1", "aaaa")];
    assert!(matches!(
        ChunkVec::decode(&bad_key, sz),
        Err(ExtractError::DecodeMap(_))
    ));
    let out_of_range = vec![pair("4", "aaaa")];
    assert!(matches!(
        ChunkVec::decode(&out_of_range, sz),
        Err(ExtractError::DecodeMap(_))
    ));
    let duplicate = vec![pair("1", "aaaa"), pair("01", "bbbb")];
    assert!(matches!(
        ChunkVec::decode(&duplicate, sz),
        Err(ExtractError::DecodeMap(_))
    ));
}

#[test]
fn reverse_grouping() {
    // Two positions share one chunk; position 3 is a hole.
    let pairs = vec![pair("0", "bbbb"), pair("2", "bbbb"), pair("1", "aaaa")];
    let cv = ChunkVec::decode(&pairs, 4 * CHUNKSZ as u64).expect("decode");
    assert_eq!(cv.len(), 4);
    assert_eq!(cv.group_count(), 2);
    assert_eq!(cv.zero_group(), &vec![3u64]);
    // Groups are ordered by chunk ID, sequences ascending within each.
    let all = cv.iterate_for_thread(0, 1);
    assert_eq!(all.len(), 2);
    assert_eq!(all[0].0, b"aaaa".to_vec());
    assert_eq!(all[0].1, vec![1u64]);
    assert_eq!(all[1].0, b"bbbb".to_vec());
    assert_eq!(all[1].1, vec![0u64, 2u64]);
}

#[test]
fn thread_shares_cover_all_groups() {
    let pairs = vec![
        pair("0", "aaaa"),
        pair("1", "bbbb"),
        pair("2", "cccc"),
        pair("3", "dddd"),
        pair("4", "eeee"),
    ];
    let cv = ChunkVec::decode(&pairs, 5 * CHUNKSZ as u64).expect("decode");
    for threads in [1usize, 2, 4, 8] {
        let mut seen: Vec<Vec<u8>> = Vec::new();
        for t in 0..threads {
            for (id, _) in cv.iterate_for_thread(t, threads) {
                assert!(!seen.contains(&id), "group handed to two workers");
                seen.push(id);
            }
        }
        assert_eq!(seen.len(), 5);
    }
}

fn drain(s: &mut Stream, out: &mut Vec<u8>) {
    while let Some(d) = s.next_ready() {
        match d {
            Data::Bytes(v) => out.extend_from_slice(&v),
            Data::Zero => out.extend_from_slice(&vec![0u8; CHUNKSZ]),
        }
    }
}

#[test]
fn reorder() {
    let chunks: Vec<Vec<u8>> = (0..4u8).map(|i| vec![i; CHUNKSZ]).collect();
    let mut s = Stream::new();
    let mut out = Vec::with_capacity(4 * CHUNKSZ);
    for &i in &[1usize, 3, 0, 2] {
        s.push_chunk(&Data::Bytes(chunks[i].clone()), &vec![i as u64]);
        drain(&mut s, &mut out);
    }
    assert!(s.is_done());
    let firsts: Vec<u8> = (0..4).map(|i| out[i * CHUNKSZ]).collect();
    assert_eq!(firsts, vec![0, 1, 2, 3]);
}

#[test]
fn restore_rev_with_holes() {
    // One mapped chunk followed by three holes: the stream emits the
    // chunk and then three zero blocks, sixteen MiB in all.
    let pairs = vec![pair("0", "4db6e194fd398e8edb76e11054d73eb0")];
    let cv = ChunkVec::decode(&pairs, 16777216).expect("decode");
    assert_eq!(cv.len(), 4);
    let chunk0 = {
        let mut v = vec![0u8; CHUNKSZ];
        for (i, b) in v.iter_mut().enumerate() {
            *b = (i % 241) as u8;
        }
        v
    };
    let mut s = Stream::new();
    let mut out = Vec::with_capacity(4 * CHUNKSZ);
    // The zero producer goes first; the decoded chunk arrives later.
    s.push_chunk(&Data::Zero, cv.zero_group());
    drain(&mut s, &mut out);
    assert!(out.is_empty());
    for (id, seqs) in cv.iterate_for_thread(0, 1) {
        assert_eq!(id, b"4db6e194fd398e8edb76e11054d73eb0".to_vec());
        s.push_chunk(&Data::Bytes(chunk0.clone()), &seqs);
    }
    drain(&mut s, &mut out);
    assert!(s.is_done());
    assert_eq!(out.len(), 16777216);
    assert_eq!(&out[..CHUNKSZ], &chunk0[..]);
    assert!(out[CHUNKSZ..].iter().all(|&b| b == 0));
}

#[test]
fn restore_to_stream() {
    // Four distinct chunks delivered out of order by two "workers":
    // the stream output equals their concatenation in sequence order.
    let pairs = vec![
        pair("0", "aaaa"),
        pair("1", "bbbb"),
        pair("2", "cccc"),
        pair("3", "dddd"),
    ];
    let cv = ChunkVec::decode(&pairs, 4 * CHUNKSZ as u64).expect("decode");
    let payload = |id: &[u8]| -> Vec<u8> { vec![id[0]; CHUNKSZ] };
    for threads in [1usize, 2] {
        let mut s = Stream::new();
        let mut out = Vec::with_capacity(4 * CHUNKSZ);
        // Feed worker shares in reverse to force reordering.
        for t in (0..threads).rev() {
            for (id, seqs) in cv.iterate_for_thread(t, threads) {
                s.push_chunk(&Data::Bytes(payload(&id)), &seqs);
                drain(&mut s, &mut out);
            }
        }
        drain(&mut s, &mut out);
        assert!(s.is_done());
        assert_eq!(out.len(), 4 * CHUNKSZ, "length mismatch for t={}", threads);
        for seq in 0..4usize {
            let expect = [b'a', b'b', b'c', b'd'][seq];
            assert!(out[seq * CHUNKSZ..(seq + 1) * CHUNKSZ].iter().all(|&b| b == expect));
        }
    }
}

#[test]
fn restore_restore_to_stream() {
    // The same pipeline with a different worker count produces the same
    // bytes.
    let pairs = vec![pair("0", "aaaa"), pair("1", "bbbb")];
    let cv = ChunkVec::decode(&pairs, 2 * CHUNKSZ as u64).expect("decode");
    let mut images: Vec<Vec<u8>> = Vec::new();
    for threads in [1usize, 2] {
        let mut s = Stream::new();
        let mut out = Vec::new();
        for t in 0..threads {
            for (id, seqs) in cv.iterate_for_thread(t, threads) {
                s.push_chunk(&Data::Bytes(vec![id[0]; CHUNKSZ]), &seqs);
            }
        }
        drain(&mut s, &mut out);
        assert!(s.is_done());
        images.push(out);
    }
    assert_eq!(images[0], images[1], "restored image contents mismatch");
}

#[test]
fn worker_count_clamp() {
    assert_eq!(Extractor::threads_for(0), 1);
    assert_eq!(Extractor::threads_for(1), 1);
    assert_eq!(Extractor::threads_for(2), 1);
    assert_eq!(Extractor::threads_for(10), 5);
    assert_eq!(Extractor::threads_for(120), 60);
    assert_eq!(Extractor::threads_for(500), 60);
}

#[test]
fn extractor_thread_settings() {
    let mut e = Extractor::new();
    assert!(e.threads >= 1 && e.threads <= 60);
    assert!(!e.progress);
    e.threads(7);
    assert_eq!(e.threads, 7);
    e.threads(0); // ignored
    assert_eq!(e.threads, 7);
    e.progress(true);
    assert!(e.progress);
}
