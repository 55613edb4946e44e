//! Tests for the random-access restore target: the sparse heuristic and
//! the sub-block write planning.

use backy_extract::writeout::{nonzero_blocks, RandomAccess, BLKSIZE};
use backy_extract::CHUNKSZ;

#[test]
fn sparse_mode_should_be_guessed_on_empty_file() {
    // A sixteen MiB target of nothing but zeros: every patrol probe comes
    // back zero, so the target counts as discarded and is written
    // sparsely.
    let w = RandomAccess::new(b"dev".to_vec(), None).build(4 * CHUNKSZ as u64, 1);
    assert!(w.worth_probing());
    let sample = w.patrol_sample(4);
    assert_eq!(sample[0], 0);
    assert_eq!(sample[1], 3);
    let probes: Vec<bool> = sample.iter().map(|_| true).collect();
    assert!(w.guess_sparse(&probes));
}

#[test]
fn sparse_mode_should_not_be_guessed_on_nonempty_file() {
    // Writing one byte into the target makes some probe non-zero, and the
    // heuristic falls back to non-sparse mode.
    let w = RandomAccess::new(b"dev".to_vec(), None).build(4 * CHUNKSZ as u64, 1);
    let sample = w.patrol_sample(4);
    let probes: Vec<bool> = sample.iter().map(|&s| s != 3).collect();
    assert!(!w.guess_sparse(&probes));
}

#[test]
fn sparse_choice_policy() {
    let w = RandomAccess::new(b"dev".to_vec(), None).build(4 * CHUNKSZ as u64, 1);
    // An explicit user choice wins over everything.
    assert!(w.sparse_choice(Some(true), false, &vec![false]));
    assert!(!w.sparse_choice(Some(false), true, &vec![]));
    // A target truncated to size holds only zeros.
    assert!(w.sparse_choice(None, true, &vec![]));
    // A block device follows the patrol probes.
    assert!(w.sparse_choice(None, false, &vec![true, true]));
    assert!(!w.sparse_choice(None, false, &vec![true, false]));
    // Small images are never probed and never sparse.
    let small = RandomAccess::new(b"dev".to_vec(), None).build(2 * CHUNKSZ as u64, 1);
    assert!(!small.sparse_choice(None, false, &vec![]));
}

#[test]
fn small_images_are_never_probed() {
    let w = RandomAccess::new(b"dev".to_vec(), None).build(2 * CHUNKSZ as u64, 1);
    assert!(!w.worth_probing());
    let w2 = RandomAccess::new(b"dev".to_vec(), None).build(2 * CHUNKSZ as u64 + 1, 1);
    assert!(w2.worth_probing());
}

#[test]
fn patrol_sample_stays_in_range() {
    let w = RandomAccess::new(b"dev".to_vec(), None).build(1000 * CHUNKSZ as u64, 4);
    let sample = w.patrol_sample(1000);
    assert_eq!(sample.len(), 2 + (1000 / 100 - 2));
    assert_eq!(sample[0], 0);
    assert_eq!(sample[1], 999);
    assert!(sample.iter().all(|&s| s < 1000));
}

#[test]
fn nonzero_blocks_are_exact() {
    let mut data = vec![0u8; CHUNKSZ];
    data[5 * BLKSIZE + 17] = 9;
    data[40 * BLKSIZE] = 1;
    data[41 * BLKSIZE - 1] = 2; // still block 40
    let blocks = nonzero_blocks(&data);
    assert_eq!(blocks, vec![5, 40]);
    assert!(nonzero_blocks(&vec![0u8; CHUNKSZ]).is_empty());
}

#[test]
fn sparse_writes_reproduce_the_chunk() {
    // Writing only the listed sub-blocks over a zeroed target gives the
    // same bytes as writing the whole chunk.
    let mut data = vec![0u8; CHUNKSZ];
    for i in 0..BLKSIZE {
        data[7 * BLKSIZE + i] = (i % 200) as u8;
        data[12 * BLKSIZE + i] = 33;
    }
    data[63 * BLKSIZE] = 255;
    let mut target = vec![0u8; CHUNKSZ];
    for b in nonzero_blocks(&data) {
        target[b * BLKSIZE..(b + 1) * BLKSIZE]
            .copy_from_slice(&data[b * BLKSIZE..(b + 1) * BLKSIZE]);
    }
    assert_eq!(target, data, "restored image contents mismatch (sparse=true)");
}

#[test]
fn restore_to_file() {
    // Continuous and sparse plans fill a target with identical bytes.
    let mut data = vec![0u8; CHUNKSZ];
    for i in 0..1024 {
        data[i] = (i % 97) as u8;
        data[CHUNKSZ - 1 - i] = (i % 89) as u8;
    }
    let continuous = data.clone();
    let mut sparse = vec![0u8; CHUNKSZ];
    for b in nonzero_blocks(&data) {
        sparse[b * BLKSIZE..(b + 1) * BLKSIZE]
            .copy_from_slice(&data[b * BLKSIZE..(b + 1) * BLKSIZE]);
    }
    assert_eq!(continuous, sparse, "restored image contents mismatch");
}
