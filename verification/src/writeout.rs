//! Restore targets: planning for the stream and random-access writers.
//!
//! The stream writer reorders chunks back into ascending sequence order
//! (see `stream`). The random-access writer computes where each chunk
//! lands in the target and, in sparse mode, which 64 KiB sub-blocks are
//! worth writing; the positional writes themselves are the caller's
//! business.

use vstd::prelude::*;

use crate::util::{is_zero, overlay, zeros};
use crate::CHUNKSZ;

verus! {

/// Errors of the restore writers.
#[derive(Debug)]
pub enum Error {
    /// The output file could not be opened; holds its path and a report.
    OutputFile(Vec<u8>, String),
    /// Writing a chunk failed; holds the sequence number, the path and a
    /// report.
    WriteChunkFile(u64, Vec<u8>, String),
    /// A pipeline channel closed early.
    ChannelSend,
}

/// Size of a sub-block in sparse mode: only 64 KiB blocks that differ
/// from all zeros are written.
pub const BLKSIZE: usize = 65536;

/// File/block device restore target.
///
/// Chunks are written out of order as they arrive. Zeros are skipped
/// (not written) when sparse mode is on.
pub struct RandomAccess {
    /// The output path in bytes.
    pub path: Vec<u8>,
    /// Explicit sparse-mode choice; `None` leaves it to the heuristic.
    pub sparse: Option<bool>,
}

impl RandomAccess {
    /// Creates a restore target description. With `sparse` unset, a
    /// heuristic decides: files that can be truncated are written
    /// sparsely, block devices only if a patrol read finds no data.
    pub fn new(path: Vec<u8>, sparse: Option<bool>) -> (r: RandomAccess)
        ensures
            r.path == path,
            r.sparse == sparse,
    {
        RandomAccess { path, sparse }
    }

    /// Finalizes the target with the totals the extraction pipeline knows.
    pub fn build(self, size: u64, threads: u8) -> (r: RandomWriteOut)
        ensures
            r.path == self.path,
            r.sparse == self.sparse,
            r.size == size,
            r.threads == threads,
    {
        RandomWriteOut { path: self.path, sparse: self.sparse, size, threads }
    }
}

/// A finalized random-access restore target.
pub struct RandomWriteOut {
    /// The output path in bytes.
    pub path: Vec<u8>,
    /// Explicit sparse-mode choice; `None` leaves it to the heuristic.
    pub sparse: Option<bool>,
    /// Total image size in bytes.
    pub size: u64,
    /// Number of writer threads.
    pub threads: u8,
}

impl RandomWriteOut {
    /// Whether the sparse heuristic probes the target at all: images of at
    /// most two chunks are always written non-sparsely.
    pub fn worth_probing(&self) -> (r: bool)
        ensures
            r == (self.size > 2 * CHUNKSZ),
    {
        self.size > 2 * (CHUNKSZ as u64)
    }

    /// Decides sparse mode from the patrol probes: the target counts as
    /// discarded, and is written sparsely, exactly when every probed chunk
    /// was all zeros.
    pub fn guess_sparse(&self, probes: &Vec<bool>) -> (r: bool)
        ensures
            r == (forall|i: int| 0 <= i < probes@.len() ==> probes@[i]),
    {
        let n = probes.len();
        let mut i: usize = 0;
        while i < n
            invariant
                0 <= i <= n,
                probes@.len() == n,
                forall|j: int| 0 <= j < i ==> probes@[j],
            decreases n - i,
        {
            if !probes[i] {
                return false;
            }
            i += 1;
        }
        true
    }

    /// The whole sparse-mode policy in one place: an explicit user choice
    /// wins; a target that was truncated to size holds only zeros and is
    /// written sparsely; any other target is a block device, which counts
    /// as discarded exactly when it is worth probing at all and every
    /// patrol probe came back zero.
    pub fn sparse_choice(&self, user: Option<bool>, truncated: bool, probes: &Vec<bool>) -> (r:
        bool)
        ensures
            user matches Some(c) ==> r == c,
            user is None && truncated ==> r,
            user is None && !truncated ==> r == (self.size > 2 * CHUNKSZ && (forall|i: int|
                0 <= i < probes@.len() ==> probes@[i])),
    {
        match user {
            Some(c) => c,
            None => {
                if truncated {
                    true
                } else {
                    self.worth_probing() && self.guess_sparse(probes)
                }
            },
        }
    }
}

/// Relies on rand::random_range: a number drawn uniformly below `n`.
#[verifier::external_body]
fn rand_below(n: u64) -> (r: u64)
    requires
        n > 0,
    ensures
        r < n,
{
    rand::random_range(0..n)
}

impl RandomWriteOut {
    /// The patrol sample for the sparse heuristic: the first chunk, the
    /// last chunk, and about one in a hundred chunks drawn at random in
    /// between. The caller reads each sampled chunk; the target counts as
    /// discarded only if every one is all zeros.
    pub fn patrol_sample(&self, nchunks: u64) -> (r: Vec<u64>)
        requires
            nchunks >= 2,
        ensures
            r@.len() == 2 + if nchunks as int / 100 >= 2 {
                nchunks as int / 100 - 2
            } else {
                0
            },
            r@[0] == 0,
            r@[1] == nchunks - 1,
            forall|i: int| 0 <= i < r@.len() ==> #[trigger] r@[i] < nchunks,
    {
        let mut r: Vec<u64> = Vec::new();
        r.push(0);
        r.push(nchunks - 1);
        let n = nchunks / 100;
        if n >= 2 {
            let extra = n - 2;
            let mut i: u64 = 0;
            while i < extra
                invariant
                    0 <= i <= extra,
                    nchunks >= 2,
                    r@.len() == 2 + i,
                    r@[0] == 0,
                    r@[1] == nchunks - 1,
                    forall|k: int| 0 <= k < r@.len() ==> #[trigger] r@[k] < nchunks,
                decreases extra - i,
            {
                let draw = rand_below(nchunks);
                r.push(draw);
                i += 1;
            }
        }
        r
    }
}

/// The number of sub-blocks of a chunk.
pub open spec fn nblocks() -> int {
    CHUNKSZ as int / BLKSIZE as int
}

/// Whether sub-block `b` of the chunk data is all zeros.
pub open spec fn block_zero(d: Seq<u8>, b: int) -> bool {
    forall|i: int| b * BLKSIZE <= i < (b + 1) * BLKSIZE ==> #[trigger] d[i] == 0
}

/// The chunk data with sub-block `b` of `data` written over it.
pub open spec fn apply_block(acc: Seq<u8>, data: Seq<u8>, b: int) -> Seq<u8> {
    overlay(acc, b * BLKSIZE, data.subrange(b * BLKSIZE, (b + 1) * BLKSIZE))
}

/// The chunk data with the listed sub-blocks of `data` written over it.
pub open spec fn apply_blocks(acc: Seq<u8>, data: Seq<u8>, blocks: Seq<usize>) -> Seq<u8>
    decreases blocks.len(),
{
    if blocks.len() == 0 {
        acc
    } else {
        apply_block(apply_blocks(acc, data, blocks.drop_last()), data, blocks.last() as int)
    }
}

/// The sub-blocks of a chunk worth writing in sparse mode: exactly those
/// that differ from all zeros, in ascending order.
pub fn nonzero_blocks(data: &[u8]) -> (r: Vec<usize>)
    requires
        data@.len() == CHUNKSZ,
    ensures
        forall|k1: int, k2: int| 0 <= k1 < k2 < r@.len() ==> #[trigger] r@[k1] < #[trigger] r@[k2],
        forall|k: int|
            #![trigger r@[k]]
            0 <= k < r@.len() ==> 0 <= r@[k] < nblocks() && !block_zero(data@, r@[k] as int),
        forall|b: int|
            0 <= b < nblocks() && !block_zero(data@, b) ==> exists|k: int|
                0 <= k < r@.len() && r@[k] == b,
{
    let total = CHUNKSZ / BLKSIZE;
    let mut r: Vec<usize> = Vec::new();
    let mut b: usize = 0;
    while b < total
        invariant
            0 <= b <= total,
            total == nblocks(),
            data@.len() == CHUNKSZ,
            forall|k1: int, k2: int|
                0 <= k1 < k2 < r@.len() ==> #[trigger] r@[k1] < #[trigger] r@[k2],
            forall|k: int|
                #![trigger r@[k]]
                0 <= k < r@.len() ==> 0 <= r@[k] < b && !block_zero(data@, r@[k] as int),
            forall|bb: int|
                0 <= bb < b && !block_zero(data@, bb) ==> exists|k: int|
                    0 <= k < r@.len() && r@[k] == bb,
        decreases total - b,
    {
        let start = b * BLKSIZE;
        let blockslice = vstd::slice::slice_subrange(data, start, start + BLKSIZE);
        let zero = is_zero(blockslice);
        proof {
            assert(blockslice@ =~= data@.subrange(
                b as int * BLKSIZE,
                (b as int + 1) * BLKSIZE,
            ));
            if zero {
                assert forall|i: int|
                    b as int * BLKSIZE <= i < (b as int + 1) * BLKSIZE implies #[trigger] data@[i]
                    == 0 by {
                    assert(blockslice@[i - b as int * BLKSIZE] == data@[i]);
                    assert(blockslice@[i - b as int * BLKSIZE] == 0);
                }
                assert(block_zero(data@, b as int));
            } else {
                let w = choose|i: int|
                    0 <= i < blockslice@.len() && #[trigger] blockslice@[i] != 0;
                assert(blockslice@ != zeros(blockslice@.len()));
                assert(exists|i: int| 0 <= i < blockslice@.len() && #[trigger] blockslice@[i] != 0)
                    by {
                    if forall|i: int| 0 <= i < blockslice@.len() ==> #[trigger] blockslice@[i]
                        == 0 {
                        assert(blockslice@ =~= zeros(blockslice@.len()));
                    }
                }
                let w2 = choose|i: int|
                    0 <= i < blockslice@.len() && #[trigger] blockslice@[i] != 0;
                assert(data@[b as int * BLKSIZE + w2] != 0);
                assert(!block_zero(data@, b as int));
            }
        }
        if !zero {
            let ghost old_r = r@;
            r.push(b);
            proof {
                assert forall|bb: int|
                    0 <= bb <= b && !block_zero(data@, bb) implies exists|k: int|
                    0 <= k < r@.len() && r@[k] == bb by {
                    if bb < b {
                        let k = choose|k: int| 0 <= k < old_r.len() && old_r[k] == bb;
                        assert(r@[k] == bb);
                    } else {
                        assert(r@[r@.len() - 1] == bb);
                    }
                }
            }
        }
        b += 1;
    }
    r
}

/// Writing only the listed sub-blocks touches no position outside them
/// and copies `data` inside them, whatever the order of the writes.
proof fn lemma_apply_blocks_at(acc: Seq<u8>, data: Seq<u8>, blocks: Seq<usize>, i: int)
    requires
        acc.len() == CHUNKSZ,
        data.len() == CHUNKSZ,
        forall|k: int| #![trigger blocks[k]] 0 <= k < blocks.len() ==> 0 <= blocks[k] < nblocks(),
        0 <= i < CHUNKSZ,
    ensures
        apply_blocks(acc, data, blocks).len() == CHUNKSZ,
        (exists|k: int| 0 <= k < blocks.len() && #[trigger] blocks[k] * BLKSIZE <= i < (blocks[k]
            + 1) * BLKSIZE) ==> apply_blocks(acc, data, blocks)[i] == data[i],
        !(exists|k: int| 0 <= k < blocks.len() && #[trigger] blocks[k] * BLKSIZE <= i < (blocks[k]
            + 1) * BLKSIZE) ==> apply_blocks(acc, data, blocks)[i] == acc[i],
    decreases blocks.len(),
{
    if blocks.len() > 0 {
        let rest = blocks.drop_last();
        let b = blocks.last() as int;
        lemma_apply_blocks_at(acc, data, rest, i);
        let mid = apply_blocks(acc, data, rest);
        assert(apply_blocks(acc, data, blocks) == apply_block(mid, data, b));
        if b * BLKSIZE <= i < (b + 1) * BLKSIZE {
            assert(apply_block(mid, data, b)[i] == data.subrange(
                b * BLKSIZE,
                (b + 1) * BLKSIZE,
            )[i - b * BLKSIZE]);
            assert(blocks[blocks.len() - 1] * BLKSIZE <= i < (blocks[blocks.len() - 1] + 1)
                * BLKSIZE);
        } else {
            assert(apply_block(mid, data, b)[i] == mid[i]);
            assert forall|k: int|
                0 <= k < blocks.len() && #[trigger] blocks[k] * BLKSIZE <= i < (blocks[k] + 1)
                * BLKSIZE implies exists|k2: int|
                0 <= k2 < rest.len() && #[trigger] rest[k2] * BLKSIZE <= i < (rest[k2] + 1)
                * BLKSIZE by {
                assert(k < blocks.len() - 1);
                assert(rest[k] == blocks[k]);
            }
            assert forall|k2: int|
                0 <= k2 < rest.len() && #[trigger] rest[k2] * BLKSIZE <= i < (rest[k2] + 1)
                * BLKSIZE implies exists|k: int|
                0 <= k < blocks.len() && #[trigger] blocks[k] * BLKSIZE <= i < (blocks[k] + 1)
                * BLKSIZE by {
                assert(blocks[k2] == rest[k2]);
            }
        }
    }
}

/// Sparse equivalence: writing only the non-zero sub-blocks of a chunk
/// over an all-zero target produces exactly the chunk, byte for byte, so
/// sparse and continuous mode leave identical file contents.
pub proof fn lemma_sparse_equivalence(data: Seq<u8>, blocks: Seq<usize>)
    requires
        data.len() == CHUNKSZ,
        forall|k1: int, k2: int|
            0 <= k1 < k2 < blocks.len() ==> #[trigger] blocks[k1] < #[trigger] blocks[k2],
        forall|k: int|
            #![trigger blocks[k]]
            0 <= k < blocks.len() ==> 0 <= blocks[k] < nblocks() && !block_zero(
                data,
                blocks[k] as int,
            ),
        forall|b: int|
            0 <= b < nblocks() && !block_zero(data, b) ==> exists|k: int|
                0 <= k < blocks.len() && blocks[k] == b,
    ensures
        apply_blocks(zeros(CHUNKSZ as nat), data, blocks) =~= data,
{
    let base = zeros(CHUNKSZ as nat);
    let result = apply_blocks(base, data, blocks);
    lemma_apply_blocks_at(base, data, blocks, 0);
    assert(result.len() == CHUNKSZ);
    assert forall|i: int| 0 <= i < CHUNKSZ implies result[i] == data[i] by {
        lemma_apply_blocks_at(base, data, blocks, i);
        let b = i / (BLKSIZE as int);
        assert(b * BLKSIZE <= i < (b + 1) * BLKSIZE) by (nonlinear_arith)
            requires
                b == i / (BLKSIZE as int),
                0 <= i,
                BLKSIZE > 0,
        ;
        assert(0 <= b < nblocks()) by (nonlinear_arith)
            requires
                b == i / (BLKSIZE as int),
                0 <= i < CHUNKSZ,
                BLKSIZE > 0,
                nblocks() == CHUNKSZ as int / BLKSIZE as int,
                CHUNKSZ as int % BLKSIZE as int == 0,
        ;
        if block_zero(data, b) {
            // No listed block covers a zero sub-block, so the target byte
            // stays zero, which is what the data holds there.
            if exists|k: int|
                0 <= k < blocks.len() && #[trigger] blocks[k] * BLKSIZE <= i < (blocks[k] + 1)
                    * BLKSIZE {
                let k = choose|k: int|
                    0 <= k < blocks.len() && #[trigger] blocks[k] * BLKSIZE <= i < (blocks[k] + 1)
                        * BLKSIZE;
                assert(blocks[k] as int == b) by (nonlinear_arith)
                    requires
                        blocks[k] * BLKSIZE <= i < (blocks[k] as int + 1) * BLKSIZE,
                        b * BLKSIZE <= i < (b + 1) * BLKSIZE,
                        BLKSIZE > 0,
                        blocks[k] >= 0,
                        b >= 0,
                ;
            } else {
                assert(result[i] == base[i]);
                assert(data[i] == 0);
            }
        } else {
            let k = choose|k: int| 0 <= k < blocks.len() && blocks[k] == b;
            assert(blocks[k] * BLKSIZE <= i < (blocks[k] + 1) * BLKSIZE);
            assert(result[i] == data[i]);
        }
    }
}

} // verus!
