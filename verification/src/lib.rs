//! Restore library for a content-addressed, chunked, LZO-compressed
//! disk-image store.
//!
//! A backup revision maps fixed-size chunk positions (sequence numbers) to
//! content-addressed chunk files. This crate verifies the restoration and
//! random-access logic: the chunk codec, the store layout, the revision map
//! with its deduplication-aware reverse grouping, the stream reordering
//! queue, the sparse-write planning, and the per-revision copy-on-write page
//! engine. File and network I/O stay outside the library; callers hand in
//! file contents as plain bytes and receive plain values back.

pub mod backend;
pub mod cache;
pub mod chunkvec;
pub mod codec;
pub mod fuse_access;
pub mod rev;
pub mod stream;
pub mod util;
pub mod writeout;

use vstd::prelude::*;

verus! {

/// Size of an uncompressed chunk as a power of two: chunks are 4 MiB.
pub const CHUNKSZ_LOG: u64 = 22;

/// Size of an uncompressed chunk in bytes.
pub const CHUNKSZ: usize = 4194304;

/// Errors of the bulk extraction path.
#[derive(Debug)]
pub enum ExtractError {
    /// The revision specification could not be read; holds its path and a
    /// report.
    LoadSpec(Vec<u8>, String),
    /// The revision map document was malformed; holds a report.
    DecodeMap(String),
    /// The image size is not a multiple of the chunk size; holds that size.
    UnalignedSize(u64),
    /// The advisory purge lock could not be taken; holds the directory.
    Lock(Vec<u8>, String),
    /// Loading or decoding one chunk failed.
    InvalidChunk { seq: u64, id: Vec<u8>, source: crate::backend::Error },
    /// The chunk store backend failed.
    Backend(crate::backend::Error),
    /// A pipeline channel closed early.
    SendChunk,
    /// The restore target failed.
    WriteError(crate::writeout::Error),
}

/// Transport of a single image data chunk.
///
/// The data is to be placed at every logical position listed in `seqs`;
/// position `seq` starts at byte offset `seq * CHUNKSZ` of the image.
pub struct Chunk {
    /// The chunk contents.
    pub data: Data,
    /// The sequence numbers referencing this chunk, in ascending order.
    pub seqs: Vec<u64>,
}

/// A block of uncompressed image contents of chunk size.
pub enum Data {
    /// Explicit contents.
    Bytes(Vec<u8>),
    /// Shortcut for a block that consists only of zeros.
    Zero,
}

/// The image bytes a data block stands for.
pub open spec fn data_bytes(d: Data) -> Seq<u8> {
    match d {
        Data::Bytes(v) => v@,
        Data::Zero => util::zeros(CHUNKSZ as nat),
    }
}

/// A data block of proper chunk size.
pub open spec fn data_wf(d: Data) -> bool {
    data_bytes(d).len() == CHUNKSZ
}

/// Converts a file position or size into a chunk sequence number.
pub fn pos2chunk(pos: u64) -> (seq: u64)
    ensures
        seq == pos as int / CHUNKSZ as int,
{
    pos / (CHUNKSZ as u64)
}

/// Converts a chunk sequence number into a file offset.
pub fn chunk2pos(seq: u64) -> (pos: u64)
    requires
        seq * CHUNKSZ <= u64::MAX,
    ensures
        pos == seq * CHUNKSZ,
{
    seq * (CHUNKSZ as u64)
}

/// Relies on num_cpus::get: the number of logical CPUs, at least one.
#[verifier::external_body]
fn cpu_count() -> (r: usize)
    ensures
        r >= 1,
{
    num_cpus::get()
}

/// Controls the extraction process: how many decoder workers run and
/// whether progress is reported. The caller reads the revision file,
/// holds the purge lock, runs the workers and the writer; the decisions
/// they follow live in this library.
pub struct Extractor {
    /// Number of decompression threads.
    pub threads: u8,
    /// Whether to report progress while restoring.
    pub progress: bool,
}

impl Extractor {
    /// A fresh configuration with the default worker count and progress
    /// reporting off.
    pub fn new() -> (r: Extractor)
        ensures
            1 <= r.threads <= 60,
            !r.progress,
    {
        Extractor { threads: Extractor::default_threads(), progress: false }
    }

    /// The worker count derived from a CPU count: half of it, clamped to
    /// at least one and at most sixty.
    pub fn threads_for(cpus: usize) -> (r: u8)
        ensures
            r as int == if cpus as int / 2 < 1 {
                1int
            } else if cpus as int / 2 > 60 {
                60int
            } else {
                cpus as int / 2
            },
            1 <= r <= 60,
    {
        let c = cpus / 2;
        if c < 1 {
            1
        } else if c > 60 {
            60
        } else {
            c as u8
        }
    }

    /// The default worker count: `threads_for` applied to the number of
    /// CPUs of this machine.
    pub fn default_threads() -> (r: u8)
        ensures
            1 <= r <= 60,
    {
        Extractor::threads_for(cpu_count())
    }

    /// Sets the number of decompression threads; zero is ignored.
    pub fn threads(&mut self, n: u8)
        ensures
            n > 0 ==> final(self).threads == n,
            n == 0 ==> final(self).threads == old(self).threads,
            final(self).progress == old(self).progress,
    {
        if n > 0 {
            self.threads = n;
        }
    }

    /// Enables or disables progress reporting.
    pub fn progress(&mut self, show: bool)
        ensures
            final(self).progress == show,
            final(self).threads == old(self).threads,
    {
        self.progress = show;
    }
}

} // verus!
