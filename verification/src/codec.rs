//! Chunk codec: the 5-byte magic header and the LZO payload.
//!
//! A compressed chunk file holds the byte `0xF0`, the uncompressed chunk
//! size as a big-endian 32-bit integer, and the LZO block of the chunk
//! data. Decoding checks the header, decompresses, and insists that
//! exactly one chunk of data comes out.

use vstd::prelude::*;

use crate::backend::Error;
use crate::util::{append_bytes, bytes_eq};
use crate::CHUNKSZ;
use vstd::slice::slice_subrange;

verus! {

/// The result of LZO1X-1 compression of a byte sequence.
pub uninterp spec fn lzo_block(data: Seq<u8>) -> Seq<u8>;

/// The magic header: `0xF0` followed by the chunk size (4 MiB) big-endian.
pub open spec fn magic() -> Seq<u8> {
    seq![0xF0u8, 0x00u8, 0x40u8, 0x00u8, 0x00u8]
}

/// A well-formed chunk file image: the magic header followed by the LZO
/// block of the chunk data.
pub open spec fn spec_encode(data: Seq<u8>) -> Seq<u8> {
    magic() + lzo_block(data)
}

/// Relies on lzo1x::compress: LZO1X compression at the default level, a
/// deterministic function of the input bytes alone.
#[verifier::external_body]
fn lzo_compress(data: &[u8]) -> (r: Vec<u8>)
    ensures
        r@ == lzo_block(data@),
{
    lzo1x::compress(data, lzo1x::CompressLevel::default())
}

/// What decompression returns when its input is an LZO block: the bytes
/// the block was compressed from, provided the buffer length matches
/// theirs.
pub open spec fn lzo_unblocks(data: Seq<u8>, buf_len: int, r: Result<Vec<u8>, String>) -> bool {
    forall|orig: Seq<u8>|
        data == #[trigger] lzo_block(orig) && orig.len() == buf_len ==> (r matches Ok(d) && d@
            == orig)
}

/// Relies on lzo1x::decompress: decompressing an LZO block into a buffer
/// of the original's exact length returns the bytes the block was
/// compressed from, and anything else is rejected, never more than
/// `buf_len` bytes produced.
#[verifier::external_body]
fn lzo_decompress(data: &[u8], buf_len: usize) -> (r: Result<Vec<u8>, String>)
    ensures
        lzo_unblocks(data@, buf_len as int, r),
        r matches Ok(d) ==> d@.len() == buf_len,
{
    let mut out = vec![0u8; buf_len];
    match lzo1x::decompress(data, &mut out) {
        Ok(()) => Ok(out),
        Err(e) => Err(format!("{:?}", e)),
    }
}

/// The magic header as a vector.
fn magic_vec() -> (r: Vec<u8>)
    ensures
        r@ == magic(),
{
    let mut v: Vec<u8> = Vec::new();
    v.push(0xF0u8);
    v.push(0x00u8);
    v.push(0x40u8);
    v.push(0x00u8);
    v.push(0x00u8);
    proof {
        assert(v@ =~= magic());
    }
    v
}

/// Frames a chunk for the store: prepends the magic header to the
/// LZO-compressed data. Only exact chunk-sized input is accepted.
pub fn encode(data: &[u8]) -> (r: Result<Vec<u8>, Error>)
    ensures
        data@.len() == CHUNKSZ ==> (r matches Ok(out) && out@ == spec_encode(data@)),
        data@.len() != CHUNKSZ ==> (r matches Err(Error::Missized(n)) && n == data@.len()),
{
    if data.len() != CHUNKSZ {
        return Err(Error::Missized(data.len()));
    }
    let compressed = lzo_compress(data);
    let mut out = magic_vec();
    append_bytes(&mut out, compressed.as_slice());
    Ok(out)
}

/// Unframes and decompresses a chunk file image.
///
/// Fails with `Magic` exactly when the five-byte header is not there, and
/// otherwise with `Lzo` or `Missized` when the payload does not
/// decompress into exactly one chunk. Decoding a well-formed encoding of
/// chunk-sized data returns that data. The codec in use decompresses
/// into a chunk-sized buffer and reports a decompressed-length mismatch
/// as a codec failure of its own, so a payload of the wrong size
/// surfaces as `Lzo`; the `Missized` arm stays as a guard on whatever a
/// decompressor hands back.
pub fn decode(buf: &[u8]) -> (r: Result<Vec<u8>, Error>)
    ensures
        r matches Ok(d) ==> d@.len() == CHUNKSZ,
        forall|orig: Seq<u8>|
            orig.len() == CHUNKSZ && buf@ == #[trigger] spec_encode(orig) ==> (r matches Ok(d)
                && d@ == orig),
        (r matches Err(Error::Magic)) <==> (buf@.len() < 5 || buf@.subrange(0, 5) != magic()),
        r matches Err(e) ==> e is Magic || e is Missized || e is Lzo,
{
    proof {
        assert forall|orig: Seq<u8>| buf@ == #[trigger] spec_encode(orig) implies buf@.len() >= 5
            && buf@.subrange(0, 5) == magic() && buf@.subrange(5, buf@.len() as int) == lzo_block(
            orig,
        ) by {
            assert(buf@.subrange(0, 5) =~= magic());
            assert(buf@.subrange(5, buf@.len() as int) =~= lzo_block(orig));
        }
    }
    if buf.len() < 5 {
        return Err(Error::Magic);
    }
    let header = slice_subrange(buf, 0, 5);
    let m = magic_vec();
    if !bytes_eq(header, m.as_slice()) {
        return Err(Error::Magic);
    }
    let payload = slice_subrange(buf, 5, buf.len());
    match lzo_decompress(payload, CHUNKSZ) {
        Err(detail) => Err(Error::Lzo(detail)),
        Ok(data) => {
            if data.len() != CHUNKSZ {
                Err(Error::Missized(data.len()))
            } else {
                Ok(data)
            }
        },
    }
}

} // verus!
