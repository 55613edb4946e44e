//! Chunked store backend: version gating and chunk file layout.
//!
//! A store is a directory with a `chunks/` subdirectory whose `store` file
//! trims to the version tag `v2`. Chunk files fan out under `chunks/` by
//! the first two characters of their content-addressed ID. Reading and
//! writing files is the caller's business; this module decides whether a
//! store opens and where a chunk lives.

use vstd::prelude::*;

use crate::util::{append_bytes, spec_trim, trim_ascii};

verus! {

/// Errors of the chunk codec and the chunk store backend.
#[derive(Debug)]
pub enum Error {
    /// Store metadata is missing.
    NotFound,
    /// The store carries an unexpected version tag.
    VersionTag(Vec<u8>),
    /// Chunk data to be framed, or handed back by a decompressor, has
    /// the wrong size; holds that size. A stored payload of the wrong
    /// size is rejected by the codec itself and reported as `Lzo`.
    Missized(usize),
    /// A compressed chunk does not start with the magic header.
    Magic,
    /// The LZO codec failed; holds its report.
    Lzo(String),
    /// An I/O error, reported by the caller; holds its report.
    Io(String),
}

/// The accepted store version tag: the bytes of `v2`.
pub open spec fn v2_tag() -> Seq<u8> {
    seq![('v' as u8), ('2' as u8)]
}

/// The bytes of `/chunks/`.
pub open spec fn chunks_infix() -> Seq<u8> {
    seq![
        ('/' as u8),
        ('c' as u8),
        ('h' as u8),
        ('u' as u8),
        ('n' as u8),
        ('k' as u8),
        ('s' as u8),
        ('/' as u8),
    ]
}

/// The bytes of `.chunk.lzo`.
pub open spec fn chunk_suffix() -> Seq<u8> {
    seq![
        ('.' as u8),
        ('c' as u8),
        ('h' as u8),
        ('u' as u8),
        ('n' as u8),
        ('k' as u8),
        ('.' as u8),
        ('l' as u8),
        ('z' as u8),
        ('o' as u8),
    ]
}

/// The path of the chunk file for `id` below the store directory `dir`:
/// `dir/chunks/<id[0..2]>/<id>.chunk.lzo`.
pub open spec fn spec_filename(dir: Seq<u8>, id: Seq<u8>) -> Seq<u8> {
    dir + chunks_infix() + id.subrange(0, 2) + seq![('/' as u8)] + id + chunk_suffix()
}

/// A chunked v2 store rooted at `dir`.
#[derive(Debug)]
pub struct Backend {
    /// The store directory as a path in bytes.
    pub dir: Vec<u8>,
}

impl Backend {
    /// Opens the store: accepts it exactly when the contents of its
    /// `chunks/store` file, handed in by the caller, trim to `v2`.
    pub fn open(dir: &[u8], store_contents: &[u8]) -> (r: Result<Backend, Error>)
        ensures
            spec_trim(store_contents@) == v2_tag() ==> (r matches Ok(b) && b.dir@ == dir@),
            spec_trim(store_contents@) != v2_tag() ==> (r matches Err(Error::VersionTag(t)) && t@
                == spec_trim(store_contents@)),
    {
        let tag = trim_ascii(store_contents);
        let mut v2: Vec<u8> = Vec::new();
        v2.push('v' as u8);
        v2.push('2' as u8);
        proof {
            assert(v2@ =~= v2_tag());
        }
        if crate::util::bytes_eq(tag.as_slice(), v2.as_slice()) {
            let mut d: Vec<u8> = Vec::new();
            append_bytes(&mut d, dir);
            proof {
                assert(d@ =~= dir@);
            }
            Ok(Backend { dir: d })
        } else {
            Err(Error::VersionTag(tag))
        }
    }

    /// Computes the file name for the chunk with the given ID, relative to
    /// the backup base directory.
    pub fn filename(&self, id: &[u8]) -> (r: Vec<u8>)
        requires
            id@.len() >= 2,
        ensures
            r@ == spec_filename(self.dir@, id@),
    {
        let mut r: Vec<u8> = Vec::new();
        append_bytes(&mut r, self.dir.as_slice());
        let mut infix: Vec<u8> = Vec::new();
        infix.push('/' as u8);
        infix.push('c' as u8);
        infix.push('h' as u8);
        infix.push('u' as u8);
        infix.push('n' as u8);
        infix.push('k' as u8);
        infix.push('s' as u8);
        infix.push('/' as u8);
        proof {
            assert(infix@ =~= chunks_infix());
        }
        append_bytes(&mut r, infix.as_slice());
        r.push(id[0]);
        r.push(id[1]);
        r.push('/' as u8);
        append_bytes(&mut r, id);
        let mut suffix: Vec<u8> = Vec::new();
        suffix.push('.' as u8);
        suffix.push('c' as u8);
        suffix.push('h' as u8);
        suffix.push('u' as u8);
        suffix.push('n' as u8);
        suffix.push('k' as u8);
        suffix.push('.' as u8);
        suffix.push('l' as u8);
        suffix.push('z' as u8);
        suffix.push('o' as u8);
        proof {
            assert(suffix@ =~= chunk_suffix());
        }
        append_bytes(&mut r, suffix.as_slice());
        proof {
            assert(id@.subrange(0, 2) =~= seq![id@[0], id@[1]]);
            assert(r@ =~= spec_filename(self.dir@, id@));
        }
        r
    }
}

} // verus!
