//! Random access to revisions with in-memory copy-on-write.
//!
//! A per-revision engine serves `read_at` and `write_at` over the image a
//! revision describes, without ever writing to the store: modified pages
//! live in an unbounded dirty cache for the session, clean pages in a
//! bounded least-recently-used read cache, and the page most recently
//! read stays in an open-page slot so small sequential reads are cheap.
//! The engine does no I/O itself: on a miss it names the chunk it needs,
//! the caller loads and decodes it and hands it back.

use vstd::prelude::*;

use crate::chunkvec::{keys_ok, keys_unique, linear_matches, linearize, view_linear};
use crate::rev::Rev;
use crate::util::{clone_bytes, overlay, overwrite, sub_copy, zero_vec, zeros};
use crate::CHUNKSZ;
use std::num::NonZeroUsize;

verus! {

/// Errors of the random-access engine.
#[derive(Debug)]
pub enum Error {
    /// An I/O error, reported by the caller; holds its report.
    Io(String),
    /// The chunk map document was malformed; holds the revision name and
    /// a report.
    ParseMap(Vec<u8>, String),
    /// The chunk store backend failed.
    Backend(crate::backend::Error),
    /// Loading one chunk failed; holds its ID.
    BackendLoad { chunk_id: Vec<u8>, source: crate::backend::Error },
    /// A revision file name that is not usable.
    InvalidName(Vec<u8>),
    /// The directory holds no revision to serve; holds its path.
    NoRevisions(Vec<u8>),
    /// A read or write past the end of the image.
    UnexpectedEof,
    /// The revision descriptor was rejected.
    Rev(crate::rev::RevError),
}

// ---------------------------------------------------------------------
// The read-only cache: lru::LruCache behind trusted items.
// ---------------------------------------------------------------------

#[verifier::external_type_specification]
#[verifier::external_body]
#[verifier::reject_recursive_types(K)]
#[verifier::reject_recursive_types(V)]
#[verifier::reject_recursive_types(S)]
pub struct ExLruCache<K, V, S>(lru::LruCache<K, V, S>);

/// The concrete read-only cache type: pages by sequence number, with
/// the standard hasher.
pub type RoCache = lru::LruCache<u64, Vec<u8>, std::collections::hash_map::RandomState>;

/// What the read-only cache holds: page contents by sequence number.
pub uninterp spec fn lru_pages(c: RoCache) -> Map<u64, Seq<u8>>;

/// A page map with nothing in it.
pub open spec fn no_pages() -> Map<u64, Seq<u8>> {
    Map::empty()
}

/// The capacity the cache was created with.
pub uninterp spec fn lru_cap(c: RoCache) -> nat;

/// Relies on lru::LruCache::new: a fresh, empty cache with the given
/// capacity.
#[verifier::external_body]
fn lru_new(cap: usize) -> (c: RoCache)
    requires
        cap >= 1,
    ensures
        lru_pages(c) == no_pages(),
        lru_cap(c) == cap,
{
    lru::LruCache::with_hasher(
        NonZeroUsize::new(cap).unwrap(),
        std::collections::hash_map::RandomState::new(),
    )
}

/// Relies on lru::LruCache::get: returns the entry under the key, moving
/// it to the front of the use order; the contents stay as they are.
#[verifier::external_body]
fn lru_get<'a>(c: &'a mut RoCache, k: u64) -> (r: Option<&'a Vec<u8>>)
    ensures
        lru_pages(*final(c)) == lru_pages(*old(c)),
        lru_cap(*final(c)) == lru_cap(*old(c)),
        r matches Some(v) ==> (lru_pages(*old(c)).dom().contains(k) && v@ == lru_pages(*old(c))[k]),
        r is None ==> !lru_pages(*old(c)).dom().contains(k),
{
    c.get(&k)
}

/// What lru::LruCache::put leaves behind: the new entry is in, and at
/// most one other entry has left.
pub open spec fn lru_put_post(
    old_m: Map<u64, Seq<u8>>,
    k: u64,
    bytes: Seq<u8>,
    new_m: Map<u64, Seq<u8>>,
    evicted: Option<u64>,
) -> bool {
    match evicted {
        None => new_m == old_m.insert(k, bytes),
        Some(e) => old_m.dom().contains(e) && e != k && new_m == old_m.remove(e).insert(k, bytes),
    }
}

/// Relies on lru::LruCache::put: inserts the entry; when the cache is at
/// capacity and the key is new, the least recently used entry leaves.
#[verifier::external_body]
fn lru_put(c: &mut RoCache, k: u64, v: Vec<u8>)
    ensures
        lru_cap(*final(c)) == lru_cap(*old(c)),
        exists|evicted: Option<u64>|
            lru_put_post(lru_pages(*old(c)), k, v@, lru_pages(*final(c)), evicted),
{
    c.put(k, v);
}

/// Relies on lru::LruCache::pop: removes and returns the entry under the
/// key.
#[verifier::external_body]
fn lru_pop(c: &mut RoCache, k: u64) -> (r: Option<Vec<u8>>)
    ensures
        lru_cap(*final(c)) == lru_cap(*old(c)),
        r matches Some(v) ==> (lru_pages(*old(c)).dom().contains(k) && v@ == lru_pages(*old(c))[k]
            && lru_pages(*final(c)) == lru_pages(*old(c)).remove(k)),
        r is None ==> (!lru_pages(*old(c)).dom().contains(k) && lru_pages(*final(c)) == lru_pages(
            *old(c),
        )),
{
    c.pop(&k)
}

/// Relies on lru::LruCache::clear: drops every entry.
#[verifier::external_body]
fn lru_clear(c: &mut RoCache)
    ensures
        lru_cap(*final(c)) == lru_cap(*old(c)),
        lru_pages(*final(c)) == no_pages(),
{
    c.clear();
}

/// Relies on lru::LruCache::contains: key membership, without touching
/// the use order.
#[verifier::external_body]
fn lru_contains(c: &RoCache, k: u64) -> (r: bool)
    ensures
        r == lru_pages(*c).dom().contains(k),
{
    c.contains(&k)
}

// ---------------------------------------------------------------------
// The dirty cache: an unbounded verified map from sequence number to
// page.
// ---------------------------------------------------------------------

/// The dirty page cache: pages modified during the session. Never
/// evicted, never written back.
pub struct PageMap {
    entries: Vec<(u64, Vec<u8>)>,
    /// Position of each present sequence number in `entries`.
    at: Ghost<Map<u64, int>>,
}

impl PageMap {
    /// The cached pages by sequence number.
    pub closed spec fn contents(self) -> Map<u64, Seq<u8>> {
        Map::new(
            |s: u64| self.at@.dom().contains(s),
            |s: u64| self.entries@[self.at@[s]].1@,
        )
    }

    /// Internal consistency of the position map.
    pub closed spec fn wf(self) -> bool {
        &&& forall|s: u64|
            #![trigger self.at@[s]]
            self.at@.dom().contains(s) ==> 0 <= self.at@[s] < self.entries@.len()
                && self.entries@[self.at@[s]].0 == s
        &&& forall|j: int|
            #![trigger self.entries@[j]]
            0 <= j < self.entries@.len() ==> self.at@.dom().contains(self.entries@[j].0)
                && self.at@[self.entries@[j].0] == j
    }

    /// An empty cache.
    pub fn new() -> (r: PageMap)
        ensures
            r.wf(),
            r.contents() =~= Map::empty(),
    {
        let r = PageMap { entries: Vec::new(), at: Ghost(Map::empty()) };
        proof {
            assert(r.contents() =~= Map::empty());
        }
        r
    }

    /// The page cached under the sequence number, if any.
    pub fn get(&self, seq: u64) -> (r: Option<&Vec<u8>>)
        requires
            self.wf(),
        ensures
            r matches Some(p) ==> (self.contents().dom().contains(seq) && p@
                == self.contents()[seq]),
            r is None ==> !self.contents().dom().contains(seq),
    {
        let n = self.entries.len();
        let mut j: usize = 0;
        while j < n
            invariant
                0 <= j <= n,
                n == self.entries@.len(),
                self.wf(),
                forall|k: int| 0 <= k < j ==> (#[trigger] self.entries@[k]).0 != seq,
            decreases n - j,
        {
            if self.entries[j].0 == seq {
                proof {
                    assert(self.at@[seq] == j as int);
                }
                return Some(&self.entries[j].1);
            }
            j += 1;
        }
        proof {
            if self.at@.dom().contains(seq) {
                assert(self.entries@[self.at@[seq]].0 == seq);
            }
        }
        None
    }

    /// Caches a page under a sequence number not present yet.
    pub fn insert(&mut self, seq: u64, page: Vec<u8>)
        requires
            old(self).wf(),
            !old(self).contents().dom().contains(seq),
        ensures
            final(self).wf(),
            final(self).contents() =~= old(self).contents().insert(seq, page@),
    {
        let ghost old_entries = self.entries@;
        let ghost old_at = self.at@;
        let ghost n = self.entries@.len() as int;
        self.entries.push((seq, page));
        proof {
            self.at@ = old_at.insert(seq, n);
            assert forall|s: u64| #![trigger self.at@[s]] self.at@.dom().contains(s) implies 0
                <= self.at@[s] < self.entries@.len() && self.entries@[self.at@[s]].0 == s by {
                if s == seq {
                    assert(self.entries@[n] == (seq, page));
                } else {
                    assert(self.entries@[old_at[s]] == old_entries[old_at[s]]);
                }
            }
            assert forall|j: int| #![trigger self.entries@[j]] 0 <= j < self.entries@.len() implies
                self.at@.dom().contains(self.entries@[j].0) && self.at@[self.entries@[j].0]
                == j by {
                if j < n {
                    assert(self.entries@[j] == old_entries[j]);
                    assert(old_entries[j].0 != seq);
                }
            }
            assert(self.contents() =~= old(self).contents().insert(seq, page@));
        }
    }

    /// Overwrites a region of the page cached under `seq`.
    #[verifier::loop_isolation(false)]
    pub fn overwrite_at(&mut self, seq: u64, off: usize, buf: &[u8])
        requires
            old(self).wf(),
            old(self).contents().dom().contains(seq),
            off + buf@.len() <= old(self).contents()[seq].len(),
        ensures
            final(self).wf(),
            final(self).contents() =~= old(self).contents().insert(
                seq,
                overlay(old(self).contents()[seq], off as int, buf@),
            ),
    {
        let n = self.entries.len();
        let mut j: usize = 0;
        while j < n
            invariant
                0 <= j <= n,
                n == self.entries@.len(),
                self.wf(),
                self.entries@ == old(self).entries@,
                self.at@ == old(self).at@,
                self.at@.dom().contains(seq),
                forall|k: int| 0 <= k < j ==> (#[trigger] self.entries@[k]).0 != seq,
            decreases n - j,
        {
            if self.entries[j].0 == seq {
                proof {
                    assert(self.at@[seq] == j as int);
                }
                let ghost old_entries = self.entries@;
                let (s0, mut page) = self.entries.swap_remove(j);
                proof {
                    assert(s0 == seq);
                    assert(page@ == old(self).contents()[seq]);
                    assert(off + buf@.len() <= page@.len());
                }
                overwrite(&mut page, off, buf);
                let ghost mid_entries = self.entries@;
                self.entries.push((s0, page));
                proof {
                    // swap_remove moved the last entry into position j and
                    // the push put the modified page at the end.
                    let last = old_entries.len() - 1;
                    let old_at = self.at@;
                    assert(self.entries@ =~= old_entries.update(
                        j as int,
                        old_entries.last(),
                    ).drop_last().push((s0, page)));
                    assert(self.entries@.len() == old_entries.len());
                    assert forall|k: int| 0 <= k < last && k != j implies self.entries@[k]
                        == old_entries[k] by {}
                    assert(self.entries@[last] == (s0, page));
                    assert(j as int != last ==> self.entries@[j as int] == old_entries[last]);
                    if j as int == last {
                        self.at@ = old_at.insert(seq, last);
                    } else {
                        self.at@ = old_at.insert(old_entries[last].0, j as int).insert(seq, last);
                    }
                    assert forall|s: u64| #![trigger self.at@[s]] self.at@.dom().contains(
                        s,
                    ) implies 0 <= self.at@[s] < self.entries@.len() && self.entries@[self.at@[s]].0
                        == s by {
                        if s == seq {
                            assert(self.entries@[last] == (s0, page));
                        } else if j as int != last && s == old_entries[last].0 {
                            assert(self.entries@[j as int] == old_entries[last]);
                        } else {
                            assert(old_at[s] != j as int || old_entries[j as int].0 == s);
                            assert(self.entries@[old_at[s]] == old_entries[old_at[s]]);
                        }
                    }
                    assert forall|k: int| #![trigger self.entries@[k]] 0 <= k
                        < self.entries@.len() implies self.at@.dom().contains(self.entries@[k].0)
                        && self.at@[self.entries@[k].0] == k by {
                        if k == last {
                            assert(self.entries@[k] == (s0, page));
                        } else if k == j as int && j as int != last {
                            assert(self.entries@[k] == old_entries[last]);
                            assert(old_entries[last].0 != seq);
                        } else {
                            assert(self.entries@[k] == old_entries[k]);
                            assert(old_entries[k].0 != seq);
                            assert(j as int != last ==> old_entries[k].0 != old_entries[last].0);
                        }
                    }
                    assert(self.contents() =~= old(self).contents().insert(
                        seq,
                        overlay(old(self).contents()[seq], off as int, buf@),
                    ));
                }
                return ;
            }
            j += 1;
        }
        proof {
            assert(self.entries@[self.at@[seq]].0 == seq);
        }
    }

    /// Whether a page is cached under the sequence number.
    pub fn contains(&self, seq: u64) -> (r: bool)
        requires
            self.wf(),
        ensures
            r == self.contents().dom().contains(seq),
    {
        match self.get(seq) {
            Some(_) => true,
            None => false,
        }
    }

    /// The number of cached pages.
    pub fn len(&self) -> (r: usize)
        ensures
            r == self.spec_len(),
    {
        self.entries.len()
    }

    /// The number of cached pages.
    pub closed spec fn spec_len(self) -> nat {
        self.entries@.len()
    }
}

// ---------------------------------------------------------------------
// The per-revision engine.
// ---------------------------------------------------------------------

/// The position within its chunk of a byte offset.
pub open spec fn intra_of(offset: u64) -> int {
    offset as int % CHUNKSZ as int
}

/// The chunk sequence number of a byte offset.
pub open spec fn seq_at(offset: u64) -> u64 {
    (offset as int / CHUNKSZ as int) as u64
}

/// How much of a buffer one write stores: writes are clipped at the
/// chunk boundary.
pub open spec fn clip_len(off: int, len: int) -> int {
    if len <= CHUNKSZ - (off % (CHUNKSZ as int)) {
        len
    } else {
        CHUNKSZ - (off % (CHUNKSZ as int))
    }
}

/// The writes the retry loop performs: each step starts where the
/// previous one ended and stores the clipped length.
pub open spec fn write_steps(off: int, len: int) -> Seq<(int, int)>
    decreases len when 0 <= off && 0 <= len
{
    if len <= 0 {
        Seq::empty()
    } else {
        seq![(off, clip_len(off, len))] + write_steps(
            off + clip_len(off, len),
            len - clip_len(off, len),
        )
    }
}

/// Partial-write law: every write stores at least one byte and at most
/// the rest of the buffer, each retry starts exactly where the previous
/// write ended, and the writes together cover the whole buffer exactly
/// once.
pub proof fn lemma_partial_write_covers(off: int, len: int)
    requires
        0 <= off,
        0 <= len,
    ensures
        len == 0 ==> write_steps(off, len).len() == 0,
        len > 0 ==> write_steps(off, len).len() > 0 && write_steps(off, len)[0].0 == off,
        forall|i: int|
            0 <= i < write_steps(off, len).len() ==> 1 <= (#[trigger] write_steps(off, len)[i]).1
                <= len,
        forall|i: int, j: int|
            #![trigger write_steps(off, len)[i], write_steps(off, len)[j]]
            0 <= i && j == i + 1 && j < write_steps(off, len).len() ==> write_steps(off, len)[j].0
                == write_steps(off, len)[i].0 + write_steps(off, len)[i].1,
        len > 0 ==> write_steps(off, len).last().0 + write_steps(off, len).last().1 == off + len,
    decreases len,
{
    if len > 0 {
        let w = clip_len(off, len);
        assert(0 <= off % (CHUNKSZ as int) < CHUNKSZ as int);
        assert(1 <= w <= len);
        lemma_partial_write_covers(off + w, len - w);
        let head = seq![(off, w)];
        let tail = write_steps(off + w, len - w);
        assert(write_steps(off, len) == head + tail);
        assert forall|i: int|
            0 <= i < write_steps(off, len).len() implies 1 <= (#[trigger] write_steps(off, len)[i]).1
            <= len by {
            if i == 0 {
                assert(write_steps(off, len)[0] == (off, w));
            } else {
                assert(write_steps(off, len)[i] == tail[i - 1]);
            }
        }
        assert forall|i: int, j: int|
            #![trigger write_steps(off, len)[i], write_steps(off, len)[j]]
            0 <= i && j == i + 1 && j < write_steps(off, len).len() implies write_steps(
            off,
            len,
        )[j].0 == write_steps(off, len)[i].0 + write_steps(off, len)[i].1 by {
            if i == 0 {
                assert(write_steps(off, len)[0] == (off, w));
                if len - w > 0 {
                    assert(write_steps(off, len)[1] == tail[0]);
                    assert(tail[0].0 == off + w);
                }
            } else {
                assert(write_steps(off, len)[i] == tail[i - 1]);
                assert(write_steps(off, len)[j] == tail[j - 1]);
                assert(tail[j - 1].0 == tail[i - 1].0 + tail[i - 1].1);
            }
        }
        if len - w > 0 {
            assert(write_steps(off, len).last() == tail.last());
        } else {
            assert(write_steps(off, len).last() == (off, w));
        }
    }
}

/// What a read produced: the bytes themselves, or the chunk that must be
/// loaded and handed back first.
#[derive(Debug)]
pub enum ReadOutcome {
    /// The requested bytes; possibly fewer than asked for.
    Data(Vec<u8>),
    /// The engine needs the chunk with this sequence number and ID.
    NeedChunk(u64, Vec<u8>),
}

/// What a write did: how many bytes it stored, or the chunk that must be
/// loaded and handed back first.
#[derive(Debug)]
pub enum WriteOutcome {
    /// This many leading bytes of the buffer were stored; the caller
    /// retries with the rest.
    Written(usize),
    /// The engine needs the chunk with this sequence number and ID.
    NeedChunk(u64, Vec<u8>),
}

/// Per-revision random access with in-memory copy-on-write.
///
/// Pages are cached when they are read or written; modifications stay in
/// memory and never reach the store, so recovery tools can operate on a
/// revision without mutating the backup.
pub struct FuseAccess {
    /// The revision file name.
    pub name: Vec<u8>,
    /// The revision descriptor.
    pub rev: Rev,
    /// Total image size in bytes.
    pub size: u64,
    /// Chunk ID by sequence number; `None` marks an all-zero chunk.
    pub map: Vec<Option<Vec<u8>>>,
    /// Whether the chunk map has been loaded.
    pub loaded: bool,
    /// The page most recently served to a reader.
    pub open_page: Option<(u64, Vec<u8>)>,
    /// A shared all-zero page.
    pub zero_page: Vec<u8>,
    /// Modified pages; never evicted during the session.
    pub dirty: PageMap,
    /// Clean pages, bounded by the configured cache size.
    pub ro_cache: RoCache,
}

impl FuseAccess {
    /// The number of chunks of the image.
    pub open spec fn nchunks(self) -> int {
        self.size as int / CHUNKSZ as int
    }

    /// The chunk ID referenced by each position.
    pub open spec fn chunk_ids(self) -> Seq<Option<Seq<u8>>> {
        view_linear(self.map@)
    }

    /// The modified pages.
    pub open spec fn dirty_pages(self) -> Map<u64, Seq<u8>> {
        self.dirty.contents()
    }

    /// The clean cached pages.
    pub open spec fn ro_pages(self) -> Map<u64, Seq<u8>> {
        lru_pages(self.ro_cache)
    }

    /// What the engine knows the page under `seq` to hold: a dirty page
    /// takes precedence, then the open page, then the read cache, then
    /// the all-zero page for positions without a chunk. `None` means the
    /// page must be loaded from the store first. First, whether the open
    /// page slot holds `seq`.
    pub open spec fn open_at(self, seq: u64) -> bool {
        match self.open_page {
            Some((s, _)) => s == seq,
            None => false,
        }
    }

    /// The contents of the open-page slot.
    pub open spec fn open_content(self) -> Seq<u8> {
        match self.open_page {
            Some((_, p)) => p@,
            None => Seq::empty(),
        }
    }

    /// What the engine knows the page under `seq` to hold; see above.
    pub open spec fn page_view(self, seq: u64) -> Option<Seq<u8>> {
        if self.dirty_pages().dom().contains(seq) {
            Some(self.dirty_pages()[seq])
        } else if self.open_at(seq) {
            Some(self.open_content())
        } else if self.ro_pages().dom().contains(seq) {
            Some(self.ro_pages()[seq])
        } else if 0 <= seq < self.nchunks() && self.chunk_ids()[seq as int] is None {
            Some(zeros(CHUNKSZ as nat))
        } else {
            None
        }
    }

    /// Internal consistency of the engine.
    pub open spec fn wf(self) -> bool {
        &&& self.dirty.wf()
        &&& self.size as int % CHUNKSZ as int == 0
        &&& self.nchunks() <= usize::MAX
        &&& (self.loaded ==> self.map@.len() == self.nchunks())
        &&& (!self.loaded ==> self.map@.len() == 0 && self.size == 0)
        &&& self.zero_page@ == zeros(CHUNKSZ as nat)
        &&& forall|s: u64|
            #[trigger] self.dirty_pages().dom().contains(s) ==> s < self.nchunks()
                && self.dirty_pages()[s].len() == CHUNKSZ
        &&& forall|s: u64|
            #[trigger] self.ro_pages().dom().contains(s) ==> s < self.nchunks()
                && self.ro_pages()[s].len() == CHUNKSZ && self.chunk_ids()[s as int] is Some
                && !self.dirty_pages().dom().contains(s)
        &&& (self.open_page matches Some((s, p)) ==> s < self.nchunks() && p@.len() == CHUNKSZ
            && (self.dirty_pages().dom().contains(s) ==> self.dirty_pages()[s] == p@) && (
        self.ro_pages().dom().contains(s) ==> self.ro_pages()[s] == p@) && (
        self.dirty_pages().dom().contains(s) || self.ro_pages().dom().contains(s)
            || self.chunk_ids()[s as int] is None) && (self.chunk_ids()[s as int] is None
            && !self.dirty_pages().dom().contains(s) ==> p@ == zeros(CHUNKSZ as nat)))
    }

    /// Everything but the open-page slot is unchanged.
    pub open spec fn same_stores(self, other: FuseAccess) -> bool {
        &&& self.name@ == other.name@
        &&& self.rev == other.rev
        &&& self.size == other.size
        &&& self.loaded == other.loaded
        &&& self.chunk_ids() == other.chunk_ids()
        &&& self.dirty_pages() == other.dirty_pages()
        &&& self.ro_pages() == other.ro_pages()
    }

    /// A fresh engine for a revision: the chunk map is loaded later. The
    /// read cache holds `cache_bytes` worth of pages, and at least one.
    pub fn new(name: Vec<u8>, rev: Rev, cache_bytes: usize) -> (r: FuseAccess)
        ensures
            r.wf(),
            !r.loaded,
            r.name == name,
            r.rev == rev,
            r.dirty_pages() =~= Map::empty(),
            r.ro_pages() == no_pages(),
    {
        let cache_chunks = cache_bytes / CHUNKSZ;
        let cap = if cache_chunks == 0 {
            1
        } else {
            cache_chunks
        };
        let r = FuseAccess {
            name,
            rev,
            size: 0,
            map: Vec::new(),
            loaded: false,
            open_page: None,
            zero_page: zero_vec(CHUNKSZ),
            dirty: PageMap::new(),
            ro_cache: lru_new(cap),
        };
        proof {
            assert(r.chunk_ids() =~= Seq::<Option<Seq<u8>>>::empty());
        }
        r
    }

    /// Loads the chunk map from the parsed revision map document,
    /// idempotently: once loaded, further calls change nothing.
    ///
    /// Fails with `ParseMap` exactly when the size is not a multiple of
    /// the chunk size or a sequence key is malformed, out of range, or
    /// duplicated.
    pub fn load_if_empty(&mut self, pairs: &Vec<(Vec<u8>, Vec<u8>)>, size: u64) -> (r: Result<
        (),
        Error,
    >)
        requires
            old(self).wf(),
            size as int / CHUNKSZ as int <= usize::MAX,
        ensures
            final(self).wf(),
            old(self).loaded ==> r is Ok && *final(self) == *old(self),
            !old(self).loaded && r is Ok ==> final(self).loaded && final(self).size == size
                && linear_matches(pairs@, final(self).chunk_ids()) && final(self).dirty_pages()
                == old(self).dirty_pages() && final(self).ro_pages() == old(self).ro_pages()
                && final(self).open_page == old(self).open_page && final(self).rev == old(self).rev
                && final(self).name@ == old(self).name@,
            !old(self).loaded ==> (r is Ok <==> (size as int % CHUNKSZ as int == 0 && keys_ok(
                pairs@,
                size as int / CHUNKSZ as int,
            ) && keys_unique(pairs@))),
            r matches Err(e) ==> e is ParseMap && *final(self) == *old(self),
    {
        if self.loaded {
            return Ok(());
        }
        if size % (CHUNKSZ as u64) != 0 {
            let mut n: Vec<u8> = Vec::new();
            crate::util::append_bytes(&mut n, self.name.as_slice());
            return Err(Error::ParseMap(n, "image size is not a multiple of the chunk size".to_owned()));
        }
        let nchunks = (size / (CHUNKSZ as u64)) as usize;
        let map = match linearize(pairs, nchunks) {
            Ok(m) => m,
            Err(_) => {
                let mut n: Vec<u8> = Vec::new();
                crate::util::append_bytes(&mut n, self.name.as_slice());
                return Err(Error::ParseMap(n, "malformed sequence keys in the chunk map".to_owned()));
            },
        };
        self.map = map;
        self.size = size;
        self.loaded = true;
        proof {
            assert forall|s: u64| #[trigger] self.ro_pages().dom().contains(s) implies s
                < self.nchunks() && self.ro_pages()[s].len() == CHUNKSZ && self.chunk_ids()[s as int]
                is Some && !self.dirty_pages().dom().contains(s) by {
                assert(old(self).ro_pages().dom().contains(s));
                assert(s < old(self).nchunks());
            }
            assert forall|s: u64| #[trigger] self.dirty_pages().dom().contains(s) implies s
                < self.nchunks() && self.dirty_pages()[s].len() == CHUNKSZ by {
                assert(self.dirty == old(self).dirty);
                assert(old(self).dirty_pages().dom().contains(s));
                assert(s < old(self).nchunks());
            }
        }
        Ok(())
    }

    /// Reads up to `want` bytes at `offset`. The result may be shorter
    /// than asked: reads stop at the chunk boundary and at the end of the
    /// image, and the caller loops. Reading at the very end returns
    /// nothing; reading past it is an error. What the engine knows of the
    /// image is never changed by a read.
    pub fn read_at(&mut self, offset: u64, want: usize) -> (r: Result<ReadOutcome, Error>)
        requires
            old(self).wf(),
            old(self).loaded,
        ensures
            final(self).wf(),
            final(self).loaded,
            old(self).same_stores(*final(self)),
            forall|s: u64| #[trigger] final(self).page_view(s) == old(self).page_view(s),
            offset == old(self).size ==> (r matches Ok(ReadOutcome::Data(d)) && d@.len() == 0),
            offset > old(self).size ==> r matches Err(Error::UnexpectedEof),
            offset < old(self).size ==> (old(self).page_view(seq_at(offset)) matches Some(p) ==> (
            r matches Ok(ReadOutcome::Data(d)) && d@ == p.subrange(
                intra_of(offset),
                intra_of(offset) + clip_len(offset as int, want as int),
            ))),
            offset < old(self).size && old(self).page_view(seq_at(offset)) is None ==> (r matches Ok(
                ReadOutcome::NeedChunk(sq, id),
            ) && sq == seq_at(offset) && Some(id@) == old(self).chunk_ids()[seq_at(offset) as int]),
    {
        if offset > self.size {
            return Err(Error::UnexpectedEof);
        }
        if offset == self.size {
            return Ok(ReadOutcome::Data(Vec::new()));
        }
        let seq = offset / (CHUNKSZ as u64);
        let intra = (offset % (CHUNKSZ as u64)) as usize;
        proof {
            assert(seq < self.nchunks()) by (nonlinear_arith)
                requires
                    offset < self.size,
                    self.size as int % CHUNKSZ as int == 0,
                    seq == offset as int / CHUNKSZ as int,
                    self.nchunks() == self.size as int / CHUNKSZ as int,
                    CHUNKSZ > 0,
            ;
            assert(0 <= intra < CHUNKSZ);
        }
        let end = if want > CHUNKSZ - intra {
            CHUNKSZ
        } else {
            intra + want
        };
        proof {
            assert(end == intra_of(offset) + clip_len(offset as int, want as int));
        }
        // The open page serves repeated reads within one chunk.
        let hit = match &self.open_page {
            Some((s, _)) => *s == seq,
            None => false,
        };
        if hit {
            let d = match &self.open_page {
                Some((_, p)) => sub_copy(p.as_slice(), intra, end),
                None => Vec::new(),
            };
            proof {
                assert(self.page_view(seq) matches Some(pp) && pp == (self.open_page->0).1@);
            }
            return Ok(ReadOutcome::Data(d));
        }
        // Fetch: dirty cache first, then the read cache, then zero.
        let from_dirty = match self.dirty.get(seq) {
            Some(pg) => Some(clone_bytes(pg)),
            None => None,
        };
        if let Some(p) = from_dirty {
            let d = sub_copy(p.as_slice(), intra, end);
            let ghost old_self = *self;
            self.open_page = Some((seq, p));
            proof {
                lemma_open_page_swap(old_self, *self);
            }
            return Ok(ReadOutcome::Data(d));
        }
        let from_ro = match lru_get(&mut self.ro_cache, seq) {
            Some(pg) => Some(clone_bytes(pg)),
            None => None,
        };
        if let Some(p) = from_ro {
            let d = sub_copy(p.as_slice(), intra, end);
            let ghost old_self = *self;
            self.open_page = Some((seq, p));
            proof {
                lemma_open_page_swap(old_self, *self);
            }
            return Ok(ReadOutcome::Data(d));
        }
        let su = seq as usize;
        if self.map[su].is_none() {
            let p = clone_bytes(&self.zero_page);
            let d = sub_copy(p.as_slice(), intra, end);
            let ghost old_self = *self;
            self.open_page = Some((seq, p));
            proof {
                lemma_open_page_swap(old_self, *self);
            }
            return Ok(ReadOutcome::Data(d));
        }
        let id = match &self.map[su] {
            Some(v) => clone_bytes(v),
            None => Vec::new(),
        };
        Ok(ReadOutcome::NeedChunk(seq, id))
    }

    /// Hands a loaded chunk to the engine: it goes into the read cache,
    /// which may shed its least recently used page.
    pub fn insert_ro(&mut self, seq: u64, data: Vec<u8>)
        requires
            old(self).wf(),
            old(self).loaded,
            seq < old(self).nchunks(),
            old(self).chunk_ids()[seq as int] is Some,
            data@.len() == CHUNKSZ,
            !old(self).dirty_pages().dom().contains(seq),
        ensures
            final(self).wf(),
            final(self).loaded,
            final(self).size == old(self).size,
            final(self).chunk_ids() == old(self).chunk_ids(),
            final(self).dirty_pages() == old(self).dirty_pages(),
            final(self).name@ == old(self).name@,
            final(self).page_view(seq) == Some(data@),
            exists|evicted: Option<u64>|
                lru_put_post(
                    old(self).ro_pages(),
                    seq,
                    data@,
                    final(self).ro_pages(),
                    evicted,
                ),
    {
        self.open_page = None;
        lru_put(&mut self.ro_cache, seq, data);
        proof {
            let ev = choose|evicted: Option<u64>|
                lru_put_post(
                    old(self).ro_pages(),
                    seq,
                    data@,
                    self.ro_pages(),
                    evicted,
                );
            assert forall|s: u64| #[trigger] self.ro_pages().dom().contains(s) implies s
                < self.nchunks() && self.ro_pages()[s].len() == CHUNKSZ && self.chunk_ids()[s as int]
                is Some && !self.dirty_pages().dom().contains(s) by {
                if s != seq {
                    assert(old(self).ro_pages().dom().contains(s));
                }
            }
        }
    }

    /// Stores the leading bytes of `buf` at `offset`, in memory only.
    /// Writes are clipped at the chunk boundary: the caller retries with
    /// the remainder. Writing past the end of the image is an error.
    pub fn write_at(&mut self, offset: u64, buf: &[u8]) -> (r: Result<WriteOutcome, Error>)
        requires
            old(self).wf(),
            old(self).loaded,
            buf@.len() >= 1,
        ensures
            final(self).wf(),
            final(self).loaded,
            final(self).size == old(self).size,
            final(self).chunk_ids() == old(self).chunk_ids(),
            final(self).name@ == old(self).name@,
            offset as int + buf@.len() > old(self).size ==> (r matches Err(Error::UnexpectedEof)
                && *final(self) == *old(self)),
            offset as int + buf@.len() <= old(self).size ==> (old(self).page_view(seq_at(offset))
                matches Some(p) ==> (r matches Ok(WriteOutcome::Written(n)) && n == clip_len(
                offset as int,
                buf@.len() as int,
            ) && final(self).page_view(seq_at(offset)) == Some(
                overlay(p, intra_of(offset), buf@.subrange(0, n as int)),
            ) && final(self).open_page is None && final(self).dirty_pages() =~= old(
                self,
            ).dirty_pages().insert(
                seq_at(offset),
                overlay(p, intra_of(offset), buf@.subrange(0, n as int)),
            ) && final(self).ro_pages() =~= old(self).ro_pages().remove(seq_at(offset)) && forall|
                s: u64,
            |
                s != seq_at(offset) ==> #[trigger] final(self).page_view(s) == old(
                    self,
                ).page_view(s))),
            offset as int + buf@.len() <= old(self).size && old(self).page_view(seq_at(offset))
                is None ==> (r matches Ok(WriteOutcome::NeedChunk(sq, id)) && sq == seq_at(offset)
                && Some(id@) == old(self).chunk_ids()[seq_at(offset) as int] && *final(self)
                == *old(self)),
    {
        let len64 = buf.len() as u64;
        if offset > self.size || len64 > self.size - offset {
            return Err(Error::UnexpectedEof);
        }
        let seq = offset / (CHUNKSZ as u64);
        let intra = (offset % (CHUNKSZ as u64)) as usize;
        proof {
            assert(seq < self.nchunks()) by (nonlinear_arith)
                requires
                    offset < self.size,
                    self.size as int % CHUNKSZ as int == 0,
                    seq == offset as int / CHUNKSZ as int,
                    self.nchunks() == self.size as int / CHUNKSZ as int,
                    CHUNKSZ > 0,
            ;
            assert(0 <= intra < CHUNKSZ);
        }
        let w = if buf.len() > CHUNKSZ - intra {
            CHUNKSZ - intra
        } else {
            buf.len()
        };
        proof {
            assert(w == clip_len(offset as int, buf@.len() as int));
        }
        let wbuf = vstd::slice::slice_subrange(buf, 0, w);
        // A page already dirty is overwritten in place.
        if self.dirty.contains(seq) {
            let ghost old_self = *self;
            self.open_page = None;
            self.dirty.overwrite_at(seq, intra, wbuf);
            proof {
                lemma_write_view(old_self, *self, seq);
                assert(old(self).page_view(seq) == Some(old(self).dirty_pages()[seq]));
                assert(!old(self).ro_pages().dom().contains(seq));
                assert(self.ro_pages() =~= old(self).ro_pages().remove(seq));
            }
            return Ok(WriteOutcome::Written(w));
        }
        // A clean cached page is promoted into the dirty cache.
        if lru_contains(&self.ro_cache, seq) {
            let ghost old_self = *self;
            self.open_page = None;
            let mut page = match lru_pop(&mut self.ro_cache, seq) {
                Some(p) => p,
                None => Vec::new(),
            };
            overwrite(&mut page, intra, wbuf);
            self.dirty.insert(seq, page);
            proof {
                lemma_write_view(old_self, *self, seq);
                assert(old(self).page_view(seq) == Some(old(self).ro_pages()[seq]));
                assert(page@ == overlay(old(self).ro_pages()[seq], intra as int, wbuf@));
                assert(self.ro_pages() =~= old(self).ro_pages().remove(seq));
            }
            return Ok(WriteOutcome::Written(w));
        }
        let su = seq as usize;
        if self.map[su].is_none() {
            // A zero page becomes a fresh dirty page.
            let ghost old_self = *self;
            self.open_page = None;
            let mut page = clone_bytes(&self.zero_page);
            overwrite(&mut page, intra, wbuf);
            self.dirty.insert(seq, page);
            proof {
                lemma_write_view(old_self, *self, seq);
                assert(old(self).page_view(seq) == Some(zeros(CHUNKSZ as nat)));
                assert(page@ == overlay(zeros(CHUNKSZ as nat), intra as int, wbuf@));
                assert(!old(self).ro_pages().dom().contains(seq));
                assert(self.ro_pages() =~= old(self).ro_pages().remove(seq));
            }
            return Ok(WriteOutcome::Written(w));
        }
        let id = match &self.map[su] {
            Some(v) => clone_bytes(v),
            None => Vec::new(),
        };
        Ok(WriteOutcome::NeedChunk(seq, id))
    }

    /// Drops the read cache to conserve memory; the dirty pages stay.
    pub fn cleanup(&mut self)
        requires
            old(self).wf(),
        ensures
            final(self).wf(),
            final(self).loaded == old(self).loaded,
            final(self).size == old(self).size,
            final(self).chunk_ids() == old(self).chunk_ids(),
            final(self).dirty_pages() == old(self).dirty_pages(),
            final(self).ro_pages() == no_pages(),
            final(self).name@ == old(self).name@,
            final(self).rev == old(self).rev,
    {
        self.open_page = None;
        lru_clear(&mut self.ro_cache);
        proof {
            assert forall|s: u64| #[trigger] self.dirty_pages().dom().contains(s) implies s
                < self.nchunks() && self.dirty_pages()[s].len() == CHUNKSZ by {
                assert(self.dirty == old(self).dirty);
                assert(old(self).dirty_pages().dom().contains(s));
            }
        }
    }

    /// Whether a page is in the dirty cache.
    pub fn dirty_has(&self, seq: u64) -> (r: bool)
        requires
            self.wf(),
        ensures
            r == self.dirty_pages().dom().contains(seq),
    {
        self.dirty.contains(seq)
    }

    /// Whether a page is in the read cache.
    pub fn ro_has(&self, seq: u64) -> (r: bool)
        ensures
            r == self.ro_pages().dom().contains(seq),
    {
        lru_contains(&self.ro_cache, seq)
    }
}

/// Replacing the open-page slot with a copy of a page the engine already
/// knows leaves its knowledge of every page unchanged.
proof fn lemma_open_page_swap(a: FuseAccess, b: FuseAccess)
    requires
        a.wf(),
        a.same_stores(b),
        b.open_page matches Some((s, p)) && a.page_view(s) == Some(p@),
        b.zero_page@ == a.zero_page@,
        b.dirty == a.dirty,
        b.map@ == a.map@,
    ensures
        b.wf(),
        forall|s: u64| #[trigger] b.page_view(s) == a.page_view(s),
{
    let sq = (b.open_page->0).0;
    let pp = (b.open_page->0).1;
    assert(b.wf());
    assert forall|s: u64| #[trigger] b.page_view(s) == a.page_view(s) by {
        if s == sq {
        } else {
            // The old open page, if any, was backed by a cache or was a
            // zero page, so dropping it changes nothing.
        }
    }
}

/// After a write to `seq`, the engine's knowledge of every other page is
/// unchanged, and `seq` holds the overwritten page.
proof fn lemma_write_view(a: FuseAccess, b: FuseAccess, seq: u64)
    requires
        a.wf(),
        b.open_page is None,
        b.zero_page@ == a.zero_page@,
        b.map@ == a.map@,
        b.size == a.size,
        b.loaded == a.loaded,
        b.dirty.wf(),
        b.dirty_pages().dom() =~= a.dirty_pages().dom().insert(seq),
        forall|s: u64|
            s != seq && a.dirty_pages().dom().contains(s) ==> #[trigger] b.dirty_pages()[s]
                == a.dirty_pages()[s],
        b.dirty_pages()[seq].len() == CHUNKSZ,
        seq < a.nchunks(),
        b.ro_pages() == a.ro_pages() || b.ro_pages() =~= a.ro_pages().remove(seq),
        !b.ro_pages().dom().contains(seq),
    ensures
        b.wf(),
        forall|s: u64| s != seq ==> #[trigger] b.page_view(s) == a.page_view(s),
        b.page_view(seq) == Some(b.dirty_pages()[seq]),
{
    assert forall|s: u64| #[trigger] b.ro_pages().dom().contains(s) implies s < b.nchunks()
        && b.ro_pages()[s].len() == CHUNKSZ && b.chunk_ids()[s as int] is Some
        && !b.dirty_pages().dom().contains(s) by {
        assert(a.ro_pages().dom().contains(s));
        assert(b.ro_pages()[s] == a.ro_pages()[s]);
        assert(s != seq);
    }
    assert forall|s: u64| #[trigger] b.dirty_pages().dom().contains(s) implies s < b.nchunks()
        && b.dirty_pages()[s].len() == CHUNKSZ by {
        if s != seq {
            assert(a.dirty_pages().dom().contains(s));
        }
    }
    assert(b.wf());
    assert forall|s: u64| s != seq implies #[trigger] b.page_view(s) == a.page_view(s) by {
        if a.dirty_pages().dom().contains(s) {
            assert(b.dirty_pages().dom().contains(s));
        } else if a.open_page matches Some((s0, p)) && s0 == s {
            // The open page was backed; the backing still answers.
        }
    }
}


/// Copy-on-write isolation: reading back a just-written region returns
/// exactly the written bytes. The store itself is never touched by a
/// write, so the chunk files stay as they are.
pub proof fn lemma_cow_read_back(p: Seq<u8>, off: int, b: Seq<u8>)
    requires
        0 <= off,
        off + b.len() <= p.len(),
    ensures
        overlay(p, off, b).subrange(off, off + b.len() as int) =~= b,
        overlay(p, off, b).len() == p.len(),
{
}

/// The revision catalog: assigns each revision file a stable identifier,
/// starting above the identifiers the filesystem adapter reserves.
pub struct FuseDirectory {
    /// The backup directory this catalog serves.
    pub basedir: Vec<u8>,
    /// Identifier and revision file name pairs, in registration order.
    pub entries: Vec<(u64, Vec<u8>)>,
    /// The next identifier to assign.
    pub next: u64,
}

impl FuseDirectory {
    /// The catalog as a sequence of identifier and revision name pairs.
    pub open spec fn catalog(self) -> Seq<(u64, Seq<u8>)> {
        Seq::new(self.entries@.len(), |i: int| (self.entries@[i].0, self.entries@[i].1@))
    }

    /// Identifiers are assigned monotonically and are distinct.
    pub open spec fn wf(self) -> bool {
        &&& forall|i: int|
            0 <= i < self.entries@.len() ==> (#[trigger] self.entries@[i]).0 < self.next
        &&& forall|i: int, j: int|
            0 <= i < j < self.entries@.len() ==> (#[trigger] self.entries@[i]).0 < (
            #[trigger] self.entries@[j]).0
        &&& self.next >= 4
    }

    /// An empty catalog for a backup directory. The first identifier is
    /// 4: the adapter reserves the ones below it.
    pub fn new(basedir: Vec<u8>) -> (r: FuseDirectory)
        ensures
            r.wf(),
            r.basedir == basedir,
            r.catalog() =~= Seq::empty(),
            r.next == 4,
    {
        FuseDirectory { basedir, entries: Vec::new(), next: 4 }
    }

    /// Registers a revision file name and returns its fresh identifier.
    pub fn register(&mut self, name: Vec<u8>) -> (ino: u64)
        requires
            old(self).wf(),
            old(self).next < u64::MAX,
        ensures
            final(self).wf(),
            final(self).basedir == old(self).basedir,
            final(self).catalog() =~= old(self).catalog().push((ino, name@)),
            ino == old(self).next,
            final(self).next == old(self).next + 1,
            forall|i: int| 0 <= i < old(self).catalog().len() ==> (#[trigger] old(self).catalog()[i]).0 != ino,
    {
        let ino = self.next;
        self.entries.push((ino, name));
        self.next = self.next + 1;
        proof {
            assert forall|i: int|
                0 <= i < old(self).catalog().len() implies (#[trigger] old(self).catalog()[i]).0
                != ino by {
                assert(old(self).entries@[i].0 < ino);
            }
        }
        ino
    }

    /// The name registered under an identifier.
    pub fn get(&self, ino: u64) -> (r: Option<&Vec<u8>>)
        requires
            self.wf(),
        ensures
            r matches Some(n) ==> exists|i: int|
                0 <= i < self.catalog().len() && #[trigger] self.catalog()[i] == (ino, n@),
            r is None ==> forall|i: int|
                0 <= i < self.catalog().len() ==> (#[trigger] self.catalog()[i]).0 != ino,
    {
        let n = self.entries.len();
        let mut i: usize = 0;
        while i < n
            invariant
                0 <= i <= n,
                n == self.entries@.len(),
                forall|j: int| 0 <= j < i ==> (#[trigger] self.entries@[j]).0 != ino,
            decreases n - i,
        {
            if self.entries[i].0 == ino {
                proof {
                    assert(self.catalog()[i as int] == (ino, self.entries@[i as int].1@));
                }
                return Some(&self.entries[i].1);
            }
            i += 1;
        }
        None
    }

    /// The number of registered revisions.
    pub fn len(&self) -> (r: usize)
        ensures
            r == self.catalog().len(),
    {
        self.entries.len()
    }

    /// Whether the catalog is empty.
    pub fn is_empty(&self) -> (r: bool)
        ensures
            r == (self.catalog().len() == 0),
    {
        self.entries.len() == 0
    }

    /// The rule by which a directory opens: it must hold at least one
    /// revision and a `chunks/` subdirectory, else there is nothing to
    /// serve.
    pub fn validate(&self, has_chunks: bool) -> (r: Result<(), Error>)
        ensures
            (r is Ok) == (self.catalog().len() > 0 && has_chunks),
            r matches Err(e) ==> e is NoRevisions,
    {
        if self.entries.len() > 0 && has_chunks {
            Ok(())
        } else {
            let mut d: Vec<u8> = Vec::new();
            crate::util::append_bytes(&mut d, self.basedir.as_slice());
            Err(Error::NoRevisions(d))
        }
    }
}

} // verus!
