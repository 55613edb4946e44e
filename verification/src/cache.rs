//! Cache for multiply-referenced chunks during a bulk restore.
//!
//! Chunk IDs that the revision map mentions more than once are worth
//! caching: their chunks would otherwise be decompressed repeatedly. All
//! other IDs are not worth the effort, and the cache tracks at most
//! `MAX_KEYS` of them to bound memory use.

use vstd::prelude::*;

use crate::util::{append_bytes, bytes_eq, clone_bytes, is_zero, zeros};
use crate::CHUNKSZ;

verus! {

/// Upper bound on the number of chunk IDs the cache tracks.
pub const MAX_KEYS: usize = 32;

/// State of one chunk ID in the cache.
#[derive(Debug, PartialEq, Eq)]
pub enum Entry {
    /// The chunk should be cached, but no data is available yet.
    Unknown,
    /// The chunk has been cached; here is a copy.
    Known(Vec<u8>),
    /// The chunk has been cached, and it is a zero page.
    KnownZero,
    /// The chunk should not be cached.
    Ignored,
}

/// The mathematical value of a cache entry.
pub enum EntryV {
    /// No data yet.
    Unknown,
    /// Cached contents.
    Known(Seq<u8>),
    /// A zero page.
    KnownZero,
    /// Not tracked.
    Ignored,
}

/// The mathematical value of a cache entry.
pub open spec fn entry_view(e: Entry) -> EntryV {
    match e {
        Entry::Unknown => EntryV::Unknown,
        Entry::Known(v) => EntryV::Known(v@),
        Entry::KnownZero => EntryV::KnownZero,
        Entry::Ignored => EntryV::Ignored,
    }
}

/// How often `id` occurs among the values of the mapping.
pub open spec fn occ(ps: Seq<(Vec<u8>, Vec<u8>)>, id: Seq<u8>) -> int
    decreases ps.len(),
{
    if ps.len() == 0 {
        0
    } else {
        occ(ps.drop_last(), id) + if ps.last().1@ == id {
            1int
        } else {
            0int
        }
    }
}

/// An ID that occurs at all occurs at some position.
proof fn lemma_occ_witness(ps: Seq<(Vec<u8>, Vec<u8>)>, id: Seq<u8>)
    requires
        occ(ps, id) > 0,
    ensures
        exists|j: int| 0 <= j < ps.len() && (#[trigger] ps[j]).1@ == id,
    decreases ps.len(),
{
    if ps.len() > 0 {
        if ps.last().1@ == id {
            assert(ps[ps.len() - 1].1@ == id);
        } else {
            lemma_occ_witness(ps.drop_last(), id);
            let j = choose|j: int|
                0 <= j < ps.drop_last().len() && (#[trigger] ps.drop_last()[j]).1@ == id;
            assert(ps[j].1@ == id);
        }
    }
}

/// Caches chunk IDs mentioned more than once in the revision mapping.
pub struct Cache {
    entries: Vec<(Vec<u8>, Entry)>,
    /// Position of each tracked ID in `entries`.
    at: Ghost<Map<Seq<u8>, int>>,
}

impl Cache {
    /// The cache as a map from chunk ID to entry value.
    pub closed spec fn contents(self) -> Map<Seq<u8>, EntryV> {
        Map::new(
            |id: Seq<u8>| self.at@.dom().contains(id),
            |id: Seq<u8>| entry_view(self.entries@[self.at@[id]].1),
        )
    }

    /// The number of tracked IDs.
    pub closed spec fn count(self) -> nat {
        self.entries@.len()
    }

    /// Internal consistency of the position map.
    pub closed spec fn wf(self) -> bool {
        &&& forall|id: Seq<u8>|
            #![trigger self.at@[id]]
            self.at@.dom().contains(id) ==> 0 <= self.at@[id] < self.entries@.len()
                && self.entries@[self.at@[id]].0@ == id
        &&& forall|j: int|
            #![trigger self.entries@[j]]
            0 <= j < self.entries@.len() ==> self.at@.dom().contains(self.entries@[j].0@)
                && self.at@[self.entries@[j].0@] == j
    }

    /// Whether an ID is tracked.
    fn find(&self, id: &[u8]) -> (r: Option<usize>)
        requires
            self.wf(),
        ensures
            r matches Some(j) ==> (j < self.entries@.len() && self.entries@[j as int].0@ == id@
                && self.contents().dom().contains(id@)),
            r is None ==> !self.contents().dom().contains(id@),
    {
        let n = self.entries.len();
        let mut j: usize = 0;
        while j < n
            invariant
                0 <= j <= n,
                n == self.entries@.len(),
                self.wf(),
                forall|k: int| 0 <= k < j ==> (#[trigger] self.entries@[k]).0@ != id@,
            decreases n - j,
        {
            if bytes_eq(self.entries[j].0.as_slice(), id) {
                proof {
                    assert(self.at@[id@] == j as int);
                }
                return Some(j);
            }
            j += 1;
        }
        proof {
            if self.at@.dom().contains(id@) {
                assert(self.entries@[self.at@[id@]].0@ == id@);
            }
        }
        None
    }

    /// Counts how often an ID occurs among the mapping's values.
    fn count_occ(mapping: &Vec<(Vec<u8>, Vec<u8>)>, id: &[u8]) -> (r: usize)
        requires
            mapping@.len() <= usize::MAX,
        ensures
            r == occ(mapping@, id@),
    {
        let m = mapping.len();
        let mut c: usize = 0;
        let mut i: usize = 0;
        while i < m
            invariant
                0 <= i <= m,
                m == mapping@.len(),
                c == occ(mapping@.subrange(0, i as int), id@),
                c <= i,
            decreases m - i,
        {
            proof {
                assert(mapping@.subrange(0, i + 1).drop_last() =~= mapping@.subrange(0, i as int));
                assert(mapping@.subrange(0, i + 1).last() == mapping@[i as int]);
            }
            if bytes_eq(mapping[i].1.as_slice(), id) {
                c += 1;
            }
            i += 1;
        }
        proof {
            assert(mapping@.subrange(0, m as int) =~= mapping@);
        }
        c
    }

    /// Initializes the cache from the mapping of a revision document:
    /// it tracks IDs that occur more than once, up to `MAX_KEYS` of them,
    /// each starting out `Unknown`.
    pub fn new(mapping: &Vec<(Vec<u8>, Vec<u8>)>) -> (r: Cache)
        ensures
            r.wf(),
            r.count() <= MAX_KEYS,
            forall|id: Seq<u8>|
                #[trigger] r.contents().dom().contains(id) ==> occ(mapping@, id) > 1
                    && r.contents()[id] is Unknown,
            forall|id: Seq<u8>|
                occ(mapping@, id) > 1 ==> #[trigger] r.contents().dom().contains(id) || r.count()
                    == MAX_KEYS,
    {
        let m = mapping.len();
        let mut c = Cache { entries: Vec::new(), at: Ghost(Map::empty()) };
        let mut i: usize = 0;
        proof {
            assert(c.wf());
        }
        while i < m && c.entries.len() < MAX_KEYS
            invariant
                0 <= i <= m,
                m == mapping@.len(),
                c.wf(),
                c.entries@.len() <= MAX_KEYS,
                forall|id: Seq<u8>|
                    #[trigger] c.contents().dom().contains(id) ==> occ(mapping@, id) > 1
                        && c.contents()[id] is Unknown,
                forall|j: int|
                    0 <= j < i ==> occ(mapping@, (#[trigger] mapping@[j]).1@) <= 1
                        || c.contents().dom().contains(mapping@[j].1@) || c.entries@.len()
                        == MAX_KEYS,
            decreases m - i,
        {
            let id = &mapping[i].1;
            let known = match c.find(id.as_slice()) {
                Some(_) => true,
                None => false,
            };
            if !known && Cache::count_occ(mapping, id.as_slice()) >= 2 {
                let ghost old_c = c;
                let ghost old_entries = c.entries@;
                let ghost old_at = c.at@;
                let ghost n = c.entries@.len() as int;
                let key = clone_bytes(id);
                c.entries.push((key, Entry::Unknown));
                proof {
                    c.at@ = old_at.insert(id@, n);
                    assert forall|id2: Seq<u8>| #![trigger c.at@[id2]] c.at@.dom().contains(
                        id2,
                    ) implies 0 <= c.at@[id2] < c.entries@.len() && c.entries@[c.at@[id2]].0@
                        == id2 by {
                        if id2 == id@ {
                            assert(c.entries@[n].0@ == id@);
                        } else {
                            assert(c.entries@[old_at[id2]] == old_entries[old_at[id2]]);
                        }
                    }
                    assert forall|j: int| #![trigger c.entries@[j]] 0 <= j
                        < c.entries@.len() implies c.at@.dom().contains(c.entries@[j].0@)
                        && c.at@[c.entries@[j].0@] == j by {
                        if j < n {
                            assert(c.entries@[j] == old_entries[j]);
                            assert(old_entries[j].0@ != id@);
                        }
                    }
                    assert(c.contents()[id@] is Unknown);
                    assert forall|id2: Seq<u8>| #[trigger] c.contents().dom().contains(
                        id2,
                    ) implies occ(mapping@, id2) > 1 && c.contents()[id2] is Unknown by {
                        if id2 != id@ {
                            assert(old_c.contents().dom().contains(id2));
                            assert(c.at@[id2] == old_at[id2]);
                            assert(c.entries@[old_at[id2]] == old_entries[old_at[id2]]);
                            assert(c.contents()[id2] == old_c.contents()[id2]);
                        }
                    }
                }
            }
            i += 1;
        }
        proof {
            assert forall|id: Seq<u8>|
                occ(mapping@, id) > 1 implies #[trigger] c.contents().dom().contains(id)
                || c.count() == MAX_KEYS by {
                if c.count() != MAX_KEYS {
                    assert(i == m);
                    lemma_occ_witness(mapping@, id);
                    let j = choose|j: int| 0 <= j < mapping@.len() && (#[trigger] mapping@[j]).1@ == id;
                    assert(occ(mapping@, mapping@[j].1@) > 1);
                }
            }
        }
        c
    }

    /// Lists the IDs the cache is willing to track.
    pub fn interesting(&self) -> (r: Vec<Vec<u8>>)
        requires
            self.wf(),
        ensures
            r@.len() == self.count(),
            forall|k: int|
                #![trigger r@[k]]
                0 <= k < r@.len() ==> self.contents().dom().contains(r@[k]@),
            forall|id: Seq<u8>|
                #[trigger] self.contents().dom().contains(id) ==> exists|k: int|
                    0 <= k < r@.len() && r@[k]@ == id,
    {
        let n = self.entries.len();
        let mut r: Vec<Vec<u8>> = Vec::new();
        let mut k: usize = 0;
        while k < n
            invariant
                0 <= k <= n,
                n == self.entries@.len(),
                self.wf(),
                r@.len() == k,
                forall|j: int| #![trigger r@[j]] 0 <= j < k ==> r@[j]@ == self.entries@[j].0@,
            decreases n - k,
        {
            let key = clone_bytes(&self.entries[k].0);
            r.push(key);
            k += 1;
        }
        proof {
            assert forall|id: Seq<u8>| #[trigger] self.contents().dom().contains(id) implies exists|
                k2: int,
            | 0 <= k2 < r@.len() && r@[k2]@ == id by {
                assert(r@[self.at@[id]]@ == id);
            }
        }
        r
    }

    /// Looks an ID up and returns a copy of its entry; IDs the cache does
    /// not track are `Ignored`.
    pub fn query(&self, id: &[u8]) -> (r: Entry)
        requires
            self.wf(),
        ensures
            self.contents().dom().contains(id@) ==> entry_view(r) == self.contents()[id@],
            !self.contents().dom().contains(id@) ==> r is Ignored,
    {
        match self.find(id) {
            Some(j) => match &self.entries[j].1 {
                Entry::Unknown => Entry::Unknown,
                Entry::Known(v) => Entry::Known(clone_bytes(v)),
                Entry::KnownZero => Entry::KnownZero,
                Entry::Ignored => Entry::Ignored,
            },
            None => Entry::Ignored,
        }
    }

    /// Stores a chunk under a tracked ID: an all-zero chunk is recorded
    /// as such, anything else is kept as a copy.
    pub fn memorize(&mut self, id: &[u8], data: &[u8])
        requires
            old(self).wf(),
            old(self).contents().dom().contains(id@),
        ensures
            final(self).wf(),
            final(self).count() == old(self).count(),
            final(self).contents() =~= old(self).contents().insert(
                id@,
                if data@ == zeros(CHUNKSZ as nat) {
                    EntryV::KnownZero
                } else {
                    EntryV::Known(data@)
                },
            ),
    {
        let entry = if data.len() == CHUNKSZ && is_zero(data) {
            Entry::KnownZero
        } else {
            let mut copy: Vec<u8> = Vec::new();
            append_bytes(&mut copy, data);
            proof {
                assert(copy@ =~= data@);
            }
            Entry::Known(copy)
        };
        proof {
            assert(entry_view(entry) == if data@ == zeros(CHUNKSZ as nat) {
                EntryV::KnownZero
            } else {
                EntryV::Known(data@)
            });
        }
        let j = match self.find(id) {
            Some(j) => j,
            None => 0,
        };
        let ghost old_entries = self.entries@;
        let ghost old_at = self.at@;
        let (key, _old_entry) = self.entries.swap_remove(j);
        self.entries.push((key, entry));
        proof {
            let last = old_entries.len() - 1;
            assert(self.entries@ =~= old_entries.update(
                j as int,
                old_entries.last(),
            ).drop_last().push((old_entries[j as int].0, entry)));
            assert(self.entries@.len() == old_entries.len());
            assert forall|k: int| 0 <= k < last && k != j implies self.entries@[k]
                == old_entries[k] by {}
            assert(self.entries@[last].0 == old_entries[j as int].0);
            assert(j as int != last ==> self.entries@[j as int] == old_entries[last]);
            if j as int == last {
                self.at@ = old_at.insert(id@, last);
            } else {
                self.at@ = old_at.insert(old_entries[last].0@, j as int).insert(id@, last);
            }
            assert forall|id2: Seq<u8>| #![trigger self.at@[id2]] self.at@.dom().contains(
                id2,
            ) implies 0 <= self.at@[id2] < self.entries@.len() && self.entries@[self.at@[id2]].0@
                == id2 by {
                if id2 == id@ {
                    assert(self.entries@[last].0@ == id@);
                } else if j as int != last && id2 == old_entries[last].0@ {
                    assert(self.entries@[j as int] == old_entries[last]);
                } else {
                    assert(old_at[id2] != j as int || old_entries[j as int].0@ == id2);
                    assert(self.entries@[old_at[id2]] == old_entries[old_at[id2]]);
                }
            }
            assert forall|k: int| #![trigger self.entries@[k]] 0 <= k
                < self.entries@.len() implies self.at@.dom().contains(self.entries@[k].0@)
                && self.at@[self.entries@[k].0@] == k by {
                if k == last {
                } else if k == j as int && j as int != last {
                    assert(self.entries@[k] == old_entries[last]);
                    assert(old_entries[last].0@ != id@);
                } else {
                    assert(self.entries@[k] == old_entries[k]);
                    assert(old_entries[k].0@ != id@);
                    assert(j as int != last ==> old_entries[k].0@ != old_entries[last].0@);
                }
            }
            assert(self.contents() =~= old(self).contents().insert(
                id@,
                entry_view(entry),
            ));
        }
    }
}

} // verus!
