//! Revision chunk map and its deduplication-aware reverse grouping.
//!
//! A revision document maps decimal sequence-number keys to chunk IDs;
//! absent sequence numbers denote all-zero chunks. This module turns the
//! parsed key/ID pairs into a `ChunkVec`: an ordered grouping from chunk
//! ID to the ascending list of sequence numbers referencing it, plus the
//! list of zero sequence numbers. Each unique chunk is then decompressed
//! at most once per restore and written to every position referencing it.

use vstd::prelude::*;

use crate::util::{
    bytes_eq, bytes_lt, clone_bytes, clone_seqs, lemma_lex_lt_irrefl, lemma_lex_lt_total,
    lemma_lex_lt_trans, lex_lt,
};
use crate::{ExtractError, CHUNKSZ};

verus! {

/// An ASCII decimal digit.
pub open spec fn is_dec_digit(b: u8) -> bool {
    0x30 <= b <= 0x39
}

/// All bytes of the sequence are decimal digits.
pub open spec fn all_dec_digits(s: Seq<u8>) -> bool {
    forall|i: int| 0 <= i < s.len() ==> is_dec_digit(#[trigger] s[i])
}

/// The number a sequence of decimal digits denotes.
pub open spec fn dec_val(s: Seq<u8>) -> int
    decreases s.len(),
{
    if s.len() == 0 {
        0
    } else {
        dec_val(s.drop_last()) * 10 + (s.last() - 0x30)
    }
}

/// A well-formed decimal key: non-empty, digits only, and within `u64`.
pub open spec fn valid_dec_key(s: Seq<u8>) -> bool {
    s.len() > 0 && all_dec_digits(s) && dec_val(s) <= u64::MAX
}

proof fn lemma_dec_val_nonneg(s: Seq<u8>)
    requires
        all_dec_digits(s),
    ensures
        dec_val(s) >= 0,
    decreases s.len(),
{
    if s.len() > 0 {
        assert(all_dec_digits(s.drop_last()));
        lemma_dec_val_nonneg(s.drop_last());
    }
}

/// Appending digits never decreases the denoted number.
proof fn lemma_dec_val_prefix_le(s: Seq<u8>, i: int)
    requires
        all_dec_digits(s),
        0 <= i <= s.len(),
    ensures
        dec_val(s.subrange(0, i)) <= dec_val(s),
    decreases s.len() - i,
{
    if i < s.len() {
        lemma_dec_val_prefix_le(s, i + 1);
        let p = s.subrange(0, i + 1);
        assert(p.drop_last() =~= s.subrange(0, i));
        assert(dec_val(p) == dec_val(s.subrange(0, i)) * 10 + (s[i] - 0x30));
        assert(all_dec_digits(s.subrange(0, i)));
        lemma_dec_val_nonneg(s.subrange(0, i));
    } else {
        assert(s.subrange(0, i) =~= s);
    }
}

/// Parses an ASCII decimal number. Returns the denoted value exactly for
/// well-formed keys and nothing otherwise.
pub fn parse_decimal(s: &[u8]) -> (r: Option<u64>)
    ensures
        valid_dec_key(s@) ==> (r matches Some(v) && v == dec_val(s@)),
        !valid_dec_key(s@) ==> r is None,
{
    let n = s.len();
    if n == 0 {
        return None;
    }
    let mut v: u64 = 0;
    let mut i: usize = 0;
    while i < n
        invariant
            0 < n == s@.len(),
            0 <= i <= n,
            all_dec_digits(s@.subrange(0, i as int)),
            v == dec_val(s@.subrange(0, i as int)),
        decreases n - i,
    {
        let b = s[i];
        if b < 0x30 || b > 0x39 {
            assert(!all_dec_digits(s@)) by {
                assert(!is_dec_digit(s@[i as int]));
            }
            return None;
        }
        let d = (b - 0x30) as u64;
        proof {
            assert(s@.subrange(0, i + 1).drop_last() =~= s@.subrange(0, i as int));
            assert(all_dec_digits(s@.subrange(0, i + 1)));
            assert(dec_val(s@.subrange(0, i + 1)) == v * 10 + d);
        }
        if v > (u64::MAX - d) / 10 {
            proof {
                assert(v * 10 + d > u64::MAX) by (nonlinear_arith)
                    requires
                        v > (u64::MAX - d) / 10,
                        0 <= d <= 9,
                        v >= 0,
                ;
                if all_dec_digits(s@) {
                    lemma_dec_val_prefix_le(s@, i + 1);
                }
                assert(!valid_dec_key(s@));
            }
            return None;
        }
        proof {
            assert(v * 10 + d <= u64::MAX) by (nonlinear_arith)
                requires
                    v <= (u64::MAX - d) / 10,
                    0 <= d <= 9,
                    v >= 0,
            ;
        }
        v = v * 10 + d;
        i += 1;
    }
    proof {
        assert(s@.subrange(0, n as int) =~= s@);
    }
    Some(v)
}

/// The mathematical view of a linearized chunk map: for each sequence
/// number, the chunk ID it references, or `None` for a zero chunk.
pub open spec fn view_linear(tmp: Seq<Option<Vec<u8>>>) -> Seq<Option<Seq<u8>>> {
    Seq::new(
        tmp.len(),
        |i: int|
            match tmp[i] {
                Some(v) => Some(v@),
                None => None,
            },
    )
}

/// All keys of the pairs are well-formed decimal numbers below `n`.
pub open spec fn keys_ok(ps: Seq<(Vec<u8>, Vec<u8>)>, n: int) -> bool {
    forall|i: int|
        0 <= i < ps.len() ==> valid_dec_key(#[trigger] ps[i].0@) && dec_val(ps[i].0@) < n
}

/// No two pairs share a sequence number.
pub open spec fn keys_unique(ps: Seq<(Vec<u8>, Vec<u8>)>) -> bool {
    forall|i: int, j: int|
        0 <= i < j < ps.len() ==> dec_val(#[trigger] ps[i].0@) != dec_val(#[trigger] ps[j].0@)
}

/// The linear map `lin` holds exactly the associations of the pairs.
pub open spec fn linear_matches(ps: Seq<(Vec<u8>, Vec<u8>)>, lin: Seq<Option<Seq<u8>>>) -> bool {
    &&& forall|i: int|
        0 <= i < ps.len() ==> lin[dec_val(#[trigger] ps[i].0@)] == Some(ps[i].1@)
    &&& forall|s: int|
        0 <= s < lin.len() && (#[trigger] lin[s]) is Some ==> exists|i: int|
            0 <= i < ps.len() && dec_val(#[trigger] ps[i].0@) == s && ps[i].1@ == lin[s]->0
}

/// Turns key/ID pairs into an array indexed by sequence number. Fails
/// exactly when a key is malformed, out of range, or duplicated.
pub(crate) fn linearize(pairs: &Vec<(Vec<u8>, Vec<u8>)>, n: usize) -> (r: Result<
    Vec<Option<Vec<u8>>>,
    ExtractError,
>)
    ensures
        keys_ok(pairs@, n as int) && keys_unique(pairs@) ==> r is Ok,
        r matches Ok(tmp) ==> view_linear(tmp@).len() == n && keys_ok(pairs@, n as int)
            && keys_unique(pairs@) && linear_matches(pairs@, view_linear(tmp@)),
        r matches Err(e) ==> e is DecodeMap && !(keys_ok(pairs@, n as int) && keys_unique(
            pairs@,
        )),
{
    let mut tmp: Vec<Option<Vec<u8>>> = Vec::new();
    let mut s: usize = 0;
    while s < n
        invariant
            0 <= s <= n,
            tmp@.len() == s,
            forall|j: int| 0 <= j < s ==> (#[trigger] tmp@[j]) is None,
        decreases n - s,
    {
        tmp.push(None);
        s += 1;
    }
    let m = pairs.len();
    let mut i: usize = 0;
    while i < m
        invariant
            0 <= i <= m,
            m == pairs@.len(),
            tmp@.len() == n,
            forall|j: int|
                0 <= j < i ==> valid_dec_key(#[trigger] pairs@[j].0@) && 0 <= dec_val(
                    pairs@[j].0@,
                ) < n && view_linear(tmp@)[dec_val(pairs@[j].0@)] == Some(pairs@[j].1@),
            forall|t: int|
                0 <= t < n && (#[trigger] view_linear(tmp@)[t]) is Some ==> exists|j: int|
                    0 <= j < i && dec_val(#[trigger] pairs@[j].0@) == t && pairs@[j].1@
                        == view_linear(tmp@)[t]->0,
            forall|j1: int, j2: int|
                0 <= j1 < j2 < i ==> dec_val(#[trigger] pairs@[j1].0@) != dec_val(
                    #[trigger] pairs@[j2].0@,
                ),
        decreases m - i,
    {
        let key = parse_decimal(pairs[i].0.as_slice());
        let k: u64 = match key {
            Some(k) => k,
            None => {
                return Err(ExtractError::DecodeMap("sequence key is not a decimal number".to_owned()));
            },
        };
        if k >= n as u64 {
            assert(!keys_ok(pairs@, n as int)) by {
                assert(dec_val(pairs@[i as int].0@) >= n);
            }
            return Err(ExtractError::DecodeMap("sequence number beyond image size".to_owned()));
        }
        let ku = k as usize;
        if tmp[ku].is_some() {
            proof {
                assert((view_linear(tmp@)[k as int]) is Some);
                let j = choose|j: int|
                    0 <= j < i && dec_val(#[trigger] pairs@[j].0@) == k as int && pairs@[j].1@
                        == view_linear(tmp@)[k as int]->0;
                assert(dec_val(pairs@[j].0@) == dec_val(pairs@[i as int].0@));
                assert(!keys_unique(pairs@));
            }
            return Err(ExtractError::DecodeMap("duplicate sequence number".to_owned()));
        }
        let id = clone_bytes(&pairs[i].1);
        proof {
            // The slot was free, so this key differs from every earlier one.
            assert forall|j: int| 0 <= j < i implies dec_val(#[trigger] pairs@[j].0@) != dec_val(
                pairs@[i as int].0@,
            ) by {
                assert(view_linear(tmp@)[dec_val(pairs@[j].0@)] == Some(pairs@[j].1@));
                assert(view_linear(tmp@)[k as int] is None);
            }
        }
        let ghost old_tmp = tmp@;
        tmp.set(ku, Some(id));
        proof {
            assert(view_linear(tmp@) =~= view_linear(old_tmp).update(
                k as int,
                Some(pairs@[i as int].1@),
            ));
        }
        i += 1;
    }
    Ok(tmp)
}

/// The distinct chunk IDs occurring in the array, in ascending
/// lexicographic order, each with a ghost witness position at which it
/// occurs.
#[verifier::loop_isolation(false)]
#[verifier::rlimit(60)]
fn distinct_sorted_ids(tmp: &Vec<Option<Vec<u8>>>) -> (r: (Vec<Vec<u8>>, Ghost<Seq<int>>))
    ensures
        forall|a: int, b: int|
            0 <= a < b < r.0@.len() ==> lex_lt(#[trigger] r.0@[a]@, #[trigger] r.0@[b]@),
        r.1@.len() == r.0@.len(),
        forall|k: int|
            #![trigger r.1@[k]]
            0 <= k < r.0@.len() ==> 0 <= r.1@[k] < tmp@.len() && tmp@[r.1@[k]] is Some
                && tmp@[r.1@[k]]->0@ == r.0@[k]@,
        forall|s: int|
            0 <= s < tmp@.len() && (#[trigger] tmp@[s]) is Some ==> exists|k: int|
                0 <= k < r.0@.len() && r.0@[k]@ == tmp@[s]->0@,
{
    let n = tmp.len();
    let mut ids: Vec<Vec<u8>> = Vec::new();
    // For each collected ID, a witness position where it occurs.
    let ghost mut srcs: Seq<int> = Seq::empty();
    let mut s: usize = 0;
    while s < n
        invariant
            0 <= s <= n,
            n == tmp@.len(),
            srcs.len() == ids@.len(),
            forall|a: int, b: int|
                0 <= a < b < ids@.len() ==> lex_lt(#[trigger] ids@[a]@, #[trigger] ids@[b]@),
            forall|k: int|
                #![trigger srcs[k]]
                0 <= k < ids@.len() ==> 0 <= srcs[k] < n && tmp@[srcs[k]] is Some
                    && tmp@[srcs[k]]->0@ == ids@[k]@,
            forall|t: int|
                0 <= t < s && (#[trigger] tmp@[t]) is Some ==> exists|k: int|
                    0 <= k < ids@.len() && ids@[k]@ == tmp@[t]->0@,
        decreases n - s,
    {
        if let Some(id) = &tmp[s] {
            // Find the insertion point among the sorted IDs.
            let mut p: usize = 0;
            while p < ids.len() && bytes_lt(ids[p].as_slice(), id.as_slice())
                invariant
                    0 <= p <= ids@.len(),
                    forall|a: int| 0 <= a < p ==> lex_lt(#[trigger] ids@[a]@, id@),
                decreases ids@.len() - p,
            {
                p += 1;
            }
            let is_new = if p == ids.len() {
                true
            } else {
                !bytes_eq(ids[p].as_slice(), id.as_slice())
            };
            if is_new {
                proof {
                    if p < ids@.len() {
                        lemma_lex_lt_total(ids@[p as int]@, id@);
                        assert(lex_lt(id@, ids@[p as int]@));
                    }
                }
                let ghost old_ids = ids@;
                let ghost old_srcs = srcs;
                let fresh = clone_bytes(id);
                ids.insert(p, fresh);
                proof {
                    srcs = srcs.insert(p as int, s as int);
                    old_ids.insert_ensures(p as int, fresh);
                    old_srcs.insert_ensures(p as int, s as int);
                    assert(ids@[p as int]@ == id@);
                    assert forall|a: int, b: int| 0 <= a < b < ids@.len() implies lex_lt(
                        #[trigger] ids@[a]@,
                        #[trigger] ids@[b]@,
                    ) by {
                        if a < p && b > p {
                            assert(ids@[a]@ == old_ids[a]@);
                            assert(ids@[b]@ == old_ids[b - 1]@);
                        } else if a == p && b > p {
                            assert(ids@[b]@ == old_ids[b - 1]@);
                            if b - 1 > p {
                                lemma_lex_lt_trans(id@, old_ids[p as int]@, old_ids[b - 1]@);
                            }
                        } else if a < p && b == p {
                            assert(ids@[a]@ == old_ids[a]@);
                        }
                    }
                    assert forall|k: int| #![trigger srcs[k]] 0 <= k < ids@.len() implies 0
                        <= srcs[k] < n && tmp@[srcs[k]] is Some && tmp@[srcs[k]]->0@
                        == ids@[k]@ by {
                        if k < p {
                            assert(ids@[k]@ == old_ids[k]@);
                            assert(srcs[k] == old_srcs[k]);
                        } else if k > p {
                            assert(ids@[k]@ == old_ids[k - 1]@);
                            assert(srcs[k] == old_srcs[k - 1]);
                        }
                    }
                    assert forall|t: int| 0 <= t <= s && (#[trigger] tmp@[t]) is Some implies exists|
                        k: int,
                    | 0 <= k < ids@.len() && ids@[k]@ == tmp@[t]->0@ by {
                        if t < s {
                            let k0 = choose|k0: int|
                                0 <= k0 < old_ids.len() && old_ids[k0]@ == tmp@[t]->0@;
                            if k0 < p {
                                assert(ids@[k0]@ == tmp@[t]->0@);
                            } else {
                                assert(ids@[k0 + 1]@ == tmp@[t]->0@);
                            }
                        } else {
                            assert(ids@[p as int]@ == tmp@[t]->0@);
                        }
                    }
                }
            } else {
                proof {
                    assert(ids@[p as int]@ == tmp@[s as int]->0@);
                }
            }
        }
        s += 1;
    }
    (ids, Ghost(srcs))
}

/// The ascending list of sequence numbers that reference `id`.
fn group_for_id(tmp: &Vec<Option<Vec<u8>>>, id: &[u8]) -> (l: Vec<u64>)
    requires
        tmp@.len() <= u64::MAX,
    ensures
        forall|a: int, b: int| 0 <= a < b < l@.len() ==> #[trigger] l@[a] < #[trigger] l@[b],
        forall|a: int|
            0 <= a < l@.len() ==> 0 <= #[trigger] l@[a] < tmp@.len() && tmp@[l@[a] as int] is Some
                && tmp@[l@[a] as int]->0@ == id@,
        forall|s: int|
            0 <= s < tmp@.len() && (#[trigger] tmp@[s]) is Some && tmp@[s]->0@ == id@ ==> exists|
                a: int,
            | 0 <= a < l@.len() && l@[a] == s,
{
    let n = tmp.len();
    let mut l: Vec<u64> = Vec::new();
    let mut s: usize = 0;
    while s < n
        invariant
            0 <= s <= n,
            n == tmp@.len() <= u64::MAX,
            forall|a: int, b: int| 0 <= a < b < l@.len() ==> #[trigger] l@[a] < #[trigger] l@[b],
            forall|a: int|
                0 <= a < l@.len() ==> 0 <= #[trigger] l@[a] < s && tmp@[l@[a] as int] is Some
                    && tmp@[l@[a] as int]->0@ == id@,
            forall|t: int|
                0 <= t < s && (#[trigger] tmp@[t]) is Some && tmp@[t]->0@ == id@ ==> exists|a: int|
                    0 <= a < l@.len() && l@[a] == t,
        decreases n - s,
    {
        let hit = match &tmp[s] {
            Some(v) => bytes_eq(v.as_slice(), id),
            None => false,
        };
        if hit {
            let ghost old_l = l@;
            l.push(s as u64);
            proof {
                assert forall|t: int|
                    0 <= t <= s && (#[trigger] tmp@[t]) is Some && tmp@[t]->0@
                        == id@ implies exists|a: int| 0 <= a < l@.len() && l@[a] == t by {
                    if t < s {
                        let a = choose|a: int| 0 <= a < old_l.len() && old_l[a] == t;
                        assert(l@[a] == t);
                    } else {
                        assert(l@[l@.len() - 1] == t);
                    }
                }
            }
        }
        s += 1;
    }
    l
}

/// The element-wise mathematical view of a group list: chunk ID bytes and
/// sequence numbers.
pub open spec fn dv_groups(v: Seq<(Vec<u8>, Vec<u64>)>) -> Seq<(Seq<u8>, Seq<u64>)> {
    Seq::new(v.len(), |g: int| (v[g].0@, v[g].1@))
}

/// One group is sound and complete for its ID: a non-empty ascending list
/// of exactly the positions that reference the ID.
pub open spec fn group_ok(lin: Seq<Option<Seq<u8>>>, id: Seq<u8>, l: Seq<u64>) -> bool {
    &&& l.len() > 0
    &&& forall|a: int, b: int| 0 <= a < b < l.len() ==> #[trigger] l[a] < #[trigger] l[b]
    &&& forall|a: int|
        #![trigger l[a]]
        0 <= a < l.len() ==> 0 <= l[a] < lin.len() && lin[l[a] as int] == Some(id)
    &&& forall|s: int|
        0 <= s < lin.len() && #[trigger] lin[s] == Some(id) ==> exists|a: int|
            0 <= a < l.len() && l[a] == s
}

/// All chunks of a revision, grouped by chunk ID.
pub struct ChunkVec {
    /// Total image size in bytes.
    pub size: u64,
    /// Grouped mapping: each chunk ID with the ascending list of sequence
    /// numbers referencing it, ordered by ID.
    pub chunks: Vec<(Vec<u8>, Vec<u64>)>,
    /// Sequence numbers found in no group: all-zero chunks, ascending.
    pub zero_seqs: Vec<u64>,
    /// The linear revision map this grouping was built from.
    pub linear: Ghost<Seq<Option<Seq<u8>>>>,
}

impl ChunkVec {
    /// The linear revision map: for each position, the chunk ID it
    /// references, or `None` for a zero chunk.
    pub open spec fn linear(self) -> Seq<Option<Seq<u8>>> {
        self.linear@
    }

    /// The groups as mathematical values.
    pub open spec fn groups(self) -> Seq<(Seq<u8>, Seq<u64>)> {
        dv_groups(self.chunks@)
    }

    /// The zero-chunk positions as a sequence.
    pub open spec fn zeros_list(self) -> Seq<u64> {
        self.zero_seqs@
    }

    /// The number of chunks of the image.
    pub open spec fn nchunks(self) -> int {
        self.size as int / CHUNKSZ as int
    }

    /// Well-formedness: the grouping is the exact inverse of the linear
    /// revision map, ordered by chunk ID, with the zero positions listed
    /// separately.
    pub open spec fn wf(self) -> bool {
        &&& self.size as int % CHUNKSZ as int == 0
        &&& self.nchunks() <= usize::MAX
        &&& self.linear().len() == self.nchunks()
        &&& forall|g: int, h: int|
            0 <= g < h < self.groups().len() ==> lex_lt(
                (#[trigger] self.groups()[g]).0,
                (#[trigger] self.groups()[h]).0,
            )
        &&& forall|g: int|
            #![trigger self.groups()[g]]
            0 <= g < self.groups().len() ==> group_ok(
                self.linear(),
                self.groups()[g].0,
                self.groups()[g].1,
            )
        &&& forall|s: int|
            0 <= s < self.linear().len() && (#[trigger] self.linear()[s]) is Some ==> exists|g: int|
                0 <= g < self.groups().len() && self.groups()[g].0 == self.linear()[s]->0
        &&& forall|a: int, b: int|
            0 <= a < b < self.zeros_list().len() ==> #[trigger] self.zeros_list()[a]
                < #[trigger] self.zeros_list()[b]
        &&& forall|a: int|
            #![trigger self.zeros_list()[a]]
            0 <= a < self.zeros_list().len() ==> 0 <= self.zeros_list()[a] < self.linear().len()
                && self.linear()[self.zeros_list()[a] as int] is None
        &&& forall|s: int|
            0 <= s < self.linear().len() && (#[trigger] self.linear()[s]) is None ==> exists|a: int|
                0 <= a < self.zeros_list().len() && self.zeros_list()[a] == s
    }

    /// Parses the validated key/ID pairs of a revision document and builds
    /// the reverse grouping.
    ///
    /// Fails with `UnalignedSize` exactly when the image size is not a
    /// multiple of the chunk size, and with `DecodeMap` exactly when a
    /// sequence key is malformed, out of range, or duplicated.
    pub fn decode(pairs: &Vec<(Vec<u8>, Vec<u8>)>, size: u64) -> (r: Result<ChunkVec, ExtractError>)
        requires
            size as int / CHUNKSZ as int <= usize::MAX,
        ensures
            size as int % CHUNKSZ as int != 0 ==> (r matches Err(ExtractError::UnalignedSize(n))
                && n == size),
            r matches Err(ExtractError::UnalignedSize(n)) ==> size as int % CHUNKSZ as int != 0,
            size as int % CHUNKSZ as int == 0 && keys_ok(pairs@, size as int / CHUNKSZ as int)
                && keys_unique(pairs@) ==> r is Ok,
            r matches Ok(cm) ==> cm.wf() && cm.size == size && keys_ok(pairs@, cm.nchunks())
                && keys_unique(pairs@) && linear_matches(pairs@, cm.linear()),
            r matches Err(e) ==> e is UnalignedSize || e is DecodeMap,
    {
        if size % (CHUNKSZ as u64) != 0 {
            return Err(ExtractError::UnalignedSize(size));
        }
        let n: usize = (size / (CHUNKSZ as u64)) as usize;
        let tmp = match linearize(pairs, n) {
            Ok(t) => t,
            Err(e) => {
                return Err(e);
            },
        };
        let (ids, srcs) = distinct_sorted_ids(&tmp);
        let ghost lin = view_linear(tmp@);
        let mut chunks: Vec<(Vec<u8>, Vec<u64>)> = Vec::new();
        let m = ids.len();
        let mut g: usize = 0;
        while g < m
            invariant
                0 <= g <= m,
                m == ids@.len(),
                tmp@.len() == n <= u64::MAX,
                lin == view_linear(tmp@),
                srcs@.len() == m,
                forall|k: int|
                    #![trigger srcs@[k]]
                    0 <= k < m ==> 0 <= srcs@[k] < tmp@.len() && tmp@[srcs@[k]] is Some
                        && tmp@[srcs@[k]]->0@ == ids@[k]@,
                forall|a: int, b: int|
                    0 <= a < b < m ==> lex_lt(#[trigger] ids@[a]@, #[trigger] ids@[b]@),
                chunks@.len() == g,
                forall|k: int|
                    #![trigger chunks@[k]]
                    0 <= k < g ==> chunks@[k].0@ == ids@[k]@ && group_ok(
                        lin,
                        chunks@[k].0@,
                        chunks@[k].1@,
                    ),
            decreases m - g,
        {
            let id = clone_bytes(&ids[g]);
            let l = group_for_id(&tmp, id.as_slice());
            proof {
                assert(lin[srcs@[g as int]] == Some(id@));
                let a = choose|a: int| 0 <= a < l@.len() && l@[a] == srcs@[g as int];
                assert(l@.len() > 0);
                assert forall|a2: int| #![trigger l@[a2]] 0 <= a2 < l@.len() implies 0 <= l@[a2]
                    < lin.len() && lin[l@[a2] as int] == Some(id@) by {
                    assert(tmp@[l@[a2] as int] is Some && tmp@[l@[a2] as int]->0@ == id@);
                }
                assert forall|s: int| 0 <= s < lin.len() && #[trigger] lin[s] == Some(
                    id@,
                ) implies exists|a2: int| 0 <= a2 < l@.len() && l@[a2] == s by {
                    assert(tmp@[s] is Some && tmp@[s]->0@ == id@);
                }
                assert(group_ok(lin, id@, l@));
            }
            chunks.push((id, l));
            g += 1;
        }
        let mut zero_seqs: Vec<u64> = Vec::new();
        let mut z: usize = 0;
        while z < n
            invariant
                0 <= z <= n,
                tmp@.len() == n <= u64::MAX,
                lin == view_linear(tmp@),
                forall|a: int, b: int|
                    0 <= a < b < zero_seqs@.len() ==> #[trigger] zero_seqs@[a]
                        < #[trigger] zero_seqs@[b],
                forall|a: int|
                    #![trigger zero_seqs@[a]]
                    0 <= a < zero_seqs@.len() ==> 0 <= zero_seqs@[a] < z
                        && lin[zero_seqs@[a] as int] is None,
                forall|s: int|
                    0 <= s < z && (#[trigger] lin[s]) is None ==> exists|a: int|
                        0 <= a < zero_seqs@.len() && zero_seqs@[a] == s,
            decreases n - z,
        {
            if tmp[z].is_none() {
                let ghost old_zs = zero_seqs@;
                zero_seqs.push(z as u64);
                proof {
                    assert forall|s: int| 0 <= s <= z && (#[trigger] lin[s]) is None implies exists|
                        a: int,
                    | 0 <= a < zero_seqs@.len() && zero_seqs@[a] == s by {
                        if s < z {
                            let a = choose|a: int| 0 <= a < old_zs.len() && old_zs[a] == s;
                            assert(zero_seqs@[a] == s);
                        } else {
                            assert(zero_seqs@[zero_seqs@.len() - 1] == s);
                        }
                    }
                }
            }
            z += 1;
        }
        let cm = ChunkVec { size, chunks, zero_seqs, linear: Ghost(lin) };
        proof {
            assert(cm.groups().len() == m);
            assert forall|gg: int, h: int| 0 <= gg < h < cm.groups().len() implies lex_lt(
                (#[trigger] cm.groups()[gg]).0,
                (#[trigger] cm.groups()[h]).0,
            ) by {
                assert(cm.groups()[gg].0 == ids@[gg]@);
                assert(cm.groups()[h].0 == ids@[h]@);
            }
            assert forall|gg: int| #![trigger cm.groups()[gg]] 0 <= gg < cm.groups().len() implies
                group_ok(cm.linear(), cm.groups()[gg].0, cm.groups()[gg].1) by {
                assert(cm.groups()[gg].0 == cm.chunks@[gg].0@);
                assert(cm.groups()[gg].1 == cm.chunks@[gg].1@);
            }
            assert forall|s: int| 0 <= s < cm.linear().len() && (#[trigger] cm.linear()[s])
                is Some implies exists|gg: int|
                0 <= gg < cm.groups().len() && cm.groups()[gg].0 == cm.linear()[s]->0 by {
                assert(tmp@[s] is Some);
                let k = choose|k: int| 0 <= k < ids@.len() && ids@[k]@ == tmp@[s]->0@;
                assert(cm.groups()[k].0 == cm.linear()[s]->0);
            }
            assert(cm.wf());
        }
        Ok(cm)
    }

    /// The number of chunks to restore.
    pub fn len(&self) -> (r: usize)
        requires
            self.wf(),
        ensures
            r == self.nchunks(),
    {
        (self.size / (CHUNKSZ as u64)) as usize
    }

    /// The number of groups of the reverse mapping.
    pub fn group_count(&self) -> (r: usize)
        ensures
            r == self.groups().len(),
    {
        self.chunks.len()
    }

    /// The zero-chunk positions, as a single batch.
    pub fn zero_group(&self) -> (r: &Vec<u64>)
        ensures
            r@ == self.zeros_list(),
    {
        &self.zero_seqs
    }

    /// Iterates one worker's share of the groups: every `nthreads`-th
    /// group starting at `threadid`. Parallel workers with distinct
    /// thread IDs cover disjoint shares whose union is every group.
    pub fn iterate_for_thread(&self, threadid: usize, nthreads: usize) -> (r: Vec<
        (Vec<u8>, Vec<u64>),
    >)
        requires
            0 < nthreads,
            threadid < nthreads,
        ensures
            r@.len() == sel_count(self.groups().len() as int, threadid as int, nthreads as int),
            forall|k: int|
                #![trigger k * nthreads]
                0 <= k < r@.len() ==> 0 <= threadid + k * nthreads < self.groups().len(),
            forall|k: int|
                #![trigger r@[k]]
                0 <= k < r@.len() ==> (r@[k].0@, r@[k].1@) == self.groups()[threadid + k
                    * nthreads],
    {
        let m = self.chunks.len();
        let mut r: Vec<(Vec<u8>, Vec<u64>)> = Vec::new();
        let mut g: usize = threadid;
        let ghost mut k: int = 0;
        while g < m
            invariant
                0 < nthreads,
                threadid < nthreads,
                m == self.groups().len(),
                k >= 0,
                g == threadid + k * nthreads,
                k >= 1 ==> threadid + (k - 1) * nthreads < m,
                r@.len() == k,
                forall|kk: int|
                    #![trigger kk * nthreads]
                    0 <= kk < k ==> 0 <= threadid + kk * nthreads < m,
                forall|kk: int|
                    #![trigger r@[kk]]
                    0 <= kk < k ==> (r@[kk].0@, r@[kk].1@) == self.groups()[threadid + kk
                        * nthreads],
            decreases m - g,
        {
            let id = clone_bytes(&self.chunks[g].0);
            let l = clone_seqs(&self.chunks[g].1);
            let ghost old_r = r@;
            r.push((id, l));
            proof {
                assert(r@[k as int].0@ == self.groups()[g as int].0);
                assert(r@[k as int].1@ == self.groups()[g as int].1);
                assert forall|kk: int| #![trigger kk * nthreads] 0 <= kk < k + 1 implies 0
                    <= threadid + kk * nthreads < m && (r@[kk].0@, r@[kk].1@)
                    == self.groups()[threadid + kk * nthreads] by {
                    if kk < k {
                        assert(r@[kk] == old_r[kk]);
                        assert(0 <= threadid + kk * nthreads < m);
                        assert((r@[kk].0@, r@[kk].1@) == self.groups()[threadid + kk * nthreads]);
                    } else {
                        assert(r@[kk] == (id, l));
                        assert(threadid + kk * nthreads == g) by (nonlinear_arith)
                            requires
                                kk == k,
                                g == threadid + k * nthreads,
                        ;
                    }
                }
            }
            if m - g <= nthreads {
                // Last share member: account for the final stride.
                proof {
                    k = k + 1;
                    assert(threadid + k * nthreads == g + nthreads) by (nonlinear_arith)
                        requires
                            g == threadid + (k - 1) * nthreads,
                    ;
                    lemma_sel_count_exact(m as int, threadid as int, nthreads as int, k);
                }
                return r;
            }
            g = g + nthreads;
            proof {
                k = k + 1;
                assert(g == threadid + k * nthreads) by (nonlinear_arith)
                    requires
                        g - nthreads == threadid + (k - 1) * nthreads,
                ;
            }
        }
        proof {
            lemma_sel_count_exact(m as int, threadid as int, nthreads as int, k);
        }
        r
    }
}

/// How many groups fall to the worker starting at `t` with stride `n`:
/// the size of `{ k >= 0 | t + k*n < len }`.
pub open spec fn sel_count(len: int, t: int, n: int) -> int {
    if t < len {
        (len - t - 1) / n + 1
    } else {
        0
    }
}

/// The count of stride positions below `len` is exact: if `t + k*n`
/// first reaches `len` at `k`, then `k` strides fall below it.
proof fn lemma_sel_count_exact(len: int, t: int, n: int, k: int)
    requires
        0 < n,
        0 <= t,
        k >= 1 ==> t + (k - 1) * n < len,
        t + k * n >= len,
        k >= 0,
    ensures
        sel_count(len, t, n) == k,
{
    if k == 0 {
        assert(t >= len);
    } else {
        assert(t < len) by (nonlinear_arith)
            requires
                0 < n,
                k >= 1,
                t + (k - 1) * n < len,
        ;
        assert((len - t - 1) / n == k - 1) by (nonlinear_arith)
            requires
                0 < n,
                t + (k - 1) * n < len,
                t + k * n >= len,
        ;
    }
}

/// Every group falls to exactly one worker: group `g` belongs to the
/// share of worker `g % nthreads`, at stride index `g / nthreads`, and to
/// no other worker's share.
pub proof fn lemma_thread_partition(len: int, nthreads: int, g: int)
    requires
        0 < nthreads,
        0 <= g < len,
    ensures
        (g % nthreads) + (g / nthreads) * nthreads == g,
        0 <= g % nthreads < nthreads,
        0 <= g / nthreads < sel_count(len, g % nthreads, nthreads),
        forall|t: int, k: int|
            #![trigger t + k * nthreads]
            0 <= t < nthreads && 0 <= k && t + k * nthreads == g ==> t == g % nthreads && k == g
                / nthreads,
{
    vstd::arithmetic::div_mod::lemma_fundamental_div_mod(g, nthreads);
    vstd::arithmetic::div_mod::lemma_mod_bound(g, nthreads);
    assert(0 <= g / nthreads) by (nonlinear_arith)
        requires
            0 < nthreads,
            0 <= g,
    ;
    let t0 = g % nthreads;
    let k0 = g / nthreads;
    assert(g < len);
    assert(sel_count(len, t0, nthreads) > k0) by (nonlinear_arith)
        requires
            0 < nthreads,
            0 <= t0,
            t0 + k0 * nthreads == g,
            g < len,
            k0 >= 0,
            sel_count(len, t0, nthreads) == (len - t0 - 1) / nthreads + 1,
    ;
    assert forall|t: int, k: int|
        #![trigger t + k * nthreads]
        0 <= t < nthreads && 0 <= k && t + k * nthreads == g implies t == t0 && k == k0 by {
        vstd::arithmetic::div_mod::lemma_fundamental_div_mod_converse(g, nthreads, k, t);
    }
}

/// Map inversion law: in a well-formed grouping every position referencing
/// a chunk ID stands in exactly one group, each group lists exactly the
/// positions of its ID, and the groups together with the zero list cover
/// every position of the image exactly once.
pub proof fn lemma_map_inversion(cm: ChunkVec)
    requires
        cm.wf(),
    ensures
        forall|s: int|
            0 <= s < cm.linear().len() && (#[trigger] cm.linear()[s]) is Some ==> exists|
                g: int,
                a: int,
            |
                0 <= g < cm.groups().len() && 0 <= a < cm.groups()[g].1.len()
                    && cm.groups()[g].0 == cm.linear()[s]->0 && cm.groups()[g].1[a] == s,
        forall|s: int|
            0 <= s < cm.linear().len() && (#[trigger] cm.linear()[s]) is None ==> exists|a: int|
                0 <= a < cm.zeros_list().len() && cm.zeros_list()[a] == s,
        forall|g1: int, a1: int, g2: int, a2: int|
            #![trigger cm.groups()[g1].1[a1], cm.groups()[g2].1[a2]]
            0 <= g1 < cm.groups().len() && 0 <= a1 < cm.groups()[g1].1.len() && 0 <= g2
                < cm.groups().len() && 0 <= a2 < cm.groups()[g2].1.len()
                && cm.groups()[g1].1[a1] == cm.groups()[g2].1[a2] ==> g1 == g2 && a1 == a2,
        forall|g: int, a: int|
            #![trigger cm.groups()[g].1[a]]
            0 <= g < cm.groups().len() && 0 <= a < cm.groups()[g].1.len() ==> !exists|z: int|
                0 <= z < cm.zeros_list().len() && cm.zeros_list()[z] == cm.groups()[g].1[a],
{
    assert forall|s: int|
        0 <= s < cm.linear().len() && (#[trigger] cm.linear()[s]) is Some implies exists|
        g: int,
        a: int,
    |
        0 <= g < cm.groups().len() && 0 <= a < cm.groups()[g].1.len() && cm.groups()[g].0
            == cm.linear()[s]->0 && cm.groups()[g].1[a] == s by {
        let g = choose|g: int|
            0 <= g < cm.groups().len() && cm.groups()[g].0 == cm.linear()[s]->0;
        assert(group_ok(cm.linear(), cm.groups()[g].0, cm.groups()[g].1));
        assert(cm.linear()[s] == Some(cm.groups()[g].0));
        let a = choose|a: int| 0 <= a < cm.groups()[g].1.len() && cm.groups()[g].1[a] == s;
        assert(0 <= a < cm.groups()[g].1.len() && cm.groups()[g].1[a] == s);
    }
    assert forall|g1: int, a1: int, g2: int, a2: int|
        #![trigger cm.groups()[g1].1[a1], cm.groups()[g2].1[a2]]
        0 <= g1 < cm.groups().len() && 0 <= a1 < cm.groups()[g1].1.len() && 0 <= g2
            < cm.groups().len() && 0 <= a2 < cm.groups()[g2].1.len()
            && cm.groups()[g1].1[a1] == cm.groups()[g2].1[a2] implies g1 == g2 && a1 == a2 by {
        let s = cm.groups()[g1].1[a1];
        assert(cm.linear()[s as int] == Some(cm.groups()[g1].0));
        assert(cm.linear()[s as int] == Some(cm.groups()[g2].0));
        if g1 < g2 {
            assert(lex_lt(cm.groups()[g1].0, cm.groups()[g2].0));
            lemma_lex_lt_irrefl(cm.groups()[g1].0);
        }
        if g2 < g1 {
            assert(lex_lt(cm.groups()[g2].0, cm.groups()[g1].0));
            lemma_lex_lt_irrefl(cm.groups()[g1].0);
        }
        if a1 < a2 {
            assert(cm.groups()[g1].1[a1] < cm.groups()[g1].1[a2]);
        }
        if a2 < a1 {
            assert(cm.groups()[g1].1[a2] < cm.groups()[g1].1[a1]);
        }
    }
    assert forall|g: int, a: int|
        #![trigger cm.groups()[g].1[a]]
        0 <= g < cm.groups().len() && 0 <= a < cm.groups()[g].1.len() implies !exists|z: int|
        0 <= z < cm.zeros_list().len() && cm.zeros_list()[z] == cm.groups()[g].1[a] by {
        let s = cm.groups()[g].1[a];
        assert(cm.linear()[s as int] == Some(cm.groups()[g].0));
        if exists|z: int| 0 <= z < cm.zeros_list().len() && cm.zeros_list()[z] == s {
            let z = choose|z: int| 0 <= z < cm.zeros_list().len() && cm.zeros_list()[z] == s;
            assert(cm.linear()[cm.zeros_list()[z] as int] is None);
        }
    }
}


} // verus!
