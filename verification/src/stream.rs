//! Streaming restore target: reordering out-of-order chunks.
//!
//! Decoder workers deliver chunks in no particular order, but a stream
//! sink (stdout, a pipe) cannot seek. The stream writer therefore parks
//! each incoming block in a queue keyed by sequence number and releases
//! blocks in strictly ascending sequence order, starting at zero. The
//! caller performs the actual writes; `next_ready` hands out the blocks
//! in exactly the order they belong in the image.

use vstd::prelude::*;

use crate::util::clone_bytes;
use crate::{data_bytes, data_wf, Data};

verus! {

/// Sorts incoming chunks back into sequence order. Entries are kept
/// sorted by descending sequence number so that the minimum is at the
/// end.
pub struct Queue {
    entries: Vec<(u64, Data)>,
    /// Position of each queued sequence number in `entries`.
    at: Ghost<Map<u64, int>>,
}

impl Queue {
    /// The queued blocks: sequence number to block contents.
    pub closed spec fn contents(self) -> Map<u64, Seq<u8>> {
        Map::new(
            |s: u64| self.at@.dom().contains(s),
            |s: u64| data_bytes(self.entries@[self.at@[s]].1),
        )
    }

    /// Internal consistency: entries strictly descending by sequence
    /// number, the position map exact, every block chunk-sized.
    pub closed spec fn wf(self) -> bool {
        &&& forall|s: u64|
            #![trigger self.at@[s]]
            self.at@.dom().contains(s) ==> 0 <= self.at@[s] < self.entries@.len()
                && self.entries@[self.at@[s]].0 == s
        &&& forall|j: int|
            #![trigger self.entries@[j]]
            0 <= j < self.entries@.len() ==> self.at@.dom().contains(self.entries@[j].0)
                && self.at@[self.entries@[j].0] == j && data_wf(self.entries@[j].1)
        &&& forall|i: int, j: int|
            0 <= i < j < self.entries@.len() ==> (#[trigger] self.entries@[i]).0
                > (#[trigger] self.entries@[j]).0
    }

    /// An empty queue.
    pub fn new() -> (q: Queue)
        ensures
            q.wf(),
            q.contents() =~= Map::empty(),
    {
        let q = Queue { entries: Vec::new(), at: Ghost(Map::empty()) };
        proof {
            assert(q.contents() =~= Map::empty());
        }
        q
    }

    /// Parks a block under its sequence number.
    pub fn put(&mut self, seq: u64, data: Data)
        requires
            old(self).wf(),
            !old(self).contents().dom().contains(seq),
            data_wf(data),
        ensures
            final(self).wf(),
            final(self).contents() =~= old(self).contents().insert(seq, data_bytes(data)),
    {
        let n = self.entries.len();
        let mut p: usize = 0;
        while p < n && self.entries[p].0 > seq
            invariant
                0 <= p <= n,
                n == self.entries@.len(),
                forall|k: int| 0 <= k < p ==> (#[trigger] self.entries@[k]).0 > seq,
            decreases n - p,
        {
            p += 1;
        }
        proof {
            if p < self.entries@.len() {
                assert(self.at@.dom().contains(self.entries@[p as int].0));
                assert(self.entries@[p as int].0 != seq);
                assert(self.entries@[p as int].0 < seq);
            }
        }
        let ghost old_entries = self.entries@;
        let ghost old_at = self.at@;
        let ghost bytes = data_bytes(data);
        self.entries.insert(p, (seq, data));
        proof {
            old_entries.insert_ensures(p as int, (seq, data));
            self.at@ = Map::new(
                |s: u64| s == seq || old_at.dom().contains(s),
                |s: u64|
                    if s == seq {
                        p as int
                    } else if old_at[s] >= p {
                        old_at[s] + 1
                    } else {
                        old_at[s]
                    },
            );
            assert forall|s: u64| #![trigger self.at@[s]] self.at@.dom().contains(s) implies 0
                <= self.at@[s] < self.entries@.len() && self.entries@[self.at@[s]].0 == s by {
                if s == seq {
                    assert(self.entries@[p as int] == (seq, data));
                } else {
                    assert(old_at.dom().contains(s));
                    if old_at[s] >= p {
                        assert(self.entries@[old_at[s] + 1] == old_entries[old_at[s]]);
                    } else {
                        assert(self.entries@[old_at[s]] == old_entries[old_at[s]]);
                    }
                }
            }
            assert forall|j: int| #![trigger self.entries@[j]] 0 <= j < self.entries@.len() implies
                self.at@.dom().contains(self.entries@[j].0) && self.at@[self.entries@[j].0] == j
                && data_wf(self.entries@[j].1) by {
                if j < p {
                    assert(self.entries@[j] == old_entries[j]);
                    assert(old_at[old_entries[j].0] == j);
                    assert(old_entries[j].0 != seq);
                } else if j == p {
                    assert(self.entries@[j] == (seq, data));
                } else {
                    assert(self.entries@[j] == old_entries[j - 1]);
                    assert(old_at[old_entries[j - 1].0] == j - 1);
                    assert(old_entries[j - 1].0 != seq);
                }
            }
            assert forall|i: int, j: int| 0 <= i < j < self.entries@.len() implies (
            #[trigger] self.entries@[i]).0 > (#[trigger] self.entries@[j]).0 by {
                if i < p && j > p {
                    assert(self.entries@[i] == old_entries[i]);
                    assert(self.entries@[j] == old_entries[j - 1]);
                } else if i == p && j > p {
                    assert(self.entries@[j] == old_entries[j - 1]);
                } else if i < p && j == p {
                    assert(self.entries@[i] == old_entries[i]);
                }
            }
            assert(self.contents() =~= old(self).contents().insert(seq, bytes));
        }
    }

    /// Releases the block with sequence number `expect`, if it is here.
    ///
    /// All queued sequence numbers must be at least `expect`, so the
    /// sought entry, if present, is the minimum and sits at the end.
    pub fn get(&mut self, expect: u64) -> (r: Option<Data>)
        requires
            old(self).wf(),
            forall|s: u64| #[trigger] old(self).contents().dom().contains(s) ==> s >= expect,
        ensures
            final(self).wf(),
            old(self).contents().dom().contains(expect) ==> (r matches Some(d) && data_bytes(d)
                == old(self).contents()[expect] && data_wf(d) && final(self).contents() =~= old(self).contents().remove(expect)),
            !old(self).contents().dom().contains(expect) ==> r is None && *final(self) == *old(self),
    {
        let n = self.entries.len();
        if n == 0 {
            proof {
                if self.at@.dom().contains(expect) {
                    assert(0 <= self.at@[expect] < self.entries@.len());
                }
                assert(!self.contents().dom().contains(expect));
            }
            return None;
        }
        if self.entries[n - 1].0 != expect {
            proof {
                if self.at@.dom().contains(expect) {
                    let j = self.at@[expect];
                    assert(self.entries@[j].0 == expect);
                    assert(self.contents().dom().contains(self.entries@[n - 1].0));
                    assert(self.entries@[n - 1].0 >= expect);
                    if j < n - 1 {
                        assert(self.entries@[j].0 > self.entries@[n - 1].0);
                    }
                }
                assert(!self.contents().dom().contains(expect));
            }
            return None;
        }
        let ghost old_at = self.at@;
        let ghost old_entries = self.entries@;
        let e = self.entries.pop().unwrap();
        proof {
            self.at@ = old_at.remove(expect);
            assert(old_at[expect] == n - 1);
            assert forall|s: u64| #![trigger self.at@[s]] self.at@.dom().contains(s) implies 0
                <= self.at@[s] < self.entries@.len() && self.entries@[self.at@[s]].0 == s by {
                assert(old_at[s] == self.at@[s]);
                assert(s != expect);
                if old_at[s] == n - 1 {
                    assert(old_entries[old_at[s]].0 == s);
                }
                assert(self.entries@[self.at@[s]] == old_entries[old_at[s]]);
            }
            assert(self.contents() =~= old(self).contents().remove(expect));
        }
        Some(e.1)
    }

    /// Whether the queue holds nothing.
    pub fn is_empty(&self) -> (r: bool)
        requires
            self.wf(),
        ensures
            r == (self.contents().dom() =~= Set::<u64>::empty()),
    {
        proof {
            if self.entries@.len() > 0 {
                assert(self.contents().dom().contains(self.entries@[0].0));
            } else {
                assert forall|s: u64| !(#[trigger] self.contents().dom().contains(s)) by {
                    if self.at@.dom().contains(s) {
                        assert(0 <= self.at@[s] < self.entries@.len());
                    }
                }
            }
        }
        self.entries.len() == 0
    }

    /// The number of queued blocks.
    pub fn len(&self) -> (r: usize)
        ensures
            r == self.spec_len(),
    {
        self.entries.len()
    }

    /// The number of queued blocks.
    pub closed spec fn spec_len(self) -> nat {
        self.entries@.len()
    }
}

/// Streaming restore target.
///
/// The incoming chunk stream is assembled into sequence order in memory;
/// blocks come out eagerly, each exactly once and in ascending order, so
/// the released blocks concatenate to the image.
pub struct Stream {
    queue: Queue,
    expected: u64,
    /// Everything ever pushed: sequence number to block contents.
    assigned: Ghost<Map<u64, Seq<u8>>>,
    /// The blocks released so far, in release order.
    emitted: Ghost<Seq<Seq<u8>>>,
}

impl Stream {
    /// The blocks pushed so far, by sequence number.
    pub closed spec fn assigned(self) -> Map<u64, Seq<u8>> {
        self.assigned@
    }

    /// The sequence number the next released block will carry: all
    /// numbers below it have been released, in ascending order.
    pub closed spec fn next_seq(self) -> u64 {
        self.expected
    }

    /// The blocks released so far, in release order.
    pub closed spec fn emitted(self) -> Seq<Seq<u8>> {
        self.emitted@
    }

    /// Internal consistency: the queue holds exactly the pushed blocks
    /// that have not been released yet, and the release log holds the
    /// assigned block of every sequence number already passed.
    pub closed spec fn wf(self) -> bool {
        &&& self.queue.wf()
        &&& forall|s: u64|
            #[trigger] self.queue.contents().dom().contains(s) ==> s >= self.expected
                && self.assigned@.dom().contains(s) && self.queue.contents()[s]
                == self.assigned@[s]
        &&& forall|s: u64|
            #[trigger] self.assigned@.dom().contains(s) && s >= self.expected
                ==> self.queue.contents().dom().contains(s)
        &&& self.emitted@.len() == self.expected
        &&& forall|s: u64| s < self.expected ==> #[trigger] self.assigned@.dom().contains(s)
        &&& forall|i: int|
            0 <= i < self.emitted@.len() ==> #[trigger] self.emitted@[i] == self.assigned@[i
                as u64]
    }

    /// A fresh stream writer, expecting sequence number zero.
    pub fn new() -> (r: Stream)
        ensures
            r.wf(),
            r.next_seq() == 0,
            r.assigned() =~= Map::empty(),
            r.emitted() =~= Seq::empty(),
    {
        Stream {
            queue: Queue::new(),
            expected: 0,
            assigned: Ghost(Map::empty()),
            emitted: Ghost(Seq::empty()),
        }
    }

    /// Parks one incoming chunk under every sequence number that
    /// references it.
    #[verifier::loop_isolation(false)]
    pub fn push_chunk(&mut self, data: &Data, seqs: &Vec<u64>)
        requires
            old(self).wf(),
            data_wf(*data),
            forall|i: int|
                0 <= i < seqs@.len() ==> #[trigger] seqs@[i] >= old(self).next_seq() && !old(self).assigned().dom().contains(seqs@[i]),
            forall|i: int, j: int|
                0 <= i < j < seqs@.len() ==> #[trigger] seqs@[i] != #[trigger] seqs@[j],
        ensures
            final(self).wf(),
            final(self).next_seq() == old(self).next_seq(),
            final(self).emitted() == old(self).emitted(),
            forall|i: int|
                #![trigger seqs@[i]]
                0 <= i < seqs@.len() ==> final(self).assigned().dom().contains(seqs@[i]) && final(self).assigned()[seqs@[i]] == data_bytes(*data),
            forall|s: u64|
                #[trigger] old(self).assigned().dom().contains(s) ==> final(self).assigned().dom().contains(s) && final(self).assigned()[s] == old(self).assigned()[s],
            forall|s: u64|
                #[trigger] final(self).assigned().dom().contains(s) ==> old(self).assigned().dom().contains(s) || seqs@.contains(s),
    {
        let n = seqs.len();
        let mut i: usize = 0;
        while i < n
            invariant
                0 <= i <= n,
                n == seqs@.len(),
                self.wf(),
                self.expected == old(self).expected,
                self.emitted@ == old(self).emitted@,
                forall|k: int|
                    0 <= k < n ==> #[trigger] seqs@[k] >= old(self).expected && !old(self).assigned@.dom().contains(seqs@[k]),
                forall|k1: int, k2: int|
                    0 <= k1 < k2 < n ==> #[trigger] seqs@[k1] != #[trigger] seqs@[k2],
                data_wf(*data),
                forall|k: int|
                    0 <= k < i ==> self.assigned@.dom().contains(#[trigger] seqs@[k])
                        && self.assigned@[seqs@[k]] == data_bytes(*data),
                forall|k: int|
                    i <= k < n ==> !self.assigned@.dom().contains(#[trigger] seqs@[k]),
                forall|s: u64|
                    #[trigger] old(self).assigned@.dom().contains(s)
                        ==> self.assigned@.dom().contains(s) && self.assigned@[s] == old(self).assigned@[s],
                forall|s: u64|
                    #[trigger] self.assigned@.dom().contains(s) ==> old(self).assigned@.dom().contains(s) || seqs@.subrange(0, i as int).contains(s),
            decreases n - i,
        {
            let ghost self0 = *self;
            let seq = seqs[i];
            let copy = match data {
                Data::Bytes(v) => Data::Bytes(clone_bytes(v)),
                Data::Zero => Data::Zero,
            };
            proof {
                assert(data_bytes(copy) == data_bytes(*data));
                assert(!self.queue.contents().dom().contains(seq));
            }
            self.queue.put(seq, copy);
            proof {
                self.assigned@ = self.assigned@.insert(seq, data_bytes(*data));
                assert(self.emitted@ == self0.emitted@);
                assert(self.assigned@.dom() =~= self0.assigned@.dom().insert(seq));
                assert forall|s2: u64| s2 < self.expected implies #[trigger] self.assigned@.dom().contains(s2) by {
                    assert(self0.assigned@.dom().contains(s2));
                }
                assert forall|ii: int|
                    0 <= ii < self.emitted@.len() implies #[trigger] self.emitted@[ii]
                    == self.assigned@[ii as u64] by {
                    assert(self0.emitted@[ii] == self0.assigned@[ii as u64]);
                    assert(ii < self.expected);
                    assert(ii as u64 != seq);
                }
                assert forall|s: u64| #[trigger] self.assigned@.dom().contains(s) implies old(self).assigned@.dom().contains(s) || seqs@.subrange(0, i + 1).contains(s) by {
                    if s == seq {
                        assert(seqs@.subrange(0, i + 1)[i as int] == seq);
                    } else {
                        assert(old(self).assigned@.dom().contains(s) || seqs@.subrange(
                            0,
                            i as int,
                        ).contains(s));
                        if seqs@.subrange(0, i as int).contains(s) {
                            let k = choose|k: int|
                                0 <= k < i && seqs@.subrange(0, i as int)[k] == s;
                            assert(seqs@.subrange(0, i + 1)[k] == s);
                        }
                    }
                }
            }
            i += 1;
        }
        proof {
            assert forall|s: u64| #[trigger] self.assigned@.dom().contains(s) implies old(self).assigned@.dom().contains(s) || seqs@.contains(s) by {
                if seqs@.subrange(0, n as int).contains(s) {
                    let k = choose|k: int| 0 <= k < n && seqs@.subrange(0, n as int)[k] == s;
                    assert(seqs@[k] == s);
                }
            }
        }
    }

    /// Releases the next block of the image, if it has arrived: the block
    /// for sequence number `next_seq`, after which `next_seq` advances.
    /// Repeated calls therefore hand out the pushed blocks in strictly
    /// ascending sequence order.
    pub fn next_ready(&mut self) -> (r: Option<Data>)
        requires
            old(self).wf(),
            old(self).next_seq() < u64::MAX,
        ensures
            final(self).wf(),
            final(self).assigned() == old(self).assigned(),
            old(self).assigned().dom().contains(old(self).next_seq()) ==> (r matches Some(d)
                && data_bytes(d) == old(self).assigned()[old(self).next_seq()] && data_wf(d)
                && final(self).next_seq() == old(self).next_seq() + 1 && final(self).emitted()
                =~= old(self).emitted().push(data_bytes(d))),
            !old(self).assigned().dom().contains(old(self).next_seq()) ==> r is None && *final(self)
                == *old(self),
    {
        let r = self.queue.get(self.expected);
        match r {
            Some(d) => {
                proof {
                    assert(old(self).queue.contents().dom().contains(old(self).expected));
                }
                self.expected = self.expected + 1;
                proof {
                    self.emitted@ = self.emitted@.push(data_bytes(d));
                    assert forall|s2: u64| s2 < self.expected implies #[trigger] self.assigned@.dom().contains(s2) by {
                        if s2 < old(self).expected {
                            assert(old(self).assigned@.dom().contains(s2));
                        } else {
                            assert(s2 == old(self).expected);
                            assert(old(self).queue.contents().dom().contains(s2));
                        }
                    }
                    assert forall|ii: int|
                        0 <= ii < self.emitted@.len() implies #[trigger] self.emitted@[ii]
                        == self.assigned@[ii as u64] by {
                        if ii < old(self).expected {
                            assert(self.emitted@[ii] == old(self).emitted@[ii]);
                            assert(old(self).emitted@[ii] == old(self).assigned@[ii as u64]);
                        } else {
                            assert(ii == old(self).expected);
                            assert(self.emitted@[ii] == data_bytes(d));
                        }
                    }
                    assert forall|s: u64| #[trigger] self.assigned@.dom().contains(s) && s
                        >= self.expected implies self.queue.contents().dom().contains(s) by {
                        assert(s >= old(self).expected);
                        assert(s != old(self).expected);
                        assert(old(self).queue.contents().dom().contains(s));
                    }
                }
                Some(d)
            },
            None => {
                proof {
                    if self.assigned@.dom().contains(self.expected) {
                        assert(self.queue.contents().dom().contains(self.expected));
                    }
                }
                None
            },
        }
    }

    /// Whether every pushed block has been released: the termination
    /// invariant of the stream writer.
    pub fn is_done(&self) -> (r: bool)
        requires
            self.wf(),
        ensures
            r == (forall|s: u64|
                #[trigger] self.assigned().dom().contains(s) ==> s < self.next_seq()),
    {
        let e = self.queue.is_empty();
        proof {
            if e {
                assert forall|s: u64|
                    #[trigger] self.assigned().dom().contains(s) implies s < self.next_seq() by {
                    if s >= self.expected {
                        assert(self.queue.contents().dom().contains(s));
                    }
                }
            } else {
                if forall|s: u64| !(#[trigger] self.queue.contents().dom().contains(s)) {
                    assert(self.queue.contents().dom() =~= Set::<u64>::empty());
                }
                let s = choose|s: u64| #[trigger] self.queue.contents().dom().contains(s);
                assert(self.assigned().dom().contains(s) && s >= self.next_seq());
            }
        }
        e
    }
}

/// Stream ordering law: what the stream writer has released is exactly
/// the blocks assigned to sequence numbers 0 up to `next_seq`, in
/// ascending order — so a full run writes the image as the concatenation
/// of its chunks in sequence order, whatever order they arrived in.
pub proof fn lemma_stream_output(s: Stream)
    requires
        s.wf(),
    ensures
        s.emitted().len() == s.next_seq(),
        forall|i: int|
            0 <= i < s.emitted().len() ==> s.assigned().dom().contains(i as u64)
                && #[trigger] s.emitted()[i] == s.assigned()[i as u64],
{
    assert forall|i: int|
        0 <= i < s.emitted().len() implies s.assigned().dom().contains(i as u64)
        && #[trigger] s.emitted()[i] == s.assigned()[i as u64] by {
        assert(s.emitted@[i] == s.assigned@[i as u64]);
        assert((i as u64) < s.expected);
        assert(s.assigned@.dom().contains(i as u64));
    }
}

} // verus!
