//! Receive queue: ACK/NACK range aggregation, ordered-channel buffering and
//! fragment reassembly.
//!
//! Sequence sets are held as strictly increasing vectors, ordered payloads
//! and fragment pieces as key/payload vectors with unique keys.

use vstd::prelude::*;
use crate::packets::Frame;
use crate::codec::copy_bytes;

verus! {

/// Strictly increasing.
pub open spec fn sorted(s: Seq<u32>) -> bool {
    forall|i: int, j: int| 0 <= i < j < s.len() ==> s[i] < s[j]
}

/// The consecutive values `a, a+1, ..., b-1`.
pub open spec fn range_seq(a: int, b: int) -> Seq<u32> {
    Seq::new(
        (if b >= a {
            b - a
        } else {
            0
        }) as nat,
        |i: int| (a + i) as u32,
    )
}

/// Length of the longest contiguous run at the front: the largest `k` with
/// `s[j] == s[0] + j` for all `j < k`.
pub open spec fn run_len(s: Seq<u32>) -> int
    decreases s.len(),
{
    if s.len() == 0 {
        0
    } else if s.len() == 1 {
        1
    } else if s[1] == s[0] + 1 {
        1 + run_len(s.skip(1))
    } else {
        1
    }
}

pub proof fn lemma_run_len(s: Seq<u32>)
    requires
        s.len() > 0,
    ensures
        1 <= run_len(s) <= s.len(),
        forall|j: int| 0 <= j < run_len(s) ==> #[trigger] s[j] == s[0] + j,
        run_len(s) < s.len() ==> s[run_len(s)] != s[0] + run_len(s),
    decreases s.len(),
{
    if s.len() > 1 && s[1] == s[0] + 1 {
        lemma_run_len(s.skip(1));
        assert forall|j: int| 0 <= j < run_len(s) implies #[trigger] s[j] == s[0] + j by {
            if j > 0 {
                assert(s.skip(1)[j - 1] == s[j]);
            }
        }
        if run_len(s) < s.len() {
            assert(s.skip(1)[run_len(s) - 1] == s[run_len(s)]);
        }
    }
}


/// The ranges that repeatedly extracting the front run coalesces a sorted
/// sequence set into, in order: what a full ACK or NACK drain emits.
pub open spec fn runs(s: Seq<u32>) -> Seq<(u32, u32)>
    decreases s.len(),
{
    if s.len() == 0 {
        Seq::empty()
    } else {
        let k = if 1 <= run_len(s) <= s.len() {
            run_len(s)
        } else {
            1
        };
        seq![(s[0], (s[0] + k - 1) as u32)] + runs(s.skip(k))
    }
}

/// The sequences recorded as missing while draining the ACK runs: every
/// value between the watermark and the next run's start.
pub open spec fn ack_gaps(s: Seq<u32>, next: int) -> Seq<u32>
    decreases s.len(),
{
    if s.len() == 0 {
        Seq::empty()
    } else {
        let k = if 1 <= run_len(s) <= s.len() {
            run_len(s)
        } else {
            1
        };
        range_seq(next, s[0] as int) + ack_gaps(s.skip(k), s[0] + k)
    }
}

/// A key occurs in the association vector.
pub open spec fn has_key(s: Seq<(u32, Vec<u8>)>, k: u32) -> bool {
    exists|i: int| 0 <= i < s.len() && s[i].0 == k
}

/// The payload stored under `k` (the first occurrence).
pub open spec fn lookup(s: Seq<(u32, Vec<u8>)>, k: u32) -> Seq<u8>
    decreases s.len(),
{
    if s.len() == 0 {
        Seq::empty()
    } else if s[0].0 == k {
        s[0].1@
    } else {
        lookup(s.skip(1), k)
    }
}

pub open spec fn keys_unique(s: Seq<(u32, Vec<u8>)>) -> bool {
    forall|i: int, j: int| 0 <= i < j < s.len() ==> s[i].0 != s[j].0
}

/// One partially reassembled fragmented message.
pub struct FragGroup {
    /// Fragment group identifier from the wire.
    pub id: u16,
    /// Total number of pieces of the message.
    pub size: u32,
    /// Pieces received so far, keyed by piece index.
    pub pieces: Vec<(u32, Vec<u8>)>,
}

impl FragGroup {
    pub open spec fn wf(self) -> bool {
        &&& keys_unique(self.pieces@)
        &&& forall|i: int| 0 <= i < self.pieces@.len() ==> (#[trigger] self.pieces@[i].0)
            < self.size
    }
}

/// Receive-side state of one session.
pub struct ReceiveQueue {
    /// Datagram sequence numbers received but not yet folded into an ACK range.
    pub ack: Vec<u32>,
    /// Lowest sequence not yet covered by an emitted ACK range.
    pub ack_next: u32,
    /// Sequence numbers detected as missing and not yet folded into a NACK range.
    pub ack_missing: Vec<u32>,
    /// Ordered-channel payloads waiting for their predecessors.
    pub ordered: Vec<(u32, Vec<u8>)>,
    /// Next ordered index owed to the application.
    pub ordered_next: u32,
    /// Fragmented messages under reassembly.
    pub fragment: Vec<FragGroup>,
}

impl ReceiveQueue {
    pub open spec fn wf(self) -> bool {
        &&& sorted(self.ack@)
        &&& forall|i: int| 0 <= i < self.ack@.len() ==> self.ack_next <= (
            #[trigger] self.ack@[i]) < 0x1000000
        &&& self.ack_next <= 0x1000000
        &&& sorted(self.ack_missing@)
        &&& forall|i: int| 0 <= i < self.ack_missing@.len() ==> (#[trigger] self.ack_missing@[i])
            < self.ack_next
        &&& keys_unique(self.ordered@)
        &&& forall|i: int| 0 <= i < self.ordered@.len() ==> self.ordered_next <= (
            #[trigger] self.ordered@[i].0) < 0x1000000
        &&& self.ordered_next <= 0x1000000
        &&& forall|i: int, j: int| 0 <= i < j < self.fragment@.len() ==> (
        #[trigger] self.fragment@[i].id) != (#[trigger] self.fragment@[j].id)
        &&& forall|i: int| 0 <= i < self.fragment@.len() ==> (#[trigger] self.fragment@[i]).wf()
    }

    pub fn new() -> (r: Self)
        ensures
            r.wf(),
            r.ack@ =~= Seq::<u32>::empty(),
            r.ack_next == 0,
            r.ack_missing@ =~= Seq::<u32>::empty(),
            r.ordered@ =~= Seq::<(u32, Vec<u8>)>::empty(),
            r.ordered_next == 0,
            r.fragment@ =~= Seq::<FragGroup>::empty(),
    {
        ReceiveQueue {
            ack: Vec::new(),
            ack_next: 0,
            ack_missing: Vec::new(),
            ordered: Vec::new(),
            ordered_next: 0,
            fragment: Vec::new(),
        }
    }

    /// Record the arrival of datagram sequence `seq`.  Duplicates of
    /// already-acknowledged datagrams (below the watermark) are ignored.
    #[verifier::loop_isolation(false)]
    pub fn received(&mut self, seq: u32)
        requires
            old(self).wf(),
            seq < 0x1000000,
        ensures
            final(self).wf(),
            final(self).ack_next == old(self).ack_next,
            final(self).ack_missing@ == old(self).ack_missing@,
            final(self).ordered@ == old(self).ordered@,
            final(self).ordered_next == old(self).ordered_next,
            final(self).fragment@ == old(self).fragment@,
            seq < old(self).ack_next ==> final(self).ack@ == old(self).ack@,
            seq >= old(self).ack_next ==> forall|v: u32|
                final(self).ack@.contains(v) <==> (old(self).ack@.contains(v) || v == seq),
    {
        if seq < self.ack_next {
            return ;
        }
        let ghost orig = self.ack@;
        let mut i: usize = 0;
        while i < self.ack.len() && self.ack[i] < seq
            invariant
                i <= self.ack.len(),
                forall|j: int| 0 <= j < i ==> (#[trigger] self.ack@[j]) < seq,
                self.ack@ == orig,
            decreases self.ack.len() - i,
        {
            i += 1;
        }
        if i < self.ack.len() && self.ack[i] == seq {
            // already recorded
            return ;
        }
        self.ack.insert(i, seq);
        proof {
            let s = self.ack@;
            assert(s == orig.insert(i as int, seq));
            assert forall|a: int, b: int| 0 <= a < b < s.len() implies s[a] < s[b] by {
                if a < i && b > i {
                    assert(orig[a] == s[a] && orig[b - 1] == s[b]);
                } else if a == i && b > i {
                    assert(orig[b - 1] == s[b]);
                    assert(orig[b - 1] >= orig[i as int] || i as int == orig.len());
                } else if b == i {
                    assert(orig[a] == s[a]);
                } else if b < i {
                    assert(orig[a] == s[a] && orig[b] == s[b]);
                } else {
                    assert(orig[a - 1] == s[a] && orig[b - 1] == s[b]);
                }
            }
            assert forall|v: u32| s.contains(v) <==> (orig.contains(v) || v == seq) by {
                if s.contains(v) {
                    let idx = choose|idx: int| 0 <= idx < s.len() && s[idx] == v;
                    if idx < i {
                        assert(orig[idx] == v);
                    } else if idx > i {
                        assert(orig[idx - 1] == v);
                    }
                }
                if orig.contains(v) {
                    let idx = choose|idx: int| 0 <= idx < orig.len() && orig[idx] == v;
                    if idx < i {
                        assert(s[idx] == v);
                    } else {
                        assert(s[idx + 1] == v);
                    }
                }
                if v == seq {
                    assert(s[i as int] == v);
                }
            }
        }
    }

    /// Extract the next ACK range: the longest contiguous run of received
    /// sequences starting at the lowest one.  Sequences skipped between the
    /// watermark and the start of the run are recorded as missing.
    #[verifier::loop_isolation(false)]
    pub fn get_ack(&mut self) -> (r: Option<(u32, u32)>)
        requires
            old(self).wf(),
        ensures
            final(self).wf(),
            final(self).ordered@ == old(self).ordered@,
            final(self).ordered_next == old(self).ordered_next,
            final(self).fragment@ == old(self).fragment@,
            old(self).ack@.len() == 0 ==> r is None && final(self).ack@ == old(self).ack@
                && final(self).ack_next == old(self).ack_next && final(self).ack_missing@ == old(
                self,
            ).ack_missing@,
            old(self).ack@.len() > 0 ==> {
                let first = old(self).ack@[0];
                let k = run_len(old(self).ack@);
                &&& r == Some((first, (first + k - 1) as u32))
                &&& final(self).ack@ == old(self).ack@.skip(k)
                &&& final(self).ack_next == first + k
                &&& final(self).ack_missing@ == old(self).ack_missing@ + range_seq(
                    old(self).ack_next as int,
                    first as int,
                )
            },
    {
        if self.ack.len() == 0 {
            proof {
                assert(self.ack_missing@ =~= self.ack_missing@ + range_seq(0, 0));
            }
            return None;
        }
        let first = self.ack[0];
        let ghost orig_missing = self.ack_missing@;
        let ghost orig_next = self.ack_next as int;
        // every sequence between the watermark and the run start is missing
        while self.ack_next < first
            invariant
                self.wf(),
                orig_next <= self.ack_next <= first,
                self.ack_missing@ == orig_missing + range_seq(orig_next, self.ack_next as int),
                self.ack@ == old(self).ack@,
                self.ordered@ == old(self).ordered@,
                self.ordered_next == old(self).ordered_next,
                self.fragment@ == old(self).fragment@,
                orig_missing == old(self).ack_missing@,
                orig_next == old(self).ack_next,
                self.ack@.len() > 0,
                first == self.ack@[0],
            decreases first - self.ack_next,
        {
            self.ack_missing.push(self.ack_next);
            self.ack_next = self.ack_next + 1;
            proof {
                assert(self.ack_missing@ =~= orig_missing + range_seq(
                    orig_next,
                    self.ack_next as int,
                ));
            }
        }
        // measure the contiguous run
        let ghost acks = self.ack@;
        let mut k: usize = 1;
        while k < self.ack.len() && self.ack[k] == self.ack[k - 1] + 1
            invariant
                self.wf(),
                1 <= k <= self.ack@.len(),
                forall|j: int| 0 <= j < k ==> (#[trigger] self.ack@[j]) == self.ack@[0] + j,
                self.ack@ == acks,
                acks == old(self).ack@,
                self.ack_next == first,
                first == self.ack@[0],
                self.ack_missing@ == orig_missing + range_seq(orig_next, first as int),
                self.ordered@ == old(self).ordered@,
                self.ordered_next == old(self).ordered_next,
                self.fragment@ == old(self).fragment@,
                orig_missing == old(self).ack_missing@,
                orig_next == old(self).ack_next,
            decreases self.ack.len() - k,
        {
            k += 1;
        }
        proof {
            lemma_run_len(acks);
            if k < acks.len() {
                assert(acks[k as int] != acks[0] + k);
            }
            // both k and run_len satisfy the run characterisation, so they agree
            if run_len(acks) < k {
                assert(acks[run_len(acks)] == acks[0] + run_len(acks));
            }
            assert(k == run_len(acks));
        }
        let last = self.ack[k - 1];
        self.ack_next = last + 1;
        // drop the run from the pending set
        let mut c: usize = 0;
        while c < k
            invariant
                c <= k,
                k <= acks.len(),
                self.ack@ == acks.skip(c as int),
                self.ack_next == last + 1,
                last == acks[0] + (k - 1),
                sorted(acks),
                forall|i: int| 0 <= i < acks.len() ==> (#[trigger] acks[i]) < 0x1000000,
                self.ack_missing@ == orig_missing + range_seq(orig_next, first as int),
                sorted(self.ack_missing@),
                forall|i: int| 0 <= i < self.ack_missing@.len() ==> (
                #[trigger] self.ack_missing@[i]) < first,
                self.ordered@ == old(self).ordered@,
                self.ordered_next == old(self).ordered_next,
                self.fragment@ == old(self).fragment@,
                keys_unique(self.ordered@),
                forall|i: int| 0 <= i < self.ordered@.len() ==> self.ordered_next <= (
                    #[trigger] self.ordered@[i].0) < 0x1000000,
                self.ordered_next <= 0x1000000,
                forall|i: int, j: int| 0 <= i < j < self.fragment@.len() ==> (
                #[trigger] self.fragment@[i].id) != (#[trigger] self.fragment@[j].id),
                forall|i: int| 0 <= i < self.fragment@.len() ==> (
                #[trigger] self.fragment@[i]).wf(),
                first == acks[0],
                first <= last < 0x1000000,
                orig_missing == old(self).ack_missing@,
                orig_next == old(self).ack_next,
            decreases k - c,
        {
            proof {
                assert(acks.skip(c as int).remove(0) =~= acks.skip(c as int + 1));
            }
            self.ack.remove(0);
            c += 1;
        }
        proof {
            assert forall|i: int| 0 <= i < self.ack@.len() implies self.ack_next <= (
                #[trigger] self.ack@[i]) < 0x1000000 by {
                assert(self.ack@[i] == acks[k + i]);
                lemma_sorted_bound(acks, k + i);
            }
        }
        Some((first, last))
    }

    /// Extract the next NACK range from the missing set.
    #[verifier::loop_isolation(false)]
    pub fn get_nack(&mut self) -> (r: Option<(u32, u32)>)
        requires
            old(self).wf(),
        ensures
            final(self).wf(),
            final(self).ack@ == old(self).ack@,
            final(self).ack_next == old(self).ack_next,
            final(self).ordered@ == old(self).ordered@,
            final(self).ordered_next == old(self).ordered_next,
            final(self).fragment@ == old(self).fragment@,
            old(self).ack_missing@.len() == 0 ==> r is None && final(self).ack_missing@ == old(
                self,
            ).ack_missing@,
            old(self).ack_missing@.len() > 0 ==> {
                let first = old(self).ack_missing@[0];
                let k = run_len(old(self).ack_missing@);
                &&& r == Some((first, (first + k - 1) as u32))
                &&& final(self).ack_missing@ == old(self).ack_missing@.skip(k)
            },
    {
        if self.ack_missing.len() == 0 {
            return None;
        }
        let first = self.ack_missing[0];
        let ghost miss = self.ack_missing@;
        let mut k: usize = 1;
        while k < self.ack_missing.len() && self.ack_missing[k] == self.ack_missing[k - 1] + 1
            invariant
                self.wf(),
                1 <= k <= self.ack_missing@.len(),
                forall|j: int| 0 <= j < k ==> (#[trigger] self.ack_missing@[j])
                    == self.ack_missing@[0] + j,
                self.ack_missing@ == miss,
                miss == old(self).ack_missing@,
                self.ack@ == old(self).ack@,
                self.ack_next == old(self).ack_next,
                self.ordered@ == old(self).ordered@,
                self.ordered_next == old(self).ordered_next,
                self.fragment@ == old(self).fragment@,
                first == self.ack_missing@[0],
            decreases self.ack_missing.len() - k,
        {
            k += 1;
        }
        proof {
            lemma_run_len(miss);
            if k < miss.len() {
                assert(miss[k as int] != miss[0] + k);
            }
            if run_len(miss) < k {
                assert(miss[run_len(miss)] == miss[0] + run_len(miss));
            }
            assert(k == run_len(miss));
        }
        let last = self.ack_missing[k - 1];
        let mut c: usize = 0;
        while c < k
            invariant
                c <= k,
                k <= miss.len(),
                self.ack_missing@ == miss.skip(c as int),
                miss == old(self).ack_missing@,
                sorted(miss),
                forall|i: int| 0 <= i < miss.len() ==> (#[trigger] miss[i]) < old(self).ack_next,
                self.ack@ == old(self).ack@,
                self.ack_next == old(self).ack_next,
                self.ordered@ == old(self).ordered@,
                self.ordered_next == old(self).ordered_next,
                self.fragment@ == old(self).fragment@,
                old(self).wf(),
            decreases k - c,
        {
            proof {
                assert(miss.skip(c as int).remove(0) =~= miss.skip(c as int + 1));
            }
            self.ack_missing.remove(0);
            c += 1;
        }
        Some((first, last))
    }
}

/// In a strictly increasing sequence every element is at least the first
/// element plus its position.
pub proof fn lemma_sorted_bound(s: Seq<u32>, i: int)
    requires
        sorted(s),
        0 <= i < s.len(),
    ensures
        s[i] >= s[0] + i,
    decreases i,
{
    if i > 0 {
        lemma_sorted_bound(s, i - 1);
    }
}



/// Pieces as plain values: key and payload bytes.
pub open spec fn pview(s: Seq<(u32, Vec<u8>)>) -> Seq<(u32, Seq<u8>)> {
    s.map_values(|p: (u32, Vec<u8>)| (p.0, p.1@))
}

/// A key occurs among the pieces.
pub open spec fn phas_key(s: Seq<(u32, Seq<u8>)>, k: u32) -> bool {
    exists|i: int| 0 <= i < s.len() && s[i].0 == k
}

/// The payload stored under `k` (the first occurrence).
pub open spec fn plookup(s: Seq<(u32, Seq<u8>)>, k: u32) -> Seq<u8>
    decreases s.len(),
{
    if s.len() == 0 {
        Seq::empty()
    } else if s[0].0 == k {
        s[0].1
    } else {
        plookup(s.skip(1), k)
    }
}

/// Index of the group with fragment id `id`, or -1 when absent.
pub open spec fn find_group(s: Seq<FragGroup>, id: u16) -> int
    decreases s.len(),
{
    if s.len() == 0 {
        -1
    } else if s[0].id == id {
        0
    } else {
        let r = find_group(s.skip(1), id);
        if r < 0 {
            -1
        } else {
            r + 1
        }
    }
}

pub proof fn lemma_find_group(s: Seq<FragGroup>, id: u16)
    ensures
        find_group(s, id) >= 0 ==> find_group(s, id) < s.len() && s[find_group(s, id)].id == id,
        find_group(s, id) < 0 ==> forall|i: int| 0 <= i < s.len() ==> (#[trigger] s[i].id) != id,
    decreases s.len(),
{
    if s.len() > 0 && s[0].id != id {
        lemma_find_group(s.skip(1), id);
        let r = find_group(s.skip(1), id);
        if r >= 0 {
            assert(s.skip(1)[r] == s[r + 1]);
        } else {
            assert forall|i: int| 0 <= i < s.len() implies (#[trigger] s[i].id) != id by {
                if i > 0 {
                    assert(s.skip(1)[i - 1] == s[i]);
                }
            }
        }
    }
}

/// With unique ids, a scan position holding the id equals `find_group`.
pub proof fn lemma_find_group_unique(s: Seq<FragGroup>, id: u16, i: int)
    requires
        0 <= i < s.len(),
        s[i].id == id,
        forall|j: int| 0 <= j < i ==> (#[trigger] s[j].id) != id,
    ensures
        find_group(s, id) == i,
    decreases i,
{
    if i > 0 {
        lemma_find_group_unique(s.skip(1), id, i - 1);
        assert forall|j: int| 0 <= j < i - 1 implies (#[trigger] s.skip(1)[j].id) != id by {
            assert(s.skip(1)[j] == s[j + 1]);
        }
        assert(s.skip(1)[i - 1] == s[i]);
    }
}

/// `plookup` returns the payload at the first position holding the key.
pub proof fn lemma_plookup_first(s: Seq<(u32, Seq<u8>)>, k: u32, i: int)
    requires
        0 <= i < s.len(),
        s[i].0 == k,
        forall|j: int| 0 <= j < i ==> (#[trigger] s[j].0) != k,
    ensures
        plookup(s, k) == s[i].1,
    decreases i,
{
    if i > 0 {
        lemma_plookup_first(s.skip(1), k, i - 1);
        assert forall|j: int| 0 <= j < i - 1 implies (#[trigger] s.skip(1)[j].0) != k by {
            assert(s.skip(1)[j] == s[j + 1]);
        }
        assert(s.skip(1)[i - 1] == s[i]);
    }
}

/// Every piece index below `size` is present.
pub open spec fn complete(pieces: Seq<(u32, Seq<u8>)>, size: int) -> bool {
    forall|i: int| 0 <= i < size ==> #[trigger] phas_key(pieces, i as u32)
}

/// The reassembled payload: the pieces' bytes concatenated in index order
/// from `i` up to `size`.
pub open spec fn assemble(pieces: Seq<(u32, Seq<u8>)>, i: int, size: int) -> Seq<u8>
    decreases size - i,
{
    if i >= size {
        Seq::empty()
    } else {
        plookup(pieces, i as u32) + assemble(pieces, i + 1, size)
    }
}


/// Removing a group keeps ids unique and groups well-formed; the removed
/// id no longer occurs.
pub proof fn lemma_frag_remove(s: Seq<FragGroup>, i: int)
    requires
        0 <= i < s.len(),
        forall|a: int, b: int| 0 <= a < b < s.len() ==> (#[trigger] s[a].id) != (#[trigger] s[b].id),
        forall|a: int| 0 <= a < s.len() ==> (#[trigger] s[a]).wf(),
    ensures
        forall|a: int, b: int| 0 <= a < b < s.remove(i).len() ==> (#[trigger] s.remove(i)[a].id)
            != (#[trigger] s.remove(i)[b].id),
        forall|a: int| 0 <= a < s.remove(i).len() ==> (#[trigger] s.remove(i)[a]).wf(),
        forall|a: int| 0 <= a < s.remove(i).len() ==> (#[trigger] s.remove(i)[a].id) != s[i].id,
{
    let t = s.remove(i);
    assert forall|a: int| 0 <= a < t.len() implies (#[trigger] t[a]).wf() && t[a].id != s[i].id by {
        if a < i {
            assert(t[a] == s[a]);
        } else {
            assert(t[a] == s[a + 1]);
        }
    }
    assert forall|a: int, b: int| 0 <= a < b < t.len() implies (#[trigger] t[a].id) != (
    #[trigger] t[b].id) by {
        if a < i {
            assert(t[a] == s[a]);
        } else {
            assert(t[a] == s[a + 1]);
        }
        if b < i {
            assert(t[b] == s[b]);
        } else {
            assert(t[b] == s[b + 1]);
        }
    }
}

/// Appending a well-formed group with a fresh id keeps the invariant.
pub proof fn lemma_frag_push(s: Seq<FragGroup>, g: FragGroup)
    requires
        forall|a: int, b: int| 0 <= a < b < s.len() ==> (#[trigger] s[a].id) != (#[trigger] s[b].id),
        forall|a: int| 0 <= a < s.len() ==> (#[trigger] s[a]).wf(),
        forall|a: int| 0 <= a < s.len() ==> (#[trigger] s[a].id) != g.id,
        g.wf(),
    ensures
        forall|a: int, b: int| 0 <= a < b < s.push(g).len() ==> (#[trigger] s.push(g)[a].id) != (
        #[trigger] s.push(g)[b].id),
        forall|a: int| 0 <= a < s.push(g).len() ==> (#[trigger] s.push(g)[a]).wf(),
{
    let t = s.push(g);
    assert forall|a: int| 0 <= a < t.len() implies (#[trigger] t[a]).wf() by {
        if a < s.len() {
            assert(t[a] == s[a]);
        } else {
            assert(t[a] == g);
        }
    }
    assert forall|a: int, b: int| 0 <= a < b < t.len() implies (#[trigger] t[a].id) != (
    #[trigger] t[b].id) by {
        if b < s.len() {
            assert(t[a] == s[a] && t[b] == s[b]);
        } else {
            assert(t[a] == s[a] && t[b] == g);
        }
    }
}

impl ReceiveQueue {
    /// Buffer an ordered payload under its ordered index.  Payloads whose
    /// index is already delivered (below the watermark) or already buffered
    /// are dropped.
    #[verifier::loop_isolation(false)]
    pub fn _ordered(&mut self, data: Vec<u8>, order_index: u32)
        requires
            old(self).wf(),
            order_index < 0x1000000,
        ensures
            final(self).wf(),
            final(self).ack@ == old(self).ack@,
            final(self).ack_next == old(self).ack_next,
            final(self).ack_missing@ == old(self).ack_missing@,
            final(self).ordered_next == old(self).ordered_next,
            final(self).fragment@ == old(self).fragment@,
            (order_index < old(self).ordered_next || has_key(old(self).ordered@, order_index))
                ==> final(self).ordered@ == old(self).ordered@,
            (order_index >= old(self).ordered_next && !has_key(old(self).ordered@, order_index))
                ==> final(self).ordered@ == old(self).ordered@.push((order_index, data)),
    {
        if order_index < self.ordered_next {
            return ;
        }
        let mut i: usize = 0;
        while i < self.ordered.len()
            invariant
                i <= self.ordered@.len(),
                forall|j: int| 0 <= j < i ==> (#[trigger] self.ordered@[j].0) != order_index,
                self == old(self),
            decreases self.ordered.len() - i,
        {
            if self.ordered[i].0 == order_index {
                return ;
            }
            i += 1;
        }
        self.ordered.push((order_index, data));
    }

    /// Buffer the payload of an ordered frame under the frame's ordered index.
    pub fn ordered(&mut self, frame: Frame, bytes: &Vec<u8>)
        requires
            old(self).wf(),
            frame.oindex < 0x1000000,
        ensures
            final(self).wf(),
            final(self).ack@ == old(self).ack@,
            final(self).ack_next == old(self).ack_next,
            final(self).ack_missing@ == old(self).ack_missing@,
            final(self).ordered_next == old(self).ordered_next,
            final(self).fragment@ == old(self).fragment@,
            (frame.oindex < old(self).ordered_next || has_key(old(self).ordered@, frame.oindex))
                ==> final(self).ordered@ == old(self).ordered@,
            (frame.oindex >= old(self).ordered_next && !has_key(old(self).ordered@, frame.oindex))
                ==> final(self).ordered@.len() == old(self).ordered@.len() + 1 && final(self).ordered@.subrange(0, old(self).ordered@.len() as int) == old(self).ordered@ && final(self).ordered@.last().0 == frame.oindex && final(self).ordered@.last().1@ == bytes@,
    {
        let data = copy_bytes(bytes);
        let ghost pre = self.ordered@;
        self._ordered(data, frame.oindex);
        proof {
            if frame.oindex >= old(self).ordered_next && !has_key(pre, frame.oindex) {
                assert(self.ordered@.subrange(0, pre.len() as int) =~= pre);
            }
        }
    }

    /// Deliver the next in-order payload, if its index has arrived.
    #[verifier::loop_isolation(false)]
    pub fn next_ordered(&mut self) -> (r: Option<Vec<u8>>)
        requires
            old(self).wf(),
        ensures
            final(self).wf(),
            final(self).ack@ == old(self).ack@,
            final(self).ack_next == old(self).ack_next,
            final(self).ack_missing@ == old(self).ack_missing@,
            final(self).fragment@ == old(self).fragment@,
            !has_key(old(self).ordered@, old(self).ordered_next) ==> r is None && final(self).ordered@ == old(self).ordered@ && final(self).ordered_next == old(self).ordered_next,
            has_key(old(self).ordered@, old(self).ordered_next) ==> final(self).ordered_next == old(
                self,
            ).ordered_next + 1 && (exists|i: int|
                0 <= i < old(self).ordered@.len() && (#[trigger] old(self).ordered@[i]).0 == old(
                    self,
                ).ordered_next && final(self).ordered@ == old(self).ordered@.remove(i) && (
                r matches Some(v) && v@ == old(self).ordered@[i].1@)),
    {
        let mut i: usize = 0;
        while i < self.ordered.len()
            invariant
                i <= self.ordered@.len(),
                forall|j: int| 0 <= j < i ==> (#[trigger] self.ordered@[j].0) != self.ordered_next,
                self == old(self),
            decreases self.ordered.len() - i,
        {
            if self.ordered[i].0 == self.ordered_next {
                let (_, data) = self.ordered.remove(i);
                self.ordered_next = self.ordered_next + 1;
                proof {
                    assert forall|a: int| 0 <= a < self.ordered@.len() implies self.ordered_next
                        <= (#[trigger] self.ordered@[a].0) < 0x1000000 by {
                        if a < i {
                            assert(self.ordered@[a] == old(self).ordered@[a]);
                        } else {
                            assert(self.ordered@[a] == old(self).ordered@[a + 1]);
                            assert(keys_unique(old(self).ordered@));
                        }
                    }
                }
                return Some(data);
            }
            i += 1;
        }
        None
    }

    /// Feed one fragment piece.  When the piece completes its group the
    /// reassembled payload is returned (for unordered traffic) or moved to
    /// the ordered buffer (for ordered or sequenced traffic).  Duplicate
    /// pieces and pieces whose index is out of range are ignored.
    #[verifier::loop_isolation(false)]
    pub fn fragmented(&mut self, frame: Frame, bytes: &Vec<u8>) -> (r: Option<Vec<u8>>)
        requires
            old(self).wf(),
            frame.oindex < 0x1000000,
        ensures
            final(self).wf(),
            final(self).ack@ == old(self).ack@,
            final(self).ack_next == old(self).ack_next,
            final(self).ack_missing@ == old(self).ack_missing@,
            final(self).ordered_next == old(self).ordered_next,
            frame.fragment is None ==> r is None && final(self).ordered@ == old(self).ordered@
                && final(self).fragment@ == old(self).fragment@,
            frame.fragment matches Some(h) ==> {
                let gi = find_group(old(self).fragment@, h.id);
                let gsize = if gi >= 0 {
                    old(self).fragment@[gi].size
                } else {
                    h.size
                };
                let gpieces = if gi >= 0 {
                    pview(old(self).fragment@[gi].pieces@)
                } else {
                    Seq::<(u32, Seq<u8>)>::empty()
                };
                let rest = if gi >= 0 {
                    old(self).fragment@.remove(gi)
                } else {
                    old(self).fragment@
                };
                if h.index >= gsize || phas_key(gpieces, h.index) {
                    // ignored piece: the group is untouched (though possibly moved to the back)
                    &&& r is None
                    &&& final(self).ordered@ == old(self).ordered@
                    &&& (if gi >= 0 {
                        final(self).fragment@ == rest.push(old(self).fragment@[gi])
                    } else {
                        final(self).fragment@ == old(self).fragment@
                    })
                } else {
                    let pieces2 = gpieces.push((h.index, bytes@));
                    if pieces2.len() == gsize && complete(pieces2, gsize as int) {
                        // the group is complete: reassemble
                        let v = assemble(pieces2, 0, gsize as int);
                        &&& final(self).fragment@ == rest
                        &&& (if !frame.reliability.spec_sequenced()
                            && !frame.reliability.spec_ordered() {
                            (r matches Some(out) && out@ == v) && final(self).ordered@ == old(
                                self,
                            ).ordered@
                        } else {
                            r is None && (if frame.oindex >= old(self).ordered_next && !has_key(
                                old(self).ordered@,
                                frame.oindex,
                            ) {
                                final(self).ordered@.len() == old(self).ordered@.len() + 1 && final(self).ordered@.subrange(0, old(self).ordered@.len() as int) == old(
                                    self,
                                ).ordered@ && final(self).ordered@.last().0 == frame.oindex
                                    && final(self).ordered@.last().1@ == v
                            } else {
                                final(self).ordered@ == old(self).ordered@
                            })
                        })
                    } else {
                        // still waiting for more pieces
                        &&& r is None
                        &&& final(self).ordered@ == old(self).ordered@
                        &&& final(self).fragment@.len() == rest.len() + 1
                        &&& final(self).fragment@.subrange(0, rest.len() as int) == rest
                        &&& final(self).fragment@.last().id == h.id
                        &&& final(self).fragment@.last().size == gsize
                        &&& pview(final(self).fragment@.last().pieces@) == pieces2
                    }
                }
            },
    {
        let h = match &frame.fragment {
            Some(h) => *h,
            None => {
                return None;
            },
        };
        // find and detach the group
        let ghost frags = self.fragment@;
        let mut gi: usize = 0;
        let mut found = false;
        while gi < self.fragment.len() && !found
            invariant
                gi <= self.fragment@.len(),
                forall|j: int| 0 <= j < gi ==> (#[trigger] self.fragment@[j].id) != h.id,
                found ==> gi < self.fragment@.len() && self.fragment@[gi as int].id == h.id,
                self == old(self),
            decreases self.fragment.len() - gi + (if found {
                0int
            } else {
                1int
            }),
        {
            if self.fragment[gi].id == h.id {
                found = true;
            } else {
                gi += 1;
            }
        }
        proof {
            lemma_find_group(frags, h.id);
            if found {
                lemma_find_group_unique(frags, h.id, gi as int);
            }
        }
        let mut group = if found {
            let g = self.fragment.remove(gi);
            proof {
                lemma_frag_remove(frags, gi as int);
            }
            g
        } else {
            if h.index >= h.size {
                return None;
            }
            FragGroup { id: h.id, size: h.size, pieces: Vec::new() }
        };
        proof {
            assert(group.wf());
            assert(group.id == h.id);
            assert(forall|a: int| 0 <= a < self.fragment@.len() ==> (
            #[trigger] self.fragment@[a].id) != h.id);
        }
        if h.index >= group.size {
            proof {
                lemma_frag_push(self.fragment@, group);
            }
            self.fragment.push(group);
            return None;
        }
        // reject duplicates
        let ghost snap = *self;
        let ghost snapg = group;
        let mut pi: usize = 0;
        while pi < group.pieces.len()
            invariant
                pi <= group.pieces@.len(),
                forall|j: int| 0 <= j < pi ==> (#[trigger] group.pieces@[j].0) != h.index,
                *self == snap,
                group == snapg,
            decreases group.pieces.len() - pi,
        {
            if group.pieces[pi].0 == h.index {
                proof {
                    lemma_frag_push(self.fragment@, group);
                    assert(pview(group.pieces@)[pi as int].0 == h.index);
                    assert(phas_key(pview(group.pieces@), h.index));
                }
                self.fragment.push(group);
                return None;
            }
            pi += 1;
        }
        proof {
            assert(!phas_key(pview(group.pieces@), h.index));
        }
        let ghost prepieces = group.pieces@;
        group.pieces.push((h.index, copy_bytes(bytes)));
        proof {
            assert(pview(group.pieces@) =~= pview(prepieces).push((h.index, bytes@)));
            if found {
                assert(pview(group.pieces@) =~= pview(frags[gi as int].pieces@).push(
                    (h.index, bytes@),
                ));
            } else {
                assert(pview(prepieces) =~= Seq::<(u32, Seq<u8>)>::empty());
            }
            assert forall|a: int, b: int| 0 <= a < b < group.pieces@.len() implies (
            #[trigger] group.pieces@[a].0) != (#[trigger] group.pieces@[b].0) by {
                if b == group.pieces@.len() - 1 {
                    assert(group.pieces@[a] == prepieces[a]);
                }
            }
            assert(group.wf());
        }
        if group.pieces.len() == group.size as usize {
            match Self::assemble_pieces(&group) {
                Some(v) => {
                    if !frame.reliability.sequenced() && !frame.reliability.ordered() {
                        return Some(v);
                    }
                    let ghost pre = self.ordered@;
                    self._ordered(v, frame.oindex);
                    proof {
                        if frame.oindex >= old(self).ordered_next && !has_key(pre, frame.oindex) {
                            assert(self.ordered@.subrange(0, pre.len() as int) =~= pre);
                        }
                    }
                    return None;
                },
                None => {
                    let ghost restg = self.fragment@;
                    proof {
                        lemma_frag_push(self.fragment@, group);
                    }
                    self.fragment.push(group);
                    proof {
                        assert(self.fragment@.subrange(0, restg.len() as int) =~= restg);
                    }
                    return None;
                },
            }
        }
        let ghost restg = self.fragment@;
        proof {
            lemma_frag_push(self.fragment@, group);
        }
        self.fragment.push(group);
        proof {
            assert(self.fragment@.subrange(0, restg.len() as int) =~= restg);
        }
        None
    }

    /// Concatenate the pieces of a group in index order; `None` when an
    /// index below the group size is missing.
    #[verifier::loop_isolation(false)]
    fn assemble_pieces(group: &FragGroup) -> (r: Option<Vec<u8>>)
        ensures
            complete(pview(group.pieces@), group.size as int) ==> (r matches Some(v) && v@
                == assemble(pview(group.pieces@), 0, group.size as int)),
            !complete(pview(group.pieces@), group.size as int) ==> r is None,
    {
        let mut out: Vec<u8> = Vec::new();
        let mut i: u32 = 0;
        while i < group.size
            invariant
                0 <= i <= group.size,
                out@ + assemble(pview(group.pieces@), i as int, group.size as int) == assemble(
                    pview(group.pieces@),
                    0,
                    group.size as int,
                ),
                forall|j: int| 0 <= j < i ==> #[trigger] phas_key(pview(group.pieces@), j as u32),
            decreases group.size - i,
        {
            // scan for the piece with index i
            let mut pi: usize = 0;
            let mut found = false;
            while pi < group.pieces.len() && !found
                invariant
                    pi <= group.pieces@.len(),
                    forall|j: int| 0 <= j < pi ==> (#[trigger] group.pieces@[j].0) != i,
                    found ==> pi < group.pieces@.len() && group.pieces@[pi as int].0 == i,
                decreases group.pieces.len() - pi + (if found {
                    0int
                } else {
                    1int
                }),
            {
                if group.pieces[pi].0 == i {
                    found = true;
                } else {
                    pi += 1;
                }
            }
            if !found {
                proof {
                    assert(!phas_key(pview(group.pieces@), i));
                }
                return None;
            }
            proof {
                lemma_plookup_first(pview(group.pieces@), i, pi as int);
            }
            let mut piece = copy_bytes(&group.pieces[pi].1);
            let ghost pre = out@;
            out.append(&mut piece);
            proof {
                assert(out@ =~= pre + plookup(pview(group.pieces@), i));
                assert((pre + plookup(pview(group.pieces@), i)) + assemble(
                    pview(group.pieces@),
                    i + 1,
                    group.size as int,
                ) =~= pre + (plookup(pview(group.pieces@), i) + assemble(
                    pview(group.pieces@),
                    i + 1,
                    group.size as int,
                )));
                assert(phas_key(pview(group.pieces@), i));
            }
            i += 1;
        }
        proof {
            assert(out@ + assemble(pview(group.pieces@), group.size as int, group.size as int)
                =~= out@);
        }
        Some(out)
    }
}

} // verus!
