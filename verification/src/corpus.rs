//! Probabilistic indexing helpers: a Bloom filter with a verified
//! no-false-negative guarantee, and the token-frequency analyzer's state.

use vstd::prelude::*;
use vstd::string::StrSliceExecFns;

use std::collections::HashMap;

verus! {

/// The errors of corpus operations.
#[derive(Debug)]
pub enum CorpusError {
    IndexingError(String),
    DimensionalityMismatch,
    ConcurrencyError,
}

/// A polynomial rolling hash of a string, offset by the seed of the
/// hash family.
pub open spec fn bloom_hash(s: Seq<char>, seed: u64) -> u64
    decreases s.len(),
{
    if s.len() == 0 {
        seed.wrapping_mul(0x9e3779b9).wrapping_add(0x811c9dc5)
    } else {
        bloom_hash(s.drop_last(), seed).wrapping_mul(31).wrapping_add(
            (s.last() as u32) as u64,
        )
    }
}

/// The bit an item maps to under hash `seed`.
pub open spec fn bloom_index(s: Seq<char>, seed: u64, size: nat) -> int
    recommends
        size > 0,
{
    bloom_hash(s, seed) as int % size as int
}

/// Membership bits after inserting one item with `k` hashes.
pub open spec fn bloom_with(bits: Seq<bool>, s: Seq<char>, k: nat) -> Seq<bool> {
    Seq::new(bits.len(), |j: int| bits[j] || exists|i: u64| i < k && bloom_index(s, i, bits.len()) == j)
}

/// Whether all of an item's bits are set.
pub open spec fn bloom_holds(bits: Seq<bool>, s: Seq<char>, k: nat) -> bool {
    forall|i: u64| i < k ==> bits[#[trigger] bloom_index(s, i, bits.len())]
}

/// A space-efficient membership filter: `k` hashed bits per item over a
/// fixed bit array.  It never reports a false negative.
pub struct BloomFilter {
    bits: Vec<bool>,
    num_hashes: usize,
    size: usize,
}

impl BloomFilter {
    /// The filter's bit array.
    pub closed spec fn bits_view(self) -> Seq<bool> {
        self.bits@
    }

    /// How many hashes the filter uses.
    pub closed spec fn hash_count(self) -> nat {
        self.num_hashes as nat
    }

    /// The array is as long as the filter says, and not empty.
    pub closed spec fn wf(self) -> bool {
        self.bits@.len() == self.size && self.size > 0
    }

    /// A filter over `size` bits using `num_hashes` hashes per item.
    pub fn new(size: usize, num_hashes: usize) -> (r: BloomFilter)
        requires
            size > 0,
        ensures
            r.wf(),
            r.bits_view().len() == size,
            r.hash_count() == num_hashes,
            forall|j: int| 0 <= j < size ==> !(#[trigger] r.bits_view()[j]),
    {
        let mut bits: Vec<bool> = Vec::new();
        let mut i: usize = 0;
        while i < size
            invariant
                i <= size,
                bits@.len() == i,
                forall|j: int| 0 <= j < i ==> !(#[trigger] bits@[j]),
            decreases size - i,
        {
            bits.push(false);
            i += 1;
        }
        BloomFilter { bits, num_hashes, size }
    }

    /// The bit index of `item` under hash `seed`, as executable code.
    fn hash(&self, item: &str, seed: u64) -> (r: u64)
        ensures
            r == bloom_hash(item@, seed),
    {
        let n = item.unicode_len();
        let mut h: u64 = seed.wrapping_mul(0x9e3779b9).wrapping_add(0x811c9dc5);
        let mut i: usize = 0;
        proof {
            assert(item@.take(0) =~= Seq::<char>::empty());
        }
        while i < n
            invariant
                n == item@.len(),
                i <= n,
                h == bloom_hash(item@.take(i as int), seed),
            decreases n - i,
        {
            let c = item.get_char(i);
            proof {
                assert(item@.take(i + 1).drop_last() =~= item@.take(i as int));
                assert(item@.take(i + 1).last() == item@[i as int]);
            }
            h = h.wrapping_mul(31).wrapping_add((c as u32) as u64);
            i += 1;
        }
        proof {
            assert(item@.take(n as int) =~= item@);
        }
        h
    }

    /// Sets every one of the item's bits.
    pub fn insert(&mut self, item: &str)
        requires
            old(self).wf(),
        ensures
            final(self).wf(),
            final(self).hash_count() == old(self).hash_count(),
            final(self).bits_view() == bloom_with(
                old(self).bits_view(),
                item@,
                old(self).hash_count(),
            ),
    {
        let k = self.num_hashes;
        let mut i: usize = 0;
        while i < k
            invariant
                self.wf(),
                self.size == old(self).size,
                self.num_hashes == old(self).num_hashes,
                k == self.num_hashes,
                i <= k,
                self.bits@.len() == old(self).bits@.len(),
                forall|j: int|
                    0 <= j < self.bits@.len() ==> (#[trigger] self.bits@[j] == (old(
                        self,
                    ).bits@[j] || exists|t: u64|
                        t < i && bloom_index(item@, t, self.bits@.len()) == j)),
            decreases k - i,
        {
            let h = self.hash(item, i as u64);
            let idx = (h % self.size as u64) as usize;
            proof {
                assert(idx as int == bloom_index(item@, i as u64, self.bits@.len()));
            }
            self.bits[idx] = true;
            proof {
                assert forall|j: int|
                    0 <= j < self.bits@.len() implies (#[trigger] self.bits@[j] == (old(
                    self,
                ).bits@[j] || exists|t: u64|
                    t < i + 1 && bloom_index(item@, t, self.bits@.len()) == j)) by {
                    if j == idx as int {
                        assert(bloom_index(item@, i as u64, self.bits@.len()) == j);
                    }
                }
            }
            i += 1;
        }
        proof {
            assert(self.bits@ =~= bloom_with(old(self).bits_view(), item@, k as nat));
        }
    }

    /// Tests the item's bits.  No false negatives: everything inserted
    /// is reported present.
    pub fn contains(&self, item: &str) -> (r: bool)
        requires
            self.wf(),
        ensures
            r == bloom_holds(self.bits_view(), item@, self.hash_count()),
    {
        let k = self.num_hashes;
        let mut i: usize = 0;
        while i < k
            invariant
                self.wf(),
                k == self.num_hashes,
                i <= k,
                forall|t: u64| t < i ==> self.bits@[#[trigger] bloom_index(item@, t, self.bits@.len())],
            decreases k - i,
        {
            let h = self.hash(item, i as u64);
            let idx = (h % self.size as u64) as usize;
            proof {
                assert(idx as int == bloom_index(item@, i as u64, self.bits@.len()));
            }
            if !self.bits[idx] {
                return false;
            }
            i += 1;
        }
        true
    }
}

/// No false negatives: once an item's bits are set, the test holds, and
/// later insertions never clear them.
pub proof fn lemma_bloom_no_false_negative(bits: Seq<bool>, s: Seq<char>, t: Seq<char>, k: nat)
    requires
        bits.len() > 0,
    ensures
        bloom_holds(bloom_with(bits, s, k), s, k),
        bloom_holds(bits, s, k) ==> bloom_holds(bloom_with(bits, t, k), s, k),
{
    assert forall|i: u64| i < k implies bloom_with(bits, s, k)[#[trigger] bloom_index(
        s,
        i,
        bits.len(),
    )] by {
        assert(0 <= bloom_index(s, i, bits.len()) < bits.len());
    }
    if bloom_holds(bits, s, k) {
        assert forall|i: u64| i < k implies bloom_with(bits, t, k)[#[trigger] bloom_index(
            s,
            i,
            bits.len(),
        )] by {
            assert(0 <= bloom_index(s, i, bits.len()) < bits.len());
            assert(bits[bloom_index(s, i, bits.len())]);
        }
    }
}

/// The token-frequency analyzer's state.
#[derive(Debug)]
pub struct CorpusAnalyzer {
    pub token_frequency: HashMap<String, usize>,
    pub total_tokens: usize,
}

impl CorpusAnalyzer {
    /// A fresh analyzer with no tokens seen.
    pub fn new() -> (r: CorpusAnalyzer)
        ensures
            r.total_tokens == 0,
            r.token_frequency@ == Map::<String, usize>::empty(),
    {
        CorpusAnalyzer { token_frequency: HashMap::new(), total_tokens: 0 }
    }
}

} // verus!
