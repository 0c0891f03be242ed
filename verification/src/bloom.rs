//! Per-table membership filters.
//!
//! A bloom filter is built once from a table file's final key set and never
//! mutated afterwards. It answers "possibly present" or "definitely absent";
//! a false positive only costs a block search, a false negative would lose
//! data — so the central law proved here is that a key that went in is
//! never reported absent. The filter stands on its own: the point-read path
//! serves from resident table records and does not yet consult one, so the
//! per-family filter knobs configure nothing further.

use vstd::prelude::*;

verus! {

/// The hash fold: a seeded 64-bit fold over the key bytes.
pub open spec fn spec_bloom_hash(key: Seq<u8>, seed: u64) -> u64
    decreases key.len(),
{
    if key.len() == 0 {
        seed
    } else {
        ((((spec_bloom_hash(key.drop_last(), seed) ^ (key.last() as u64)) as int) * 0x100000001b3)
            % 0x10000000000000000) as u64
    }
}

/// Whether bit `pos` is set in the word array.
pub open spec fn spec_bit_set(words: Seq<u64>, pos: int) -> bool {
    0 <= pos / 64 < words.len() && ((words[pos / 64] >> ((pos % 64) as u64)) & 1) == 1
}

/// A fixed-size membership filter with a configurable number of hash
/// probes. The set of inserted keys is carried as a ghost so that the
/// no-false-negative law can be stated.
pub struct BloomFilter {
    words: Vec<u64>,
    hashes: u32,
    keys: Ghost<Set<Seq<u8>>>,
}

impl BloomFilter {
    /// The keys inserted so far.
    pub closed spec fn spec_keys(self) -> Set<Seq<u8>> {
        self.keys@
    }

    /// How many probes a query makes.
    pub closed spec fn spec_hashes(self) -> u32 {
        self.hashes
    }

    /// Whether the bit that probe `i` of `key` addresses is set.
    pub closed spec fn spec_probe_set(self, key: Seq<u8>, i: int) -> bool {
        spec_bit_set(self.words@, self.spec_probe(key, i))
    }

    /// The bit position a probe of `key` with seed `i` addresses.
    pub closed spec fn spec_probe(self, key: Seq<u8>, i: int) -> int {
        spec_bloom_hash(key, (0xcbf29ce484222325u64 ^ (i as u64)) as u64) as int % (
        self.words@.len() * 64) as int
    }

    /// Well-formedness: at least one word and one probe, and every probe of
    /// every inserted key hits a set bit.
    pub closed spec fn wf(self) -> bool {
        &&& 1 <= self.words@.len() <= 0x1000000
        &&& self.hashes >= 1
        &&& forall|k: Seq<u8>, i: int|
            #![trigger self.spec_probe(k, i)]
            self.keys@.contains(k) && 0 <= i < self.hashes ==> spec_bit_set(
                self.words@,
                self.spec_probe(k, i),
            )
    }

    /// An empty filter sized for the expected number of entries and the
    /// target false-positive rate (in thousandths): roughly five bits per
    /// key at ten percent, ten at one percent, fifteen below.
    pub fn new(expected_entries: usize, fpr_per_mille: u32) -> (r: BloomFilter)
        ensures
            r.wf(),
            r.spec_keys() == Set::<Seq<u8>>::empty(),
    {
        let wanted = if expected_entries > 50_000_000 {
            50_000_000
        } else {
            expected_entries
        };
        let n_words: usize = if fpr_per_mille >= 100 {
            wanted * 5 / 64 + 1
        } else if fpr_per_mille >= 10 {
            wanted * 10 / 64 + 1
        } else {
            wanted * 15 / 64 + 1
        };
        let hashes: u32 = if fpr_per_mille >= 100 {
            4
        } else if fpr_per_mille >= 10 {
            7
        } else {
            11
        };
        let mut words: Vec<u64> = Vec::new();
        let mut i: usize = 0;
        while i < n_words
            invariant
                i <= n_words,
                words@.len() == i,
            decreases n_words - i,
        {
            words.push(0);
            i += 1;
        }
        proof {
            assert(words@.len() == n_words);
            assert(n_words >= 1);
            assert(wanted <= 50_000_000);
            assert(n_words <= 0x1000000);
        }
        let r = BloomFilter { words, hashes, keys: Ghost(Set::empty()) };
        proof {
            assert forall|k: Seq<u8>, i: int|
                r.keys@.contains(k) && 0 <= i < r.hashes implies spec_bit_set(
                r.words@,
                #[trigger] r.spec_probe(k, i),
            ) by {
                assert(!Set::<Seq<u8>>::empty().contains(k));
            }
            assert(r.wf());
        }
        r
    }

    /// Marks a key present: each probe's bit is set; every bit already set
    /// stays set, so earlier keys remain covered.
    pub fn insert(&mut self, key: &[u8])
        requires
            old(self).wf(),
        ensures
            final(self).wf(),
            final(self).spec_keys() == old(self).spec_keys().insert(key@),
    {
        let k = self.hashes;
        let mut i: u32 = 0;
        while i < k
            invariant
                self.words@.len() == old(self).words@.len(),
                1 <= self.words@.len() <= 0x1000000,
                self.hashes == old(self).hashes,
                self.keys == old(self).keys,
                forall|p: int|
                    #![trigger spec_bit_set(old(self).words@, p)]
                    spec_bit_set(old(self).words@, p) ==> spec_bit_set(self.words@, p),
                forall|j: int|
                    #![trigger old(self).spec_probe(key@, j)]
                    0 <= j < i ==> spec_bit_set(self.words@, old(self).spec_probe(key@, j)),
            decreases k - i,
        {
            let h = bloom_hash(key, 0xcbf29ce484222325u64 ^ (i as u64));
            let nbits = (self.words.len() as u64) * 64;
            let pos = h % nbits;
            let word_idx = (pos / 64) as usize;
            let shift = pos % 64;
            let ghost pre_words = self.words@;
            let w = self.words[word_idx];
            let updated = w | (1u64 << shift);
            let slot = &mut self.words[word_idx];
            *slot = updated;
            proof {
                assert(self.words@ =~= pre_words.update(word_idx as int, updated));
                assert(forall|x: u64, s1: u64, s2: u64|
                    s1 < 64 && s2 < 64 && ((x >> s2) & 1) == 1 ==> (((x | (1u64 << s1)) >> s2) & 1)
                        == 1) by (bit_vector);
                assert(forall|x: u64, s1: u64| s1 < 64 ==> (((x | (1u64 << s1)) >> s1) & 1) == 1)
                    by (bit_vector);
                assert forall|p: int| spec_bit_set(pre_words, p) implies spec_bit_set(
                    self.words@,
                    p,
                ) by {
                    if p / 64 == word_idx {
                        assert(0 <= p % 64 < 64);
                    }
                }
                assert(old(self).spec_probe(key@, i as int) == pos);
                assert(spec_bit_set(self.words@, pos as int)) by {
                    assert(pos as int / 64 == word_idx);
                    assert(pos as int % 64 == shift);
                }
            }
            i += 1;
        }
        proof {
            self.keys@ = self.keys@.insert(key@);
            assert(final(self).spec_keys() =~= old(self).spec_keys().insert(key@));
            assert forall|k2: Seq<u8>, j: int|
                self.keys@.contains(k2) && 0 <= j < self.hashes implies spec_bit_set(
                self.words@,
                #[trigger] self.spec_probe(k2, j),
            ) by {
                assert(self.spec_probe(k2, j) == old(self).spec_probe(k2, j));
                if k2 == key@ {
                    assert(spec_bit_set(self.words@, old(self).spec_probe(key@, j)));
                } else {
                    assert(old(self).keys@.contains(k2));
                    assert(spec_bit_set(old(self).words@, old(self).spec_probe(k2, j)));
                }
            }
        }
    }

    /// Whether the key is possibly present: exactly whether every one of
    /// the query's probes hits a set bit. A key that was inserted is never
    /// reported absent: there are no false negatives.
    pub fn contains(&self, key: &[u8]) -> (r: bool)
        requires
            self.wf(),
        ensures
            r == (forall|i: int|
                #![trigger self.spec_probe_set(key@, i)]
                0 <= i < self.spec_hashes() ==> self.spec_probe_set(key@, i)),
            self.spec_keys().contains(key@) ==> r,
    {
        let k = self.hashes;
        let mut i: u32 = 0;
        while i < k
            invariant
                self.wf(),
                k == self.hashes,
                forall|j: int|
                    #![trigger self.spec_probe_set(key@, j)]
                    0 <= j < i ==> self.spec_probe_set(key@, j),
            decreases k - i,
        {
            let h = bloom_hash(key, 0xcbf29ce484222325u64 ^ (i as u64));
            let nbits = (self.words.len() as u64) * 64;
            let pos = h % nbits;
            let word_idx = (pos / 64) as usize;
            let shift = pos % 64;
            let bit = (self.words[word_idx] >> shift) & 1;
            if bit != 1 {
                proof {
                    assert(self.spec_probe(key@, i as int) == pos);
                    assert(pos as int / 64 == word_idx && pos as int % 64 == shift);
                    assert(!self.spec_probe_set(key@, i as int));
                    if self.spec_keys().contains(key@) {
                        assert(spec_bit_set(self.words@, self.spec_probe(key@, i as int)));
                    }
                }
                return false;
            }
            proof {
                assert(self.spec_probe(key@, i as int) == pos);
                assert(pos as int / 64 == word_idx && pos as int % 64 == shift);
                assert(self.spec_probe_set(key@, i as int));
            }
            i += 1;
        }
        true
    }
}

/// The seeded hash of a key.
fn bloom_hash(key: &[u8], seed: u64) -> (r: u64)
    ensures
        r == spec_bloom_hash(key@, seed),
{
    let mut acc: u64 = seed;
    let mut i: usize = 0;
    proof {
        assert(key@.take(0) =~= Seq::<u8>::empty());
    }
    while i < key.len()
        invariant
            0 <= i <= key@.len(),
            acc == spec_bloom_hash(key@.take(i as int), seed),
        decreases key@.len() - i,
    {
        let x = acc ^ (key[i] as u64);
        let prod: u128 = (x as u128) * 0x100000001b3;
        acc = (prod % 0x10000000000000000) as u64;
        proof {
            assert(key@.take(i as int + 1).drop_last() =~= key@.take(i as int));
            assert(key@.take(i as int + 1).last() == key@[i as int]);
        }
        i += 1;
    }
    proof {
        assert(key@.take(key@.len() as int) =~= key@);
    }
    acc
}

} // verus!
