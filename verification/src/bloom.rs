//! Bloom filter: an approximate membership sketch over the byte keys of
//! decomposition pieces. Bit indices come from the double-hashing scheme,
//! `(h0 + i * h1) mod m` for the `i`-th of `k` probes, with both digests
//! drawn from the keyed hash under two per-filter seeds. The bit store is a
//! `bitvec` bit-vector, held behind trusted wrappers.

use vstd::prelude::*;

use crate::hash::{hash64, spec_hash64};

verus! {

/// The backing bit store: a `bitvec` bit-vector, opaque to the verifier
/// because its type parameters carry foreign trait bounds.
#[verifier::external_body]
#[derive(Debug)]
pub struct BitArray {
    inner: bitvec::vec::BitVec,
}

/// The bits a bit array holds, least index first.
pub uninterp spec fn bits_of(v: BitArray) -> Seq<bool>;

/// Relies on bitvec's `BitVec::repeat`: a fresh vector of `len` zero bits.
#[verifier::external_body]
fn bits_new(len: usize) -> (r: BitArray)
    ensures
        bits_of(r) == Seq::new(len as nat, |i: int| false),
{
    BitArray { inner: bitvec::vec::BitVec::repeat(false, len) }
}

/// Relies on bitvec's `BitSlice::set`, reached through the vector's deref:
/// writes the bit at `i` and leaves every other bit alone.
#[verifier::external_body]
fn bits_set(v: &mut BitArray, i: usize, b: bool)
    requires
        i < bits_of(*old(v)).len(),
    ensures
        bits_of(*final(v)) == bits_of(*old(v)).update(i as int, b),
{
    v.inner.set(i, b);
}

/// Relies on bitvec's `BitSlice` indexing, reached through the vector's
/// deref: reads the bit at `i`.
#[verifier::external_body]
fn bits_get(v: &BitArray, i: usize) -> (r: bool)
    requires
        i < bits_of(*v).len(),
    ensures
        r == bits_of(*v)[i as int],
{
    v.inner[i]
}

/// Relies on bitvec's `BitVec::len` (through `BitSlice::len`): the number of
/// bits held.
#[verifier::external_body]
fn bits_len(v: &BitArray) -> (r: usize)
    ensures
        r == bits_of(*v).len(),
{
    v.inner.len()
}

/// An invalid filter or protocol configuration.
#[derive(Clone, Copy, PartialEq, Eq, Structural, Debug)]
pub struct ConfigError;

/// Integer sizing derived from a target false-positive rate: how many bits
/// to provision per expected key (scaled by a thousand) and how many probes
/// to make per key.
#[derive(Clone, Copy, Debug, PartialEq, Eq, Structural)]
pub struct FilterSizing {
    millibits_per_key: u64,
    hashes: u64,
}

impl FilterSizing {
    /// Every sizing in circulation is valid: both figures positive.
    #[verifier::type_invariant]
    pub closed spec fn inv(&self) -> bool {
        self.millibits_per_key >= 1 && self.hashes >= 1
    }

    pub closed spec fn millibits(&self) -> u64 {
        self.millibits_per_key
    }

    pub closed spec fn probes(&self) -> u64 {
        self.hashes
    }

    /// What the type invariant guarantees of every sizing in circulation.
    pub proof fn valid(&self)
        requires
            self.inv(),
        ensures
            self.probes() >= 1,
            self.millibits() >= 1,
    {
    }

    /// Validates a sizing: both figures must be positive.
    pub fn new(millibits_per_key: u64, hashes: u64) -> (r: Result<Self, ConfigError>)
        ensures
            r matches Ok(s) ==> s.millibits() == millibits_per_key && s.probes() == hashes
                && millibits_per_key >= 1 && hashes >= 1,
            r is Err <==> millibits_per_key == 0 || hashes == 0,
    {
        if millibits_per_key >= 1 && hashes >= 1 {
            Ok(FilterSizing { millibits_per_key, hashes })
        } else {
            Err(ConfigError)
        }
    }

    /// The bit count provisioned for `capacity` keys: the scaled product,
    /// rounded up, and at least one.
    pub open spec fn spec_bits_for(&self, capacity: nat) -> nat {
        let raw = (capacity * self.millibits() + 999) / 1000;
        if raw < 1 {
            1
        } else {
            raw as nat
        }
    }
}

impl Default for FilterSizing {
    /// The default sizing targets a one-percent false-positive rate: about
    /// nine and a half bits and seven probes per key.
    fn default() -> (r: Self)
        ensures
            r.millibits() == 9585,
            r.probes() == 7,
    {
        FilterSizing { millibits_per_key: 9585, hashes: 7 }
    }
}

/// The probe index of the `i`-th hash: the double-hashing scheme over `m`
/// bits.
pub open spec fn spec_probe(h0: u64, h1: u64, i: u64, m: nat) -> int
    recommends
        m >= 1,
{
    (((h0 + i * h1) % 0x10000000000000000) as int) % (m as int)
}

/// Whether every probe of the key with digests `(h0, h1)` lands on a set
/// bit.
pub open spec fn all_probes_set(bits: Seq<bool>, h0: u64, h1: u64, k: u64) -> bool {
    forall|i: u64| i < k ==> bits[#[trigger] spec_probe(h0, h1, i, bits.len())]
}

/// Every set bit of the filter was put there by a probe of one of `keys`.
pub open spec fn bits_covered_by(f: BloomFilter, keys: Set<Seq<u8>>) -> bool {
    forall|j: int|
        0 <= j < f.bits().len() && #[trigger] f.bits()[j] ==> exists|k: Seq<u8>, p: u64|
            keys.contains(k) && p < f.probes() && j == spec_probe(
                spec_hash64(f.seeds().0, k),
                spec_hash64(f.seeds().1, k),
                p,
                f.bits().len() as nat,
            )
}

/// A report stays positive when the bit array only gains bits.
pub proof fn lemma_contains_monotone(a: Seq<bool>, b: Seq<bool>, h0: u64, h1: u64, k: u64)
    requires
        a.len() == b.len(),
        forall|j: int| 0 <= j < a.len() && a[j] ==> b[j],
        all_probes_set(a, h0, h1, k),
        a.len() >= 1,
    ensures
        all_probes_set(b, h0, h1, k),
{
    assert forall|i: u64| i < k implies b[#[trigger] spec_probe(h0, h1, i, b.len())] by {
        assert(a[spec_probe(h0, h1, i, a.len())]);
        assert(0 <= spec_probe(h0, h1, i, a.len()) < a.len());
    }
}

/// An approximate membership filter with double hashing.
#[derive(Debug)]
pub struct BloomFilter {
    base: BitArray,
    seed0: u64,
    seed1: u64,
    hashes: u64,
}

impl BloomFilter {
    /// The bit array.
    pub closed spec fn bits(&self) -> Seq<bool> {
        bits_of(self.base)
    }

    pub closed spec fn wf(&self) -> bool {
        self.bits().len() >= 1 && self.hashes >= 1
    }

    /// What well-formedness guarantees publicly.
    pub proof fn wf_len(&self)
        requires
            self.wf(),
        ensures
            self.bits().len() >= 1,
            self.probes() >= 1,
    {
    }

    pub closed spec fn probes(&self) -> u64 {
        self.hashes
    }

    pub closed spec fn seeds(&self) -> (u64, u64) {
        (self.seed0, self.seed1)
    }

    /// Whether the filter reports `key` as present.
    pub open spec fn spec_contains(&self, key: Seq<u8>) -> bool {
        all_probes_set(
            self.bits(),
            spec_hash64(self.seeds().0, key),
            spec_hash64(self.seeds().1, key),
            self.probes(),
        )
    }

    /// A fresh filter sized for `capacity` keys, with fresh random seeds.
    /// The bit count saturates at the machine word.
    pub fn new(capacity: usize, sizing: &FilterSizing) -> (r: Self)
        requires
            sizing.probes() >= 1,
            sizing.millibits() >= 1,
        ensures
            r.wf(),
            r.bits() == Seq::new(
                crate::decompose::clip_nat(sizing.spec_bits_for(capacity as nat)) as nat,
                |i: int| false,
            ),
            r.probes() == sizing.probes(),
            forall|key: Seq<u8>| !r.spec_contains(key),
    {
        proof {
            assert((capacity as int) * (sizing.millibits_per_key as int) <= 0xffffffffffffffff
                * 0xffffffffffffffff) by (nonlinear_arith)
                requires
                    capacity as int <= 0xffffffffffffffff,
                    sizing.millibits_per_key as int <= 0xffffffffffffffff,
            ;
        }
        let wide: u128 = (capacity as u128) * (sizing.millibits_per_key as u128);
        let raw128: u128 = (wide + 999) / 1000;
        let raw: usize = if raw128 > (usize::MAX as u128) {
            usize::MAX
        } else {
            raw128 as usize
        };
        let m: usize = if raw < 1 {
            1
        } else {
            raw
        };
        let r = BloomFilter {
            base: bits_new(m),
            seed0: crate::rng::random_u64(),
            seed1: crate::rng::random_u64(),
            hashes: sizing.hashes,
        };
        proof {
            assert(m as nat == crate::decompose::clip_nat(sizing.spec_bits_for(capacity as nat)));
            assert forall|key: Seq<u8>| !r.spec_contains(key) by {
                let h0 = spec_hash64(r.seeds().0, key);
                let h1 = spec_hash64(r.seeds().1, key);
                let p = spec_probe(h0, h1, 0, r.bits().len());
                assert(0 <= p < r.bits().len());
                assert(!r.bits()[p]);
                assert(0u64 < r.probes());
            }
        }
        r
    }

    /// The wire size of the filter: the packed bit array plus the two
    /// transmitted seeds.
    pub fn wire_bytes(&self) -> (r: usize)
        requires
            self.wf(),
        ensures
            r == crate::decompose::clip_nat(((self.bits().len() + 7) / 8 + 16) as nat),
    {
        let m = bits_len(&self.base);
        (m / 8 + if m % 8 == 0 {
            0
        } else {
            1
        }).saturating_add(16)
    }

    /// Whether every probe of `key` lands on a set bit.
    #[verifier::rlimit(100)]
    #[verifier::spinoff_prover]
    pub fn contains(&self, key: &Vec<u8>) -> (r: bool)
        requires
            self.wf(),
        ensures
            r == self.spec_contains(key@),
    {
        let h0 = hash64(self.seed0, key);
        let h1 = hash64(self.seed1, key);
        let m = bits_len(&self.base);
        let k = self.hashes;
        let mut i: u64 = 0;
        while i < k
            invariant
                0 <= i <= k,
                self.wf(),
                m == self.bits().len(),
                h0 == spec_hash64(self.seeds().0, key@),
                h1 == spec_hash64(self.seeds().1, key@),
                k == self.probes(),
                forall|j: u64| j < i ==> self.bits()[#[trigger] spec_probe(h0, h1, j, m as nat)],
            decreases k - i,
        {
            let idx = (h0.wrapping_add(i.wrapping_mul(h1)) % (m as u64)) as usize;
            proof {
                assert(idx == spec_probe(h0, h1, i, m as nat));
            }
            if !bits_get(&self.base, idx) {
                return false;
            }
            i = i + 1;
        }
        true
    }

    /// Sets every probe bit of `key`. Afterwards the filter reports the key,
    /// every bit set before stays set, and no other key's report changes
    /// from positive to negative.
    pub fn insert(&mut self, key: &Vec<u8>)
        requires
            old(self).wf(),
        ensures
            final(self).wf(),
            final(self).bits().len() == old(self).bits().len(),
            final(self).seeds() == old(self).seeds(),
            final(self).probes() == old(self).probes(),
            forall|j: int|
                0 <= j < old(self).bits().len() && old(self).bits()[j] ==> final(self).bits()[j],
            final(self).spec_contains(key@),
            forall|j: int|
                0 <= j < old(self).bits().len() && !old(self).bits()[j]
                    && final(self).bits()[j] ==> exists|i: u64|
                    i < old(self).probes() && j == spec_probe(
                        spec_hash64(old(self).seeds().0, key@),
                        spec_hash64(old(self).seeds().1, key@),
                        i,
                        old(self).bits().len(),
                    ),
    {
        let h0 = hash64(self.seed0, key);
        let h1 = hash64(self.seed1, key);
        let m = bits_len(&self.base);
        let k = self.hashes;
        let mut i: u64 = 0;
        while i < k
            invariant
                0 <= i <= k,
                self.wf(),
                m == self.bits().len(),
                self.bits().len() == old(self).bits().len(),
                self.seed0 == old(self).seed0,
                self.seed1 == old(self).seed1,
                self.hashes == old(self).hashes,
                h0 == spec_hash64(self.seed0, key@),
                h1 == spec_hash64(self.seed1, key@),
                k == self.hashes,
                forall|j: int|
                    0 <= j < old(self).bits().len() && old(self).bits()[j] ==> self.bits()[j],
                forall|j: u64| j < i ==> self.bits()[#[trigger] spec_probe(h0, h1, j, m as nat)],
                forall|j: int|
                    0 <= j < old(self).bits().len() && !old(self).bits()[j]
                        && self.bits()[j] ==> exists|ii: u64|
                        ii < k && j == spec_probe(h0, h1, ii, m as nat),
            decreases k - i,
        {
            let idx = (h0.wrapping_add(i.wrapping_mul(h1)) % (m as u64)) as usize;
            proof {
                assert(idx == spec_probe(h0, h1, i, m as nat));
            }
            let ghost pre = self.bits();
            bits_set(&mut self.base, idx, true);
            proof {
                assert(self.bits() == pre.update(idx as int, true));
                assert forall|j: u64| j < i + 1 implies self.bits()[#[trigger] spec_probe(
                    h0,
                    h1,
                    j,
                    m as nat,
                )] by {
                    if j < i {
                        assert(pre[spec_probe(h0, h1, j, m as nat)]);
                    }
                }
                assert forall|j: int|
                    0 <= j < old(self).bits().len() && !old(self).bits()[j]
                        && self.bits()[j] implies exists|ii: u64|
                    ii < k && j == spec_probe(h0, h1, ii, m as nat) by {
                    if j != idx {
                        assert(pre[j]);
                    } else {
                        assert(i < k && j == spec_probe(h0, h1, i, m as nat));
                    }
                }
            }
            i = i + 1;
        }
    }
}

} // verus!
