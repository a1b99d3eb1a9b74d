//! Deterministic keyed 64-bit hashing over byte strings.
//!
//! Both peers of a session must derive identical digests from identical keys,
//! so the hash is a pure function of the seed and the bytes: a splitmix-style
//! finalizer folded over the input. Fingerprints of buckets are hashes of the
//! concatenated decimal renderings of the per-piece digests.

use vstd::prelude::*;

verus! {

/// One splitmix-style mixing round.
pub open spec fn spec_mix64(z: u64) -> u64 {
    let z1 = (z ^ (z >> 30)) as u64;
    let z2 = (((z1 as int) * 0xbf58476d1ce4e5b9) % 0x10000000000000000) as u64;
    let z3 = (z2 ^ (z2 >> 27)) as u64;
    let z4 = (((z3 as int) * 0x94d049bb133111eb) % 0x10000000000000000) as u64;
    (z4 ^ (z4 >> 31)) as u64
}

pub fn mix64(z: u64) -> (r: u64)
    ensures
        r == spec_mix64(z),
{
    let z1 = z ^ (z >> 30);
    let z2 = z1.wrapping_mul(0xbf58476d1ce4e5b9);
    let z3 = z2 ^ (z2 >> 27);
    let z4 = z3.wrapping_mul(0x94d049bb133111eb);
    z4 ^ (z4 >> 31)
}

/// Keyed digest of a byte string: the seed, then every byte, folded through
/// the mixer from left to right.
pub open spec fn spec_hash64(seed: u64, bytes: Seq<u8>) -> u64
    decreases bytes.len(),
{
    if bytes.len() == 0 {
        spec_mix64(seed)
    } else {
        spec_mix64((spec_hash64(seed, bytes.drop_last()) ^ bytes.last() as u64) as u64)
    }
}

pub fn hash64(seed: u64, bytes: &Vec<u8>) -> (r: u64)
    ensures
        r == spec_hash64(seed, bytes@),
{
    let mut h = mix64(seed);
    let mut i: usize = 0;
    while i < bytes.len()
        invariant
            0 <= i <= bytes@.len(),
            h == spec_hash64(seed, bytes@.take(i as int)),
        decreases bytes@.len() - i,
    {
        proof {
            assert(bytes@.take(i + 1).drop_last() =~= bytes@.take(i as int));
            assert(bytes@.take(i + 1).last() == bytes@[i as int]);
        }
        h = mix64(h ^ (bytes[i] as u64));
        i = i + 1;
    }
    proof {
        assert(bytes@.take(bytes@.len() as int) =~= bytes@);
    }
    h
}

/// Decimal rendering of a 64-bit number, most significant digit first.
pub open spec fn spec_decimal(n: u64) -> Seq<u8>
    decreases n,
{
    if n < 10 {
        seq![(48 + n) as u8]
    } else {
        spec_decimal(n / 10).push((48 + n % 10) as u8)
    }
}

pub fn decimal_digits(n: u64) -> (r: Vec<u8>)
    ensures
        r@ == spec_decimal(n),
    decreases n,
{
    if n < 10 {
        let mut v: Vec<u8> = Vec::new();
        v.push(48 + (n as u8));
        proof {
            assert(v@ =~= spec_decimal(n));
        }
        v
    } else {
        let mut v = decimal_digits(n / 10);
        v.push(48 + ((n % 10) as u8));
        v
    }
}

/// The decimal renderings of a list of digests, concatenated in order.
pub open spec fn spec_concat_decimals(hs: Seq<u64>) -> Seq<u8>
    decreases hs.len(),
{
    if hs.len() == 0 {
        Seq::empty()
    } else {
        spec_concat_decimals(hs.drop_last()) + spec_decimal(hs.last())
    }
}

/// A bucket fingerprint: the keyed digest of the concatenated decimal
/// renderings of the bucket's piece digests, taken in canonical order.
pub open spec fn spec_fingerprint(seed: u64, hs: Seq<u64>) -> u64 {
    spec_hash64(seed, spec_concat_decimals(hs))
}

pub fn fingerprint(seed: u64, hs: &Vec<u64>) -> (r: u64)
    ensures
        r == spec_fingerprint(seed, hs@),
{
    let mut bytes: Vec<u8> = Vec::new();
    let mut i: usize = 0;
    while i < hs.len()
        invariant
            0 <= i <= hs@.len(),
            bytes@ == spec_concat_decimals(hs@.take(i as int)),
        decreases hs@.len() - i,
    {
        let mut ds = decimal_digits(hs[i]);
        let ghost pre = bytes@;
        let mut j: usize = 0;
        while j < ds.len()
            invariant
                0 <= j <= ds@.len(),
                bytes@ == pre + ds@.take(j as int),
            decreases ds@.len() - j,
        {
            proof {
                assert(pre + ds@.take(j + 1) =~= (pre + ds@.take(j as int)).push(ds@[j as int]));
            }
            bytes.push(ds[j]);
            j = j + 1;
        }
        proof {
            assert(ds@.take(ds@.len() as int) =~= ds@);
            assert(hs@.take(i + 1).drop_last() =~= hs@.take(i as int));
            assert(hs@.take(i + 1).last() == hs@[i as int]);
        }
        i = i + 1;
    }
    proof {
        assert(hs@.take(hs@.len() as int) =~= hs@);
    }
    hash64(seed, &bytes)
}

} // verus!
