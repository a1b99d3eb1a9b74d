//! Carrier values: the element payloads held by the lattice types.
//!
//! A carrier can report byte-level equality with another carrier, clone
//! itself, and render itself as the byte key under which the synchronization
//! protocols hash it. The key is a function of the value's view alone, so two
//! replicas derive identical keys for identical values.

use vstd::prelude::*;

verus! {

pub trait Carrier: View + Sized {
    /// The byte key of a value with view `v`.
    spec fn key_view(v: Self::V) -> Seq<u8>;

    /// The wire size, in bytes, of a value with view `v`.
    spec fn size_view(v: Self::V) -> nat;

    /// Renders the value's byte key.
    fn bytes(&self) -> (b: Vec<u8>)
        ensures
            b@ == Self::key_view(self@),
            b@.len() == Self::size_view(self@),
        ;

    /// Value equality, decided at the level of views.
    fn same(&self, other: &Self) -> (r: bool)
        ensures
            r == (self@ == other@),
        ;

    /// A copy with the same view.
    fn dup(&self) -> (r: Self)
        ensures
            r@ == self@,
        ;
}

impl Carrier for String {
    open spec fn key_view(v: Seq<char>) -> Seq<u8> {
        vstd::utf8::encode_utf8(v)
    }

    open spec fn size_view(v: Seq<char>) -> nat {
        vstd::utf8::encode_utf8(v).len()
    }

    fn bytes(&self) -> (b: Vec<u8>) {
        self.as_str().as_bytes_vec()
    }

    fn same(&self, other: &Self) -> (r: bool) {
        self.eq(other)
    }

    fn dup(&self) -> (r: Self) {
        self.clone()
    }
}

impl Carrier for u64 {
    open spec fn key_view(v: u64) -> Seq<u8> {
        vstd::bytes::spec_u64_to_le_bytes(v)
    }

    open spec fn size_view(v: u64) -> nat {
        8
    }

    fn bytes(&self) -> (b: Vec<u8>) {
        proof {
            vstd::bytes::lemma_auto_spec_u64_to_from_le_bytes();
        }
        vstd::bytes::u64_to_le_bytes(*self)
    }

    fn same(&self, other: &Self) -> (r: bool) {
        *self == *other
    }

    fn dup(&self) -> (r: Self) {
        *self
    }
}

} // verus!
