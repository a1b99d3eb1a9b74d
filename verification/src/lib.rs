//! Delta-state synchronization engine for state-based CRDTs.
//!
//! Replicas hold values of a bounded join-semilattice. The library provides
//! the lattice types (grow-only sets and counters, add-wins sets, causal dot
//! contexts), their irredundant join-decompositions, and the synchronization
//! protocols that exchange minimal payloads between two replicas while a
//! telemetry sink accounts for every transferred byte.

pub mod awset;
pub mod carrier;
pub mod causal;
pub mod decompose;
pub mod gcounter;
pub mod gset;
pub mod bloom;
pub mod hash;
pub mod rng;
pub mod sync;
pub mod tracker;
