//! Synchronization protocols: two replicas of a decomposable type are
//! brought toward their join by a fixed exchange of messages, each recorded
//! in a telemetry sink. The helpers here build filters over decomposition
//! keys, spread pieces into hash buckets with per-bucket fingerprints, and
//! rebuild lattice values from batches of pieces.

use vstd::prelude::*;

use crate::bloom::BloomFilter;
use crate::decompose::{sets_union, Decompose, Measure};
use crate::hash::{spec_fingerprint, spec_hash64};
use crate::tracker::{DefaultTracker, Telemetry};

pub mod baseline;
pub mod bloom;
pub mod bloombuckets;
pub mod buckets;

verus! {

/// What every protocol asks of the two replicas: well-formed states that may
/// be joined.
pub open spec fn sync_pre<T: Decompose>(local: T, remote: T) -> bool {
    &&& local.wf()
    &&& remote.wf()
    &&& forall|x: T::Atom, y: T::Atom|
        #![trigger local.atoms().contains(x), remote.atoms().contains(y)]
        local.atoms().contains(x) && remote.atoms().contains(y) ==> T::atom_ok(x, y)
}

/// What every protocol guarantees of the replica states: both stay
/// well-formed, lose nothing, and learn nothing outside the join.
pub open spec fn sync_bounds<T: Decompose>(old_l: T, old_r: T, l: T, r: T) -> bool {
    &&& l.wf()
    &&& r.wf()
    &&& old_l.atoms().subset_of(l.atoms())
    &&& old_r.atoms().subset_of(r.atoms())
    &&& l.atoms().subset_of(old_l.atoms().union(old_r.atoms()))
    &&& r.atoms().subset_of(old_l.atoms().union(old_r.atoms()))
}

/// A synchronization protocol: a three- or four-message exchange that moves
/// both replicas toward their join and finishes the sink with the residual
/// divergence.
pub trait Algorithm<T: Measure>: Sized {
    /// The protocol's guarantee over the four states and the event log.
    spec fn post(&self, old_l: T, old_r: T, l: T, r: T, events: Seq<crate::tracker::DefaultEvent>) -> bool;

    fn sync(&self, local: &mut T, remote: &mut T, tracker: &mut DefaultTracker)
        requires
            sync_pre(*old(local), *old(remote)),
            old(tracker).ready(),
        ensures
            sync_bounds(*old(local), *old(remote), *final(local), *final(remote)),
            self.post(
                *old(local),
                *old(remote),
                *final(local),
                *final(remote),
                final(tracker).recorded(),
            ),
            final(tracker).outcome() == Some(
                crate::decompose::clip_nat(
                    crate::decompose::sym_diff(
                        T::obs_of(final(local).atoms()),
                        T::obs_of(final(remote).atoms()),
                    ).len(),
                ),
            ),
            final(tracker).rates() == old(tracker).rates(),
        ;
}

/// The atoms held by a list of hashed pieces.
pub open spec fn entries_union<T: Decompose>(es: Seq<(u64, T)>) -> Set<T::Atom> {
    sets_union(es.map_values(|e: (u64, T)| e.1.atoms()))
}

/// The atoms held by a full bucket table.
pub open spec fn table_union<T: Decompose>(tbl: Seq<Seq<(u64, T)>>) -> Set<T::Atom> {
    sets_union(tbl.map_values(|b: Seq<(u64, T)>| entries_union(b)))
}

/// A bucket table, at the level of views.
pub open spec fn table_view<T>(tbl: Seq<Vec<(u64, T)>>) -> Seq<Seq<(u64, T)>> {
    tbl.map_values(|v: Vec<(u64, T)>| v@)
}

/// A universe whose atoms tolerate one another.
pub open spec fn universe_ok<T: Decompose>(u: Set<T::Atom>) -> bool {
    forall|x: T::Atom, y: T::Atom|
        u.contains(x) && u.contains(y) ==> #[trigger] T::atom_ok(x, y)
}

/// Joins a batch of pieces into `host`, all drawn from the compatible
/// universe `u`.
pub fn join_pieces<T: Decompose>(host: &mut T, pieces: Vec<T>, Ghost(u): Ghost<Set<T::Atom>>)
    requires
        old(host).wf(),
        old(host).atoms().subset_of(u),
        universe_ok::<T>(u),
        forall|i: int|
            0 <= i < pieces@.len() ==> (#[trigger] pieces@[i]).wf() && pieces@[i].atoms().subset_of(
                u,
            ),
    ensures
        final(host).wf(),
        final(host).atoms() == old(host).atoms().union(
            sets_union(pieces@.map_values(|p: T| p.atoms())),
        ),
{
    proof {
        assert forall|i: int, x: T::Atom, y: T::Atom|
            #![trigger pieces@[i].atoms().contains(y), old(host).atoms().contains(x)]
            0 <= i < pieces@.len() && old(host).atoms().contains(x)
                && pieces@[i].atoms().contains(y) implies T::atom_ok(x, y) by {
            assert(u.contains(x) && u.contains(y));
        }
        assert forall|i: int, j: int, x: T::Atom, y: T::Atom|
            #![trigger pieces@[i].atoms().contains(x), pieces@[j].atoms().contains(y)]
            0 <= i < pieces@.len() && 0 <= j < pieces@.len() && pieces@[i].atoms().contains(x)
                && pieces@[j].atoms().contains(y) implies T::atom_ok(x, y) by {
            assert(u.contains(x) && u.contains(y));
        }
    }
    host.join(pieces);
}

/// Rebuilds one lattice value from the pieces of a bucket.
pub fn aggregate<T: Decompose>(bucket: Vec<(u64, T)>, Ghost(u): Ghost<Set<T::Atom>>) -> (r: T)
    requires
        universe_ok::<T>(u),
        forall|i: int|
            0 <= i < bucket@.len() ==> (#[trigger] bucket@[i]).1.wf()
                && bucket@[i].1.atoms().subset_of(u),
    ensures
        r.wf(),
        r.atoms() == entries_union(bucket@),
{
    let ghost bs = bucket@;
    let mut pieces: Vec<T> = Vec::new();
    let n = bucket.len();
    let mut rest = bucket;
    let mut i: usize = 0;
    proof {
        assert(rest@ =~= bs.skip(0));
    }
    while i < n
        invariant
            0 <= i <= n,
            n == bs.len(),
            rest@ == bs.skip(i as int),
            pieces@.len() == i,
            forall|k: int|
                0 <= k < i ==> (#[trigger] pieces@[k]).atoms() == bs[k].1.atoms()
                    && pieces@[k].wf(),
            forall|k: int| 0 <= k < bs.len() ==> (#[trigger] bs[k]).1.wf()
                && bs[k].1.atoms().subset_of(u),
        decreases n - i,
    {
        proof {
            assert(rest@[0] == bs[i as int]);
            assert(rest@.remove(0) =~= bs.skip(i + 1));
        }
        let p = rest.remove(0);
        pieces.push(p.1);
        i = i + 1;
    }
    let mut out = T::bottom();
    proof {
        assert forall|k: int| 0 <= k < pieces@.len() implies (#[trigger] pieces@[k]).wf()
            && pieces@[k].atoms().subset_of(u) by {
            assert(bs[k].1.atoms().subset_of(u));
        }
    }
    join_pieces(&mut out, pieces, Ghost(u));
    proof {
        assert(pieces@.map_values(|p: T| p.atoms()) =~= bs.map_values(
            |e: (u64, T)| e.1.atoms(),
        ));
        assert(out.atoms() =~= entries_union(bs));
    }
    out
}


/// After a session between replicas that already agreed, the trait
/// guarantees pin both states: running any protocol a second time changes
/// nothing.
pub proof fn lemma_idempotent_session<T: Decompose>(old_l: T, old_r: T, l: T, r: T)
    requires
        sync_bounds(old_l, old_r, l, r),
        old_l.atoms() == old_r.atoms(),
    ensures
        l.atoms() == old_l.atoms(),
        r.atoms() == old_r.atoms(),
{
    assert(old_l.atoms().union(old_r.atoms()) =~= old_l.atoms());
    assert(l.atoms() =~= old_l.atoms());
    assert(r.atoms() =~= old_r.atoms());
}

/// The key of a unit piece, or nothing if it is not a unit; pieces from
/// `split` are always units.
fn piece_key<T: Decompose>(p: &T) -> (k: Vec<u8>)
    requires
        p.wf(),
        p.is_unit(),
    ensures
        k@ == p.unit_key(),
{
    match p.key_bytes() {
        Ok(k) => k,
        Err(_) => {
            proof {
                assert(false);
            }
            Vec::new()
        },
    }
}

/// Builds a filter that reports every key of the given unit pieces.
pub fn filter_from<T: Decompose>(
    pieces: &Vec<T>,
    sizing: &crate::bloom::FilterSizing,
) -> (f: BloomFilter)
    requires
        sizing.probes() >= 1,
        sizing.millibits() >= 1,
        forall|i: int| 0 <= i < pieces@.len() ==> (#[trigger] pieces@[i]).wf() && pieces@[i].is_unit(),
    ensures
        f.wf(),
        f.bits().len() == crate::decompose::clip_nat(sizing.spec_bits_for(pieces@.len() as nat)),
        f.probes() == sizing.probes(),
        forall|i: int|
            0 <= i < pieces@.len() ==> f.spec_contains((#[trigger] pieces@[i]).unit_key()),
        forall|j: int|
            0 <= j < f.bits().len() && #[trigger] f.bits()[j] ==> exists|i: int, p: u64|
                0 <= i < pieces@.len() && p < f.probes() && j == crate::bloom::spec_probe(
                    crate::hash::spec_hash64(f.seeds().0, pieces@[i].unit_key()),
                    crate::hash::spec_hash64(f.seeds().1, pieces@[i].unit_key()),
                    p,
                    f.bits().len() as nat,
                ),
{
    let mut f = BloomFilter::new(pieces.len(), sizing);
    let n = pieces.len();
    let mut i: usize = 0;
    while i < n
        invariant
            0 <= i <= n,
            n == pieces@.len(),
            f.wf(),
            f.bits().len() == crate::decompose::clip_nat(sizing.spec_bits_for(n as nat)),
            f.probes() == sizing.probes(),
            forall|k: int|
                0 <= k < pieces@.len() ==> (#[trigger] pieces@[k]).wf() && pieces@[k].is_unit(),
            forall|k: int|
                0 <= k < i ==> f.spec_contains((#[trigger] pieces@[k]).unit_key()),
            forall|j: int|
                0 <= j < f.bits().len() && #[trigger] f.bits()[j] ==> exists|k: int, p: u64|
                    0 <= k < i && p < f.probes() && j == crate::bloom::spec_probe(
                        crate::hash::spec_hash64(f.seeds().0, pieces@[k].unit_key()),
                        crate::hash::spec_hash64(f.seeds().1, pieces@[k].unit_key()),
                        p,
                        f.bits().len() as nat,
                    ),
        decreases n - i,
    {
        let ghost pre = f;
        let kb = piece_key(&pieces[i]);
        f.insert(&kb);
        proof {
            assert forall|k: int| 0 <= k < i + 1 implies f.spec_contains(
                (#[trigger] pieces@[k]).unit_key(),
            ) by {
                if k < i {
                    pre.wf_len();
                    assert(pre.spec_contains(pieces@[k].unit_key()));
                    crate::bloom::lemma_contains_monotone(
                        pre.bits(),
                        f.bits(),
                        crate::hash::spec_hash64(pre.seeds().0, pieces@[k].unit_key()),
                        crate::hash::spec_hash64(pre.seeds().1, pieces@[k].unit_key()),
                        pre.probes(),
                    );
                    assert(f.seeds() == pre.seeds() && f.probes() == pre.probes());
                }
            }
            assert forall|j: int|
                0 <= j < f.bits().len() && #[trigger] f.bits()[j] implies exists|k: int, p: u64|
                0 <= k < i + 1 && p < f.probes() && j == crate::bloom::spec_probe(
                    crate::hash::spec_hash64(f.seeds().0, pieces@[k].unit_key()),
                    crate::hash::spec_hash64(f.seeds().1, pieces@[k].unit_key()),
                    p,
                    f.bits().len() as nat,
                ) by {
                if pre.bits()[j] {
                    let (k, p) = choose|k: int, p: u64|
                        0 <= k < i && p < pre.probes() && j == crate::bloom::spec_probe(
                            crate::hash::spec_hash64(pre.seeds().0, pieces@[k].unit_key()),
                            crate::hash::spec_hash64(pre.seeds().1, pieces@[k].unit_key()),
                            p,
                            pre.bits().len() as nat,
                        );
                    assert(0 <= k < i + 1 && p < f.probes() && j == crate::bloom::spec_probe(
                        crate::hash::spec_hash64(f.seeds().0, pieces@[k].unit_key()),
                        crate::hash::spec_hash64(f.seeds().1, pieces@[k].unit_key()),
                        p,
                        f.bits().len() as nat,
                    ));
                } else {
                    let p = choose|p: u64|
                        p < pre.probes() && j == crate::bloom::spec_probe(
                            crate::hash::spec_hash64(pre.seeds().0, kb@),
                            crate::hash::spec_hash64(pre.seeds().1, kb@),
                            p,
                            pre.bits().len() as nat,
                        );
                    assert(0 <= i < i + 1 && p < f.probes() && j == crate::bloom::spec_probe(
                        crate::hash::spec_hash64(f.seeds().0, pieces@[i as int].unit_key()),
                        crate::hash::spec_hash64(f.seeds().1, pieces@[i as int].unit_key()),
                        p,
                        f.bits().len() as nat,
                    ));
                }
            }
        }
        i = i + 1;
    }
    f
}

/// Splits unit pieces by filter report: those the filter claims to know,
/// and those it definitely does not.
#[verifier::rlimit(60)]
pub fn partition<T: Decompose>(f: &BloomFilter, pieces: Vec<T>) -> (r: (Vec<T>, Vec<T>))
    requires
        f.wf(),
        forall|i: int| 0 <= i < pieces@.len() ==> (#[trigger] pieces@[i]).wf() && pieces@[i].is_unit(),
    ensures
        forall|i: int|
            0 <= i < r.0@.len() ==> (#[trigger] r.0@[i]).wf() && r.0@[i].is_unit()
                && f.spec_contains(r.0@[i].unit_key()) && r.0@[i].atoms().subset_of(
                sets_union(pieces@.map_values(|p: T| p.atoms())),
            ) && pieces@.contains(r.0@[i]),
        forall|i: int|
            0 <= i < r.1@.len() ==> (#[trigger] r.1@[i]).wf() && r.1@[i].is_unit()
                && !f.spec_contains(r.1@[i].unit_key()) && r.1@[i].atoms().subset_of(
                sets_union(pieces@.map_values(|p: T| p.atoms())),
            ) && pieces@.contains(r.1@[i]),
        sets_union(r.0@.map_values(|p: T| p.atoms())).union(
            sets_union(r.1@.map_values(|p: T| p.atoms())),
        ) == sets_union(pieces@.map_values(|p: T| p.atoms())),
{
    let ghost ps = pieces@;
    let n = pieces.len();
    let mut rest = pieces;
    let mut yes: Vec<T> = Vec::new();
    let mut no: Vec<T> = Vec::new();
    let mut i: usize = 0;
    proof {
        assert(rest@ =~= ps.skip(0));
    }
    while i < n
        invariant
            0 <= i <= n,
            n == ps.len(),
            f.wf(),
            rest@ == ps.skip(i as int),
            forall|k: int| 0 <= k < ps.len() ==> (#[trigger] ps[k]).wf() && ps[k].is_unit(),
            forall|k: int|
                0 <= k < yes@.len() ==> (#[trigger] yes@[k]).wf() && yes@[k].is_unit()
                    && f.spec_contains(yes@[k].unit_key()) && yes@[k].atoms().subset_of(
                    sets_union(ps.map_values(|p: T| p.atoms())),
                ) && ps.contains(yes@[k]),
            forall|k: int|
                0 <= k < no@.len() ==> (#[trigger] no@[k]).wf() && no@[k].is_unit()
                    && !f.spec_contains(no@[k].unit_key()) && no@[k].atoms().subset_of(
                    sets_union(ps.map_values(|p: T| p.atoms())),
                ) && ps.contains(no@[k]),
            sets_union(yes@.map_values(|p: T| p.atoms())).union(
                sets_union(no@.map_values(|p: T| p.atoms())),
            ) == sets_union(ps.take(i as int).map_values(|p: T| p.atoms())),
        decreases n - i,
    {
        proof {
            crate::decompose::lemma_sets_union(ps.map_values(|p: T| p.atoms()));
            assert(rest@[0] == ps[i as int]);
            assert(rest@.remove(0) =~= ps.skip(i + 1));
            assert(ps.take(i + 1).map_values(|p: T| p.atoms()) =~= ps.take(i as int).map_values(
                |p: T| p.atoms(),
            ).push(ps[i as int].atoms()));
            crate::decompose::lemma_sets_union_push(
                ps.take(i as int).map_values(|p: T| p.atoms()),
                ps[i as int].atoms(),
            );
            assert(ps.map_values(|p: T| p.atoms())[i as int] == ps[i as int].atoms());
        }
        let p = rest.remove(0);
        let kb = piece_key(&p);
        let hit = f.contains(&kb);
        if hit {
            let ghost preyes = yes@;
            yes.push(p);
            proof {
                assert(yes@.map_values(|q: T| q.atoms()) =~= preyes.map_values(
                    |q: T| q.atoms(),
                ).push(ps[i as int].atoms()));
                crate::decompose::lemma_sets_union_push(
                    preyes.map_values(|q: T| q.atoms()),
                    ps[i as int].atoms(),
                );
                assert(sets_union(yes@.map_values(|q: T| q.atoms())).union(
                    sets_union(no@.map_values(|q: T| q.atoms())),
                ) =~= sets_union(ps.take(i + 1).map_values(|q: T| q.atoms())));
            }
        } else {
            let ghost preno = no@;
            no.push(p);
            proof {
                assert(no@.map_values(|q: T| q.atoms()) =~= preno.map_values(
                    |q: T| q.atoms(),
                ).push(ps[i as int].atoms()));
                crate::decompose::lemma_sets_union_push(
                    preno.map_values(|q: T| q.atoms()),
                    ps[i as int].atoms(),
                );
                assert(sets_union(yes@.map_values(|q: T| q.atoms())).union(
                    sets_union(no@.map_values(|q: T| q.atoms())),
                ) =~= sets_union(ps.take(i + 1).map_values(|q: T| q.atoms())));
            }
        }
        i = i + 1;
    }
    proof {
        assert(ps.take(n as int) =~= ps);
    }
    (yes, no)
}

/// The number of buckets a load factor provisions for `n` pieces: the
/// scaled product, rounded up, at least one, saturating at the machine
/// word.
pub open spec fn spec_bucket_count(n: nat, lf_permille: u64) -> nat {
    let raw = (n * lf_permille + 999) / 1000;
    if raw < 1 {
        1
    } else {
        raw as nat
    }
}

/// Computes the bucket count for `n` pieces.
pub fn bucket_count(n: usize, lf_permille: u64) -> (r: usize)
    requires
        lf_permille >= 1,
    ensures
        r == crate::decompose::clip_nat(spec_bucket_count(n as nat, lf_permille)),
        r >= 1,
{
    proof {
        assert((n as int) * (lf_permille as int) <= 0xffffffffffffffff * 0xffffffffffffffff)
            by (nonlinear_arith)
            requires
                n as int <= 0xffffffffffffffff,
                lf_permille as int <= 0xffffffffffffffff,
        ;
    }
    let wide: u128 = (n as u128) * (lf_permille as u128);
    let raw128: u128 = (wide + 999) / 1000;
    let raw: usize = if raw128 > (usize::MAX as u128) {
        usize::MAX
    } else {
        raw128 as usize
    };
    if raw < 1 {
        1
    } else {
        raw
    }
}

/// A list of digests in ascending order.
pub open spec fn ascending(ds: Seq<u64>) -> bool {
    forall|i: int, j: int| 0 <= i < j < ds.len() ==> ds[i] <= ds[j]
}

/// The digests of a bucket's entries, in bucket order.
pub open spec fn bucket_digests<T>(b: Seq<(u64, T)>) -> Seq<u64> {
    b.map_values(|e: (u64, T)| e.0)
}

/// Whether `v` is the fingerprint of this bucket: the keyed digest of the
/// bucket's piece digests in ascending order.
pub open spec fn bucket_fp_ok<T>(seed: u64, bucket: Seq<(u64, T)>, v: u64) -> bool {
    exists|ds: Seq<u64>|
        ascending(ds) && ds.to_multiset() == bucket_digests(bucket).to_multiset() && v
            == #[trigger] spec_fingerprint(seed, ds)
}

/// Sorts a list of digests ascending; the canonical order both peers use to
/// fingerprint a bucket.
fn sort_hashes(v: Vec<u64>) -> (r: Vec<u64>)
    ensures
        ascending(r@),
        r@.to_multiset() == v@.to_multiset(),
{
    let mut out = v;
    let ghost orig = out@;
    let n = out.len();
    let mut i: usize = 0;
    while i < n
        invariant
            0 <= i <= n,
            n == out@.len(),
            out@.to_multiset() == orig.to_multiset(),
            forall|a: int, b: int| 0 <= a < b < i ==> out@[a] <= out@[b],
            forall|a: int, b: int| 0 <= a < i && i <= b < n ==> out@[a] <= out@[b],
        decreases n - i,
    {
        let mut mj: usize = i;
        let mut j: usize = i + 1;
        while j < n
            invariant
                0 <= i <= mj < j <= n,
                n == out@.len(),
                forall|b: int| i <= b < j ==> out@[mj as int] <= out@[b],
            decreases n - j,
        {
            if out[j] < out[mj] {
                mj = j;
            }
            j = j + 1;
        }
        let x = out[i];
        let y = out[mj];
        let ghost pre = out@;
        out.set(i, y);
        out.set(mj, x);
        proof {
            broadcast use vstd::seq_lib::group_to_multiset_ensures;

            assert(pre.update(i as int, y)[mj as int] == y);
            assert(out@ =~= pre.update(i as int, y).update(mj as int, x));
            assert(out@.to_multiset() =~= pre.to_multiset());
            assert(forall|b: int| i < b < n ==> out@[i as int] <= out@[b]);
        }
        i = i + 1;
    }
    out
}

/// Spreads the decomposition of `replica` into `len` buckets by keyed
/// digest: each unit piece lands in the bucket its digest selects, paired
/// with that digest.
pub fn dispatch<T: Decompose>(replica: &T, len: usize, seed: u64) -> (tbl: Vec<Vec<(u64, T)>>)
    requires
        replica.wf(),
        len >= 1,
    ensures
        tbl@.len() == len,
        forall|b: int, i: int|
            0 <= b < tbl@.len() && 0 <= i < tbl@[b]@.len() ==> {
                let e = #[trigger] tbl@[b]@[i];
                e.1.wf() && e.1.is_unit() && e.1.atoms().subset_of(replica.atoms()) && e.0
                    == spec_hash64(seed, e.1.unit_key()) && (e.0 as int) % (len as int) == b
            },
        forall|b: int, i: int, a: T::Atom|
            0 <= b < tbl@.len() && 0 <= i < tbl@[b]@.len() && #[trigger] tbl@[b]@[i].1.atoms().contains(
                a,
            ) ==> tbl@[b]@[i].0 == spec_hash64(seed, T::atom_piece_key(replica.atoms(), a)),
        table_union(table_view(tbl@)) == replica.atoms(),
{
    let pieces = replica.split();
    let ghost ps = pieces@;
    let mut tbl: Vec<Vec<(u64, T)>> = Vec::new();
    let mut b: usize = 0;
    while b < len
        invariant
            0 <= b <= len,
            tbl@.len() == b,
            forall|k: int| 0 <= k < b ==> (#[trigger] tbl@[k]).len() == 0,
        decreases len - b,
    {
        tbl.push(Vec::new());
        b = b + 1;
    }
    proof {
        assert forall|k: int| 0 <= k < len implies #[trigger] entries_union(table_view(tbl@)[k])
            == Set::<T::Atom>::empty() by {
            assert(table_view(tbl@)[k] == tbl@[k]@);
            assert(tbl@[k]@.map_values(|e: (u64, T)| e.1.atoms()) =~= Seq::<
                Set<T::Atom>,
            >::empty());
            assert(entries_union(tbl@[k]@) =~= Set::<T::Atom>::empty());
        }
        lemma_table_union_empty::<T>(table_view(tbl@));
    }
    let n = pieces.len();
    let mut rest = pieces;
    let mut i: usize = 0;
    proof {
        assert(rest@ =~= ps.skip(0));
    }
    while i < n
        invariant
            0 <= i <= n,
            n == ps.len(),
            rest@ == ps.skip(i as int),
            tbl@.len() == len,
            len >= 1,
            forall|k: int| 0 <= k < ps.len() ==> (#[trigger] ps[k]).wf() && ps[k].is_unit()
                && ps[k].atoms().subset_of(replica.atoms()),
            forall|bb: int, ii: int|
                0 <= bb < tbl@.len() && 0 <= ii < tbl@[bb]@.len() ==> {
                    let e = #[trigger] tbl@[bb]@[ii];
                    e.1.wf() && e.1.is_unit() && e.1.atoms().subset_of(replica.atoms()) && e.0
                        == spec_hash64(seed, e.1.unit_key()) && (e.0 as int) % (len as int) == bb
                },
            forall|bb: int, ii: int, a: T::Atom|
                0 <= bb < tbl@.len() && 0 <= ii < tbl@[bb]@.len()
                    && #[trigger] tbl@[bb]@[ii].1.atoms().contains(a) ==> tbl@[bb]@[ii].0
                    == spec_hash64(seed, T::atom_piece_key(replica.atoms(), a)),
            forall|k: int, a: T::Atom|
                0 <= k < ps.len() && #[trigger] ps[k].atoms().contains(a) ==> ps[k].unit_key()
                    == T::atom_piece_key(replica.atoms(), a),
            table_union(table_view(tbl@)) == sets_union(
                ps.take(i as int).map_values(|p: T| p.atoms()),
            ),
        decreases n - i,
    {
        proof {
            crate::decompose::lemma_sets_union(ps.map_values(|p: T| p.atoms()));
            assert(rest@[0] == ps[i as int]);
            assert(rest@.remove(0) =~= ps.skip(i + 1));
            assert(ps.map_values(|p: T| p.atoms())[i as int] == ps[i as int].atoms());
        }
        let p = rest.remove(0);
        let kb = piece_key(&p);
        let h = crate::hash::hash64(seed, &kb);
        let idx = (h % (len as u64)) as usize;
        let ghost pretbl = tbl@;
        let mut slot = tbl.remove(idx);
        let ghost preslot = slot@;
        slot.push((h, p));
        tbl.insert(idx, slot);
        proof {
            assert(tbl@ =~= pretbl.update(idx as int, tbl@[idx as int]));
            assert(tbl@[idx as int]@ == preslot.push((h, ps[i as int])));
            assert(table_view(tbl@) =~= table_view(pretbl).update(
                idx as int,
                table_view(pretbl)[idx as int].push((h, ps[i as int])),
            ));
            lemma_table_union_update::<T>(
                table_view(pretbl),
                table_view(tbl@),
                idx as int,
                (h, ps[i as int]),
            );
            assert(ps.take(i + 1).map_values(|p2: T| p2.atoms()) =~= ps.take(
                i as int,
            ).map_values(|p2: T| p2.atoms()).push(ps[i as int].atoms()));
            crate::decompose::lemma_sets_union_push(
                ps.take(i as int).map_values(|p2: T| p2.atoms()),
                ps[i as int].atoms(),
            );
            assert(table_union(table_view(tbl@)) =~= sets_union(
                ps.take(i + 1).map_values(|p2: T| p2.atoms()),
            ));
        }
        i = i + 1;
    }
    proof {
        assert(ps.take(n as int) =~= ps);
    }
    tbl
}

/// An all-empty table holds no atoms.
proof fn lemma_table_union_empty<T: Decompose>(tbl: Seq<Seq<(u64, T)>>)
    requires
        forall|k: int| 0 <= k < tbl.len() ==> #[trigger] entries_union(tbl[k]) == Set::<
            T::Atom,
        >::empty(),
    ensures
        table_union(tbl) == Set::<T::Atom>::empty(),
    decreases tbl.len(),
{
    if tbl.len() > 0 {
        assert forall|k: int| 0 <= k < tbl.drop_last().len() implies #[trigger] entries_union(
            tbl.drop_last()[k],
        ) == Set::<T::Atom>::empty() by {
            assert(tbl.drop_last()[k] == tbl[k]);
        }
        lemma_table_union_empty::<T>(tbl.drop_last());
        assert(tbl.map_values(|b: Seq<(u64, T)>| entries_union(b)).drop_last() =~= tbl.drop_last(
        ).map_values(|b: Seq<(u64, T)>| entries_union(b)));
        assert(tbl.map_values(|b: Seq<(u64, T)>| entries_union(b)).last() == entries_union(
            tbl.last(),
        ));
        assert(table_union(tbl) =~= Set::<T::Atom>::empty());
    } else {
        assert(tbl.map_values(|b: Seq<(u64, T)>| entries_union(b)) =~= Seq::<Set<T::Atom>>::empty());
    }
}

/// Appending one entry to one bucket extends the table's atoms by that
/// entry's atoms.
proof fn lemma_table_union_update<T: Decompose>(
    pre: Seq<Seq<(u64, T)>>,
    post: Seq<Seq<(u64, T)>>,
    idx: int,
    e: (u64, T),
)
    requires
        0 <= idx < pre.len(),
        post == pre.update(idx, pre[idx].push(e)),
    ensures
        table_union(post) == table_union(pre).union(e.1.atoms()),
{
    let fpre = pre.map_values(|b: Seq<(u64, T)>| entries_union(b));
    let fpost = post.map_values(|b: Seq<(u64, T)>| entries_union(b));
    assert(entries_union(pre[idx].push(e)) == entries_union(pre[idx]).union(e.1.atoms())) by {
        assert(pre[idx].push(e).map_values(|q: (u64, T)| q.1.atoms()) =~= pre[idx].map_values(
            |q: (u64, T)| q.1.atoms(),
        ).push(e.1.atoms()));
        crate::decompose::lemma_sets_union_push(
            pre[idx].map_values(|q: (u64, T)| q.1.atoms()),
            e.1.atoms(),
        );
    }
    assert(fpost =~= fpre.update(idx, fpre[idx].union(e.1.atoms())));
    lemma_sets_union_bump(fpre, idx, e.1.atoms());
}

/// Growing one set of a list by `extra` grows the union by `extra`.
proof fn lemma_sets_union_bump<A>(ss: Seq<Set<A>>, idx: int, extra: Set<A>)
    requires
        0 <= idx < ss.len(),
    ensures
        sets_union(ss.update(idx, ss[idx].union(extra))) == sets_union(ss).union(extra),
    decreases ss.len(),
{
    let post = ss.update(idx, ss[idx].union(extra));
    if idx == ss.len() - 1 {
        assert(post.drop_last() =~= ss.drop_last());
        assert(post.last() == ss.last().union(extra));
        assert(sets_union(post) =~= sets_union(ss).union(extra));
    } else {
        assert(post.drop_last() =~= ss.drop_last().update(idx, ss.drop_last()[idx].union(extra)));
        lemma_sets_union_bump(ss.drop_last(), idx, extra);
        assert(post.last() == ss.last());
        assert(sets_union(post) =~= sets_union(ss).union(extra));
    }
}

/// The piece keys of a state's decomposition.
pub open spec fn piece_keys<T: Decompose>(s: Set<T::Atom>) -> Set<Seq<u8>> {
    Set::new(|k: Seq<u8>| exists|a: T::Atom| #[trigger] s.contains(a) && k == T::atom_piece_key(s, a))
}

/// A filter built by `filter_from` over the split of a state reports every
/// key of the state and owes all its bits to those keys.
pub proof fn lemma_filter_keys<T: Decompose>(f: BloomFilter, pieces: Seq<T>, s: Set<T::Atom>)
    requires
        f.wf(),
        forall|i: int|
            0 <= i < pieces.len() ==> (#[trigger] pieces[i]).wf() && pieces[i].is_unit()
                && pieces[i].atoms().subset_of(s),
        sets_union(pieces.map_values(|p: T| p.atoms())) == s,
        forall|i: int, a: T::Atom|
            0 <= i < pieces.len() && #[trigger] pieces[i].atoms().contains(a) ==> pieces[i].unit_key()
                == T::atom_piece_key(s, a),
        forall|i: int| 0 <= i < pieces.len() ==> f.spec_contains((#[trigger] pieces[i]).unit_key()),
        forall|j: int|
            0 <= j < f.bits().len() && #[trigger] f.bits()[j] ==> exists|i: int, p: u64|
                0 <= i < pieces.len() && p < f.probes() && j == crate::bloom::spec_probe(
                    spec_hash64(f.seeds().0, pieces[i].unit_key()),
                    spec_hash64(f.seeds().1, pieces[i].unit_key()),
                    p,
                    f.bits().len() as nat,
                ),
    ensures
        forall|k: Seq<u8>| piece_keys::<T>(s).contains(k) ==> #[trigger] f.spec_contains(k),
        crate::bloom::bits_covered_by(f, piece_keys::<T>(s)),
{
    assert forall|k: Seq<u8>| piece_keys::<T>(s).contains(k) implies #[trigger] f.spec_contains(
        k,
    ) by {
        let a = choose|a: T::Atom| #[trigger] s.contains(a) && k == T::atom_piece_key(s, a);
        let ss = pieces.map_values(|p: T| p.atoms());
        crate::decompose::lemma_sets_union(ss);
        let i = choose|i: int| 0 <= i < ss.len() && (#[trigger] ss[i]).contains(a);
        assert(pieces[i].atoms().contains(a));
        assert(pieces[i].unit_key() == k);
    }
    assert forall|j: int| 0 <= j < f.bits().len() && #[trigger] f.bits()[j] implies exists|
        k: Seq<u8>,
        p: u64,
    |
        piece_keys::<T>(s).contains(k) && p < f.probes() && j == crate::bloom::spec_probe(
            spec_hash64(f.seeds().0, k),
            spec_hash64(f.seeds().1, k),
            p,
            f.bits().len() as nat,
        ) by {
        let (i, p) = choose|i: int, p: u64|
            0 <= i < pieces.len() && p < f.probes() && j == crate::bloom::spec_probe(
                spec_hash64(f.seeds().0, pieces[i].unit_key()),
                spec_hash64(f.seeds().1, pieces[i].unit_key()),
                p,
                f.bits().len() as nat,
            );
        pieces[i].wf_facts();
        let a = choose|a: T::Atom| pieces[i].atoms().contains(a);
        assert(pieces[i].atoms().contains(a));
        assert(s.contains(a));
        assert(pieces[i].unit_key() == T::atom_piece_key(s, a));
        assert(piece_keys::<T>(s).contains(pieces[i].unit_key()));
        assert(piece_keys::<T>(s).contains(pieces[i].unit_key()) && p < f.probes() && j
            == crate::bloom::spec_probe(
            spec_hash64(f.seeds().0, pieces[i].unit_key()),
            spec_hash64(f.seeds().1, pieces[i].unit_key()),
            p,
            f.bits().len() as nat,
        ));
    }
}

/// A filter built over a sub-batch of a split owes all its bits to the keys
/// of the originating state that the reference filter reports.
pub proof fn lemma_filter_keys_within<T: Decompose>(
    f: BloomFilter,
    pieces: Seq<T>,
    keys: Set<Seq<u8>>,
    origin: Seq<T>,
    s: Set<T::Atom>,
    reff: BloomFilter,
)
    requires
        f.wf(),
        keys == Set::new(
            |k: Seq<u8>|
                exists|a: T::Atom|
                    s.contains(a) && reff.spec_contains(#[trigger] T::atom_piece_key(s, a)) && k
                        == T::atom_piece_key(s, a),
        ),
        forall|i: int|
            0 <= i < pieces.len() ==> (#[trigger] pieces[i]).wf() && pieces[i].is_unit()
                && reff.spec_contains(pieces[i].unit_key()) && origin.contains(pieces[i]),
        forall|i: int|
            0 <= i < origin.len() ==> (#[trigger] origin[i]).wf() && origin[i].is_unit()
                && origin[i].atoms().subset_of(s),
        forall|i: int, a: T::Atom|
            0 <= i < origin.len() && #[trigger] origin[i].atoms().contains(a) ==> origin[i].unit_key()
                == T::atom_piece_key(s, a),
        forall|j: int|
            0 <= j < f.bits().len() && #[trigger] f.bits()[j] ==> exists|i: int, p: u64|
                0 <= i < pieces.len() && p < f.probes() && j == crate::bloom::spec_probe(
                    spec_hash64(f.seeds().0, pieces[i].unit_key()),
                    spec_hash64(f.seeds().1, pieces[i].unit_key()),
                    p,
                    f.bits().len() as nat,
                ),
    ensures
        crate::bloom::bits_covered_by(f, keys),
{
    assert forall|j: int| 0 <= j < f.bits().len() && #[trigger] f.bits()[j] implies exists|
        k: Seq<u8>,
        p: u64,
    |
        keys.contains(k) && p < f.probes() && j == crate::bloom::spec_probe(
            spec_hash64(f.seeds().0, k),
            spec_hash64(f.seeds().1, k),
            p,
            f.bits().len() as nat,
        ) by {
        let (i, p) = choose|i: int, p: u64|
            0 <= i < pieces.len() && p < f.probes() && j == crate::bloom::spec_probe(
                spec_hash64(f.seeds().0, pieces[i].unit_key()),
                spec_hash64(f.seeds().1, pieces[i].unit_key()),
                p,
                f.bits().len() as nat,
            );
        let oi = choose|oi: int| 0 <= oi < origin.len() && origin[oi] == pieces[i];
        origin[oi].wf_facts();
        let a = choose|a: T::Atom| origin[oi].atoms().contains(a);
        assert(origin[oi].atoms().contains(a));
        assert(s.contains(a));
        assert(origin[oi].unit_key() == T::atom_piece_key(s, a));
        assert(reff.spec_contains(T::atom_piece_key(s, a)));
        assert(keys.contains(pieces[i].unit_key()));
        assert(keys.contains(pieces[i].unit_key()) && p < f.probes() && j
            == crate::bloom::spec_probe(
            spec_hash64(f.seeds().0, pieces[i].unit_key()),
            spec_hash64(f.seeds().1, pieces[i].unit_key()),
            p,
            f.bits().len() as nat,
        ));
    }
}

/// The bucket index an atom of a state with atoms `s` falls into.
pub open spec fn bucket_of<T: Decompose>(seed: u64, nb: int, s: Set<T::Atom>, a: T::Atom) -> int {
    (spec_hash64(seed, T::atom_piece_key(s, a)) as int) % nb
}

/// The atoms of the state that fall into bucket `b`.
pub open spec fn bucket_set<T: Decompose>(seed: u64, nb: int, s: Set<T::Atom>, b: int) -> Set<
    T::Atom,
> {
    Set::new(|a: T::Atom| s.contains(a) && bucket_of::<T>(seed, nb, s, a) == b)
}

/// The atoms a bucket round moves from `src` toward `dst`: for every bucket
/// named in `mism`, the exact delta of the two sides' bucket contents.
pub open spec fn gained<T: Decompose>(
    seed: u64,
    nb: int,
    mism: Set<int>,
    src: Set<T::Atom>,
    dst: Set<T::Atom>,
) -> Set<T::Atom> {
    Set::new(
        |a: T::Atom|
            src.contains(a) && mism.contains(bucket_of::<T>(seed, nb, src, a))
                && T::diff_spec(
                bucket_set::<T>(seed, nb, src, bucket_of::<T>(seed, nb, src, a)),
                bucket_set::<T>(seed, nb, dst, bucket_of::<T>(seed, nb, src, a)),
            ).contains(a),
    )
}

/// Per-bucket digest lists describing the state `s`: list `b` is ascending,
/// every digest in it is the digest of some atom of bucket `b`, and every
/// atom's digest appears in its bucket's list.
pub open spec fn digests_describe<T: Decompose>(
    seed: u64,
    nb: int,
    d: Seq<Seq<u64>>,
    s: Set<T::Atom>,
) -> bool {
    &&& d.len() == nb
    &&& forall|b: int| 0 <= b < nb ==> ascending(#[trigger] d[b])
    &&& forall|b: int, k: int|
        0 <= b < nb && 0 <= k < d[b].len() ==> exists|a: T::Atom|
            s.contains(a) && bucket_of::<T>(seed, nb, s, a) == b && #[trigger] d[b][k]
                == spec_hash64(seed, T::atom_piece_key(s, a))
    &&& forall|a: T::Atom|
        #[trigger] s.contains(a) ==> d[bucket_of::<T>(seed, nb, s, a)].contains(
            spec_hash64(seed, T::atom_piece_key(s, a)),
        )
}

/// A dispatched table sorts the atoms of the state by bucket index: bucket
/// `b` holds exactly the atoms whose index is `b`.
pub proof fn lemma_table_buckets<T: Decompose>(
    tbl: Seq<Seq<(u64, T)>>,
    seed: u64,
    s: Set<T::Atom>,
    b: int,
)
    requires
        tbl.len() >= 1,
        0 <= b < tbl.len(),
        table_union(tbl) == s,
        forall|b2: int, i: int, a: T::Atom|
            0 <= b2 < tbl.len() && 0 <= i < tbl[b2].len() && #[trigger] tbl[b2][i].1.atoms().contains(
                a,
            ) ==> tbl[b2][i].0 == spec_hash64(seed, T::atom_piece_key(s, a)),
        forall|b2: int, i: int|
            0 <= b2 < tbl.len() && 0 <= i < tbl[b2].len() ==> ((#[trigger] tbl[b2][i]).0 as int) % (
            tbl.len() as int) == b2,
    ensures
        entries_union(tbl[b]) == Set::new(
            |a: T::Atom| s.contains(a) && bucket_of::<T>(seed, tbl.len() as int, s, a) == b,
        ),
{
    let target = Set::new(
        |a: T::Atom| s.contains(a) && bucket_of::<T>(seed, tbl.len() as int, s, a) == b,
    );
    assert forall|a: T::Atom| entries_union(tbl[b]).contains(a) implies target.contains(a) by {
        let es = tbl[b].map_values(|e: (u64, T)| e.1.atoms());
        crate::decompose::lemma_sets_union(es);
        let i = choose|i: int| 0 <= i < es.len() && (#[trigger] es[i]).contains(a);
        assert(tbl[b][i].1.atoms().contains(a));
        let tbs = tbl.map_values(|b2: Seq<(u64, T)>| entries_union(b2));
        crate::decompose::lemma_sets_union(tbs);
        assert(tbs[b] == entries_union(tbl[b]));
        assert(tbs[b].subset_of(table_union(tbl)));
        assert(s.contains(a));
    }
    assert forall|a: T::Atom| target.contains(a) implies entries_union(tbl[b]).contains(a) by {
        let tbs = tbl.map_values(|b2: Seq<(u64, T)>| entries_union(b2));
        crate::decompose::lemma_sets_union(tbs);
        let b2 = choose|b2: int| 0 <= b2 < tbs.len() && (#[trigger] tbs[b2]).contains(a);
        assert(entries_union(tbl[b2]).contains(a));
        let es = tbl[b2].map_values(|e: (u64, T)| e.1.atoms());
        crate::decompose::lemma_sets_union(es);
        let i = choose|i: int| 0 <= i < es.len() && (#[trigger] es[i]).contains(a);
        assert(tbl[b2][i].1.atoms().contains(a));
        assert(b2 == b);
    }
    assert(entries_union(tbl[b]) =~= target);
}

/// The fingerprint of every bucket: the keyed digest of the bucket's piece
/// digests taken in ascending order.
pub fn bucket_hashes<T: Decompose>(tbl: &Vec<Vec<(u64, T)>>, seed: u64) -> (r: Vec<u64>)
    ensures
        r@.len() == tbl@.len(),
        forall|b: int| 0 <= b < tbl@.len() ==> #[trigger] bucket_fp_ok(seed, tbl@[b]@, r@[b]),
{
    let n = tbl.len();
    let mut r: Vec<u64> = Vec::new();
    let mut b: usize = 0;
    while b < n
        invariant
            0 <= b <= n,
            n == tbl@.len(),
            r@.len() == b,
            forall|b2: int| 0 <= b2 < b ==> #[trigger] bucket_fp_ok(seed, tbl@[b2]@, r@[b2]),
        decreases n - b,
    {
        let m = tbl[b].len();
        let mut hs: Vec<u64> = Vec::new();
        let mut i: usize = 0;
        while i < m
            invariant
                0 <= i <= m,
                0 <= b < n,
                n == tbl@.len(),
                m == tbl@[b as int]@.len(),
                hs@ == bucket_digests(tbl@[b as int]@).take(i as int),
            decreases m - i,
        {
            proof {
                assert(bucket_digests(tbl@[b as int]@).take(i + 1) =~= bucket_digests(
                    tbl@[b as int]@,
                ).take(i as int).push(tbl@[b as int]@[i as int].0));
            }
            hs.push(tbl[b][i].0);
            i = i + 1;
        }
        proof {
            assert(bucket_digests(tbl@[b as int]@).take(m as int) =~= bucket_digests(
                tbl@[b as int]@,
            ));
        }
        let sorted = sort_hashes(hs);
        let fp = crate::hash::fingerprint(seed, &sorted);
        let ghost pre_r = r@;
        r.push(fp);
        proof {
            assert forall|b2: int| 0 <= b2 < b + 1 implies #[trigger] bucket_fp_ok(
                seed,
                tbl@[b2]@,
                r@[b2],
            ) by {
                if b2 == b {
                    assert(ascending(sorted@) && sorted@.to_multiset() == bucket_digests(
                        tbl@[b2]@,
                    ).to_multiset() && r@[b2] == spec_fingerprint(seed, sorted@));
                } else {
                    assert(bucket_fp_ok(seed, tbl@[b2]@, pre_r[b2]));
                    assert(r@[b2] == pre_r[b2]);
                }
            }
        }
        b = b + 1;
    }
    r
}

} // verus!
