//! Bucketing protocol: a Merkle-style three-message exchange. Both peers
//! spread their decompositions into the same hash buckets under a shared
//! session seed and compare per-bucket fingerprints; only the buckets whose
//! fingerprints differ are exchanged, and those are reconciled exactly with
//! pairwise differences.

use vstd::prelude::*;

use crate::decompose::{clip_nat, sets_union, Decompose, Measure};
use crate::hash::{spec_fingerprint, spec_hash64};
use crate::sync::baseline::{lemma_universe, session_universe};
use crate::sync::{
    aggregate, ascending, bucket_count, bucket_digests, bucket_fp_ok, bucket_hashes, bucket_of,
    bucket_set, digests_describe, dispatch, gained, join_pieces, spec_bucket_count, table_union,
    table_view, Algorithm,
};
use crate::tracker::{DefaultEvent, DefaultTracker, Telemetry};

verus! {

/// The fingerprint-comparing bucket exchange, configured by a load factor in
/// thousandths.
#[derive(Clone, Copy, Debug)]
pub struct Buckets {
    lf_permille: u64,
}

impl Buckets {
    /// Every load factor in circulation is positive.
    #[verifier::type_invariant]
    pub closed spec fn inv(&self) -> bool {
        self.lf_permille >= 1
    }

    pub closed spec fn load_spec(&self) -> u64 {
        self.lf_permille
    }

    /// What the type invariant guarantees.
    pub proof fn valid(&self)
        requires
            self.inv(),
        ensures
            self.load_spec() >= 1,
    {
    }

    /// Validates a load factor: it must be positive.
    pub fn new(lf_permille: u64) -> (r: Result<Self, crate::bloom::ConfigError>)
        ensures
            r matches Ok(b) ==> b.load_spec() == lf_permille && lf_permille >= 1,
            r is Err <==> lf_permille == 0,
    {
        if lf_permille >= 1 {
            Ok(Buckets { lf_permille })
        } else {
            Err(crate::bloom::ConfigError)
        }
    }

}

impl Default for Buckets {
    /// The default load factor: one bucket per piece.
    fn default() -> (r: Self)
        ensures
            r.load_spec() == 1000,
    {
        Buckets { lf_permille: 1000 }
    }
}

/// What one bucket session did, given the session seed, the bucket count
/// and the set `mism` of indices whose fingerprints differed: every atom of
/// a mismatched bucket crossed over, and nothing else moved.
pub open spec fn buckets_outcome<T: Measure>(
    seed: u64,
    nb: int,
    mism: Set<int>,
    old_l: T,
    old_r: T,
    l: T,
    r: T,
) -> bool {
    &&& l.atoms() == old_l.atoms().union(
        gained::<T>(seed, nb, mism, old_r.atoms(), old_l.atoms()),
    )
    &&& r.atoms() == old_r.atoms().union(
        gained::<T>(seed, nb, mism, old_l.atoms(), old_r.atoms()),
    )
    &&& forall|a: T::Atom|
        #![trigger l.atoms().contains(a)]
        old_r.atoms().contains(a) && mism.contains(
            bucket_of::<T>(seed, nb, old_r.atoms(), a),
        ) ==> l.atoms().contains(a)
    &&& forall|a: T::Atom|
        #![trigger r.atoms().contains(a)]
        old_l.atoms().contains(a) && mism.contains(
            bucket_of::<T>(seed, nb, old_l.atoms(), a),
        ) ==> r.atoms().contains(a)
}

/// The fingerprint comparison that selected `mism`: both sides' bucket
/// digest lists exist, and an index is in `mism` exactly when the two
/// fingerprints disagree.
pub open spec fn fingerprints_selected<T: Measure>(
    seed: u64,
    nb: int,
    mism: Set<int>,
    dl: Seq<Seq<u64>>,
    dr: Seq<Seq<u64>>,
    old_l: T,
    old_r: T,
) -> bool {
    &&& digests_describe::<T>(seed, nb, dl, old_l.atoms())
    &&& digests_describe::<T>(seed, nb, dr, old_r.atoms())
    &&& forall|b: int|
        0 <= b < nb ==> ((!#[trigger] mism.contains(b)) <==> spec_fingerprint(seed, dl[b])
            == spec_fingerprint(seed, dr[b]))
    &&& forall|b: int| #[trigger] mism.contains(b) ==> 0 <= b < nb
}

/// Bucketing convergence: whenever every bucket holding a one-sided atom is
/// named in `mism` — which holds exactly when no two differing buckets
/// collided on their fingerprints — both replicas end at the join.
pub proof fn lemma_buckets_exact<T: Measure>(
    seed: u64,
    nb: int,
    mism: Set<int>,
    old_l: T,
    old_r: T,
    l: T,
    r: T,
)
    requires
        crate::sync::sync_bounds(old_l, old_r, l, r),
        buckets_outcome(seed, nb, mism, old_l, old_r, l, r),
        forall|a: T::Atom|
            old_r.atoms().contains(a) && !old_l.atoms().contains(a) ==> mism.contains(
                #[trigger] bucket_of::<T>(seed, nb, old_r.atoms(), a),
            ),
        forall|a: T::Atom|
            old_l.atoms().contains(a) && !old_r.atoms().contains(a) ==> mism.contains(
                #[trigger] bucket_of::<T>(seed, nb, old_l.atoms(), a),
            ),
    ensures
        l.atoms() == old_l.atoms().union(old_r.atoms()),
        r.atoms() == old_l.atoms().union(old_r.atoms()),
{
    assert forall|a: T::Atom|
        old_l.atoms().union(old_r.atoms()).contains(a) implies l.atoms().contains(a)
        && r.atoms().contains(a) by {
        if old_l.atoms().contains(a) {
            if !old_r.atoms().contains(a) {
                assert(mism.contains(bucket_of::<T>(seed, nb, old_l.atoms(), a)));
            }
        } else {
            assert(mism.contains(bucket_of::<T>(seed, nb, old_r.atoms(), a)));
        }
    }
    assert(l.atoms() =~= old_l.atoms().union(old_r.atoms()));
    assert(r.atoms() =~= old_l.atoms().union(old_r.atoms()));
}

/// Full bucketing convergence from the session evidence: if no two bucket
/// digest lists collide on their fingerprints and no two distinct atoms
/// share a digest, both replicas end at the join. These two hypotheses are
/// exactly the hash-collision risks the exchange knowingly runs.
pub proof fn lemma_buckets_convergence<T: Measure>(
    seed: u64,
    nb: int,
    mism: Set<int>,
    dl: Seq<Seq<u64>>,
    dr: Seq<Seq<u64>>,
    old_l: T,
    old_r: T,
    l: T,
    r: T,
)
    requires
        nb >= 1,
        crate::sync::sync_bounds(old_l, old_r, l, r),
        buckets_outcome(seed, nb, mism, old_l, old_r, l, r),
        fingerprints_selected(seed, nb, mism, dl, dr, old_l, old_r),
        forall|b: int|
            0 <= b < nb && spec_fingerprint(seed, #[trigger] dl[b]) == spec_fingerprint(
                seed,
                dr[b],
            ) ==> dl[b] == dr[b],
        forall|a1: T::Atom, a2: T::Atom|
            #![trigger T::atom_piece_key(old_l.atoms(), a1), T::atom_piece_key(old_r.atoms(), a2)]
            old_l.atoms().contains(a1) && old_r.atoms().contains(a2) && spec_hash64(
                seed,
                T::atom_piece_key(old_l.atoms(), a1),
            ) == spec_hash64(seed, T::atom_piece_key(old_r.atoms(), a2)) ==> a1 == a2,
    ensures
        l.atoms() == old_l.atoms().union(old_r.atoms()),
        r.atoms() == old_l.atoms().union(old_r.atoms()),
{
    assert forall|a: T::Atom|
        old_r.atoms().contains(a) && !old_l.atoms().contains(a) implies mism.contains(
        #[trigger] bucket_of::<T>(seed, nb, old_r.atoms(), a),
    ) by {
        let b = bucket_of::<T>(seed, nb, old_r.atoms(), a);
        assert(0 <= b < nb);
        if !mism.contains(b) {
            assert(spec_fingerprint(seed, dl[b]) == spec_fingerprint(seed, dr[b]));
            assert(dl[b] == dr[b]);
            let dg = spec_hash64(seed, T::atom_piece_key(old_r.atoms(), a));
            assert(dr[b].contains(dg));
            let k = choose|k: int| 0 <= k < dl[b].len() && dl[b][k] == dg;
            let a1 = choose|a1: T::Atom|
                old_l.atoms().contains(a1) && bucket_of::<T>(seed, nb, old_l.atoms(), a1) == b
                    && #[trigger] dl[b][k] == spec_hash64(
                    seed,
                    T::atom_piece_key(old_l.atoms(), a1),
                );
            assert(a1 == a);
            assert(false);
        }
    }
    assert forall|a: T::Atom|
        old_l.atoms().contains(a) && !old_r.atoms().contains(a) implies mism.contains(
        #[trigger] bucket_of::<T>(seed, nb, old_l.atoms(), a),
    ) by {
        let b = bucket_of::<T>(seed, nb, old_l.atoms(), a);
        assert(0 <= b < nb);
        if !mism.contains(b) {
            assert(spec_fingerprint(seed, dl[b]) == spec_fingerprint(seed, dr[b]));
            assert(dl[b] == dr[b]);
            let dg = spec_hash64(seed, T::atom_piece_key(old_l.atoms(), a));
            assert(dl[b].contains(dg));
            let k = choose|k: int| 0 <= k < dr[b].len() && dr[b][k] == dg;
            let a2 = choose|a2: T::Atom|
                old_r.atoms().contains(a2) && bucket_of::<T>(seed, nb, old_r.atoms(), a2) == b
                    && #[trigger] dr[b][k] == spec_hash64(
                    seed,
                    T::atom_piece_key(old_r.atoms(), a2),
                );
            assert(a2 == a);
            assert(false);
        }
    }
    lemma_buckets_exact(seed, nb, mism, old_l, old_r, l, r);
}

impl<T: Measure> Algorithm<T> for Buckets {
    /// Three messages: the fingerprint vector (metadata only, eight bytes
    /// per bucket), the differing buckets, then the exact per-bucket deltas
    /// back. The session's seed, mismatch set and fingerprint evidence are
    /// pinned by `buckets_outcome` and `fingerprints_selected`; when no
    /// bucket mismatched, no state bytes move in either direction.
    open spec fn post(
        &self,
        old_l: T,
        old_r: T,
        l: T,
        r: T,
        events: Seq<DefaultEvent>,
    ) -> bool {
        &&& events.len() == 3
        &&& events[0].is_upload()
        &&& events[0].spec_state() == 0
        &&& events[0].spec_metadata() == clip_nat(
            8 * clip_nat(
                spec_bucket_count(clip_nat(old_l.count_spec()) as nat, self.load_spec()),
            ) as nat,
        )
        &&& !events[1].is_upload()
        &&& events[2].is_upload()
        &&& events[2].spec_metadata() == 0
        &&& exists|seed: u64, nb: int, mism: Set<int>, dl: Seq<Seq<u64>>, dr: Seq<Seq<u64>>|
            #![trigger buckets_outcome(seed, nb, mism, old_l, old_r, l, r), fingerprints_selected(seed, nb, mism, dl, dr, old_l, old_r)]
            nb == clip_nat(
                spec_bucket_count(clip_nat(old_l.count_spec()) as nat, self.load_spec()),
            ) as int && buckets_outcome(seed, nb, mism, old_l, old_r, l, r)
                && fingerprints_selected(seed, nb, mism, dl, dr, old_l, old_r) && (mism
                == Set::<int>::empty() ==> events[1].spec_state() == 0 && events[2].spec_state()
                == 0)
    }

    #[verifier::rlimit(100)]
    fn sync(&self, local: &mut T, remote: &mut T, tracker: &mut DefaultTracker) {
        let ghost old_l = *local;
        let ghost old_r = *remote;
        let ghost u = session_universe(old_l, old_r);
        proof {
            lemma_universe(old_l, old_r);
            use_type_invariant(self);
            self.valid();
        }
        let seed = crate::rng::random_u64();
        let n_pieces = T::len(local);
        let nb = bucket_count(n_pieces, self.lf_permille);
        let local_tbl = dispatch(local, nb, seed);
        let local_fps = bucket_hashes(&local_tbl, seed);
        let m0 = if nb > usize::MAX / 8 {
            usize::MAX
        } else {
            8 * nb
        };
        let up = tracker.upload();
        tracker.register(DefaultEvent::LocalToRemote { state: 0, metadata: m0, upload: up });
        let remote_tbl = dispatch(remote, nb, seed);
        let remote_fps = bucket_hashes(&remote_tbl, seed);
        let ghost ltv = table_view(local_tbl@);
        let ghost rtv = table_view(remote_tbl@);
        proof {
            assert forall|b: int| 0 <= b < nb implies #[trigger] bucket_fp_ok(
                seed,
                ltv[b],
                local_fps@[b],
            ) && bucket_fp_ok(seed, rtv[b], remote_fps@[b]) by {
                assert(ltv[b] == local_tbl@[b]@);
                assert(rtv[b] == remote_tbl@[b]@);
            }
        }
        let mut local_unseen: Vec<T> = Vec::new();
        let mut remote_unseen: Vec<T> = Vec::new();
        let mut down_state: usize = 0;
        let mut down_count: usize = 0;
        let mut up_state: usize = 0;
        let mut lrest = local_tbl;
        let mut rrest = remote_tbl;
        let mut i: usize = 0;
        let ghost mut mism = Set::<int>::empty();
        proof {
            assert(lrest@ =~= local_tbl@.skip(0));
            assert(rrest@ =~= remote_tbl@.skip(0));
            assert(sets_union(local_unseen@.map_values(|p: T| p.atoms())) =~= gained::<T>(
                seed,
                nb as int,
                mism,
                old_r.atoms(),
                old_l.atoms(),
            ));
            assert(sets_union(remote_unseen@.map_values(|p: T| p.atoms())) =~= gained::<T>(
                seed,
                nb as int,
                mism,
                old_l.atoms(),
                old_r.atoms(),
            ));
        }
        while i < nb
            invariant
                0 <= i <= nb,
                nb >= 1,
                local_tbl@.len() == nb,
                remote_tbl@.len() == nb,
                local_fps@.len() == nb,
                remote_fps@.len() == nb,
                lrest@ == local_tbl@.skip(i as int),
                rrest@ == remote_tbl@.skip(i as int),
                ltv == table_view(local_tbl@),
                rtv == table_view(remote_tbl@),
                ltv.len() == nb,
                rtv.len() == nb,
                old_l.wf(),
                old_r.wf(),
                crate::sync::universe_ok::<T>(u),
                u == old_l.atoms().union(old_r.atoms()),
                table_union(ltv) == old_l.atoms(),
                table_union(rtv) == old_r.atoms(),
                forall|b: int, k: int|
                    0 <= b < nb && 0 <= k < ltv[b].len() ==> (#[trigger] ltv[b][k]).1.wf()
                        && ltv[b][k].1.is_unit() && ltv[b][k].1.atoms().subset_of(old_l.atoms()),
                forall|b: int, k: int|
                    0 <= b < nb && 0 <= k < rtv[b].len() ==> (#[trigger] rtv[b][k]).1.wf()
                        && rtv[b][k].1.is_unit() && rtv[b][k].1.atoms().subset_of(old_r.atoms()),
                forall|b: int, k: int, a: T::Atom|
                    0 <= b < nb && 0 <= k < ltv[b].len() && #[trigger] ltv[b][k].1.atoms().contains(
                        a,
                    ) ==> ltv[b][k].0 == spec_hash64(seed, T::atom_piece_key(old_l.atoms(), a)),
                forall|b: int, k: int, a: T::Atom|
                    0 <= b < nb && 0 <= k < rtv[b].len() && #[trigger] rtv[b][k].1.atoms().contains(
                        a,
                    ) ==> rtv[b][k].0 == spec_hash64(seed, T::atom_piece_key(old_r.atoms(), a)),
                forall|b: int, k: int|
                    0 <= b < nb && 0 <= k < ltv[b].len() ==> ((#[trigger] ltv[b][k]).0 as int) % (
                    nb as int) == b,
                forall|b: int, k: int|
                    0 <= b < nb && 0 <= k < rtv[b].len() ==> ((#[trigger] rtv[b][k]).0 as int) % (
                    nb as int) == b,
                forall|k: int|
                    0 <= k < local_unseen@.len() ==> (#[trigger] local_unseen@[k]).wf()
                        && local_unseen@[k].atoms().subset_of(old_r.atoms()),
                forall|k: int|
                    0 <= k < remote_unseen@.len() ==> (#[trigger] remote_unseen@[k]).wf()
                        && remote_unseen@[k].atoms().subset_of(old_l.atoms()),
                sets_union(local_unseen@.map_values(|p: T| p.atoms())) == gained::<T>(
                    seed,
                    nb as int,
                    mism,
                    old_r.atoms(),
                    old_l.atoms(),
                ),
                sets_union(remote_unseen@.map_values(|p: T| p.atoms())) == gained::<T>(
                    seed,
                    nb as int,
                    mism,
                    old_l.atoms(),
                    old_r.atoms(),
                ),
                forall|a: T::Atom|
                    old_r.atoms().contains(a) && mism.contains(
                        #[trigger] bucket_of::<T>(seed, nb as int, old_r.atoms(), a),
                    ) ==> old_l.atoms().union(
                        sets_union(local_unseen@.map_values(|p: T| p.atoms())),
                    ).contains(a),
                forall|a: T::Atom|
                    old_l.atoms().contains(a) && mism.contains(
                        #[trigger] bucket_of::<T>(seed, nb as int, old_l.atoms(), a),
                    ) ==> old_r.atoms().union(
                        sets_union(remote_unseen@.map_values(|p: T| p.atoms())),
                    ).contains(a),
                forall|b: int|
                    0 <= b < i ==> ((!#[trigger] mism.contains(b)) <==> local_fps@[b]
                        == remote_fps@[b]),
                forall|b: int| #[trigger] mism.contains(b) ==> 0 <= b < i,
                mism == Set::<int>::empty() ==> down_state == 0 && up_state == 0,
                down_count <= i,
            decreases nb - i,
        {
            proof {
                assert(lrest@[0] == local_tbl@[i as int]);
                assert(lrest@.remove(0) =~= local_tbl@.skip(i + 1));
                assert(rrest@[0] == remote_tbl@[i as int]);
                assert(rrest@.remove(0) =~= remote_tbl@.skip(i + 1));
                assert(ltv[i as int] == local_tbl@[i as int]@);
                assert(rtv[i as int] == remote_tbl@[i as int]@);
            }
            let lb = lrest.remove(0);
            let rb = rrest.remove(0);
            if local_fps[i] != remote_fps[i] {
                let ri = aggregate(rb, Ghost(u));
                let li = aggregate(lb, Ghost(u));
                proof {
                    crate::decompose::lemma_sets_union_bound(
                        rtv[i as int].map_values(|e: (u64, T)| e.1.atoms()),
                        old_r.atoms(),
                    );
                    crate::decompose::lemma_sets_union_bound(
                        ltv[i as int].map_values(|e: (u64, T)| e.1.atoms()),
                        old_l.atoms(),
                    );
                    assert forall|x: T::Atom, y: T::Atom|
                        #![trigger ri.atoms().contains(x), li.atoms().contains(y)]
                        ri.atoms().contains(x) && li.atoms().contains(y) implies T::atom_ok(
                        x,
                        y,
                    ) by {
                        assert(u.contains(x) && u.contains(y));
                    }
                    assert forall|x: T::Atom, y: T::Atom|
                        #![trigger li.atoms().contains(x), ri.atoms().contains(y)]
                        li.atoms().contains(x) && ri.atoms().contains(y) implies T::atom_ok(
                        x,
                        y,
                    ) by {
                        assert(u.contains(x) && u.contains(y));
                    }
                }
                let sri = T::size_of(&ri);
                down_state = down_state.saturating_add(sri);
                down_count = down_count + 1;
                let lu = ri.difference(&li);
                let ru = li.difference(&ri);
                let sru = T::size_of(&ru);
                up_state = up_state.saturating_add(sru);
                let ghost pre_lu = local_unseen@;
                let ghost pre_ru = remote_unseen@;
                let ghost pre_mism = mism;
                local_unseen.push(lu);
                remote_unseen.push(ru);
                proof {
                    crate::sync::lemma_table_buckets(rtv, seed, old_r.atoms(), i as int);
                    crate::sync::lemma_table_buckets(ltv, seed, old_l.atoms(), i as int);
                    mism = mism.insert(i as int);
                    assert forall|b: int| #[trigger] mism.contains(b) implies 0 <= b < i + 1 by {
                        if b != i {
                            assert(pre_mism.contains(b));
                        }
                    }
                    assert forall|b: int|
                        0 <= b < i + 1 implies ((!#[trigger] mism.contains(b))
                        <==> local_fps@[b] == remote_fps@[b]) by {
                        if b != i {
                            assert(mism.contains(b) <==> pre_mism.contains(b));
                        }
                    }
                    assert(mism != Set::<int>::empty()) by {
                        assert(mism.contains(i as int));
                    }
                    assert(local_unseen@.map_values(|p: T| p.atoms()) =~= pre_lu.map_values(
                        |p: T| p.atoms(),
                    ).push(lu.atoms()));
                    crate::decompose::lemma_sets_union_push(
                        pre_lu.map_values(|p: T| p.atoms()),
                        lu.atoms(),
                    );
                    assert(remote_unseen@.map_values(|p: T| p.atoms()) =~= pre_ru.map_values(
                        |p: T| p.atoms(),
                    ).push(ru.atoms()));
                    crate::decompose::lemma_sets_union_push(
                        pre_ru.map_values(|p: T| p.atoms()),
                        ru.atoms(),
                    );
                    assert(ri.atoms() == bucket_set::<T>(seed, nb as int, old_r.atoms(), i as int));
                    assert(li.atoms() == bucket_set::<T>(seed, nb as int, old_l.atoms(), i as int));
                    assert forall|a: T::Atom|
                        gained::<T>(seed, nb as int, mism, old_r.atoms(), old_l.atoms()).contains(
                            a,
                        ) implies sets_union(
                        local_unseen@.map_values(|p: T| p.atoms()),
                    ).contains(a) by {
                        if bucket_of::<T>(seed, nb as int, old_r.atoms(), a) == i as int {
                            assert(lu.atoms().contains(a));
                        } else {
                            assert(gained::<T>(
                                seed,
                                nb as int,
                                pre_mism,
                                old_r.atoms(),
                                old_l.atoms(),
                            ).contains(a));
                        }
                    }
                    assert forall|a: T::Atom|
                        sets_union(local_unseen@.map_values(|p: T| p.atoms())).contains(
                            a,
                        ) implies gained::<T>(
                        seed,
                        nb as int,
                        mism,
                        old_r.atoms(),
                        old_l.atoms(),
                    ).contains(a) by {
                        if lu.atoms().contains(a) {
                            assert(ri.atoms().contains(a));
                            assert(bucket_of::<T>(seed, nb as int, old_r.atoms(), a) == i as int);
                        } else {
                            assert(gained::<T>(
                                seed,
                                nb as int,
                                pre_mism,
                                old_r.atoms(),
                                old_l.atoms(),
                            ).contains(a));
                        }
                    }
                    assert(sets_union(local_unseen@.map_values(|p: T| p.atoms())) =~= gained::<
                        T,
                    >(seed, nb as int, mism, old_r.atoms(), old_l.atoms()));
                    assert forall|a: T::Atom|
                        gained::<T>(seed, nb as int, mism, old_l.atoms(), old_r.atoms()).contains(
                            a,
                        ) implies sets_union(
                        remote_unseen@.map_values(|p: T| p.atoms()),
                    ).contains(a) by {
                        if bucket_of::<T>(seed, nb as int, old_l.atoms(), a) == i as int {
                            assert(ru.atoms().contains(a));
                        } else {
                            assert(gained::<T>(
                                seed,
                                nb as int,
                                pre_mism,
                                old_l.atoms(),
                                old_r.atoms(),
                            ).contains(a));
                        }
                    }
                    assert forall|a: T::Atom|
                        sets_union(remote_unseen@.map_values(|p: T| p.atoms())).contains(
                            a,
                        ) implies gained::<T>(
                        seed,
                        nb as int,
                        mism,
                        old_l.atoms(),
                        old_r.atoms(),
                    ).contains(a) by {
                        if ru.atoms().contains(a) {
                            assert(li.atoms().contains(a));
                            assert(bucket_of::<T>(seed, nb as int, old_l.atoms(), a) == i as int);
                        } else {
                            assert(gained::<T>(
                                seed,
                                nb as int,
                                pre_mism,
                                old_l.atoms(),
                                old_r.atoms(),
                            ).contains(a));
                        }
                    }
                    assert(sets_union(remote_unseen@.map_values(|p: T| p.atoms())) =~= gained::<
                        T,
                    >(seed, nb as int, mism, old_l.atoms(), old_r.atoms()));
                    assert forall|a: T::Atom|
                        old_r.atoms().contains(a) && mism.contains(
                            #[trigger] bucket_of::<T>(seed, nb as int, old_r.atoms(), a),
                        ) implies old_l.atoms().union(
                        sets_union(local_unseen@.map_values(|p: T| p.atoms())),
                    ).contains(a) by {
                        if bucket_of::<T>(seed, nb as int, old_r.atoms(), a) == i as int {
                            assert(ri.atoms().contains(a));
                            assert(li.atoms().union(lu.atoms()).contains(a));
                        } else {
                            assert(old_l.atoms().union(
                                sets_union(pre_lu.map_values(|p: T| p.atoms())),
                            ).contains(a));
                        }
                    }
                    assert forall|a: T::Atom|
                        old_l.atoms().contains(a) && mism.contains(
                            #[trigger] bucket_of::<T>(seed, nb as int, old_l.atoms(), a),
                        ) implies old_r.atoms().union(
                        sets_union(remote_unseen@.map_values(|p: T| p.atoms())),
                    ).contains(a) by {
                        if bucket_of::<T>(seed, nb as int, old_l.atoms(), a) == i as int {
                            assert(li.atoms().contains(a));
                            assert(ri.atoms().union(ru.atoms()).contains(a));
                        } else {
                            assert(old_r.atoms().union(
                                sets_union(pre_ru.map_values(|p: T| p.atoms())),
                            ).contains(a));
                        }
                    }
                }
            } else {
                proof {
                    assert(!mism.contains(i as int));
                    assert forall|b: int| #[trigger] mism.contains(b) implies 0 <= b < i + 1 by {}
                }
            }
            i = i + 1;
        }
        let m1 = if down_count > usize::MAX / 8 {
            usize::MAX
        } else {
            8 * down_count
        };
        let down = tracker.download();
        tracker.register(
            DefaultEvent::RemoteToLocal { state: down_state, metadata: m1, download: down },
        );
        let up2 = tracker.upload();
        tracker.register(
            DefaultEvent::LocalToRemote { state: up_state, metadata: 0, upload: up2 },
        );
        let ghost lus = local_unseen@.map_values(|p: T| p.atoms());
        let ghost rus = remote_unseen@.map_values(|p: T| p.atoms());
        let ghost dl = Seq::new(
            nb as nat,
            |b: int|
                choose|ds: Seq<u64>|
                    ascending(ds) && ds.to_multiset() == bucket_digests(ltv[b]).to_multiset()
                        && local_fps@[b] == #[trigger] spec_fingerprint(seed, ds),
        );
        let ghost dr = Seq::new(
            nb as nat,
            |b: int|
                choose|ds: Seq<u64>|
                    ascending(ds) && ds.to_multiset() == bucket_digests(rtv[b]).to_multiset()
                        && remote_fps@[b] == #[trigger] spec_fingerprint(seed, ds),
        );
        join_pieces(local, local_unseen, Ghost(u));
        join_pieces(remote, remote_unseen, Ghost(u));
        proof {
            assert forall|k: int| 0 <= k < lus.len() implies (#[trigger] lus[k]).subset_of(
                old_r.atoms(),
            ) by {
                assert(lus[k] == local_unseen@[k].atoms());
            }
            crate::decompose::lemma_sets_union_bound(lus, old_r.atoms());
            assert forall|k: int| 0 <= k < rus.len() implies (#[trigger] rus[k]).subset_of(
                old_l.atoms(),
            ) by {
                assert(rus[k] == remote_unseen@[k].atoms());
            }
            crate::decompose::lemma_sets_union_bound(rus, old_l.atoms());
            assert(local.atoms().subset_of(old_l.atoms().union(old_r.atoms())));
            assert(remote.atoms().subset_of(old_l.atoms().union(old_r.atoms())));
            // the per-bucket outcome
            assert(local.atoms() == old_l.atoms().union(
                gained::<T>(seed, nb as int, mism, old_r.atoms(), old_l.atoms()),
            ));
            assert(remote.atoms() == old_r.atoms().union(
                gained::<T>(seed, nb as int, mism, old_l.atoms(), old_r.atoms()),
            ));
            assert forall|a: T::Atom|
                #![trigger local.atoms().contains(a)]
                old_r.atoms().contains(a) && mism.contains(
                    bucket_of::<T>(seed, nb as int, old_r.atoms(), a),
                ) implies local.atoms().contains(a) by {
                assert(old_l.atoms().union(sets_union(lus)).contains(a));
            }
            assert forall|a: T::Atom|
                #![trigger remote.atoms().contains(a)]
                old_l.atoms().contains(a) && mism.contains(
                    bucket_of::<T>(seed, nb as int, old_l.atoms(), a),
                ) implies remote.atoms().contains(a) by {
                assert(old_r.atoms().union(sets_union(rus)).contains(a));
            }
            lemma_digest_evidence::<T>(seed, nb as int, ltv, local_fps@, dl, old_l.atoms());
            lemma_digest_evidence::<T>(seed, nb as int, rtv, remote_fps@, dr, old_r.atoms());
            assert forall|b: int|
                0 <= b < nb implies ((!#[trigger] mism.contains(b)) <==> spec_fingerprint(
                seed,
                dl[b],
            ) == spec_fingerprint(seed, dr[b])) by {
                assert(local_fps@[b] == spec_fingerprint(seed, dl[b]));
                assert(remote_fps@[b] == spec_fingerprint(seed, dr[b]));
            }
            assert(fingerprints_selected(seed, nb as int, mism, dl, dr, old_l, old_r));
        }
        let d = local.false_matches(remote);
        tracker.finish(d);
        proof {
            let evs = final(tracker).recorded();
            assert(evs.len() == 3);
            assert(evs[0].spec_metadata() == m0);
            assert(nb == clip_nat(
                spec_bucket_count(clip_nat(old_l.count_spec()) as nat, self.load_spec()),
            ));
            assert(m0 == clip_nat(8 * (nb as nat)));
            assert(evs[1].spec_state() == down_state);
            assert(evs[2].spec_state() == up_state);
            assert(buckets_outcome(seed, nb as int, mism, old_l, old_r, *local, *remote));
            assert(fingerprints_selected(seed, nb as int, mism, dl, dr, old_l, old_r));
        }
    }
}

/// The chosen digest lists satisfy the session's fingerprint evidence.
pub proof fn lemma_digest_evidence<T: Decompose>(
    seed: u64,
    nb: int,
    tv: Seq<Seq<(u64, T)>>,
    fps: Seq<u64>,
    d: Seq<Seq<u64>>,
    s: Set<T::Atom>,
)
    requires
        nb >= 1,
        tv.len() == nb,
        fps.len() == nb,
        table_union(tv) == s,
        forall|b: int, k: int|
            0 <= b < nb && 0 <= k < tv[b].len() ==> (#[trigger] tv[b][k]).1.wf()
                && tv[b][k].1.is_unit() && tv[b][k].1.atoms().subset_of(s),
        forall|b: int, k: int, a: T::Atom|
            0 <= b < nb && 0 <= k < tv[b].len() && #[trigger] tv[b][k].1.atoms().contains(a)
                ==> tv[b][k].0 == spec_hash64(seed, T::atom_piece_key(s, a)),
        forall|b: int, k: int|
            0 <= b < nb && 0 <= k < tv[b].len() ==> ((#[trigger] tv[b][k]).0 as int) % (
            nb as int) == b,
        forall|b: int| 0 <= b < nb ==> #[trigger] bucket_fp_ok(seed, tv[b], fps[b]),
        d == Seq::new(
            nb as nat,
            |b: int|
                choose|ds: Seq<u64>|
                    ascending(ds) && ds.to_multiset() == bucket_digests(tv[b]).to_multiset()
                        && fps[b] == #[trigger] spec_fingerprint(seed, ds),
        ),
    ensures
        digests_describe::<T>(seed, nb, d, s),
        forall|b: int| 0 <= b < nb ==> fps[b] == spec_fingerprint(seed, #[trigger] d[b]),
{
    broadcast use vstd::seq_lib::group_to_multiset_ensures;

    assert forall|b: int|
        0 <= b < nb implies ascending(#[trigger] d[b]) && d[b].to_multiset() == bucket_digests(
        tv[b],
    ).to_multiset() && fps[b] == spec_fingerprint(seed, d[b]) by {
        assert(bucket_fp_ok(seed, tv[b], fps[b]));
        let ds = choose|ds: Seq<u64>|
            ascending(ds) && ds.to_multiset() == bucket_digests(tv[b]).to_multiset() && fps[b]
                == #[trigger] spec_fingerprint(seed, ds);
        assert(d[b] == ds);
    }
    assert forall|b: int, k: int| 0 <= b < nb && 0 <= k < d[b].len() implies exists|a: T::Atom|
        s.contains(a) && crate::sync::bucket_of::<T>(seed, nb, s, a) == b && #[trigger] d[b][k]
            == spec_hash64(seed, T::atom_piece_key(s, a)) by {
        assert(d[b].to_multiset().contains(d[b][k]));
        assert(bucket_digests(tv[b]).to_multiset().contains(d[b][k]));
        assert(bucket_digests(tv[b]).contains(d[b][k]));
        let k2 = choose|k2: int|
            0 <= k2 < bucket_digests(tv[b]).len() && bucket_digests(tv[b])[k2] == d[b][k];
        assert(tv[b][k2].0 == d[b][k]);
        tv[b][k2].1.wf_facts();
        let a = choose|a: T::Atom| tv[b][k2].1.atoms().contains(a);
        assert(tv[b][k2].1.atoms().contains(a));
        assert(s.contains(a));
        assert(tv[b][k2].0 == spec_hash64(seed, T::atom_piece_key(s, a)));
        assert(crate::sync::bucket_of::<T>(seed, nb, s, a) == b);
        assert(s.contains(a) && crate::sync::bucket_of::<T>(seed, nb, s, a) == b && d[b][k]
            == spec_hash64(seed, T::atom_piece_key(s, a)));
    }
    assert forall|a: T::Atom| #[trigger] s.contains(a) implies d[crate::sync::bucket_of::<T>(
        seed,
        nb,
        s,
        a,
    )].contains(spec_hash64(seed, T::atom_piece_key(s, a))) by {
        let b = crate::sync::bucket_of::<T>(seed, nb, s, a);
        crate::sync::lemma_table_buckets(tv, seed, s, b);
        assert(crate::sync::bucket_set::<T>(seed, nb, s, b).contains(a));
        assert(crate::sync::entries_union(tv[b]).contains(a));
        let es = tv[b].map_values(|e: (u64, T)| e.1.atoms());
        crate::decompose::lemma_sets_union(es);
        let k2 = choose|k2: int| 0 <= k2 < es.len() && (#[trigger] es[k2]).contains(a);
        assert(tv[b][k2].1.atoms().contains(a));
        assert(tv[b][k2].0 == spec_hash64(seed, T::atom_piece_key(s, a)));
        assert(bucket_digests(tv[b])[k2] == tv[b][k2].0);
        assert(bucket_digests(tv[b]).contains(spec_hash64(seed, T::atom_piece_key(s, a))));
        assert(bucket_digests(tv[b]).to_multiset().contains(
            spec_hash64(seed, T::atom_piece_key(s, a)),
        ));
        assert(d[b].to_multiset().contains(spec_hash64(seed, T::atom_piece_key(s, a))));
        assert(d[b].contains(spec_hash64(seed, T::atom_piece_key(s, a))));
    }
}

} // verus!
