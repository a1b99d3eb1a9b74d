//! Composed protocol: a Bloom round finds the pieces each side definitely
//! lacks and ships them at once; the candidates both filters call common are
//! then spread into shared hash buckets whose fingerprints are compared, so
//! the false positives the filters would have left behind are reconciled
//! exactly. Only a piece misclassified by both filters can stay unmerged.

use vstd::prelude::*;

use crate::bloom::{BloomFilter, FilterSizing};
use crate::decompose::{clip_nat, sets_union, Decompose, Measure};
use crate::hash::{spec_fingerprint, spec_hash64};
use crate::sync::baseline::{lemma_universe, session_universe};
use crate::sync::bloom::{candidate_keys, session_filter, sum_sizes};
use crate::sync::buckets::lemma_digest_evidence;
use crate::sync::{
    aggregate, ascending, bucket_count, bucket_digests, bucket_fp_ok, bucket_hashes, bucket_of,
    digests_describe, dispatch, filter_from, gained, join_pieces, partition, piece_keys,
    spec_bucket_count, table_union, table_view, Algorithm,
};
use crate::tracker::{DefaultEvent, DefaultTracker, Telemetry};

verus! {

/// The filter-then-bucket exchange: a filter sizing for the Bloom round and
/// a load factor in thousandths for the bucket round.
#[derive(Clone, Copy, Debug)]
pub struct BloomBuckets {
    sizing: FilterSizing,
    lf_permille: u64,
}

impl BloomBuckets {
    /// Every configuration in circulation is positive.
    #[verifier::type_invariant]
    pub closed spec fn inv(&self) -> bool {
        self.lf_permille >= 1
    }

    pub closed spec fn sizing_spec(&self) -> FilterSizing {
        self.sizing
    }

    pub closed spec fn load_spec(&self) -> u64 {
        self.lf_permille
    }

    /// What the type invariant guarantees.
    pub proof fn valid(&self)
        requires
            self.inv(),
        ensures
            self.load_spec() >= 1,
    {
    }

    /// Validates a configuration: the load factor must be positive; the
    /// sizing is valid by construction.
    pub fn new(sizing: FilterSizing, lf_permille: u64) -> (r: Result<
        Self,
        crate::bloom::ConfigError,
    >)
        ensures
            r matches Ok(b) ==> b.sizing_spec() == sizing && b.load_spec() == lf_permille
                && lf_permille >= 1,
            r is Err <==> lf_permille == 0,
    {
        if lf_permille >= 1 {
            Ok(BloomBuckets { sizing, lf_permille })
        } else {
            Err(crate::bloom::ConfigError)
        }
    }
}

impl Default for BloomBuckets {
    /// The default configuration: a one-percent false-positive target and
    /// one bucket per piece.
    fn default() -> (r: Self)
        ensures
            r.load_spec() == 1000,
            r.sizing_spec().millibits() == 9585,
            r.sizing_spec().probes() == 7,
    {
        BloomBuckets { sizing: FilterSizing::default(), lf_permille: 1000 }
    }
}

/// The candidate atoms of a state: those whose piece key the other side's
/// filter reports.
pub open spec fn candidates<T: Measure>(f: crate::bloom::BloomFilter, s: Set<T::Atom>) -> Set<
    T::Atom,
> {
    Set::new(|a: T::Atom| s.contains(a) && f.spec_contains(T::atom_piece_key(s, a)))
}

/// What one composed session did: pieces a filter definitely missed were
/// shipped whole, and candidate atoms in buckets whose fingerprints
/// differed were reconciled exactly.
pub open spec fn combined_outcome<T: Measure>(
    fl: crate::bloom::BloomFilter,
    fr: crate::bloom::BloomFilter,
    seed: u64,
    nb: int,
    mism: Set<int>,
    old_l: T,
    old_r: T,
    l: T,
    r: T,
) -> bool {
    &&& forall|a: T::Atom|
        #![trigger l.atoms().contains(a)]
        old_r.atoms().contains(a) && !fl.spec_contains(T::atom_piece_key(old_r.atoms(), a))
            ==> l.atoms().contains(a)
    &&& forall|a: T::Atom|
        #![trigger r.atoms().contains(a)]
        old_l.atoms().contains(a) && !fr.spec_contains(T::atom_piece_key(old_l.atoms(), a))
            ==> r.atoms().contains(a)
    &&& forall|a: T::Atom|
        #![trigger candidates::<T>(fl, old_r.atoms()).contains(a)]
        candidates::<T>(fl, old_r.atoms()).contains(a) && mism.contains(
            crate::sync::bucket_of::<T>(seed, nb, candidates::<T>(fl, old_r.atoms()), a),
        ) ==> l.atoms().contains(a)
    &&& forall|a: T::Atom|
        #![trigger candidates::<T>(fr, old_l.atoms()).contains(a)]
        candidates::<T>(fr, old_l.atoms()).contains(a) && mism.contains(
            crate::sync::bucket_of::<T>(seed, nb, candidates::<T>(fr, old_l.atoms()), a),
        ) ==> r.atoms().contains(a)
}

/// Composed convergence: the session is exact whenever every candidate
/// bucket that held a one-sided atom is named in `mism` — an atom can stay
/// behind only if a filter falsely called it common and its bucket's
/// fingerprints then collided.
pub proof fn lemma_combined_exact<T: Measure>(
    fl: crate::bloom::BloomFilter,
    fr: crate::bloom::BloomFilter,
    seed: u64,
    nb: int,
    mism: Set<int>,
    old_l: T,
    old_r: T,
    l: T,
    r: T,
)
    requires
        crate::sync::sync_bounds(old_l, old_r, l, r),
        combined_outcome(fl, fr, seed, nb, mism, old_l, old_r, l, r),
        forall|a: T::Atom|
            old_r.atoms().contains(a) && !old_l.atoms().contains(a) && #[trigger] fl.spec_contains(
                T::atom_piece_key(old_r.atoms(), a),
            ) ==> mism.contains(
                crate::sync::bucket_of::<T>(seed, nb, candidates::<T>(fl, old_r.atoms()), a),
            ),
        forall|a: T::Atom|
            old_l.atoms().contains(a) && !old_r.atoms().contains(a) && #[trigger] fr.spec_contains(
                T::atom_piece_key(old_l.atoms(), a),
            ) ==> mism.contains(
                crate::sync::bucket_of::<T>(seed, nb, candidates::<T>(fr, old_l.atoms()), a),
            ),
    ensures
        l.atoms() == old_l.atoms().union(old_r.atoms()),
        r.atoms() == old_l.atoms().union(old_r.atoms()),
{
    assert forall|a: T::Atom|
        old_l.atoms().union(old_r.atoms()).contains(a) implies l.atoms().contains(a)
        && r.atoms().contains(a) by {
        if old_r.atoms().contains(a) && !old_l.atoms().contains(a) {
            if fl.spec_contains(T::atom_piece_key(old_r.atoms(), a)) {
                assert(candidates::<T>(fl, old_r.atoms()).contains(a));
            }
            assert(l.atoms().contains(a));
        }
        if old_l.atoms().contains(a) && !old_r.atoms().contains(a) {
            if fr.spec_contains(T::atom_piece_key(old_l.atoms(), a)) {
                assert(candidates::<T>(fr, old_l.atoms()).contains(a));
            }
            assert(r.atoms().contains(a));
        }
    }
    assert(l.atoms() =~= old_l.atoms().union(old_r.atoms()));
    assert(r.atoms() =~= old_l.atoms().union(old_r.atoms()));
}

/// Everything one composed session did: the two filters are genuine
/// sketches of the key sets they were built over, the definite gaps were
/// shipped exactly, the candidates were spread into the pinned number of
/// buckets whose fingerprints selected the mismatch set, and the mismatched
/// candidate buckets were reconciled exactly.
pub open spec fn combined_session<T: Measure>(
    sizing: FilterSizing,
    load: u64,
    fl: BloomFilter,
    fr: BloomFilter,
    seed: u64,
    nb: int,
    mism: Set<int>,
    dl: Seq<Seq<u64>>,
    dr: Seq<Seq<u64>>,
    old_l: T,
    old_r: T,
    l: T,
    r: T,
    events: Seq<DefaultEvent>,
) -> bool {
    let cr = candidates::<T>(fl, old_r.atoms());
    let cl = candidates::<T>(fr, old_l.atoms());
    &&& combined_outcome(fl, fr, seed, nb, mism, old_l, old_r, l, r)
    &&& session_filter(fl, sizing, old_l.count_spec(), piece_keys::<T>(old_l.atoms()))
    &&& fr.wf()
    &&& fr.probes() == sizing.probes()
    &&& crate::bloom::bits_covered_by(fr, candidate_keys::<T>(fl, old_r.atoms()))
    &&& nb == clip_nat(spec_bucket_count(clip_nat(old_l.count_spec()) as nat, load)) as int
    &&& digests_describe::<T>(seed, nb, dl, cl)
    &&& digests_describe::<T>(seed, nb, dr, cr)
    &&& forall|b: int|
        0 <= b < nb ==> ((!#[trigger] mism.contains(b)) <==> spec_fingerprint(seed, dl[b])
            == spec_fingerprint(seed, dr[b]))
    &&& forall|b: int| #[trigger] mism.contains(b) ==> 0 <= b < nb
    &&& l.atoms() == old_l.atoms().union(old_r.atoms().difference(cr)).union(
        gained::<T>(seed, nb, mism, cr, cl),
    )
    &&& r.atoms() == old_r.atoms().union(old_l.atoms().difference(cl)).union(
        gained::<T>(seed, nb, mism, cl, cr),
    )
    &&& events[0].spec_metadata() == clip_nat(((fl.bits().len() + 7) / 8 + 16) as nat)
}

/// Full composed convergence from the session evidence: if no two candidate
/// bucket digest lists collide on their fingerprints and no two distinct
/// candidate atoms share a digest, the session is exact — an atom can then
/// stay behind only by assumptions the exchange knowingly risks.
pub proof fn lemma_combined_convergence<T: Measure>(
    sizing: FilterSizing,
    load: u64,
    fl: BloomFilter,
    fr: BloomFilter,
    seed: u64,
    nb: int,
    mism: Set<int>,
    dl: Seq<Seq<u64>>,
    dr: Seq<Seq<u64>>,
    old_l: T,
    old_r: T,
    l: T,
    r: T,
    events: Seq<DefaultEvent>,
)
    requires
        nb >= 1,
        crate::sync::sync_bounds(old_l, old_r, l, r),
        combined_session(sizing, load, fl, fr, seed, nb, mism, dl, dr, old_l, old_r, l, r, events),
        forall|b: int|
            0 <= b < nb && spec_fingerprint(seed, #[trigger] dl[b]) == spec_fingerprint(
                seed,
                dr[b],
            ) ==> dl[b] == dr[b],
        forall|a1: T::Atom, a2: T::Atom|
            #![trigger T::atom_piece_key(candidates::<T>(fr, old_l.atoms()), a1), T::atom_piece_key(candidates::<T>(fl, old_r.atoms()), a2)]
            candidates::<T>(fr, old_l.atoms()).contains(a1) && candidates::<T>(
                fl,
                old_r.atoms(),
            ).contains(a2) && spec_hash64(
                seed,
                T::atom_piece_key(candidates::<T>(fr, old_l.atoms()), a1),
            ) == spec_hash64(
                seed,
                T::atom_piece_key(candidates::<T>(fl, old_r.atoms()), a2),
            ) ==> a1 == a2,
    ensures
        l.atoms() == old_l.atoms().union(old_r.atoms()),
        r.atoms() == old_l.atoms().union(old_r.atoms()),
{
    let cr = candidates::<T>(fl, old_r.atoms());
    let cl = candidates::<T>(fr, old_l.atoms());
    assert forall|a: T::Atom|
        old_r.atoms().contains(a) && !old_l.atoms().contains(a) && #[trigger] fl.spec_contains(
            T::atom_piece_key(old_r.atoms(), a),
        ) implies mism.contains(bucket_of::<T>(seed, nb, cr, a)) by {
        assert(cr.contains(a));
        let b = bucket_of::<T>(seed, nb, cr, a);
        assert(0 <= b < nb);
        if !mism.contains(b) {
            assert(spec_fingerprint(seed, dl[b]) == spec_fingerprint(seed, dr[b]));
            assert(dl[b] == dr[b]);
            let dg = spec_hash64(seed, T::atom_piece_key(cr, a));
            assert(dr[b].contains(dg));
            let k = choose|k: int| 0 <= k < dl[b].len() && dl[b][k] == dg;
            let a1 = choose|a1: T::Atom|
                cl.contains(a1) && bucket_of::<T>(seed, nb, cl, a1) == b && #[trigger] dl[b][k]
                    == spec_hash64(seed, T::atom_piece_key(cl, a1));
            assert(a1 == a);
            assert(cl.subset_of(old_l.atoms()));
            assert(false);
        }
    }
    assert forall|a: T::Atom|
        old_l.atoms().contains(a) && !old_r.atoms().contains(a) && #[trigger] fr.spec_contains(
            T::atom_piece_key(old_l.atoms(), a),
        ) implies mism.contains(bucket_of::<T>(seed, nb, cl, a)) by {
        assert(cl.contains(a));
        let b = bucket_of::<T>(seed, nb, cl, a);
        assert(0 <= b < nb);
        if !mism.contains(b) {
            assert(spec_fingerprint(seed, dl[b]) == spec_fingerprint(seed, dr[b]));
            assert(dl[b] == dr[b]);
            let dg = spec_hash64(seed, T::atom_piece_key(cl, a));
            assert(dl[b].contains(dg));
            let k = choose|k: int| 0 <= k < dr[b].len() && dr[b][k] == dg;
            let a2 = choose|a2: T::Atom|
                cr.contains(a2) && bucket_of::<T>(seed, nb, cr, a2) == b && #[trigger] dr[b][k]
                    == spec_hash64(seed, T::atom_piece_key(cr, a2));
            assert(a2 == a);
            assert(cr.subset_of(old_r.atoms()));
            assert(false);
        }
    }
    lemma_combined_exact(fl, fr, seed, nb, mism, old_l, old_r, l, r);
}

impl<T: Measure> Algorithm<T> for BloomBuckets {
    /// Four messages: the local filter; the remote filter, fingerprints and
    /// definite gaps; the local gaps plus the differing candidate buckets;
    /// the exact corrections back.
    open spec fn post(
        &self,
        old_l: T,
        old_r: T,
        l: T,
        r: T,
        events: Seq<DefaultEvent>,
    ) -> bool {
        &&& events.len() == 4
        &&& events[0].is_upload()
        &&& events[0].spec_state() == 0
        &&& !events[1].is_upload()
        &&& events[2].is_upload()
        &&& !events[3].is_upload()
        &&& events[3].spec_metadata() == 0
        &&& exists|
            fl: BloomFilter,
            fr: BloomFilter,
            seed: u64,
            nb: int,
            mism: Set<int>,
            dl: Seq<Seq<u64>>,
            dr: Seq<Seq<u64>>,
        |
            nb >= 1 && #[trigger] combined_session(
                self.sizing_spec(),
                self.load_spec(),
                fl,
                fr,
                seed,
                nb,
                mism,
                dl,
                dr,
                old_l,
                old_r,
                l,
                r,
                events,
            )
    }

    fn sync(&self, local: &mut T, remote: &mut T, tracker: &mut DefaultTracker) {
        let ghost old_l = *local;
        let ghost old_r = *remote;
        let ghost u = session_universe(old_l, old_r);
        proof {
            lemma_universe(old_l, old_r);
            use_type_invariant(self);
            self.valid();
            use_type_invariant(&self.sizing);
            self.sizing.valid();
        }
        let seed = crate::rng::random_u64();
        let n_pieces = T::len(local);
        let nb = bucket_count(n_pieces, self.lf_permille);

        let local_split = local.split();
        let ghost lsplit = local_split@;
        let local_filter = filter_from(&local_split, &self.sizing);
        let m0 = local_filter.wire_bytes();
        let up = tracker.upload();
        tracker.register(DefaultEvent::LocalToRemote { state: 0, metadata: m0, upload: up });

        let remote_split = remote.split();
        let ghost rsplit = remote_split@;
        let (remote_common, local_unknown) = partition(&local_filter, remote_split);
        let remote_filter = filter_from(&remote_common, &self.sizing);
        proof {
            assert forall|k: int|
                0 <= k < remote_common@.len() implies (#[trigger] remote_common@[k]).wf()
                && remote_common@[k].atoms().subset_of(u) by {
                assert(remote_common@[k].atoms().subset_of(old_r.atoms()));
            }
        }
        let ghost rcs = remote_common@.map_values(|p: T| p.atoms());
        let ghost cr_set = candidates::<T>(local_filter, old_r.atoms());
        let mut remote_state = T::bottom();
        join_pieces(&mut remote_state, remote_common, Ghost(u));
        proof {
            assert forall|k: int| 0 <= k < rcs.len() implies (#[trigger] rcs[k]).subset_of(
                old_r.atoms(),
            ) by {
                assert(rcs[k] == remote_common@[k].atoms());
            }
            crate::decompose::lemma_sets_union_bound(rcs, old_r.atoms());
            assert(remote_state.atoms().subset_of(old_r.atoms()));
            assert(remote_state.atoms() =~= sets_union(rcs));
            assert forall|a: T::Atom| cr_set.contains(a) implies sets_union(rcs).contains(a) by {
                let rss = rsplit.map_values(|p: T| p.atoms());
                crate::decompose::lemma_sets_union(rss);
                let i = choose|i: int| 0 <= i < rss.len() && (#[trigger] rss[i]).contains(a);
                assert(rsplit[i].atoms().contains(a));
                assert(rsplit[i].unit_key() == T::atom_piece_key(old_r.atoms(), a));
                assert(sets_union(rcs).union(
                    sets_union(local_unknown@.map_values(|p: T| p.atoms())),
                ).contains(a));
                if sets_union(local_unknown@.map_values(|p: T| p.atoms())).contains(a) {
                    let nss = local_unknown@.map_values(|p: T| p.atoms());
                    crate::decompose::lemma_sets_union(nss);
                    let m = choose|m: int| 0 <= m < nss.len() && (#[trigger] nss[m]).contains(a);
                    assert(local_unknown@[m].atoms().contains(a));
                    assert(rsplit.contains(local_unknown@[m]));
                    let j = choose|j: int| 0 <= j < rsplit.len() && rsplit[j] == local_unknown@[m];
                    assert(rsplit[j].atoms().contains(a));
                    assert(rsplit[j].unit_key() == T::atom_piece_key(old_r.atoms(), a));
                    assert(!local_filter.spec_contains(local_unknown@[m].unit_key()));
                    assert(false);
                }
            }
            assert forall|a: T::Atom| sets_union(rcs).contains(a) implies cr_set.contains(a) by {
                crate::decompose::lemma_sets_union(rcs);
                let m = choose|m: int| 0 <= m < rcs.len() && (#[trigger] rcs[m]).contains(a);
                assert(remote_common@[m].atoms().contains(a));
                assert(rsplit.contains(remote_common@[m]));
                let j = choose|j: int| 0 <= j < rsplit.len() && rsplit[j] == remote_common@[m];
                assert(rsplit[j].atoms().contains(a));
                assert(rsplit[j].unit_key() == T::atom_piece_key(old_r.atoms(), a));
                assert(local_filter.spec_contains(remote_common@[m].unit_key()));
            }
            assert(remote_state.atoms() =~= cr_set);
            assert forall|a: T::Atom|
                sets_union(local_unknown@.map_values(|p: T| p.atoms())).contains(
                    a,
                ) implies old_r.atoms().difference(cr_set).contains(a) by {
                let nss = local_unknown@.map_values(|p: T| p.atoms());
                crate::decompose::lemma_sets_union(nss);
                let m = choose|m: int| 0 <= m < nss.len() && (#[trigger] nss[m]).contains(a);
                assert(local_unknown@[m].atoms().contains(a));
                assert(rsplit.contains(local_unknown@[m]));
                let j = choose|j: int| 0 <= j < rsplit.len() && rsplit[j] == local_unknown@[m];
                assert(rsplit[j].atoms().contains(a));
                assert(rsplit[j].unit_key() == T::atom_piece_key(old_r.atoms(), a));
                assert(!local_filter.spec_contains(local_unknown@[m].unit_key()));
                assert(!cr_set.contains(a));
            }
            assert forall|a: T::Atom|
                old_r.atoms().difference(cr_set).contains(a) implies sets_union(
                local_unknown@.map_values(|p: T| p.atoms()),
            ).contains(a) by {
                let rss = rsplit.map_values(|p: T| p.atoms());
                crate::decompose::lemma_sets_union(rss);
                let i = choose|i: int| 0 <= i < rss.len() && (#[trigger] rss[i]).contains(a);
                assert(sets_union(rcs).union(
                    sets_union(local_unknown@.map_values(|p: T| p.atoms())),
                ).contains(a));
            }
            assert(sets_union(local_unknown@.map_values(|p: T| p.atoms()))
                =~= old_r.atoms().difference(cr_set));
        }
        let remote_tbl = dispatch(&remote_state, nb, seed);
        let remote_fps = bucket_hashes(&remote_tbl, seed);
        let s1 = sum_sizes(&local_unknown);
        let m1a = remote_filter.wire_bytes();
        let m1b = if nb > usize::MAX / 8 {
            usize::MAX
        } else {
            8 * nb
        };
        let m1 = m1a.saturating_add(m1b);
        let down = tracker.download();
        tracker.register(
            DefaultEvent::RemoteToLocal { state: s1, metadata: m1, download: down },
        );

        let (local_common, remote_unknown) = partition(&remote_filter, local_split);
        proof {
            assert forall|k: int|
                0 <= k < local_common@.len() implies (#[trigger] local_common@[k]).wf()
                && local_common@[k].atoms().subset_of(u) by {
                assert(local_common@[k].atoms().subset_of(old_l.atoms()));
            }
        }
        let ghost lcs = local_common@.map_values(|p: T| p.atoms());
        let ghost cl_set = candidates::<T>(remote_filter, old_l.atoms());
        let mut local_state = T::bottom();
        join_pieces(&mut local_state, local_common, Ghost(u));
        proof {
            assert forall|k: int| 0 <= k < lcs.len() implies (#[trigger] lcs[k]).subset_of(
                old_l.atoms(),
            ) by {
                assert(lcs[k] == local_common@[k].atoms());
            }
            crate::decompose::lemma_sets_union_bound(lcs, old_l.atoms());
            assert(local_state.atoms().subset_of(old_l.atoms()));
            assert(local_state.atoms() =~= sets_union(lcs));
            assert forall|a: T::Atom| cl_set.contains(a) implies sets_union(lcs).contains(a) by {
                let lss = lsplit.map_values(|p: T| p.atoms());
                crate::decompose::lemma_sets_union(lss);
                let i = choose|i: int| 0 <= i < lss.len() && (#[trigger] lss[i]).contains(a);
                assert(lsplit[i].atoms().contains(a));
                assert(lsplit[i].unit_key() == T::atom_piece_key(old_l.atoms(), a));
                assert(sets_union(lcs).union(
                    sets_union(remote_unknown@.map_values(|p: T| p.atoms())),
                ).contains(a));
                if sets_union(remote_unknown@.map_values(|p: T| p.atoms())).contains(a) {
                    let nss = remote_unknown@.map_values(|p: T| p.atoms());
                    crate::decompose::lemma_sets_union(nss);
                    let m = choose|m: int| 0 <= m < nss.len() && (#[trigger] nss[m]).contains(a);
                    assert(remote_unknown@[m].atoms().contains(a));
                    assert(lsplit.contains(remote_unknown@[m]));
                    let j = choose|j: int|
                        0 <= j < lsplit.len() && lsplit[j] == remote_unknown@[m];
                    assert(lsplit[j].atoms().contains(a));
                    assert(lsplit[j].unit_key() == T::atom_piece_key(old_l.atoms(), a));
                    assert(!remote_filter.spec_contains(remote_unknown@[m].unit_key()));
                    assert(false);
                }
            }
            assert forall|a: T::Atom| sets_union(lcs).contains(a) implies cl_set.contains(a) by {
                crate::decompose::lemma_sets_union(lcs);
                let m = choose|m: int| 0 <= m < lcs.len() && (#[trigger] lcs[m]).contains(a);
                assert(local_common@[m].atoms().contains(a));
                assert(lsplit.contains(local_common@[m]));
                let j = choose|j: int| 0 <= j < lsplit.len() && lsplit[j] == local_common@[m];
                assert(lsplit[j].atoms().contains(a));
                assert(lsplit[j].unit_key() == T::atom_piece_key(old_l.atoms(), a));
                assert(remote_filter.spec_contains(local_common@[m].unit_key()));
            }
            assert(local_state.atoms() =~= cl_set);
            assert forall|a: T::Atom|
                sets_union(remote_unknown@.map_values(|p: T| p.atoms())).contains(
                    a,
                ) implies old_l.atoms().difference(cl_set).contains(a) by {
                let nss = remote_unknown@.map_values(|p: T| p.atoms());
                crate::decompose::lemma_sets_union(nss);
                let m = choose|m: int| 0 <= m < nss.len() && (#[trigger] nss[m]).contains(a);
                assert(remote_unknown@[m].atoms().contains(a));
                assert(lsplit.contains(remote_unknown@[m]));
                let j = choose|j: int| 0 <= j < lsplit.len() && lsplit[j] == remote_unknown@[m];
                assert(lsplit[j].atoms().contains(a));
                assert(lsplit[j].unit_key() == T::atom_piece_key(old_l.atoms(), a));
                assert(!remote_filter.spec_contains(remote_unknown@[m].unit_key()));
                assert(!cl_set.contains(a));
            }
            assert forall|a: T::Atom|
                old_l.atoms().difference(cl_set).contains(a) implies sets_union(
                remote_unknown@.map_values(|p: T| p.atoms()),
            ).contains(a) by {
                let lss = lsplit.map_values(|p: T| p.atoms());
                crate::decompose::lemma_sets_union(lss);
                let i = choose|i: int| 0 <= i < lss.len() && (#[trigger] lss[i]).contains(a);
                assert(sets_union(lcs).union(
                    sets_union(remote_unknown@.map_values(|p: T| p.atoms())),
                ).contains(a));
            }
            assert(sets_union(remote_unknown@.map_values(|p: T| p.atoms()))
                =~= old_l.atoms().difference(cl_set));
        }
        let local_tbl = dispatch(&local_state, nb, seed);
        let local_fps = bucket_hashes(&local_tbl, seed);

        let ghost ltv = table_view(local_tbl@);
        let ghost rtv = table_view(remote_tbl@);
        proof {
            assert forall|b: int| 0 <= b < nb implies #[trigger] bucket_fp_ok(
                seed,
                ltv[b],
                local_fps@[b],
            ) && bucket_fp_ok(seed, rtv[b], remote_fps@[b]) by {
                assert(ltv[b] == local_tbl@[b]@);
                assert(rtv[b] == remote_tbl@[b]@);
            }
        }
        let mut local_fixes: Vec<T> = Vec::new();
        let mut remote_fixes: Vec<T> = Vec::new();
        let mut up_state: usize = sum_sizes(&remote_unknown);
        let mut mism_count: usize = 0;
        let mut down_state: usize = 0;
        let mut lrest = local_tbl;
        let mut rrest = remote_tbl;
        let mut i: usize = 0;
        let ghost mut mism = Set::<int>::empty();
        proof {
            assert(lrest@ =~= local_tbl@.skip(0));
            assert(rrest@ =~= remote_tbl@.skip(0));
            assert(sets_union(local_fixes@.map_values(|p: T| p.atoms())) =~= gained::<T>(
                seed,
                nb as int,
                mism,
                cr_set,
                cl_set,
            ));
            assert(sets_union(remote_fixes@.map_values(|p: T| p.atoms())) =~= gained::<T>(
                seed,
                nb as int,
                mism,
                cl_set,
                cr_set,
            ));
        }
        while i < nb
            invariant
                0 <= i <= nb,
                nb >= 1,
                local_tbl@.len() == nb,
                remote_tbl@.len() == nb,
                local_fps@.len() == nb,
                remote_fps@.len() == nb,
                lrest@ == local_tbl@.skip(i as int),
                rrest@ == remote_tbl@.skip(i as int),
                ltv == table_view(local_tbl@),
                rtv == table_view(remote_tbl@),
                ltv.len() == nb,
                rtv.len() == nb,
                old_l.wf(),
                old_r.wf(),
                crate::sync::universe_ok::<T>(u),
                u == old_l.atoms().union(old_r.atoms()),
                local_state.atoms() == cl_set,
                remote_state.atoms() == cr_set,
                local_state.atoms().subset_of(old_l.atoms()),
                remote_state.atoms().subset_of(old_r.atoms()),
                table_union(ltv) == local_state.atoms(),
                table_union(rtv) == remote_state.atoms(),
                forall|b: int, k: int|
                    0 <= b < nb && 0 <= k < ltv[b].len() ==> (#[trigger] ltv[b][k]).1.wf()
                        && ltv[b][k].1.is_unit() && ltv[b][k].1.atoms().subset_of(
                        local_state.atoms(),
                    ),
                forall|b: int, k: int|
                    0 <= b < nb && 0 <= k < rtv[b].len() ==> (#[trigger] rtv[b][k]).1.wf()
                        && rtv[b][k].1.is_unit() && rtv[b][k].1.atoms().subset_of(
                        remote_state.atoms(),
                    ),
                forall|b: int, k: int, a: T::Atom|
                    0 <= b < nb && 0 <= k < ltv[b].len() && #[trigger] ltv[b][k].1.atoms().contains(
                        a,
                    ) ==> ltv[b][k].0 == spec_hash64(
                        seed,
                        T::atom_piece_key(local_state.atoms(), a),
                    ),
                forall|b: int, k: int, a: T::Atom|
                    0 <= b < nb && 0 <= k < rtv[b].len() && #[trigger] rtv[b][k].1.atoms().contains(
                        a,
                    ) ==> rtv[b][k].0 == spec_hash64(
                        seed,
                        T::atom_piece_key(remote_state.atoms(), a),
                    ),
                forall|b: int, k: int|
                    0 <= b < nb && 0 <= k < ltv[b].len() ==> ((#[trigger] ltv[b][k]).0 as int) % (
                    nb as int) == b,
                forall|b: int, k: int|
                    0 <= b < nb && 0 <= k < rtv[b].len() ==> ((#[trigger] rtv[b][k]).0 as int) % (
                    nb as int) == b,
                forall|k: int|
                    0 <= k < local_fixes@.len() ==> (#[trigger] local_fixes@[k]).wf()
                        && local_fixes@[k].atoms().subset_of(old_r.atoms()),
                forall|k: int|
                    0 <= k < remote_fixes@.len() ==> (#[trigger] remote_fixes@[k]).wf()
                        && remote_fixes@[k].atoms().subset_of(old_l.atoms()),
                sets_union(local_fixes@.map_values(|p: T| p.atoms())) == gained::<T>(
                    seed,
                    nb as int,
                    mism,
                    cr_set,
                    cl_set,
                ),
                sets_union(remote_fixes@.map_values(|p: T| p.atoms())) == gained::<T>(
                    seed,
                    nb as int,
                    mism,
                    cl_set,
                    cr_set,
                ),
                forall|a: T::Atom|
                    cr_set.contains(a) && mism.contains(
                        #[trigger] bucket_of::<T>(seed, nb as int, cr_set, a),
                    ) ==> old_l.atoms().union(
                        sets_union(local_fixes@.map_values(|p: T| p.atoms())),
                    ).contains(a),
                forall|a: T::Atom|
                    cl_set.contains(a) && mism.contains(
                        #[trigger] bucket_of::<T>(seed, nb as int, cl_set, a),
                    ) ==> old_r.atoms().union(
                        sets_union(remote_fixes@.map_values(|p: T| p.atoms())),
                    ).contains(a),
                forall|b: int|
                    0 <= b < i ==> ((!#[trigger] mism.contains(b)) <==> local_fps@[b]
                        == remote_fps@[b]),
                forall|b: int| #[trigger] mism.contains(b) ==> 0 <= b < i,
                mism_count <= i,
            decreases nb - i,
        {
            proof {
                assert(lrest@[0] == local_tbl@[i as int]);
                assert(lrest@.remove(0) =~= local_tbl@.skip(i + 1));
                assert(rrest@[0] == remote_tbl@[i as int]);
                assert(rrest@.remove(0) =~= remote_tbl@.skip(i + 1));
                assert(ltv[i as int] == local_tbl@[i as int]@);
                assert(rtv[i as int] == remote_tbl@[i as int]@);
            }
            let lb = lrest.remove(0);
            let rb = rrest.remove(0);
            if local_fps[i] != remote_fps[i] {
                let li = aggregate(lb, Ghost(u));
                let ri = aggregate(rb, Ghost(u));
                proof {
                    crate::decompose::lemma_sets_union_bound(
                        rtv[i as int].map_values(|e: (u64, T)| e.1.atoms()),
                        old_r.atoms(),
                    );
                    crate::decompose::lemma_sets_union_bound(
                        ltv[i as int].map_values(|e: (u64, T)| e.1.atoms()),
                        old_l.atoms(),
                    );
                    assert forall|x: T::Atom, y: T::Atom|
                        #![trigger ri.atoms().contains(x), li.atoms().contains(y)]
                        ri.atoms().contains(x) && li.atoms().contains(y) implies T::atom_ok(
                        x,
                        y,
                    ) by {
                        assert(u.contains(x) && u.contains(y));
                    }
                    assert forall|x: T::Atom, y: T::Atom|
                        #![trigger li.atoms().contains(x), ri.atoms().contains(y)]
                        li.atoms().contains(x) && ri.atoms().contains(y) implies T::atom_ok(
                        x,
                        y,
                    ) by {
                        assert(u.contains(x) && u.contains(y));
                    }
                }
                let sli = T::size_of(&li);
                up_state = up_state.saturating_add(sli);
                mism_count = mism_count + 1;
                let remote_fp = li.difference(&ri);
                let local_fp = ri.difference(&li);
                let slfp = T::size_of(&local_fp);
                down_state = down_state.saturating_add(slfp);
                let ghost pre_lf = local_fixes@;
                let ghost pre_rf = remote_fixes@;
                let ghost pre_mism = mism;
                local_fixes.push(local_fp);
                remote_fixes.push(remote_fp);
                proof {
                    crate::sync::lemma_table_buckets(rtv, seed, remote_state.atoms(), i as int);
                    crate::sync::lemma_table_buckets(ltv, seed, local_state.atoms(), i as int);
                    mism = mism.insert(i as int);
                    assert forall|b: int| #[trigger] mism.contains(b) implies 0 <= b < i + 1 by {
                        if b != i {
                            assert(pre_mism.contains(b));
                        }
                    }
                    assert forall|b: int|
                        0 <= b < i + 1 implies ((!#[trigger] mism.contains(b))
                        <==> local_fps@[b] == remote_fps@[b]) by {
                        if b != i {
                            assert(mism.contains(b) <==> pre_mism.contains(b));
                        }
                    }
                    assert(local_fixes@.map_values(|p: T| p.atoms()) =~= pre_lf.map_values(
                        |p: T| p.atoms(),
                    ).push(local_fp.atoms()));
                    crate::decompose::lemma_sets_union_push(
                        pre_lf.map_values(|p: T| p.atoms()),
                        local_fp.atoms(),
                    );
                    assert(remote_fixes@.map_values(|p: T| p.atoms()) =~= pre_rf.map_values(
                        |p: T| p.atoms(),
                    ).push(remote_fp.atoms()));
                    crate::decompose::lemma_sets_union_push(
                        pre_rf.map_values(|p: T| p.atoms()),
                        remote_fp.atoms(),
                    );
                    assert(ri.atoms() == crate::sync::bucket_set::<T>(
                        seed,
                        nb as int,
                        cr_set,
                        i as int,
                    ));
                    assert(li.atoms() == crate::sync::bucket_set::<T>(
                        seed,
                        nb as int,
                        cl_set,
                        i as int,
                    ));
                    assert forall|a: T::Atom|
                        gained::<T>(seed, nb as int, mism, cr_set, cl_set).contains(
                            a,
                        ) implies sets_union(
                        local_fixes@.map_values(|p: T| p.atoms()),
                    ).contains(a) by {
                        if bucket_of::<T>(seed, nb as int, cr_set, a) == i as int {
                            assert(local_fp.atoms().contains(a));
                        } else {
                            assert(gained::<T>(seed, nb as int, pre_mism, cr_set, cl_set).contains(
                                a,
                            ));
                        }
                    }
                    assert forall|a: T::Atom|
                        sets_union(local_fixes@.map_values(|p: T| p.atoms())).contains(
                            a,
                        ) implies gained::<T>(seed, nb as int, mism, cr_set, cl_set).contains(
                        a,
                    ) by {
                        if local_fp.atoms().contains(a) {
                            assert(ri.atoms().contains(a));
                            assert(bucket_of::<T>(seed, nb as int, cr_set, a) == i as int);
                        } else {
                            assert(gained::<T>(seed, nb as int, pre_mism, cr_set, cl_set).contains(
                                a,
                            ));
                        }
                    }
                    assert(sets_union(local_fixes@.map_values(|p: T| p.atoms())) =~= gained::<
                        T,
                    >(seed, nb as int, mism, cr_set, cl_set));
                    assert forall|a: T::Atom|
                        gained::<T>(seed, nb as int, mism, cl_set, cr_set).contains(
                            a,
                        ) implies sets_union(
                        remote_fixes@.map_values(|p: T| p.atoms()),
                    ).contains(a) by {
                        if bucket_of::<T>(seed, nb as int, cl_set, a) == i as int {
                            assert(remote_fp.atoms().contains(a));
                        } else {
                            assert(gained::<T>(seed, nb as int, pre_mism, cl_set, cr_set).contains(
                                a,
                            ));
                        }
                    }
                    assert forall|a: T::Atom|
                        sets_union(remote_fixes@.map_values(|p: T| p.atoms())).contains(
                            a,
                        ) implies gained::<T>(seed, nb as int, mism, cl_set, cr_set).contains(
                        a,
                    ) by {
                        if remote_fp.atoms().contains(a) {
                            assert(li.atoms().contains(a));
                            assert(bucket_of::<T>(seed, nb as int, cl_set, a) == i as int);
                        } else {
                            assert(gained::<T>(seed, nb as int, pre_mism, cl_set, cr_set).contains(
                                a,
                            ));
                        }
                    }
                    assert(sets_union(remote_fixes@.map_values(|p: T| p.atoms())) =~= gained::<
                        T,
                    >(seed, nb as int, mism, cl_set, cr_set));
                    assert forall|a: T::Atom|
                        cr_set.contains(a) && mism.contains(
                            #[trigger] bucket_of::<T>(seed, nb as int, cr_set, a),
                        ) implies old_l.atoms().union(
                        sets_union(local_fixes@.map_values(|p: T| p.atoms())),
                    ).contains(a) by {
                        if bucket_of::<T>(seed, nb as int, cr_set, a) == i as int {
                            assert(ri.atoms().contains(a));
                            assert(li.atoms().union(local_fp.atoms()).contains(a));
                            assert(li.atoms().subset_of(cl_set));
                            assert(cl_set.subset_of(old_l.atoms()));
                        } else {
                            assert(old_l.atoms().union(
                                sets_union(pre_lf.map_values(|p: T| p.atoms())),
                            ).contains(a));
                        }
                    }
                    assert forall|a: T::Atom|
                        cl_set.contains(a) && mism.contains(
                            #[trigger] bucket_of::<T>(seed, nb as int, cl_set, a),
                        ) implies old_r.atoms().union(
                        sets_union(remote_fixes@.map_values(|p: T| p.atoms())),
                    ).contains(a) by {
                        if bucket_of::<T>(seed, nb as int, cl_set, a) == i as int {
                            assert(li.atoms().contains(a));
                            assert(ri.atoms().union(remote_fp.atoms()).contains(a));
                            assert(ri.atoms().subset_of(cr_set));
                            assert(cr_set.subset_of(old_r.atoms()));
                        } else {
                            assert(old_r.atoms().union(
                                sets_union(pre_rf.map_values(|p: T| p.atoms())),
                            ).contains(a));
                        }
                    }
                }
            } else {
                proof {
                    assert(!mism.contains(i as int));
                    assert forall|b: int| #[trigger] mism.contains(b) implies 0 <= b < i + 1 by {}
                }
            }
            i = i + 1;
        }
        let m2 = if mism_count > usize::MAX / 8 {
            usize::MAX
        } else {
            8 * mism_count
        };
        let up2 = tracker.upload();
        tracker.register(
            DefaultEvent::LocalToRemote { state: up_state, metadata: m2, upload: up2 },
        );
        let down2 = tracker.download();
        tracker.register(
            DefaultEvent::RemoteToLocal { state: down_state, metadata: 0, download: down2 },
        );

        proof {
            assert forall|k: int|
                0 <= k < remote_unknown@.len() implies (#[trigger] remote_unknown@[k]).wf()
                && remote_unknown@[k].atoms().subset_of(u) by {
                assert(remote_unknown@[k].atoms().subset_of(old_l.atoms()));
            }
            assert forall|k: int|
                0 <= k < local_unknown@.len() implies (#[trigger] local_unknown@[k]).wf()
                && local_unknown@[k].atoms().subset_of(u) by {
                assert(local_unknown@[k].atoms().subset_of(old_r.atoms()));
            }
            assert forall|k: int|
                0 <= k < local_fixes@.len() implies (#[trigger] local_fixes@[k]).wf()
                && local_fixes@[k].atoms().subset_of(u) by {}
            assert forall|k: int|
                0 <= k < remote_fixes@.len() implies (#[trigger] remote_fixes@[k]).wf()
                && remote_fixes@[k].atoms().subset_of(u) by {}
        }
        let ghost lu1 = local_unknown@.map_values(|p: T| p.atoms());
        let ghost ru1 = remote_unknown@.map_values(|p: T| p.atoms());
        let ghost lf1 = local_fixes@.map_values(|p: T| p.atoms());
        let ghost rf1 = remote_fixes@.map_values(|p: T| p.atoms());
        let ghost dl = Seq::new(
            nb as nat,
            |b: int|
                choose|ds: Seq<u64>|
                    ascending(ds) && ds.to_multiset() == bucket_digests(ltv[b]).to_multiset()
                        && local_fps@[b] == #[trigger] spec_fingerprint(seed, ds),
        );
        let ghost dr = Seq::new(
            nb as nat,
            |b: int|
                choose|ds: Seq<u64>|
                    ascending(ds) && ds.to_multiset() == bucket_digests(rtv[b]).to_multiset()
                        && remote_fps@[b] == #[trigger] spec_fingerprint(seed, ds),
        );
        join_pieces(remote, remote_unknown, Ghost(u));
        join_pieces(remote, remote_fixes, Ghost(u));
        join_pieces(local, local_unknown, Ghost(u));
        join_pieces(local, local_fixes, Ghost(u));
        let ghost fl = local_filter;
        let ghost fr = remote_filter;
        proof {
            assert forall|k: int| 0 <= k < lu1.len() implies (#[trigger] lu1[k]).subset_of(
                old_r.atoms(),
            ) by {
                assert(lu1[k] == local_unknown@[k].atoms());
            }
            crate::decompose::lemma_sets_union_bound(lu1, old_r.atoms());
            assert forall|k: int| 0 <= k < ru1.len() implies (#[trigger] ru1[k]).subset_of(
                old_l.atoms(),
            ) by {
                assert(ru1[k] == remote_unknown@[k].atoms());
            }
            crate::decompose::lemma_sets_union_bound(ru1, old_l.atoms());
            assert forall|k: int| 0 <= k < lf1.len() implies (#[trigger] lf1[k]).subset_of(
                old_r.atoms(),
            ) by {
                assert(lf1[k] == local_fixes@[k].atoms());
            }
            crate::decompose::lemma_sets_union_bound(lf1, old_r.atoms());
            assert forall|k: int| 0 <= k < rf1.len() implies (#[trigger] rf1[k]).subset_of(
                old_l.atoms(),
            ) by {
                assert(rf1[k] == remote_fixes@[k].atoms());
            }
            crate::decompose::lemma_sets_union_bound(rf1, old_l.atoms());
            assert(local.atoms().subset_of(old_l.atoms().union(old_r.atoms())));
            assert(remote.atoms().subset_of(old_l.atoms().union(old_r.atoms())));
            // exact final states
            assert(local.atoms() =~= old_l.atoms().union(old_r.atoms().difference(cr_set)).union(
                gained::<T>(seed, nb as int, mism, cr_set, cl_set),
            ));
            assert(remote.atoms() =~= old_r.atoms().union(
                old_l.atoms().difference(cl_set),
            ).union(gained::<T>(seed, nb as int, mism, cl_set, cr_set)));
            // the outcome clauses
            assert forall|a: T::Atom|
                #![trigger local.atoms().contains(a)]
                old_r.atoms().contains(a) && !fl.spec_contains(
                    T::atom_piece_key(old_r.atoms(), a),
                ) implies local.atoms().contains(a) by {
                assert(old_r.atoms().difference(cr_set).contains(a));
            }
            assert forall|a: T::Atom|
                #![trigger remote.atoms().contains(a)]
                old_l.atoms().contains(a) && !fr.spec_contains(
                    T::atom_piece_key(old_l.atoms(), a),
                ) implies remote.atoms().contains(a) by {
                assert(old_l.atoms().difference(cl_set).contains(a));
            }
            assert forall|a: T::Atom|
                #![trigger candidates::<T>(fl, old_r.atoms()).contains(a)]
                candidates::<T>(fl, old_r.atoms()).contains(a) && mism.contains(
                    bucket_of::<T>(seed, nb as int, candidates::<T>(fl, old_r.atoms()), a),
                ) implies local.atoms().contains(a) by {
                assert(cr_set == candidates::<T>(fl, old_r.atoms()));
                assert(old_l.atoms().union(sets_union(lf1)).contains(a));
            }
            assert forall|a: T::Atom|
                #![trigger candidates::<T>(fr, old_l.atoms()).contains(a)]
                candidates::<T>(fr, old_l.atoms()).contains(a) && mism.contains(
                    bucket_of::<T>(seed, nb as int, candidates::<T>(fr, old_l.atoms()), a),
                ) implies remote.atoms().contains(a) by {
                assert(cl_set == candidates::<T>(fr, old_l.atoms()));
                assert(old_r.atoms().union(sets_union(rf1)).contains(a));
            }
            assert(combined_outcome(
                fl,
                fr,
                seed,
                nb as int,
                mism,
                old_l,
                old_r,
                *local,
                *remote,
            ));
            // the filters
            crate::sync::lemma_filter_keys(fl, lsplit, old_l.atoms());
            crate::sync::lemma_filter_keys_within(
                fr,
                remote_common@,
                candidate_keys::<T>(fl, old_r.atoms()),
                rsplit,
                old_r.atoms(),
                fl,
            );
            // the fingerprint evidence over the candidate states
            lemma_digest_evidence::<T>(seed, nb as int, ltv, local_fps@, dl, local_state.atoms());
            lemma_digest_evidence::<T>(
                seed,
                nb as int,
                rtv,
                remote_fps@,
                dr,
                remote_state.atoms(),
            );
            assert(digests_describe::<T>(seed, nb as int, dl, cl_set));
            assert(digests_describe::<T>(seed, nb as int, dr, cr_set));
            assert forall|b: int|
                0 <= b < nb implies ((!#[trigger] mism.contains(b)) <==> spec_fingerprint(
                seed,
                dl[b],
            ) == spec_fingerprint(seed, dr[b])) by {
                assert(local_fps@[b] == spec_fingerprint(seed, dl[b]));
                assert(remote_fps@[b] == spec_fingerprint(seed, dr[b]));
            }
        }
        let d = local.false_matches(remote);
        tracker.finish(d);
        proof {
            let evs = final(tracker).recorded();
            assert(evs.len() == 4);
            assert(evs[0].spec_metadata() == m0);
            assert(nb == clip_nat(
                spec_bucket_count(clip_nat(old_l.count_spec()) as nat, self.load_spec()),
            ));
            assert(combined_session(
                self.sizing_spec(),
                self.load_spec(),
                fl,
                fr,
                seed,
                nb as int,
                mism,
                dl,
                dr,
                old_l,
                old_r,
                *local,
                *remote,
                evs,
            ));
        }
    }
}

} // verus!
