//! Bloom protocol: a probabilistic three-message exchange. Each side sends
//! a filter over its decomposition keys; pieces a filter definitely does not
//! know are shipped in full, pieces it claims to know stay put. A false
//! positive on either side can leave a piece unmerged, so convergence is
//! approximate and the residual divergence is reported through the sink.

use vstd::prelude::*;

use crate::bloom::{BloomFilter, FilterSizing};
use crate::decompose::{clip_nat, sets_union, Decompose, Measure};
use crate::sync::baseline::{lemma_universe, session_universe};
use crate::sync::{filter_from, join_pieces, partition, piece_keys, Algorithm};
use crate::tracker::{DefaultEvent, DefaultTracker, Telemetry};

verus! {

/// The probabilistic filter exchange, configured by a filter sizing derived
/// from the target false-positive rate.
#[derive(Clone, Copy, Debug)]
pub struct Bloom {
    sizing: FilterSizing,
}

impl Bloom {
    pub closed spec fn sizing_spec(&self) -> FilterSizing {
        self.sizing
    }

    pub fn new(sizing: FilterSizing) -> (r: Self)
        ensures
            r.sizing_spec() == sizing,
    {
        Bloom { sizing }
    }
}

/// The total payload size of a batch of pieces.
pub open spec fn sizes_total<T: Measure>(ps: Seq<T>) -> nat
    decreases ps.len(),
{
    if ps.len() == 0 {
        0
    } else {
        (sizes_total(ps.drop_last()) + T::size_spec(ps.last().atoms())) as nat
    }
}

/// Sums the payload sizes of a batch of pieces, saturating at the machine
/// word.
pub fn sum_sizes<T: Measure>(pieces: &Vec<T>) -> (r: usize)
    requires
        forall|i: int| 0 <= i < pieces@.len() ==> (#[trigger] pieces@[i]).wf(),
    ensures
        r == clip_nat(sizes_total(pieces@)),
{
    let n = pieces.len();
    let mut sum: usize = 0;
    let mut i: usize = 0;
    proof {
        assert(pieces@.take(0) =~= Seq::<T>::empty());
    }
    while i < n
        invariant
            0 <= i <= n,
            n == pieces@.len(),
            forall|k: int| 0 <= k < pieces@.len() ==> (#[trigger] pieces@[k]).wf(),
            sum == clip_nat(sizes_total(pieces@.take(i as int))),
        decreases n - i,
    {
        proof {
            assert(pieces@.take(i + 1).drop_last() =~= pieces@.take(i as int));
            assert(pieces@.take(i + 1).last() == pieces@[i as int]);
        }
        let s = T::size_of(&pieces[i]);
        sum = sum.saturating_add(s);
        i = i + 1;
    }
    proof {
        assert(pieces@.take(n as int) =~= pieces@);
    }
    sum
}

/// A message carried exactly this batch of well-formed pieces, which cover
/// the atom set `s`, at the recorded byte count.
pub open spec fn carries<T: Measure>(ps: Seq<T>, s: Set<T::Atom>, bytes: usize) -> bool {
    &&& forall|i: int| 0 <= i < ps.len() ==> (#[trigger] ps[i]).wf()
    &&& sets_union(ps.map_values(|p: T| p.atoms())) == s
    &&& bytes == clip_nat(sizes_total(ps))
}

/// One session filter, described in full: well-formed, sized by the
/// configured sizing for `capacity` keys, reporting every key of `keys`,
/// with every set bit put there by a probe of one of those keys.
pub open spec fn session_filter(
    f: BloomFilter,
    sizing: FilterSizing,
    capacity: nat,
    keys: Set<Seq<u8>>,
) -> bool {
    &&& f.wf()
    &&& f.bits().len() == clip_nat(sizing.spec_bits_for(capacity))
    &&& f.probes() == sizing.probes()
    &&& forall|k: Seq<u8>| keys.contains(k) ==> #[trigger] f.spec_contains(k)
    &&& crate::bloom::bits_covered_by(f, keys)
}

/// The keys of the candidate pieces of a state: those the reference filter
/// reports.
pub open spec fn candidate_keys<T: Decompose>(reff: BloomFilter, s: Set<T::Atom>) -> Set<
    Seq<u8>,
> {
    Set::new(
        |k: Seq<u8>|
            exists|a: T::Atom|
                s.contains(a) && reff.spec_contains(#[trigger] T::atom_piece_key(s, a)) && k
                    == T::atom_piece_key(s, a),
    )
}

/// What one filter session did: the two filters are genuine sketches of the
/// key sets they were built over, each side gained exactly the pieces the
/// other side's filter definitely missed, and the two delta messages
/// carried exactly those pieces.
pub open spec fn bloom_session<T: Measure>(
    sizing: FilterSizing,
    fl: BloomFilter,
    fr: BloomFilter,
    old_l: T,
    old_r: T,
    l: T,
    r: T,
    events: Seq<DefaultEvent>,
) -> bool {
    let shipped_l = Set::new(
        |a: T::Atom|
            old_r.atoms().contains(a) && !fl.spec_contains(T::atom_piece_key(old_r.atoms(), a)),
    );
    let shipped_r = Set::new(
        |a: T::Atom|
            old_l.atoms().contains(a) && !fr.spec_contains(T::atom_piece_key(old_l.atoms(), a)),
    );
    &&& session_filter(fl, sizing, old_l.count_spec(), piece_keys::<T>(old_l.atoms()))
    &&& fr.wf()
    &&& fr.probes() == sizing.probes()
    &&& crate::bloom::bits_covered_by(fr, candidate_keys::<T>(fl, old_r.atoms()))
    &&& l.atoms() == old_l.atoms().union(shipped_l)
    &&& r.atoms() == old_r.atoms().union(shipped_r)
    &&& events.len() == 3
    &&& events[0].spec_metadata() == clip_nat(((fl.bits().len() + 7) / 8 + 16) as nat)
    &&& exists|sh: Seq<T>| #[trigger] carries(sh, shipped_l, events[1].spec_state())
    &&& exists|sh: Seq<T>| #[trigger] carries(sh, shipped_r, events[2].spec_state())
}

/// The progress the filter round guarantees, spelled out: the local filter
/// reports every local piece key, and any piece of one side whose key the
/// other side's filter did not report has reached that other side.
pub proof fn lemma_bloom_progress<T: Measure>(
    sizing: FilterSizing,
    fl: BloomFilter,
    fr: BloomFilter,
    old_l: T,
    old_r: T,
    l: T,
    r: T,
    events: Seq<DefaultEvent>,
)
    requires
        bloom_session(sizing, fl, fr, old_l, old_r, l, r, events),
    ensures
        forall|a: T::Atom|
            #![trigger old_l.atoms().contains(a)]
            old_l.atoms().contains(a) ==> fl.spec_contains(T::atom_piece_key(old_l.atoms(), a)),
        forall|a: T::Atom|
            #![trigger l.atoms().contains(a)]
            old_r.atoms().contains(a) && !fl.spec_contains(T::atom_piece_key(old_r.atoms(), a))
                ==> l.atoms().contains(a),
        forall|a: T::Atom|
            #![trigger r.atoms().contains(a)]
            old_l.atoms().contains(a) && !fr.spec_contains(T::atom_piece_key(old_l.atoms(), a))
                ==> r.atoms().contains(a),
{
    assert forall|a: T::Atom|
        #![trigger old_l.atoms().contains(a)]
        old_l.atoms().contains(a) implies fl.spec_contains(
        T::atom_piece_key(old_l.atoms(), a),
    ) by {
        assert(piece_keys::<T>(old_l.atoms()).contains(T::atom_piece_key(old_l.atoms(), a)));
    }
}

impl<T: Measure> Algorithm<T> for Bloom {
    /// Three messages: the local filter, then the remote filter with the
    /// pieces it definitely lacks, then the pieces the local side definitely
    /// lacks; the whole session is described by `bloom_session` for the two
    /// filters actually used.
    open spec fn post(
        &self,
        old_l: T,
        old_r: T,
        l: T,
        r: T,
        events: Seq<DefaultEvent>,
    ) -> bool {
        &&& events.len() == 3
        &&& events[0].is_upload()
        &&& events[0].spec_state() == 0
        &&& !events[1].is_upload()
        &&& events[2].is_upload()
        &&& events[2].spec_metadata() == 0
        &&& exists|fl: BloomFilter, fr: BloomFilter|
            #[trigger] bloom_session(self.sizing_spec(), fl, fr, old_l, old_r, l, r, events)
    }

    fn sync(&self, local: &mut T, remote: &mut T, tracker: &mut DefaultTracker) {
        let ghost old_l = *local;
        let ghost old_r = *remote;
        let ghost u = session_universe(old_l, old_r);
        proof {
            lemma_universe(old_l, old_r);
            use_type_invariant(&self.sizing);
            self.sizing.valid();
        }
        let local_split = local.split();
        let ghost lsplit = local_split@;
        let local_filter = filter_from(&local_split, &self.sizing);
        let m0 = local_filter.wire_bytes();
        let up = tracker.upload();
        tracker.register(DefaultEvent::LocalToRemote { state: 0, metadata: m0, upload: up });
        let remote_split = remote.split();
        let ghost rsplit = remote_split@;
        let (common, local_unknown) = partition(&local_filter, remote_split);
        let remote_filter = filter_from(&common, &self.sizing);
        let s1 = sum_sizes(&local_unknown);
        let m1 = remote_filter.wire_bytes();
        let down = tracker.download();
        tracker.register(
            DefaultEvent::RemoteToLocal { state: s1, metadata: m1, download: down },
        );
        let pair = partition(&remote_filter, local_split);
        let remote_unknown = pair.1;
        let s2 = sum_sizes(&remote_unknown);
        let up2 = tracker.upload();
        tracker.register(
            DefaultEvent::LocalToRemote { state: s2, metadata: 0, upload: up2 },
        );
        proof {
            assert forall|i: int|
                0 <= i < local_unknown@.len() implies (#[trigger] local_unknown@[i]).wf()
                && local_unknown@[i].atoms().subset_of(u) by {
                assert(local_unknown@[i].atoms().subset_of(old_r.atoms()));
            }
            assert forall|i: int|
                0 <= i < remote_unknown@.len() implies (#[trigger] remote_unknown@[i]).wf()
                && remote_unknown@[i].atoms().subset_of(u) by {
                assert(remote_unknown@[i].atoms().subset_of(old_l.atoms()));
            }
        }
        let ghost lus = local_unknown@.map_values(|p: T| p.atoms());
        let ghost rus = remote_unknown@.map_values(|p: T| p.atoms());
        let ghost lu_pieces = local_unknown@;
        let ghost ru_pieces = remote_unknown@;
        join_pieces(local, local_unknown, Ghost(u));
        join_pieces(remote, remote_unknown, Ghost(u));
        let ghost fl = local_filter;
        let ghost fr = remote_filter;
        let ghost shipped_l = Set::new(
            |a: T::Atom|
                old_r.atoms().contains(a) && !fl.spec_contains(
                    T::atom_piece_key(old_r.atoms(), a),
                ),
        );
        let ghost shipped_r = Set::new(
            |a: T::Atom|
                old_l.atoms().contains(a) && !fr.spec_contains(
                    T::atom_piece_key(old_l.atoms(), a),
                ),
        );
        proof {
            assert forall|k: int| 0 <= k < lus.len() implies (#[trigger] lus[k]).subset_of(
                old_r.atoms(),
            ) by {
                assert(lus[k] == lu_pieces[k].atoms());
            }
            crate::decompose::lemma_sets_union_bound(lus, old_r.atoms());
            assert forall|k: int| 0 <= k < rus.len() implies (#[trigger] rus[k]).subset_of(
                old_l.atoms(),
            ) by {
                assert(rus[k] == ru_pieces[k].atoms());
            }
            crate::decompose::lemma_sets_union_bound(rus, old_l.atoms());
            assert forall|a: T::Atom| sets_union(lus).contains(a) implies shipped_l.contains(
                a,
            ) by {
                crate::decompose::lemma_sets_union(lus);
                let m = choose|m: int| 0 <= m < lus.len() && (#[trigger] lus[m]).contains(a);
                assert(lu_pieces[m].atoms().contains(a));
                assert(rsplit.contains(lu_pieces[m]));
                let j = choose|j: int| 0 <= j < rsplit.len() && rsplit[j] == lu_pieces[m];
                assert(rsplit[j].atoms().contains(a));
                assert(rsplit[j].unit_key() == T::atom_piece_key(old_r.atoms(), a));
                assert(!fl.spec_contains(lu_pieces[m].unit_key()));
            }
            assert forall|a: T::Atom| shipped_l.contains(a) implies sets_union(lus).contains(
                a,
            ) by {
                let rss = rsplit.map_values(|p: T| p.atoms());
                crate::decompose::lemma_sets_union(rss);
                let i = choose|i: int| 0 <= i < rss.len() && (#[trigger] rss[i]).contains(a);
                assert(rsplit[i].atoms().contains(a));
                assert(rsplit[i].unit_key() == T::atom_piece_key(old_r.atoms(), a));
                assert(sets_union(common@.map_values(|p: T| p.atoms())).union(
                    sets_union(lus),
                ).contains(a));
                if sets_union(common@.map_values(|p: T| p.atoms())).contains(a) {
                    let css = common@.map_values(|p: T| p.atoms());
                    crate::decompose::lemma_sets_union(css);
                    let m = choose|m: int| 0 <= m < css.len() && (#[trigger] css[m]).contains(a);
                    assert(common@[m].atoms().contains(a));
                    assert(rsplit.contains(common@[m]));
                    let j = choose|j: int| 0 <= j < rsplit.len() && rsplit[j] == common@[m];
                    assert(rsplit[j].atoms().contains(a));
                    assert(rsplit[j].unit_key() == T::atom_piece_key(old_r.atoms(), a));
                    assert(fl.spec_contains(common@[m].unit_key()));
                    assert(false);
                }
            }
            assert(sets_union(lus) =~= shipped_l);
            assert forall|a: T::Atom| sets_union(rus).contains(a) implies shipped_r.contains(
                a,
            ) by {
                crate::decompose::lemma_sets_union(rus);
                let m = choose|m: int| 0 <= m < rus.len() && (#[trigger] rus[m]).contains(a);
                assert(ru_pieces[m].atoms().contains(a));
                assert(lsplit.contains(ru_pieces[m]));
                let j = choose|j: int| 0 <= j < lsplit.len() && lsplit[j] == ru_pieces[m];
                assert(lsplit[j].atoms().contains(a));
                assert(lsplit[j].unit_key() == T::atom_piece_key(old_l.atoms(), a));
                assert(!fr.spec_contains(ru_pieces[m].unit_key()));
            }
            assert forall|a: T::Atom| shipped_r.contains(a) implies sets_union(rus).contains(
                a,
            ) by {
                let lss = lsplit.map_values(|p: T| p.atoms());
                crate::decompose::lemma_sets_union(lss);
                let i = choose|i: int| 0 <= i < lss.len() && (#[trigger] lss[i]).contains(a);
                assert(lsplit[i].atoms().contains(a));
                assert(lsplit[i].unit_key() == T::atom_piece_key(old_l.atoms(), a));
                assert(sets_union(pair.0@.map_values(|p: T| p.atoms())).union(
                    sets_union(rus),
                ).contains(a));
                if sets_union(pair.0@.map_values(|p: T| p.atoms())).contains(a) {
                    let css = pair.0@.map_values(|p: T| p.atoms());
                    crate::decompose::lemma_sets_union(css);
                    let m = choose|m: int| 0 <= m < css.len() && (#[trigger] css[m]).contains(a);
                    assert(pair.0@[m].atoms().contains(a));
                    assert(lsplit.contains(pair.0@[m]));
                    let j = choose|j: int| 0 <= j < lsplit.len() && lsplit[j] == pair.0@[m];
                    assert(lsplit[j].atoms().contains(a));
                    assert(lsplit[j].unit_key() == T::atom_piece_key(old_l.atoms(), a));
                    assert(fr.spec_contains(pair.0@[m].unit_key()));
                    assert(false);
                }
            }
            assert(sets_union(rus) =~= shipped_r);
            assert(local.atoms() == old_l.atoms().union(shipped_l));
            assert(remote.atoms() == old_r.atoms().union(shipped_r));
            crate::sync::lemma_filter_keys(fl, lsplit, old_l.atoms());
            crate::sync::lemma_filter_keys_within(
                fr,
                common@,
                candidate_keys::<T>(fl, old_r.atoms()),
                rsplit,
                old_r.atoms(),
                fl,
            );
            assert(carries(lu_pieces, shipped_l, s1));
            assert(carries(ru_pieces, shipped_r, s2));
        }
        let d = local.false_matches(remote);
        tracker.finish(d);
        proof {
            let evs = final(tracker).recorded();
            assert(evs.len() == 3);
            assert(evs[1].spec_state() == s1);
            assert(evs[2].spec_state() == s2);
            assert(carries(lu_pieces, shipped_l, evs[1].spec_state()));
            assert(carries(ru_pieces, shipped_r, evs[2].spec_state()));
            assert(evs[0].spec_metadata() == m0);
            assert(fl.bits().len() == clip_nat(
                self.sizing_spec().spec_bits_for(old_l.count_spec()),
            ));
            assert(bloom_session(
                self.sizing_spec(),
                fl,
                fr,
                old_l,
                old_r,
                *local,
                *remote,
                evs,
            ));
        }
    }
}

} // verus!
