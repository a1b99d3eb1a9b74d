//! Baseline protocol: an exact two-message exchange. The local replica
//! ships its whole state; the remote folds in what it was missing and ships
//! back the delta the local replica lacks. Both replicas end at the join of
//! the two starting states.

use vstd::prelude::*;

use crate::decompose::{clip_nat, lemma_sets_union_one, sym_diff, Decompose, Measure};
use crate::sync::{join_pieces, sync_pre, universe_ok, Algorithm};
use crate::tracker::{DefaultEvent, DefaultTracker, Telemetry};

verus! {

/// The exact full-state exchange.
#[derive(Clone, Copy, Debug)]
pub struct Baseline;

impl Baseline {
    pub fn new() -> (r: Self)
        ensures
            r == Baseline,
    {
        Baseline
    }
}

/// The whole starting universe of a session.
pub open spec fn session_universe<T: Decompose>(old_l: T, old_r: T) -> Set<T::Atom> {
    old_l.atoms().union(old_r.atoms())
}

/// Two well-formed, mutually compatible states make a compatible universe.
pub proof fn lemma_universe<T: Decompose>(old_l: T, old_r: T)
    requires
        sync_pre(old_l, old_r),
    ensures
        universe_ok::<T>(session_universe(old_l, old_r)),
{
    old_l.wf_facts();
    old_r.wf_facts();
    assert forall|x: T::Atom, y: T::Atom|
        session_universe(old_l, old_r).contains(x) && session_universe(old_l, old_r).contains(
            y,
        ) implies #[trigger] T::atom_ok(x, y) by {
        if old_l.atoms().contains(x) && old_r.atoms().contains(y) {
        } else if old_r.atoms().contains(x) && old_l.atoms().contains(y) {
            assert(T::atom_ok(y, x));
        }
    }
}

impl<T: Measure> Algorithm<T> for Baseline {
    /// Baseline converges exactly: both replicas end at the join, the
    /// upload carries the full local state, and the download carries a
    /// delta that covers everything the local replica was missing.
    open spec fn post(
        &self,
        old_l: T,
        old_r: T,
        l: T,
        r: T,
        events: Seq<DefaultEvent>,
    ) -> bool {
        &&& l.atoms() == old_l.atoms().union(old_r.atoms())
        &&& r.atoms() == old_l.atoms().union(old_r.atoms())
        &&& T::obs_of(l.atoms()) == T::obs_of(r.atoms())
        &&& events.len() == 2
        &&& events[0].is_upload()
        &&& events[0].spec_state() == clip_nat(T::size_spec(old_l.atoms()))
        &&& events[0].spec_metadata() == 0
        &&& !events[1].is_upload()
        &&& events[1].spec_metadata() == 0
        &&& events[1].spec_state() == clip_nat(
            T::size_spec(T::diff_spec(old_r.atoms(), old_l.atoms())),
        )
    }

    fn sync(&self, local: &mut T, remote: &mut T, tracker: &mut DefaultTracker) {
        let ghost old_l = *local;
        let ghost old_r = *remote;
        let ghost u = session_universe(old_l, old_r);
        proof {
            lemma_universe(old_l, old_r);
        }
        let s0 = T::size_of(local);
        let up = tracker.upload();
        tracker.register(DefaultEvent::LocalToRemote { state: s0, metadata: 0, upload: up });
        let remote_unseen = local.difference(remote);
        proof {
            assert forall|x: T::Atom, y: T::Atom|
                #![trigger old_r.atoms().contains(x), old_l.atoms().contains(y)]
                old_r.atoms().contains(x) && old_l.atoms().contains(y) implies T::atom_ok(
                x,
                y,
            ) by {
                assert(u.contains(x) && u.contains(y));
            }
        }
        let local_unseen = remote.difference(local);
        let s1 = T::size_of(&local_unseen);
        let down = tracker.download();
        tracker.register(
            DefaultEvent::RemoteToLocal { state: s1, metadata: 0, download: down },
        );
        let ghost ru_atoms = remote_unseen.atoms();
        let ghost lu_atoms = local_unseen.atoms();
        let mut rv: Vec<T> = Vec::new();
        rv.push(remote_unseen);
        join_pieces(remote, rv, Ghost(u));
        let mut lv: Vec<T> = Vec::new();
        lv.push(local_unseen);
        join_pieces(local, lv, Ghost(u));
        proof {
            lemma_sets_union_one(ru_atoms);
            lemma_sets_union_one(lu_atoms);
            assert(rv@.map_values(|p: T| p.atoms()) =~= seq![ru_atoms]);
            assert(lv@.map_values(|p: T| p.atoms()) =~= seq![lu_atoms]);
            assert(remote.atoms() =~= old_l.atoms().union(old_r.atoms()));
            assert(local.atoms() =~= old_l.atoms().union(old_r.atoms()));
        }
        let d = local.false_matches(remote);
        tracker.finish(d);
        proof {
            assert(final(tracker).recorded().len() == 2);
        }
    }
}

/// Telemetry accounting for the exact full-state exchange over grow-only
/// string sets: the payload bytes the two messages moved cover the byte size
/// of the symmetric difference of the starting states.
pub proof fn lemma_baseline_accounting(
    old_l: crate::gset::GSet<String>,
    old_r: crate::gset::GSet<String>,
    events: Seq<DefaultEvent>,
    du: Set<Seq<char>>,
)
    requires
        old_l.wf(),
        old_r.wf(),
        events.len() == 2,
        events[0].spec_state() == clip_nat(
            <crate::gset::GSet<String> as Measure>::size_spec(old_l.atoms()),
        ),
        du == <crate::gset::GSet<String> as Decompose>::diff_spec(old_r.atoms(), old_l.atoms()),
        events[1].spec_state() == clip_nat(
            <crate::gset::GSet<String> as Measure>::size_spec(du),
        ),
    ensures
        events[0].spec_state() + events[1].spec_state() >= clip_nat(
            <crate::gset::GSet<String> as Measure>::size_spec(
                sym_diff(old_l.atoms(), old_r.atoms()),
            ),
        ),
{
    let f = |v: Seq<char>| vstd::utf8::encode_utf8(v).len();
    old_l.wf_facts();
    old_r.wf_facts();
    let a = old_l.atoms().difference(old_r.atoms());
    let b = old_r.atoms().difference(old_l.atoms());
    vstd::set_lib::lemma_set_subset_finite(old_l.atoms(), a);
    vstd::set_lib::lemma_set_subset_finite(old_r.atoms(), b);
    vstd::set_lib::lemma_set_subset_finite(old_r.atoms(), du);
    crate::decompose::lemma_set_nat_sum_le(a, old_l.atoms(), f);
    crate::decompose::lemma_set_nat_sum_le(b, du, f);
    assert(a.disjoint(b));
    crate::decompose::lemma_set_nat_sum_disjoint(a, b, f);
    assert(sym_diff(old_l.atoms(), old_r.atoms()) == a.union(b));
}

} // verus!
