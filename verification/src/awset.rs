//! Add-wins set: insertion mints a fresh uid for the value, removal
//! tombstones every uid currently carrying the value. A reader observes the
//! values that have a live (untombstoned) uid, so a concurrent re-insertion
//! survives a removal that did not see its uid. Atoms of the model are the
//! per-uid insertions `(uid, Some(value))` and the tombstones `(uid, None)`.

use vstd::prelude::*;

use crate::carrier::Carrier;
use crate::decompose::{
    clip_nat, lemma_len_disjoint_union, lemma_set_nat_sum_insert, lemma_sets_union,
    lemma_sets_union_push, set_nat_sum, sets_union, sym_diff, Decompose, ExtractError, Measure,
};
use crate::gset::{lemma_to_set_push, lemma_to_set_single};

verus! {

/// A single piece of an add-wins set: one insertion or one tombstone.
#[derive(Debug)]
pub enum AwItem<T> {
    Added(u64, T),
    Removed(u64),
}

/// The insertion atoms of a list of slots.
pub open spec fn ins_atoms<T: Carrier>(s: Seq<(u64, T)>) -> Set<(u64, Option<T::V>)> {
    s.map_values(|e: (u64, T)| (e.0, Some(e.1@))).to_set()
}

/// The tombstone atoms of a list of uids.
pub open spec fn del_atoms<V>(r: Seq<u64>) -> Set<(u64, Option<V>)> {
    r.map_values(|u: u64| (u, None::<V>)).to_set()
}

/// The uids of a list of slots.
pub open spec fn uids_of<T>(s: Seq<(u64, T)>) -> Seq<u64> {
    s.map_values(|e: (u64, T)| e.0)
}

/// The values a reader observes in a set of atoms: those with a live uid.
pub open spec fn live_values<V>(s: Set<(u64, Option<V>)>) -> Set<V> {
    Set::new(
        |v: V|
            exists|u: u64|
                #[trigger] s.contains((u, Some(v))) && !s.contains((u, None::<V>)),
    )
}

/// The set of tombstones a removal of `v` adds: one per live uid of `v`.
pub open spec fn removal_marks<V>(s: Set<(u64, Option<V>)>, v: V) -> Set<(u64, Option<V>)> {
    Set::new(
        |a: (u64, Option<V>)|
            a.1 is None && s.contains((a.0, Some(v))) && !s.contains((a.0, None::<V>)),
    )
}

/// Observing a live insertion: the witness behind `live_values`.
pub proof fn lemma_live_intro<V>(s: Set<(u64, Option<V>)>, u: u64, v: V)
    requires
        s.contains((u, Some(v))),
        !s.contains((u, None::<V>)),
    ensures
        live_values(s).contains(v),
{
    assert(exists|u2: u64|
        #[trigger] s.contains((u2, Some(v))) && !s.contains((u2, None::<V>))) by {
        assert(s.contains((u, Some(v))) && !s.contains((u, None::<V>)));
    }
}

/// An add-wins set over carrier elements.
#[derive(Debug)]
pub struct AWSet<T: Carrier> {
    inserted: Vec<(u64, T)>,
    removed: Vec<u64>,
}

impl<T: Carrier> AWSet<T> {
    /// The number of insertion slots ever taken.
    pub closed spec fn slots(&self) -> nat {
        self.inserted@.len() as nat
    }

    /// The number of tombstones ever placed.
    pub closed spec fn stones(&self) -> nat {
        self.removed@.len() as nat
    }

    /// An empty add-wins set.
    pub fn new() -> (r: Self)
        ensures
            r.wf(),
            r.atoms() == Set::<(u64, Option<T::V>)>::empty(),
            r.slots() == 0,
    {
        let r = AWSet { inserted: Vec::new(), removed: Vec::new() };
        proof {
            assert(r.inserted@.map_values(|e: (u64, T)| (e.0, Some(e.1@))) =~= Seq::<
                (u64, Option<T::V>),
            >::empty());
            assert(r.removed@.map_values(|u: u64| (u, None::<T::V>)) =~= Seq::<
                (u64, Option<T::V>),
            >::empty());
            assert(r.atoms() =~= Set::<(u64, Option<T::V>)>::empty());
        }
        r
    }

    /// Whether uid `u` is tombstoned.
    fn has_tombstone(&self, u: u64) -> (r: bool)
        ensures
            r == self.atoms().contains((u, None::<T::V>)),
    {
        let n = self.removed.len();
        let mut i: usize = 0;
        let ghost dels = self.removed@.map_values(|x: u64| (x, None::<T::V>));
        while i < n
            invariant
                0 <= i <= n,
                n == self.removed@.len(),
                dels == self.removed@.map_values(|x: u64| (x, None::<T::V>)),
                forall|k: int| 0 <= k < i ==> self.removed@[k] != u,
            decreases n - i,
        {
            if self.removed[i] == u {
                proof {
                    assert(dels[i as int] == (u, None::<T::V>));
                    assert(dels.to_set().contains((u, None::<T::V>)));
                    lemma_atoms_split(self);
                }
                return true;
            }
            i = i + 1;
        }
        proof {
            lemma_atoms_split(self);
            if del_atoms::<T::V>(self.removed@).contains((u, None::<T::V>)) {
                let k = choose|k: int| 0 <= k < dels.len() && dels[k] == (u, None::<T::V>);
                assert(self.removed@[k] == u);
                assert(false);
            }
            assert(!self.atoms().contains((u, None::<T::V>)));
        }
        false
    }

    /// Whether uid `u` occupies an insertion slot.
    fn has_slot(&self, u: u64) -> (r: bool)
        ensures
            r == exists|v: T::V| self.atoms().contains((u, Some(v))),
    {
        let n = self.inserted.len();
        let mut i: usize = 0;
        let ghost ins = self.inserted@.map_values(|e: (u64, T)| (e.0, Some(e.1@)));
        while i < n
            invariant
                0 <= i <= n,
                n == self.inserted@.len(),
                ins == self.inserted@.map_values(|e: (u64, T)| (e.0, Some(e.1@))),
                forall|k: int| 0 <= k < i ==> (#[trigger] self.inserted@[k]).0 != u,
            decreases n - i,
        {
            if self.inserted[i].0 == u {
                proof {
                    assert(ins[i as int] == (u, Some(self.inserted@[i as int].1@)));
                    assert(ins.to_set().contains((u, Some(self.inserted@[i as int].1@))));
                    lemma_atoms_split(self);
                    assert(self.atoms().contains((u, Some(self.inserted@[i as int].1@))));
                }
                return true;
            }
            i = i + 1;
        }
        proof {
            lemma_atoms_split(self);
            assert forall|v: T::V| !self.atoms().contains((u, Some(v))) by {
                if self.atoms().contains((u, Some(v))) {
                    let k = choose|k: int| 0 <= k < ins.len() && ins[k] == (u, Some(v));
                    assert(self.inserted@[k].0 == u);
                    assert(false);
                }
            }
        }
        false
    }

    /// The live values, one entry per live insertion slot; a value inserted
    /// under two live uids appears twice.
    pub fn elements(&self) -> (r: Vec<T>)
        requires
            self.wf(),
        ensures
            crate::gset::views_of(r@).to_set() == live_values(self.atoms()),
    {
        let n = self.inserted.len();
        let mut r: Vec<T> = Vec::new();
        let mut i: usize = 0;
        proof {
            lemma_atoms_split(self);
        }
        while i < n
            invariant
                0 <= i <= n,
                n == self.inserted@.len(),
                self.wf(),
                forall|m: int|
                    0 <= m < r@.len() ==> live_values(self.atoms()).contains(
                        #[trigger] crate::gset::views_of(r@)[m],
                    ),
                forall|k: int|
                    0 <= k < i && !self.atoms().contains(
                        ((#[trigger] self.inserted@[k]).0, None::<T::V>),
                    ) ==> crate::gset::views_of(r@).to_set().contains(self.inserted@[k].1@),
            decreases n - i,
        {
            let dead = self.has_tombstone(self.inserted[i].0);
            if !dead {
                let e = self.inserted[i].1.dup();
                proof {
                    crate::gset::lemma_views_of_push(r@, e);
                    lemma_to_set_push(crate::gset::views_of(r@), e@);
                    lemma_atoms_split(self);
                    let u = self.inserted@[i as int].0;
                    assert(self.inserted@.map_values(|q: (u64, T)| (q.0, Some(q.1@)))[i as int]
                        == (u, Some(e@)));
                    assert(ins_atoms(self.inserted@).contains((u, Some(e@))));
                    lemma_live_intro(self.atoms(), u, e@);
                }
                r.push(e);
            }
            i = i + 1;
        }
        proof {
            assert forall|v: T::V|
                live_values(self.atoms()).contains(v) implies crate::gset::views_of(
                r@,
            ).to_set().contains(v) by {
                let u = choose|u: u64|
                    #[trigger] self.atoms().contains((u, Some(v))) && !self.atoms().contains(
                        (u, None::<T::V>),
                    );
                lemma_atoms_split(self);
                let ins = self.inserted@.map_values(|e: (u64, T)| (e.0, Some(e.1@)));
                assert(ins_atoms(self.inserted@).contains((u, Some(v)))) by {
                    if !ins_atoms(self.inserted@).contains((u, Some(v))) {
                        assert(del_atoms::<T::V>(self.removed@).contains((u, Some(v))));
                        let dels = self.removed@.map_values(|x: u64| (x, None::<T::V>));
                        let k = choose|k: int| 0 <= k < dels.len() && dels[k] == (u, Some(v));
                        assert(false);
                    }
                }
                let k = choose|k: int| 0 <= k < ins.len() && ins[k] == (u, Some(v));
                assert(self.inserted@[k].0 == u && self.inserted@[k].1@ == v);
            }
            assert(crate::gset::views_of(r@).to_set() =~= live_values(self.atoms()));
        }
        r
    }

    /// Whether any live insertion slot exists.
    pub fn is_empty(&self) -> (r: bool)
        requires
            self.wf(),
        ensures
            r == (self.live_slots() == 0),
    {
        let n = self.len();
        n == 0
    }

    /// The number of live insertion slots.
    pub fn len(&self) -> (r: usize)
        requires
            self.wf(),
        ensures
            r == self.live_slots(),
    {
        let n = self.inserted.len();
        let mut count: usize = 0;
        let mut i: usize = 0;
        while i < n
            invariant
                0 <= i <= n,
                n == self.inserted@.len(),
                self.wf(),
                count <= i,
                count == live_prefix(self.inserted@, self.removed@, i as int),
            decreases n - i,
        {
            let dead = self.has_tombstone(self.inserted[i].0);
            proof {
                lemma_atoms_split(self);
            }
            if !dead {
                count = count + 1;
            }
            i = i + 1;
        }
        count
    }

    /// The number of live insertion slots, as a specification.
    pub closed spec fn live_slots(&self) -> nat {
        live_prefix(self.inserted@, self.removed@, self.inserted@.len() as int) as nat
    }

    /// Whether `value` is observable.
    pub fn contains(&self, value: &T) -> (r: bool)
        requires
            self.wf(),
        ensures
            r == live_values(self.atoms()).contains(value@),
    {
        let n = self.inserted.len();
        let mut i: usize = 0;
        while i < n
            invariant
                0 <= i <= n,
                n == self.inserted@.len(),
                self.wf(),
                forall|k: int|
                    0 <= k < i ==> ((#[trigger] self.inserted@[k]).1@ != value@
                        || self.atoms().contains((self.inserted@[k].0, None::<T::V>))),
            decreases n - i,
        {
            let sameval = self.inserted[i].1.same(value);
            if sameval {
                let dead = self.has_tombstone(self.inserted[i].0);
                if !dead {
                    proof {
                        lemma_atoms_split(self);
                        let u = self.inserted@[i as int].0;
                        let ins = self.inserted@.map_values(|e: (u64, T)| (e.0, Some(e.1@)));
                        assert(ins[i as int] == (u, Some(value@)));
                        assert(ins.to_set().contains((u, Some(value@))));
                        lemma_live_intro(self.atoms(), u, value@);
                    }
                    return true;
                }
            }
            i = i + 1;
        }
        proof {
            if live_values(self.atoms()).contains(value@) {
                let u = choose|u: u64|
                    #[trigger] self.atoms().contains((u, Some(value@)))
                        && !self.atoms().contains((u, None::<T::V>));
                lemma_atoms_split(self);
                let ins = self.inserted@.map_values(|e: (u64, T)| (e.0, Some(e.1@)));
                assert(ins_atoms(self.inserted@).contains((u, Some(value@)))) by {
                    if !ins_atoms(self.inserted@).contains((u, Some(value@))) {
                        let dels = self.removed@.map_values(|x: u64| (x, None::<T::V>));
                        let k = choose|k: int| 0 <= k < dels.len() && dels[k] == (u, Some(value@));
                        assert(false);
                    }
                }
                let k = choose|k: int| 0 <= k < ins.len() && ins[k] == (u, Some(value@));
                assert(self.inserted@[k].1@ == value@);
                assert(false);
            }
        }
        false
    }
}

/// How many of the first `i` slots are live.
pub open spec fn live_prefix<T: Carrier>(s: Seq<(u64, T)>, r: Seq<u64>, i: int) -> int
    decreases i,
{
    if i <= 0 {
        0
    } else {
        live_prefix(s, r, i - 1) + if del_atoms::<T::V>(r).contains((s[i - 1].0, None::<T::V>)) {
            0int
        } else {
            1int
        }
    }
}

proof fn lemma_live_prefix_at<T: Carrier>(s: Seq<(u64, T)>, r: Seq<u64>, k: int)
    requires
        0 <= k,
    ensures
        live_prefix(s, r, k + 1) == live_prefix(s, r, k) + if del_atoms::<T::V>(r).contains(
            (s[k].0, None::<T::V>),
        ) {
            0int
        } else {
            1int
        },
{
}

proof fn lemma_live_prefix_mono<T: Carrier>(s: Seq<(u64, T)>, r: Seq<u64>, i: int)
    requires
        0 <= i,
    ensures
        live_prefix(s, r, i) >= 0,
    decreases i,
{
    if i > 0 {
        lemma_live_prefix_mono(s, r, i - 1);
    }
}

proof fn lemma_live_prefix_mono2<T: Carrier>(s: Seq<(u64, T)>, r: Seq<u64>, i: int, j: int)
    requires
        0 <= i <= j,
    ensures
        live_prefix(s, r, i) <= live_prefix(s, r, j),
    decreases j - i,
{
    if i < j {
        lemma_live_prefix_mono2(s, r, i, j - 1);
    }
}

/// A positive live count produces a live slot.
proof fn lemma_live_prefix_pos<T: Carrier>(s: Seq<(u64, T)>, r: Seq<u64>, i: int) -> (k: int)
    requires
        0 <= i,
        live_prefix(s, r, i) > 0,
    ensures
        0 <= k < i,
        !del_atoms::<T::V>(r).contains((s[k].0, None::<T::V>)),
    decreases i,
{
    if live_prefix(s, r, i - 1) > 0 {
        lemma_live_prefix_pos(s, r, i - 1)
    } else {
        i - 1
    }
}

/// The set of live uids among a set of atoms.
pub open spec fn live_uids<V>(s: Set<(u64, Option<V>)>) -> Set<u64> {
    Set::new(
        |u: u64|
            (exists|v: V| #[trigger] s.contains((u, Some(v)))) && !s.contains((u, None::<V>)),
    )
}

/// Helper for finiteness: the pairs behind the live uids.
pub open spec fn live_uids_pairs<V>(s: Set<(u64, Option<V>)>) -> Set<(u64, Option<V>)> {
    s.filter(|a: (u64, Option<V>)| a.1 is Some)
}

/// The atoms of an add-wins set come apart into insertions and tombstones.
proof fn lemma_atoms_split<T: Carrier>(s: &AWSet<T>)
    ensures
        s.atoms() == ins_atoms(s.inserted@).union(del_atoms::<T::V>(s.removed@)),
        forall|a: (u64, Option<T::V>)|
            #[trigger] ins_atoms(s.inserted@).contains(a) ==> a.1 is Some,
        forall|a: (u64, Option<T::V>)|
            #[trigger] del_atoms::<T::V>(s.removed@).contains(a) ==> a.1 is None,
{
    assert forall|a: (u64, Option<T::V>)|
        #[trigger] ins_atoms(s.inserted@).contains(a) implies a.1 is Some by {
        let m = s.inserted@.map_values(|e: (u64, T)| (e.0, Some(e.1@)));
        let k = choose|k: int| 0 <= k < m.len() && m[k] == a;
    }
    assert forall|a: (u64, Option<T::V>)|
        #[trigger] del_atoms::<T::V>(s.removed@).contains(a) implies a.1 is None by {
        let m = s.removed@.map_values(|u: u64| (u, None::<T::V>));
        let k = choose|k: int| 0 <= k < m.len() && m[k] == a;
    }
}

/// The candidate uids `0 ..= n`.
spec fn uid_cands(n: u64) -> Set<u64> {
    Set::new(|c: u64| c <= n)
}

proof fn lemma_uid_cands(n: u64)
    ensures
        uid_cands(n).finite(),
        uid_cands(n).len() == n + 1,
    decreases n,
{
    if n == 0 {
        assert(uid_cands(0) =~= Set::<u64>::empty().insert(0));
    } else {
        lemma_uid_cands((n - 1) as u64);
        assert(uid_cands(n) =~= uid_cands((n - 1) as u64).insert(n));
        assert(!uid_cands((n - 1) as u64).contains(n));
    }
}

impl<T: Carrier> AWSet<T> {
    /// A uid neither an insertion slot nor a tombstone holds yet: one
    /// random draw, then a linear sweep of the smallest candidates if the
    /// draw collides.
    fn fresh_uid(&self) -> (u: u64)
        requires
            self.wf(),
            self.slots() + self.stones() < u64::MAX,
        ensures
            forall|v: T::V| !self.atoms().contains((u, Some(v))),
            !self.atoms().contains((u, None::<T::V>)),
    {
        let r = crate::rng::random_u64();
        if !self.has_slot(r) && !self.has_tombstone(r) {
            return r;
        }
        let n: u64 = (self.inserted.len() as u64) + (self.removed.len() as u64);
        let mut c: u64 = 0;
        while c <= n
            invariant
                self.wf(),
                n == self.inserted@.len() + self.removed@.len(),
                n < u64::MAX,
                0 <= c <= n + 1,
                forall|c2: u64|
                    c2 < c ==> uids_of(self.inserted@).to_set().union(
                        self.removed@.to_set(),
                    ).contains(c2),
            decreases n + 1 - c,
        {
            let taken_slot = self.has_slot(c);
            let taken_stone = self.has_tombstone(c);
            if !taken_slot && !taken_stone {
                return c;
            }
            proof {
                lemma_atoms_split(self);
                if taken_slot {
                    let v = choose|v: T::V| self.atoms().contains((c, Some(v)));
                    assert(ins_atoms(self.inserted@).contains((c, Some(v)))) by {
                        if !ins_atoms(self.inserted@).contains((c, Some(v))) {
                            let dels = self.removed@.map_values(|x: u64| (x, None::<T::V>));
                            let k = choose|k: int| 0 <= k < dels.len() && dels[k] == (c, Some(v));
                            assert(false);
                        }
                    }
                    let ins = self.inserted@.map_values(|e: (u64, T)| (e.0, Some(e.1@)));
                    let k = choose|k: int| 0 <= k < ins.len() && ins[k] == (c, Some(v));
                    assert(uids_of(self.inserted@)[k] == c);
                    assert(uids_of(self.inserted@).to_set().contains(c));
                } else {
                    assert(del_atoms::<T::V>(self.removed@).contains((c, None::<T::V>))) by {
                        if !del_atoms::<T::V>(self.removed@).contains((c, None::<T::V>)) {
                            let ins = self.inserted@.map_values(|e: (u64, T)| (e.0, Some(e.1@)));
                            let k = choose|k: int|
                                0 <= k < ins.len() && ins[k] == (c, None::<T::V>);
                            assert(false);
                        }
                    }
                    let dels = self.removed@.map_values(|x: u64| (x, None::<T::V>));
                    let k = choose|k: int| 0 <= k < dels.len() && dels[k] == (c, None::<T::V>);
                    assert(self.removed@[k] == c);
                    assert(self.removed@.to_set().contains(c));
                }
            }
            c = c + 1;
        }
        proof {
            lemma_uid_cands(n);
            let taken = uids_of(self.inserted@).to_set().union(self.removed@.to_set());
            assert(uid_cands(n).subset_of(taken));
            vstd::seq_lib::seq_to_set_is_finite(uids_of(self.inserted@));
            vstd::seq_lib::seq_to_set_is_finite(self.removed@);
            vstd::set_lib::lemma_len_union(
                uids_of(self.inserted@).to_set(),
                self.removed@.to_set(),
            );
            vstd::set_lib::lemma_len_subset(uid_cands(n), taken);
            uids_of(self.inserted@).lemma_cardinality_of_set();
            self.removed@.lemma_cardinality_of_set();
            assert(false);
        }
        0
    }

    /// Inserts `value` under a fresh uid; the returned delta carries exactly
    /// that insertion.
    pub fn insert(&mut self, value: T) -> (delta: Self)
        requires
            old(self).wf(),
            old(self).slots() + old(self).stones() < u64::MAX,
        ensures
            final(self).wf(),
            delta.wf(),
            delta.is_unit(),
            exists|u: u64|
                (forall|v: T::V| !old(self).atoms().contains((u, Some(v))))
                    && !old(self).atoms().contains((u, None::<T::V>)) && final(self).atoms()
                    == old(self).atoms().insert((u, Some(value@))) && delta.atoms() == Set::<
                    (u64, Option<T::V>),
                >::empty().insert((u, Some(value@))),
            live_values(final(self).atoms()).contains(value@),
    {
        let u = self.fresh_uid();
        proof {
            assert(forall|v: T::V| !old(self).atoms().contains((u, Some(v))));
            assert(!old(self).atoms().contains((u, None::<T::V>)));
        }
        let d = value.dup();
        let ghost pre = self.inserted@;
        proof {
            lemma_atoms_split(self);
        }
        self.inserted.push((u, value));
        let mut single: Vec<(u64, T)> = Vec::new();
        single.push((u, d));
        let delta = AWSet { inserted: single, removed: Vec::new() };
        proof {
            let f = |e: (u64, T)| (e.0, Some(e.1@));
            assert(self.inserted@ =~= pre.push(self.inserted@[pre.len() as int]));
            assert(self.inserted@.map_values(f) =~= pre.map_values(f).push((u, Some(value@))));
            lemma_to_set_push(pre.map_values(f), (u, Some(value@)));
            lemma_atoms_split(self);
            assert(uids_of(self.inserted@) =~= uids_of(pre).push(u));
            lemma_to_set_push(uids_of(pre), u);
            assert forall|k: int| 0 <= k < pre.len() implies (#[trigger] uids_of(pre)[k]) != u by {
                if uids_of(pre)[k] == u {
                    assert(pre.map_values(f)[k] == (u, Some(pre[k].1@)));
                    assert(ins_atoms(pre).contains((u, Some(pre[k].1@))));
                    assert(old(self).atoms().contains((u, Some(pre[k].1@))));
                    assert(false);
                }
            }
            assert(!uids_of(pre).contains(u));
            assert(uids_of(self.inserted@).no_duplicates());
            assert(self.atoms() =~= old(self).atoms().insert((u, Some(value@))));
            assert(delta.inserted@.map_values(f) =~= seq![(u, Some(d@))]);
            lemma_to_set_single((u, Some(d@)));
            assert(delta.removed@.map_values(|x: u64| (x, None::<T::V>)) =~= Seq::<
                (u64, Option<T::V>),
            >::empty());
            lemma_atoms_split(&delta);
            assert(delta.atoms() =~= Set::<(u64, Option<T::V>)>::empty().insert(
                (u, Some(value@)),
            ));
            assert(uids_of(delta.inserted@).no_duplicates());
            assert(delta.removed@.no_duplicates());
            assert(!old(self).atoms().contains((u, None::<T::V>)));
            assert((u, None::<T::V>) != (u, Some(value@)));
            assert(!self.atoms().contains((u, None::<T::V>)));
            lemma_live_intro(self.atoms(), u, value@);
        }
        delta
    }

    /// Tombstones every live uid of `value`; the returned delta carries
    /// exactly those tombstones.
    pub fn remove(&mut self, value: &T) -> (delta: Self)
        requires
            old(self).wf(),
        ensures
            final(self).wf(),
            delta.wf(),
            final(self).atoms() == old(self).atoms().union(
                removal_marks(old(self).atoms(), value@),
            ),
            delta.atoms() == removal_marks(old(self).atoms(), value@),
    {
        let n = self.inserted.len();
        let mut marks: Vec<u64> = Vec::new();
        let mut i: usize = 0;
        proof {
            lemma_atoms_split(self);
        }
        while i < n
            invariant
                0 <= i <= n,
                n == self.inserted@.len(),
                self.wf(),
                *self == *old(self),
                marks@.no_duplicates(),
                forall|m: int|
                    0 <= m < marks@.len() ==> uids_of(self.inserted@).take(i as int).contains(
                        #[trigger] marks@[m],
                    ),
                forall|m: int|
                    0 <= m < marks@.len() ==> self.atoms().contains(
                        ((#[trigger] marks@[m]), Some(value@)),
                    ) && !self.atoms().contains((marks@[m], None::<T::V>)),
                forall|k: int|
                    0 <= k < i && (#[trigger] self.inserted@[k]).1@ == value@
                        && !self.atoms().contains((self.inserted@[k].0, None::<T::V>))
                        ==> marks@.contains(self.inserted@[k].0),
            decreases n - i,
        {
            let sameval = self.inserted[i].1.same(value);
            if sameval {
                let u = self.inserted[i].0;
                let dead = self.has_tombstone(u);
                if !dead {
                    proof {
                        lemma_atoms_split(self);
                        let f = |e: (u64, T)| (e.0, Some(e.1@));
                        assert(self.inserted@.map_values(f)[i as int] == (u, Some(value@)));
                        assert(ins_atoms(self.inserted@).contains((u, Some(value@))));
                        assert(!marks@.contains(u)) by {
                            if marks@.contains(u) {
                                let m = choose|m: int|
                                    0 <= m < marks@.len() && marks@[m] == u;
                                let kk = choose|kk: int|
                                    0 <= kk < i && uids_of(self.inserted@).take(i as int)[kk]
                                        == u;
                                assert(uids_of(self.inserted@)[kk] == u);
                                assert(uids_of(self.inserted@)[i as int] == u);
                                assert(false);
                            }
                        }
                    }
                    let ghost premarks = marks@;
                    marks.push(u);
                    proof {
                        assert(marks@[premarks.len() as int] == u);
                        assert(marks@.contains(u));
                        assert forall|m: int| 0 <= m < premarks.len() implies marks@.contains(
                            #[trigger] premarks[m],
                        ) by {
                            assert(marks@[m] == premarks[m]);
                        }
                        assert(uids_of(self.inserted@).take(i + 1)[i as int] == u);
                        assert forall|m: int|
                            0 <= m < marks@.len() implies uids_of(self.inserted@).take(
                            i + 1,
                        ).contains(#[trigger] marks@[m]) by {
                            if m < premarks.len() {
                                let kk = choose|kk: int|
                                    0 <= kk < i && uids_of(self.inserted@).take(i as int)[kk]
                                        == premarks[m];
                                assert(uids_of(self.inserted@).take(i + 1)[kk] == premarks[m]);
                            } else {
                                assert(marks@[m] == u);
                            }
                        }
                        assert forall|k: int|
                            0 <= k < i + 1 && (#[trigger] self.inserted@[k]).1@ == value@
                                && !self.atoms().contains(
                                (self.inserted@[k].0, None::<T::V>),
                            ) implies marks@.contains(self.inserted@[k].0) by {
                            if k < i {
                                assert(premarks.contains(self.inserted@[k].0));
                                let mm = choose|mm: int|
                                    0 <= mm < premarks.len() && premarks[mm]
                                        == self.inserted@[k].0;
                                assert(marks@[mm] == self.inserted@[k].0);
                            } else {
                                assert(marks@.contains(u));
                            }
                        }
                    }
                } else {
                    proof {
                        assert forall|m: int|
                            0 <= m < marks@.len() implies uids_of(self.inserted@).take(
                            i + 1,
                        ).contains(#[trigger] marks@[m]) by {
                            let kk = choose|kk: int|
                                0 <= kk < i && uids_of(self.inserted@).take(i as int)[kk]
                                    == marks@[m];
                            assert(uids_of(self.inserted@).take(i + 1)[kk] == marks@[m]);
                        }
                    }
                }
            } else {
                proof {
                    assert forall|m: int|
                        0 <= m < marks@.len() implies uids_of(self.inserted@).take(
                        i + 1,
                    ).contains(#[trigger] marks@[m]) by {
                        let kk = choose|kk: int|
                            0 <= kk < i && uids_of(self.inserted@).take(i as int)[kk]
                                == marks@[m];
                        assert(uids_of(self.inserted@).take(i + 1)[kk] == marks@[m]);
                    }
                }
            }
            i = i + 1;
        }
        let mut delta_marks: Vec<u64> = Vec::new();
        let mut j: usize = 0;
        while j < marks.len()
            invariant
                0 <= j <= marks@.len(),
                delta_marks@ == marks@.take(j as int),
            decreases marks@.len() - j,
        {
            proof {
                assert(marks@.take(j + 1) =~= marks@.take(j as int).push(marks@[j as int]));
            }
            delta_marks.push(marks[j]);
            j = j + 1;
        }
        proof {
            assert(marks@.take(marks@.len() as int) =~= marks@);
        }
        let ghost pre_removed = self.removed@;
        self.removed.append(&mut marks);
        let delta = AWSet { inserted: Vec::new(), removed: delta_marks };
        proof {
            let ghost added = delta.removed@;
            let g = |x: u64| (x, None::<T::V>);
            assert(self.removed@ == pre_removed + added);
            assert(self.removed@.map_values(g) =~= pre_removed.map_values(g) + added.map_values(
                g,
            ));
            vstd::seq_lib::seq_to_set_distributes_over_add(
                pre_removed.map_values(g),
                added.map_values(g),
            );
            lemma_atoms_split(old(self));
            lemma_atoms_split(self);
            lemma_atoms_split(&delta);
            assert(delta.inserted@.map_values(|e: (u64, T)| (e.0, Some(e.1@))) =~= Seq::<
                (u64, Option<T::V>),
            >::empty());
            assert(delta.atoms() =~= added.map_values(g).to_set());
            assert forall|a: (u64, Option<T::V>)| delta.atoms().contains(a) implies removal_marks(
                old(self).atoms(),
                value@,
            ).contains(a) by {
                let k = choose|k: int|
                    0 <= k < added.map_values(g).len() && added.map_values(g)[k] == a;
                assert(a == (added[k], None::<T::V>));
            }
            assert forall|a: (u64, Option<T::V>)|
                removal_marks(old(self).atoms(), value@).contains(a) implies delta.atoms().contains(
                a,
            ) by {
                let u = a.0;
                assert(old(self).atoms().contains((u, Some(value@))));
                assert(ins_atoms(old(self).inserted@).contains((u, Some(value@)))) by {
                    if !ins_atoms(old(self).inserted@).contains((u, Some(value@))) {
                        let dels = old(self).removed@.map_values(g);
                        let k = choose|k: int| 0 <= k < dels.len() && dels[k] == (u, Some(value@));
                        assert(false);
                    }
                }
                let f = |e: (u64, T)| (e.0, Some(e.1@));
                let k = choose|k: int|
                    0 <= k < old(self).inserted@.map_values(f).len()
                        && old(self).inserted@.map_values(f)[k] == (u, Some(value@));
                assert(old(self).inserted@[k].0 == u && old(self).inserted@[k].1@ == value@);
                assert(added.contains(u));
                let m = choose|m: int| 0 <= m < added.len() && added[m] == u;
                assert(added.map_values(g)[m] == (u, None::<T::V>));
                assert(a.1 is None);
                assert(a == (u, None::<T::V>));
            }
            assert(delta.atoms() =~= removal_marks(old(self).atoms(), value@));
            assert(self.atoms() =~= old(self).atoms().union(
                removal_marks(old(self).atoms(), value@),
            ));
            assert(self.removed@.no_duplicates()) by {
                assert forall|k1: int, k2: int|
                    0 <= k1 < k2 < self.removed@.len() implies self.removed@[k1]
                    != self.removed@[k2] by {
                    if k2 < pre_removed.len() {
                    } else if k1 >= pre_removed.len() {
                        assert(added[k1 - pre_removed.len()] != added[k2 - pre_removed.len()]);
                    } else {
                        let u2 = added[k2 - pre_removed.len()];
                        assert(!old(self).atoms().contains((u2, None::<T::V>)));
                        assert(pre_removed.map_values(g)[k1] == (pre_removed[k1], None::<T::V>));
                        assert(del_atoms::<T::V>(pre_removed).contains(
                            (pre_removed[k1], None::<T::V>),
                        ));
                        if self.removed@[k1] == u2 {
                            assert(old(self).atoms().contains((u2, None::<T::V>)));
                            assert(false);
                        }
                    }
                }
            }
            assert(uids_of(self.inserted@).no_duplicates());
        }
        delta
    }

    /// The single piece of a unit decomposition; the error otherwise.
    pub fn extract(&self) -> (r: Result<AwItem<T>, ExtractError>)
        requires
            self.wf(),
        ensures
            r.is_ok() <==> self.is_unit(),
            r matches Ok(it) ==> match it {
                AwItem::Added(u, v) => self.atoms() == Set::<(u64, Option<T::V>)>::empty().insert(
                    (u, Some(v@)),
                ),
                AwItem::Removed(u) => self.atoms() == Set::<(u64, Option<T::V>)>::empty().insert(
                    (u, None::<T::V>),
                ),
            },
    {
        if self.inserted.len() == 1 && self.removed.len() == 0 {
            let u = self.inserted[0].0;
            let v = self.inserted[0].1.dup();
            proof {
                let f = |e: (u64, T)| (e.0, Some(e.1@));
                assert(self.inserted@.map_values(f) =~= seq![(u, Some(v@))]);
                lemma_to_set_single((u, Some(v@)));
                assert(self.removed@.map_values(|x: u64| (x, None::<T::V>)) =~= Seq::<
                    (u64, Option<T::V>),
                >::empty());
                lemma_atoms_split(self);
                assert(self.atoms() =~= Set::<(u64, Option<T::V>)>::empty().insert(
                    (u, Some(v@)),
                ));
            }
            Ok(AwItem::Added(u, v))
        } else if self.inserted.len() == 0 && self.removed.len() == 1 {
            let u = self.removed[0];
            proof {
                let g = |x: u64| (x, None::<T::V>);
                assert(self.removed@.map_values(g) =~= seq![(u, None::<T::V>)]);
                lemma_to_set_single((u, None::<T::V>));
                assert(self.inserted@.map_values(|e: (u64, T)| (e.0, Some(e.1@))) =~= Seq::<
                    (u64, Option<T::V>),
                >::empty());
                lemma_atoms_split(self);
                assert(self.atoms() =~= Set::<(u64, Option<T::V>)>::empty().insert(
                    (u, None::<T::V>),
                ));
            }
            Ok(AwItem::Removed(u))
        } else {
            Err(ExtractError)
        }
    }
}

impl<T: Carrier> Decompose for AWSet<T> {
    type Atom = (u64, Option<T::V>);

    closed spec fn atoms(&self) -> Set<(u64, Option<T::V>)> {
        ins_atoms(self.inserted@).union(del_atoms::<T::V>(self.removed@))
    }

    closed spec fn wf(&self) -> bool {
        &&& uids_of(self.inserted@).no_duplicates()
        &&& self.removed@.no_duplicates()
    }

    open spec fn atom_ok(x: (u64, Option<T::V>), y: (u64, Option<T::V>)) -> bool {
        x.0 == y.0 && x.1 is Some && y.1 is Some ==> x.1 == y.1
    }

    closed spec fn is_unit(&self) -> bool {
        self.inserted@.len() + self.removed@.len() == 1
    }

    closed spec fn unit_key(&self) -> Seq<u8> {
        if self.inserted@.len() == 1 {
            seq![1u8] + vstd::bytes::spec_u64_to_le_bytes(self.inserted@[0].0) + T::key_view(
                self.inserted@[0].1@,
            )
        } else {
            seq![0u8] + vstd::bytes::spec_u64_to_le_bytes(self.removed@[0])
        }
    }

    open spec fn atom_piece_key(s: Set<(u64, Option<T::V>)>, a: (u64, Option<T::V>)) -> Seq<u8> {
        match a.1 {
            Some(v) => seq![1u8] + vstd::bytes::spec_u64_to_le_bytes(a.0) + T::key_view(v),
            None => seq![0u8] + vstd::bytes::spec_u64_to_le_bytes(a.0),
        }
    }

    closed spec fn count_spec(&self) -> nat {
        (self.inserted@.len() + self.removed@.len()) as nat
    }

    open spec fn diff_spec(
        s: Set<(u64, Option<T::V>)>,
        t: Set<(u64, Option<T::V>)>,
    ) -> Set<(u64, Option<T::V>)> {
        s.difference(t)
    }

    proof fn wf_facts(&self) {
        lemma_atoms_split(self);
        let f = |e: (u64, T)| (e.0, Some(e.1@));
        let g = |x: u64| (x, None::<T::V>);
        vstd::seq_lib::seq_to_set_is_finite(self.inserted@.map_values(f));
        vstd::seq_lib::seq_to_set_is_finite(self.removed@.map_values(g));
        if self.is_unit() {
            if self.inserted@.len() == 1 {
                assert(self.inserted@.map_values(f)[0] == (self.inserted@[0].0, Some(
                    self.inserted@[0].1@,
                )));
                assert(self.atoms().contains((self.inserted@[0].0, Some(self.inserted@[0].1@))));
            } else {
                assert(self.removed@.map_values(g)[0] == (self.removed@[0], None::<T::V>));
                assert(self.atoms().contains((self.removed@[0], None::<T::V>)));
            }
        }
        assert forall|x: (u64, Option<T::V>), y: (u64, Option<T::V>)|
            self.atoms().contains(x) && self.atoms().contains(y) implies #[trigger] Self::atom_ok(
            x,
            y,
        ) by {
            if x.0 == y.0 && x.1 is Some && y.1 is Some {
                assert(ins_atoms(self.inserted@).contains(x)) by {
                    if del_atoms::<T::V>(self.removed@).contains(x) {
                        let dels = self.removed@.map_values(g);
                        let k = choose|k: int| 0 <= k < dels.len() && dels[k] == x;
                        assert(false);
                    }
                }
                assert(ins_atoms(self.inserted@).contains(y)) by {
                    if del_atoms::<T::V>(self.removed@).contains(y) {
                        let dels = self.removed@.map_values(g);
                        let k = choose|k: int| 0 <= k < dels.len() && dels[k] == y;
                        assert(false);
                    }
                }
                let k1 = choose|k1: int|
                    0 <= k1 < self.inserted@.len() && self.inserted@.map_values(f)[k1] == x;
                let k2 = choose|k2: int|
                    0 <= k2 < self.inserted@.len() && self.inserted@.map_values(f)[k2] == y;
                assert(uids_of(self.inserted@)[k1] == x.0);
                assert(uids_of(self.inserted@)[k2] == y.0);
                if k1 != k2 {
                    assert(uids_of(self.inserted@)[k1] != uids_of(self.inserted@)[k2]);
                    assert(false);
                }
            }
        }
    }

    fn bottom() -> (r: Self) {
        Self::new()
    }

    fn split(&self) -> (r: Vec<Self>) {
        let ghost f = |e: (u64, T)| (e.0, Some(e.1@));
        let ghost g = |x: u64| (x, None::<T::V>);
        let n = self.inserted.len();
        let mut r: Vec<Self> = Vec::new();
        let mut i: usize = 0;
        proof {
            lemma_atoms_split(self);
        }
        while i < n
            invariant
                0 <= i <= n,
                n == self.inserted@.len(),
                self.wf(),
                f == (|e: (u64, T)| (e.0, Some(e.1@))),
                r@.len() == i,
                forall|k: int|
                    0 <= k < i ==> (#[trigger] r@[k]).wf() && r@[k].is_unit() && r@[k].atoms()
                        == Set::<(u64, Option<T::V>)>::empty().insert(
                        (self.inserted@[k].0, Some(self.inserted@[k].1@)),
                    ) && r@[k].unit_key() == seq![1u8] + vstd::bytes::spec_u64_to_le_bytes(
                        self.inserted@[k].0,
                    ) + T::key_view(self.inserted@[k].1@),
                sets_union(r@.map_values(|p: Self| p.atoms())) == self.inserted@.take(
                    i as int,
                ).map_values(f).to_set(),
            decreases n - i,
        {
            let u = self.inserted[i].0;
            let v = self.inserted[i].1.dup();
            let mut single: Vec<(u64, T)> = Vec::new();
            single.push((u, v));
            let piece = AWSet { inserted: single, removed: Vec::new() };
            proof {
                assert(piece.inserted@.map_values(f) =~= seq![(u, Some(self.inserted@[i as int].1@))]);
                lemma_to_set_single((u, Some(self.inserted@[i as int].1@)));
                assert(piece.removed@.map_values(g) =~= Seq::<(u64, Option<T::V>)>::empty());
                lemma_atoms_split(&piece);
                assert(piece.atoms() =~= Set::<(u64, Option<T::V>)>::empty().insert(
                    (u, Some(self.inserted@[i as int].1@)),
                ));
                assert(uids_of(piece.inserted@).no_duplicates());
                assert(r@.push(piece).map_values(|p: Self| p.atoms()) =~= r@.map_values(
                    |p: Self| p.atoms(),
                ).push(piece.atoms()));
                lemma_sets_union_push(r@.map_values(|p: Self| p.atoms()), piece.atoms());
                assert(self.inserted@.take(i + 1).map_values(f) =~= self.inserted@.take(
                    i as int,
                ).map_values(f).push((u, Some(self.inserted@[i as int].1@))));
                lemma_to_set_push(
                    self.inserted@.take(i as int).map_values(f),
                    (u, Some(self.inserted@[i as int].1@)),
                );
                assert(self.inserted@.take(i as int).map_values(f).to_set().insert(
                    (u, Some(self.inserted@[i as int].1@)),
                ) =~= self.inserted@.take(i + 1).map_values(f).to_set());
            }
            r.push(piece);
            i = i + 1;
        }
        proof {
            assert(self.inserted@.take(n as int) =~= self.inserted@);
        }
        let ghost half = sets_union(r@.map_values(|p: Self| p.atoms()));
        let m = self.removed.len();
        let mut j: usize = 0;
        while j < m
            invariant
                0 <= j <= m,
                m == self.removed@.len(),
                n == self.inserted@.len(),
                self.wf(),
                g == (|x: u64| (x, None::<T::V>)),
                half == ins_atoms(self.inserted@),
                r@.len() == n + j,
                forall|k: int|
                    0 <= k < n ==> (#[trigger] r@[k]).wf() && r@[k].is_unit() && r@[k].atoms()
                        == Set::<(u64, Option<T::V>)>::empty().insert(
                        (self.inserted@[k].0, Some(self.inserted@[k].1@)),
                    ) && r@[k].unit_key() == seq![1u8] + vstd::bytes::spec_u64_to_le_bytes(
                        self.inserted@[k].0,
                    ) + T::key_view(self.inserted@[k].1@),
                forall|k: int|
                    n <= k < n + j ==> (#[trigger] r@[k]).wf() && r@[k].is_unit() && r@[k].atoms()
                        == Set::<(u64, Option<T::V>)>::empty().insert(
                        (self.removed@[k - n], None::<T::V>),
                    ) && r@[k].unit_key() == seq![0u8] + vstd::bytes::spec_u64_to_le_bytes(
                        self.removed@[k - n],
                    ),
                sets_union(r@.map_values(|p: Self| p.atoms())) == half.union(
                    self.removed@.take(j as int).map_values(g).to_set(),
                ),
            decreases m - j,
        {
            let u = self.removed[j];
            let mut single: Vec<u64> = Vec::new();
            single.push(u);
            let piece = AWSet { inserted: Vec::new(), removed: single };
            proof {
                assert(piece.removed@.map_values(g) =~= seq![(u, None::<T::V>)]);
                lemma_to_set_single((u, None::<T::V>));
                assert(piece.inserted@.map_values(|e: (u64, T)| (e.0, Some(e.1@))) =~= Seq::<
                    (u64, Option<T::V>),
                >::empty());
                lemma_atoms_split(&piece);
                assert(piece.atoms() =~= Set::<(u64, Option<T::V>)>::empty().insert(
                    (u, None::<T::V>),
                ));
                assert(r@.push(piece).map_values(|p: Self| p.atoms()) =~= r@.map_values(
                    |p: Self| p.atoms(),
                ).push(piece.atoms()));
                lemma_sets_union_push(r@.map_values(|p: Self| p.atoms()), piece.atoms());
                assert(self.removed@.take(j + 1).map_values(g) =~= self.removed@.take(
                    j as int,
                ).map_values(g).push((u, None::<T::V>)));
                lemma_to_set_push(self.removed@.take(j as int).map_values(g), (u, None::<T::V>));
                assert(half.union(self.removed@.take(j as int).map_values(g).to_set()).insert(
                    (u, None::<T::V>),
                ) =~= half.union(self.removed@.take(j + 1).map_values(g).to_set()));
            }
            r.push(piece);
            j = j + 1;
        }
        proof {
            assert(self.inserted@.take(n as int) =~= self.inserted@);
            assert(self.removed@.take(m as int) =~= self.removed@);
            lemma_atoms_split(self);
            assert(sets_union(r@.map_values(|p: Self| p.atoms())) == self.atoms());
            assert forall|i2: int, j2: int|
                0 <= i2 < r@.len() && 0 <= j2 < r@.len() && i2 != j2 implies (
            #[trigger] r@[i2]).atoms().disjoint((#[trigger] r@[j2]).atoms()) by {
                if i2 < n && j2 < n {
                    assert(uids_of(self.inserted@)[i2] == self.inserted@[i2].0);
                    assert(uids_of(self.inserted@)[j2] == self.inserted@[j2].0);
                    assert(self.inserted@[i2].0 != self.inserted@[j2].0);
                } else if i2 >= n && j2 >= n {
                    assert(self.removed@[i2 - n] != self.removed@[j2 - n]);
                }
            }
            assert forall|i2: int, a: (u64, Option<T::V>)|
                0 <= i2 < r@.len() && #[trigger] r@[i2].atoms().contains(a) implies r@[i2].unit_key()
                == Self::atom_piece_key(self.atoms(), a) by {
                if i2 < n {
                    assert(a == (self.inserted@[i2].0, Some(self.inserted@[i2].1@)));
                } else {
                    assert(a == (self.removed@[i2 - n], None::<T::V>));
                }
            }
            assert forall|k: int| 0 <= k < r@.len() implies (#[trigger] r@[k]).atoms().subset_of(
                self.atoms(),
            ) by {
                if k < n {
                    assert(self.inserted@.map_values(f)[k] == (self.inserted@[k].0, Some(
                        self.inserted@[k].1@,
                    )));
                    assert(ins_atoms(self.inserted@).contains(
                        (self.inserted@[k].0, Some(self.inserted@[k].1@)),
                    ));
                } else {
                    assert(self.removed@.map_values(g)[k - n] == (self.removed@[k - n], None::<
                        T::V,
                    >));
                    assert(del_atoms::<T::V>(self.removed@).contains(
                        (self.removed@[k - n], None::<T::V>),
                    ));
                }
            }
        }
        r
    }

    #[verifier::rlimit(30)]
    fn join(&mut self, deltas: Vec<Self>) {
        let ghost orig = *self;
        let nd = deltas.len();
        let mut di: usize = 0;
        while di < nd
            invariant
                0 <= di <= nd,
                nd == deltas@.len(),
                forall|i: int| 0 <= i < deltas@.len() ==> (#[trigger] deltas@[i]).wf(),
                forall|i: int, x: (u64, Option<T::V>), y: (u64, Option<T::V>)|
                    #![trigger deltas@[i].atoms().contains(y), orig.atoms().contains(x)]
                    0 <= i < deltas@.len() && orig.atoms().contains(x)
                        && deltas@[i].atoms().contains(y) ==> Self::atom_ok(x, y),
                forall|i: int, j: int, x: (u64, Option<T::V>), y: (u64, Option<T::V>)|
                    #![trigger deltas@[i].atoms().contains(x), deltas@[j].atoms().contains(y)]
                    0 <= i < deltas@.len() && 0 <= j < deltas@.len() && deltas@[i].atoms().contains(
                        x,
                    ) && deltas@[j].atoms().contains(y) ==> Self::atom_ok(x, y),
                self.wf(),
                self.atoms() == orig.atoms().union(
                    sets_union(deltas@.take(di as int).map_values(|p: Self| p.atoms())),
                ),
            decreases nd - di,
        {
            let ghost before = *self;
            let ghost f = |e: (u64, T)| (e.0, Some(e.1@));
            let ghost g = |x: u64| (x, None::<T::V>);
            proof {
                let ss = deltas@.take(di as int).map_values(|p: Self| p.atoms());
                lemma_sets_union(ss);
                assert forall|i: int, x: (u64, Option<T::V>), y: (u64, Option<T::V>)|
                    #![trigger deltas@[i].atoms().contains(y), before.atoms().contains(x)]
                    0 <= i < deltas@.len() && before.atoms().contains(x)
                        && deltas@[i].atoms().contains(y) implies Self::atom_ok(x, y) by {
                    if orig.atoms().contains(x) {
                    } else {
                        assert(sets_union(ss).contains(x));
                        let l = choose|l: int| 0 <= l < ss.len() && (#[trigger] ss[l]).contains(x);
                        assert(deltas@.take(di as int)[l] == deltas@[l]);
                        assert(deltas@[l].atoms().contains(x));
                    }
                }
            }
            let m = deltas[di].inserted.len();
            let mut j: usize = 0;
            while j < m
                invariant
                    0 <= j <= m,
                    0 <= di < nd,
                    nd == deltas@.len(),
                    m == deltas@[di as int].inserted@.len(),
                    f == (|e: (u64, T)| (e.0, Some(e.1@))),
                    forall|i: int| 0 <= i < deltas@.len() ==> (#[trigger] deltas@[i]).wf(),
                    forall|i: int, x: (u64, Option<T::V>), y: (u64, Option<T::V>)|
                        #![trigger deltas@[i].atoms().contains(y), before.atoms().contains(x)]
                        0 <= i < deltas@.len() && before.atoms().contains(x)
                            && deltas@[i].atoms().contains(y) ==> Self::atom_ok(x, y),
                    forall|i: int, j2: int, x: (u64, Option<T::V>), y: (u64, Option<T::V>)|
                        #![trigger deltas@[i].atoms().contains(x), deltas@[j2].atoms().contains(y)]
                        0 <= i < deltas@.len() && 0 <= j2 < deltas@.len()
                            && deltas@[i].atoms().contains(x) && deltas@[j2].atoms().contains(y)
                            ==> Self::atom_ok(x, y),
                    self.wf(),
                    self.atoms() == before.atoms().union(
                        deltas@[di as int].inserted@.take(j as int).map_values(f).to_set(),
                    ),
                    self.atoms().subset_of(
                        before.atoms().union(deltas@[di as int].atoms()),
                    ),
                decreases m - j,
            {
                let ghost e = deltas@[di as int].inserted@[j as int];
                let ghost a = (e.0, Some(e.1@));
                proof {
                    assert(deltas@[di as int].inserted@.take(j + 1).map_values(f)
                        =~= deltas@[di as int].inserted@.take(j as int).map_values(f).push(a));
                    lemma_to_set_push(
                        deltas@[di as int].inserted@.take(j as int).map_values(f),
                        a,
                    );
                    lemma_atoms_split(&deltas[di as int]);
                    assert(deltas@[di as int].inserted@.map_values(f)[j as int] == a);
                    assert(ins_atoms(deltas@[di as int].inserted@).contains(a));
                    assert(deltas@[di as int].atoms().contains(a));
                }
                let u = deltas[di].inserted[j].0;
                let present = self.has_slot(u);
                if !present {
                    let v = deltas[di].inserted[j].1.dup();
                    let ghost pre = self.inserted@;
                    let ghost oldatoms = self.atoms();
                    proof {
                        lemma_atoms_split(self);
                        assert forall|k: int| 0 <= k < pre.len() implies (
                        #[trigger] uids_of(pre)[k]) != u by {
                            if uids_of(pre)[k] == u {
                                assert(pre.map_values(f)[k] == (u, Some(pre[k].1@)));
                                assert(ins_atoms(pre).contains((u, Some(pre[k].1@))));
                                assert(self.atoms().contains((u, Some(pre[k].1@))));
                                assert(false);
                            }
                        }
                    }
                    self.inserted.push((u, v));
                    proof {
                        assert(self.inserted@ =~= pre.push((u, v)));
                        assert(self.inserted@.map_values(f) =~= pre.map_values(f).push(a));
                        lemma_to_set_push(pre.map_values(f), a);
                        assert(uids_of(self.inserted@) =~= uids_of(pre).push(u));
                        lemma_to_set_push(uids_of(pre), u);
                        assert(!uids_of(pre).contains(u));
                        assert(uids_of(self.inserted@).no_duplicates());
                        lemma_atoms_split(self);
                        assert(ins_atoms(self.inserted@) =~= ins_atoms(pre).insert(a));
                        assert(self.atoms() =~= oldatoms.insert(a));
                        assert(self.atoms() =~= before.atoms().union(
                            deltas@[di as int].inserted@.take(j + 1).map_values(f).to_set(),
                        ));
                    }
                } else {
                    proof {
                        let w = choose|w: T::V| self.atoms().contains((u, Some(w)));
                        assert(Self::atom_ok((u, Some(w)), a)) by {
                            if before.atoms().contains((u, Some(w))) {
                            } else {
                                assert(deltas@[di as int].atoms().contains((u, Some(w))));
                            }
                        }
                        assert(w == e.1@);
                        assert(self.atoms().contains(a));
                        assert(self.atoms() =~= before.atoms().union(
                            deltas@[di as int].inserted@.take(j + 1).map_values(f).to_set(),
                        ));
                    }
                }
                j = j + 1;
            }
            let ghost mid = *self;
            let mr = deltas[di].removed.len();
            let mut jr: usize = 0;
            while jr < mr
                invariant
                    0 <= jr <= mr,
                    0 <= di < nd,
                    nd == deltas@.len(),
                    mr == deltas@[di as int].removed@.len(),
                    g == (|x: u64| (x, None::<T::V>)),
                    self.wf(),
                    self.atoms() == mid.atoms().union(
                        deltas@[di as int].removed@.take(jr as int).map_values(g).to_set(),
                    ),
                decreases mr - jr,
            {
                let ghost a = (deltas@[di as int].removed@[jr as int], None::<T::V>);
                proof {
                    assert(deltas@[di as int].removed@.take(jr + 1).map_values(g)
                        =~= deltas@[di as int].removed@.take(jr as int).map_values(g).push(a));
                    lemma_to_set_push(
                        deltas@[di as int].removed@.take(jr as int).map_values(g),
                        a,
                    );
                }
                let u = deltas[di].removed[jr];
                let dead = self.has_tombstone(u);
                if !dead {
                    let ghost pre = self.removed@;
                    let ghost oldatoms = self.atoms();
                    proof {
                        lemma_atoms_split(self);
                        assert forall|k: int| 0 <= k < pre.len() implies pre[k] != u by {
                            if pre[k] == u {
                                assert(pre.map_values(g)[k] == a);
                                assert(del_atoms::<T::V>(pre).contains(a));
                                assert(false);
                            }
                        }
                    }
                    self.removed.push(u);
                    proof {
                        assert(self.removed@ =~= pre.push(u));
                        assert(self.removed@.map_values(g) =~= pre.map_values(g).push(a));
                        lemma_to_set_push(pre.map_values(g), a);
                        assert(self.removed@.no_duplicates());
                        lemma_atoms_split(self);
                        assert(del_atoms::<T::V>(self.removed@) =~= del_atoms::<T::V>(pre).insert(
                            a,
                        ));
                        assert(self.atoms() =~= oldatoms.insert(a));
                        assert(self.atoms() =~= mid.atoms().union(
                            deltas@[di as int].removed@.take(jr + 1).map_values(g).to_set(),
                        ));
                    }
                } else {
                    proof {
                        assert(self.atoms().contains(a));
                        assert(self.atoms() =~= mid.atoms().union(
                            deltas@[di as int].removed@.take(jr + 1).map_values(g).to_set(),
                        ));
                    }
                }
                jr = jr + 1;
            }
            proof {
                assert(deltas@[di as int].inserted@.take(m as int) =~= deltas@[di as int].inserted@);
                assert(deltas@[di as int].removed@.take(mr as int) =~= deltas@[di as int].removed@);
                lemma_atoms_split(&deltas[di as int]);
                assert(deltas@.take(di + 1) =~= deltas@.take(di as int).push(deltas@[di as int]));
                assert(deltas@.take(di + 1).map_values(|p: Self| p.atoms()) =~= deltas@.take(
                    di as int,
                ).map_values(|p: Self| p.atoms()).push(deltas@[di as int].atoms()));
                lemma_sets_union_push(
                    deltas@.take(di as int).map_values(|p: Self| p.atoms()),
                    deltas@[di as int].atoms(),
                );
                assert(self.atoms() =~= orig.atoms().union(
                    sets_union(deltas@.take(di + 1).map_values(|p: Self| p.atoms())),
                ));
            }
            di = di + 1;
        }
        proof {
            assert(deltas@.take(nd as int) =~= deltas@);
        }
    }

    fn difference(&self, other: &Self) -> (d: Self) {
        let ghost f = |e: (u64, T)| (e.0, Some(e.1@));
        let ghost g = |x: u64| (x, None::<T::V>);
        let n = self.inserted.len();
        let mut keep_ins: Vec<(u64, T)> = Vec::new();
        let mut i: usize = 0;
        proof {
            assert(self.inserted@.take(0).map_values(f).to_set() =~= Set::<
                (u64, Option<T::V>),
            >::empty());
            assert(keep_ins@.map_values(f) =~= Seq::<(u64, Option<T::V>)>::empty());
            assert(ins_atoms(keep_ins@) =~= self.inserted@.take(0).map_values(f).to_set().difference(
                other.atoms(),
            ));
        }
        while i < n
            invariant
                0 <= i <= n,
                n == self.inserted@.len(),
                self.wf(),
                other.wf(),
                f == (|e: (u64, T)| (e.0, Some(e.1@))),
                forall|x: (u64, Option<T::V>), y: (u64, Option<T::V>)|
                    #![trigger self.atoms().contains(x), other.atoms().contains(y)]
                    self.atoms().contains(x) && other.atoms().contains(y) ==> Self::atom_ok(x, y),
                uids_of(keep_ins@).no_duplicates(),
                ins_atoms(keep_ins@) == self.inserted@.take(i as int).map_values(
                    f,
                ).to_set().difference(other.atoms()),
            decreases n - i,
        {
            let ghost e = self.inserted@[i as int];
            let ghost a = (e.0, Some(e.1@));
            let u = self.inserted[i].0;
            let present = other.has_slot(u);
            proof {
                assert(self.inserted@.take(i + 1).map_values(f) =~= self.inserted@.take(
                    i as int,
                ).map_values(f).push(a));
                lemma_to_set_push(self.inserted@.take(i as int).map_values(f), a);
            }
            if !present {
                let v = self.inserted[i].1.dup();
                let ghost pre = keep_ins@;
                keep_ins.push((u, v));
                proof {
                    assert(keep_ins@ =~= pre.push((u, v)));
                    assert(keep_ins@.map_values(f) =~= pre.map_values(f).push(a));
                    lemma_to_set_push(pre.map_values(f), a);
                    assert(uids_of(keep_ins@) =~= uids_of(pre).push(u));
                    lemma_to_set_push(uids_of(pre), u);
                    assert forall|m2: int| 0 <= m2 < pre.len() implies (
                    #[trigger] uids_of(pre)[m2]) != u by {
                        if pre[m2].0 == u {
                            assert(pre.map_values(f)[m2] == (u, Some(pre[m2].1@)));
                            assert(ins_atoms(pre).contains((u, Some(pre[m2].1@))));
                            assert(self.inserted@.take(i as int).map_values(f).to_set().contains(
                                (u, Some(pre[m2].1@)),
                            ));
                            let pm = self.inserted@.take(i as int).map_values(f);
                            let kk = choose|kk: int|
                                0 <= kk < pm.len() && pm[kk] == (u, Some(pre[m2].1@));
                            assert(uids_of(self.inserted@)[kk] == u);
                            assert(uids_of(self.inserted@)[i as int] == u);
                            assert(false);
                        }
                    }
                    assert(!uids_of(pre).contains(u));
                    assert(uids_of(keep_ins@).no_duplicates());
                    assert(!other.atoms().contains(a));
                    assert(ins_atoms(keep_ins@) =~= self.inserted@.take(i + 1).map_values(
                        f,
                    ).to_set().difference(other.atoms()));
                }
            } else {
                proof {
                    let w = choose|w: T::V| other.atoms().contains((u, Some(w)));
                    lemma_atoms_split(self);
                    assert(self.inserted@.map_values(f)[i as int] == a);
                    assert(ins_atoms(self.inserted@).contains(a));
                    assert(self.atoms().contains(a));
                    assert(Self::atom_ok(a, (u, Some(w))));
                    assert(w == e.1@);
                    assert(other.atoms().contains(a));
                    assert(ins_atoms(keep_ins@) =~= self.inserted@.take(i + 1).map_values(
                        f,
                    ).to_set().difference(other.atoms()));
                }
            }
            i = i + 1;
        }
        let m = self.removed.len();
        let mut keep_del: Vec<u64> = Vec::new();
        let mut j: usize = 0;
        proof {
            assert(self.removed@.take(0).map_values(g).to_set() =~= Set::<
                (u64, Option<T::V>),
            >::empty());
            assert(keep_del@.map_values(g) =~= Seq::<(u64, Option<T::V>)>::empty());
            assert(del_atoms::<T::V>(keep_del@) =~= self.removed@.take(0).map_values(
                g,
            ).to_set().difference(other.atoms()));
        }
        while j < m
            invariant
                0 <= j <= m,
                m == self.removed@.len(),
                self.wf(),
                other.wf(),
                g == (|x: u64| (x, None::<T::V>)),
                keep_del@.no_duplicates(),
                del_atoms::<T::V>(keep_del@) == self.removed@.take(j as int).map_values(
                    g,
                ).to_set().difference(other.atoms()),
            decreases m - j,
        {
            let ghost a = (self.removed@[j as int], None::<T::V>);
            let u = self.removed[j];
            let dead = other.has_tombstone(u);
            proof {
                assert(self.removed@.take(j + 1).map_values(g) =~= self.removed@.take(
                    j as int,
                ).map_values(g).push(a));
                lemma_to_set_push(self.removed@.take(j as int).map_values(g), a);
            }
            if !dead {
                let ghost pre = keep_del@;
                keep_del.push(u);
                proof {
                    assert(keep_del@ =~= pre.push(u));
                    assert(keep_del@.map_values(g) =~= pre.map_values(g).push(a));
                    lemma_to_set_push(pre.map_values(g), a);
                    assert forall|m2: int| 0 <= m2 < pre.len() implies pre[m2] != u by {
                        if pre[m2] == u {
                            assert(pre.map_values(g)[m2] == a);
                            assert(del_atoms::<T::V>(pre).contains(a));
                            let pm = self.removed@.take(j as int).map_values(g);
                            let kk = choose|kk: int| 0 <= kk < pm.len() && pm[kk] == a;
                            assert(self.removed@[kk] == u);
                            assert(self.removed@[j as int] == u);
                            assert(false);
                        }
                    }
                    assert(keep_del@.no_duplicates());
                    assert(!other.atoms().contains(a));
                    assert(del_atoms::<T::V>(keep_del@) =~= self.removed@.take(j + 1).map_values(
                        g,
                    ).to_set().difference(other.atoms()));
                }
            } else {
                proof {
                    assert(other.atoms().contains(a));
                    assert(del_atoms::<T::V>(keep_del@) =~= self.removed@.take(j + 1).map_values(
                        g,
                    ).to_set().difference(other.atoms()));
                }
            }
            j = j + 1;
        }
        let d = AWSet { inserted: keep_ins, removed: keep_del };
        proof {
            assert(self.inserted@.take(n as int) =~= self.inserted@);
            assert(self.removed@.take(m as int) =~= self.removed@);
            lemma_atoms_split(self);
            lemma_atoms_split(&d);
            assert(d.atoms() =~= self.atoms().difference(other.atoms()));
            assert(d.atoms().subset_of(self.atoms()));
            assert(other.atoms().union(d.atoms()) =~= other.atoms().union(self.atoms()));
            if self.atoms().subset_of(other.atoms()) {
                assert(d.atoms() =~= Set::<(u64, Option<T::V>)>::empty());
            }
        }
        d
    }

    fn key_bytes(&self) -> (r: Result<Vec<u8>, ExtractError>) {
        if self.inserted.len() == 1 && self.removed.len() == 0 {
            let mut b: Vec<u8> = Vec::new();
            b.push(1u8);
            let mut uidb = vstd::bytes::u64_to_le_bytes(self.inserted[0].0);
            b.append(&mut uidb);
            let mut vb = self.inserted[0].1.bytes();
            b.append(&mut vb);
            proof {
                assert(b@ =~= self.unit_key());
            }
            Ok(b)
        } else if self.inserted.len() == 0 && self.removed.len() == 1 {
            let mut b: Vec<u8> = Vec::new();
            b.push(0u8);
            let mut uidb = vstd::bytes::u64_to_le_bytes(self.removed[0]);
            b.append(&mut uidb);
            proof {
                assert(b@ =~= self.unit_key());
            }
            Ok(b)
        } else {
            Err(ExtractError)
        }
    }
}

/// The wire size of one atom: eight bytes of uid, plus the value's bytes for
/// an insertion.
pub open spec fn aw_atom_size(a: (u64, Option<Seq<char>>)) -> nat {
    match a.1 {
        Some(v) => (8 + vstd::utf8::encode_utf8(v).len()) as nat,
        None => 8,
    }
}

/// The same size measure, as a first-class specification function.
pub open spec fn aw_size_fn() -> spec_fn((u64, Option<Seq<char>>)) -> nat {
    |a: (u64, Option<Seq<char>>)| aw_atom_size(a)
}

/// Whether the list of carriers holds a value with this view.
fn vec_has_view<T: Carrier>(v: &Vec<T>, x: &T) -> (r: bool)
    ensures
        r == crate::gset::views_of(v@).to_set().contains(x@),
{
    let n = v.len();
    let mut i: usize = 0;
    while i < n
        invariant
            0 <= i <= n,
            n == v@.len(),
            forall|k: int| 0 <= k < i ==> crate::gset::views_of(v@)[k] != x@,
        decreases n - i,
    {
        if v[i].same(x) {
            proof {
                assert(crate::gset::views_of(v@)[i as int] == x@);
            }
            return true;
        }
        i = i + 1;
    }
    proof {
        if crate::gset::views_of(v@).to_set().contains(x@) {
            let k = choose|k: int|
                0 <= k < crate::gset::views_of(v@).len() && crate::gset::views_of(v@)[k] == x@;
            assert(false);
        }
    }
    false
}

impl<T: Carrier> AWSet<T> {
    /// The live values with one representative each.
    fn live_dedup(&self) -> (r: Vec<T>)
        requires
            self.wf(),
        ensures
            crate::gset::views_of(r@).no_duplicates(),
            crate::gset::views_of(r@).to_set() == live_values(self.atoms()),
    {
        let n = self.inserted.len();
        let mut r: Vec<T> = Vec::new();
        let mut i: usize = 0;
        while i < n
            invariant
                0 <= i <= n,
                n == self.inserted@.len(),
                self.wf(),
                crate::gset::views_of(r@).no_duplicates(),
                forall|m: int|
                    0 <= m < r@.len() ==> live_values(self.atoms()).contains(
                        #[trigger] crate::gset::views_of(r@)[m],
                    ),
                forall|k: int|
                    0 <= k < i && !self.atoms().contains(
                        ((#[trigger] self.inserted@[k]).0, None::<T::V>),
                    ) ==> crate::gset::views_of(r@).to_set().contains(self.inserted@[k].1@),
            decreases n - i,
        {
            let dead = self.has_tombstone(self.inserted[i].0);
            if !dead {
                let seen = vec_has_view(&r, &self.inserted[i].1);
                if !seen {
                    let e = self.inserted[i].1.dup();
                    proof {
                        crate::gset::lemma_views_of_push(r@, e);
                        lemma_to_set_push(crate::gset::views_of(r@), e@);
                        lemma_atoms_split(self);
                        let u = self.inserted@[i as int].0;
                        assert(self.inserted@.map_values(|q: (u64, T)| (q.0, Some(q.1@)))[i as int]
                            == (u, Some(e@)));
                        assert(ins_atoms(self.inserted@).contains((u, Some(e@))));
                        lemma_live_intro(self.atoms(), u, e@);
                        assert(!crate::gset::views_of(r@).contains(e@));
                    }
                    r.push(e);
                }
            }
            i = i + 1;
        }
        proof {
            assert forall|v: T::V|
                live_values(self.atoms()).contains(v) implies crate::gset::views_of(
                r@,
            ).to_set().contains(v) by {
                let u = choose|u: u64|
                    #[trigger] self.atoms().contains((u, Some(v))) && !self.atoms().contains(
                        (u, None::<T::V>),
                    );
                lemma_atoms_split(self);
                let ins = self.inserted@.map_values(|e: (u64, T)| (e.0, Some(e.1@)));
                assert(ins_atoms(self.inserted@).contains((u, Some(v)))) by {
                    if !ins_atoms(self.inserted@).contains((u, Some(v))) {
                        let dels = self.removed@.map_values(|x: u64| (x, None::<T::V>));
                        let k = choose|k: int| 0 <= k < dels.len() && dels[k] == (u, Some(v));
                        assert(false);
                    }
                }
                let k = choose|k: int| 0 <= k < ins.len() && ins[k] == (u, Some(v));
                assert(self.inserted@[k].0 == u && self.inserted@[k].1@ == v);
            }
            assert(crate::gset::views_of(r@).to_set() =~= live_values(self.atoms()));
        }
        r
    }
}

/// How many values of the list are not observable in `b`.
fn count_live_missing<T: Carrier>(vals: &Vec<T>, b: &AWSet<T>) -> (r: usize)
    requires
        b.wf(),
        crate::gset::views_of(vals@).no_duplicates(),
    ensures
        r == crate::gset::views_of(vals@).to_set().difference(live_values(b.atoms())).len(),
{
    let n = vals.len();
    let mut count: usize = 0;
    let mut i: usize = 0;
    let ghost vs = crate::gset::views_of(vals@);
    proof {
        assert(vs.take(0).to_set().difference(live_values(b.atoms())) =~= Set::<T::V>::empty());
    }
    while i < n
        invariant
            0 <= i <= n,
            n == vals@.len(),
            b.wf(),
            vs == crate::gset::views_of(vals@),
            vs.no_duplicates(),
            count <= i,
            count == vs.take(i as int).to_set().difference(live_values(b.atoms())).len(),
        decreases n - i,
    {
        let absent = !b.contains(&vals[i]);
        proof {
            let pre = vs.take(i as int).to_set();
            let v = vs[i as int];
            assert(vs.take(i + 1) =~= vs.take(i as int).push(v));
            lemma_to_set_push(vs.take(i as int), v);
            assert(!vs.take(i as int).contains(v)) by {
                if vs.take(i as int).contains(v) {
                    let k = choose|k: int| 0 <= k < i && vs.take(i as int)[k] == v;
                    assert(vs[k] == v);
                    assert(false);
                }
            }
            vstd::seq_lib::seq_to_set_is_finite(vs.take(i as int));
            if live_values(b.atoms()).contains(v) {
                assert(pre.insert(v).difference(live_values(b.atoms())) =~= pre.difference(
                    live_values(b.atoms()),
                ));
            } else {
                assert(pre.insert(v).difference(live_values(b.atoms())) =~= pre.difference(
                    live_values(b.atoms()),
                ).insert(v));
                assert(!pre.difference(live_values(b.atoms())).contains(v));
                vstd::set_lib::lemma_len_subset(pre.difference(live_values(b.atoms())), pre);
                vs.take(i as int).lemma_cardinality_of_set();
            }
        }
        if absent {
            count = count + 1;
        }
        i = i + 1;
    }
    proof {
        assert(vs.take(n as int) =~= vs);
    }
    count
}

impl Measure for AWSet<String> {
    type Obs = Seq<char>;

    open spec fn obs_of(s: Set<(u64, Option<Seq<char>>)>) -> Set<Seq<char>> {
        live_values(s)
    }

    closed spec fn size_spec(s: Set<(u64, Option<Seq<char>>)>) -> nat {
        set_nat_sum(s, aw_size_fn())
    }

    proof fn obs_facts(&self) {
        let f = |a: (u64, Option<Seq<char>>)|
            match a.1 {
                Some(v) => v,
                None => Seq::<char>::empty(),
            };
        lemma_atoms_split(self);
        vstd::seq_lib::seq_to_set_is_finite(
            self.inserted@.map_values(|e: (u64, String)| (e.0, Some(e.1@))),
        );
        vstd::seq_lib::seq_to_set_is_finite(
            self.removed@.map_values(|u: u64| (u, None::<Seq<char>>)),
        );
        self.atoms().lemma_map_finite(f);
        assert forall|v: Seq<char>|
            live_values(self.atoms()).contains(v) implies self.atoms().map(f).contains(v) by {
            let u = choose|u: u64|
                #[trigger] self.atoms().contains((u, Some(v))) && !self.atoms().contains(
                    (u, None::<Seq<char>>),
                );
            assert(f((u, Some(v))) == v);
        }
        vstd::set_lib::lemma_set_subset_finite(self.atoms().map(f), live_values(self.atoms()));
    }

    fn len(replica: &Self) -> (r: usize) {
        replica.inserted.len().saturating_add(replica.removed.len())
    }

    fn size_of(replica: &Self) -> (r: usize) {
        let ghost f = |e: (u64, String)| (e.0, Some(e.1@));
        let ghost g = |x: u64| (x, None::<Seq<char>>);
        let n = replica.inserted.len();
        let mut sum: usize = 0;
        let mut i: usize = 0;
        proof {
            crate::decompose::lemma_set_nat_sum_empty(aw_size_fn());
            assert(replica.inserted@.take(0).map_values(f).to_set() =~= Set::<
                (u64, Option<Seq<char>>),
            >::empty());
        }
        while i < n
            invariant
                0 <= i <= n,
                n == replica.inserted@.len(),
                replica.wf(),
                f == (|e: (u64, String)| (e.0, Some(e.1@))),
                sum == clip_nat(
                    set_nat_sum(replica.inserted@.take(i as int).map_values(f).to_set(), aw_size_fn()),
                ),
            decreases n - i,
        {
            let bv = replica.inserted[i].1.as_str().as_bytes_vec();
            let b = bv.len();
            proof {
                let pre = replica.inserted@.take(i as int).map_values(f).to_set();
                let a = (replica.inserted@[i as int].0, Some(replica.inserted@[i as int].1@));
                assert(replica.inserted@.take(i + 1).map_values(f) =~= replica.inserted@.take(
                    i as int,
                ).map_values(f).push(a));
                lemma_to_set_push(replica.inserted@.take(i as int).map_values(f), a);
                assert(!replica.inserted@.take(i as int).map_values(f).contains(a)) by {
                    if replica.inserted@.take(i as int).map_values(f).contains(a) {
                        let k = choose|k: int|
                            0 <= k < i && replica.inserted@.take(i as int).map_values(f)[k] == a;
                        assert(uids_of(replica.inserted@)[k] == a.0);
                        assert(uids_of(replica.inserted@)[i as int] == a.0);
                        assert(false);
                    }
                }
                vstd::seq_lib::seq_to_set_is_finite(
                    replica.inserted@.take(i as int).map_values(f),
                );
                lemma_set_nat_sum_insert(pre, aw_size_fn(), a);
                assert(aw_size_fn()(a) == aw_atom_size(a));
                assert(aw_atom_size(a) == 8 + b);
            }
            sum = sum.saturating_add(8).saturating_add(b);
            i = i + 1;
        }
        proof {
            assert(replica.inserted@.take(n as int) =~= replica.inserted@);
        }
        let ghost ins_total = set_nat_sum(ins_atoms(replica.inserted@), aw_size_fn());
        let m = replica.removed.len();
        let mut j: usize = 0;
        proof {
            crate::decompose::lemma_set_nat_sum_empty(aw_size_fn());
            assert(replica.removed@.take(0).map_values(g).to_set() =~= Set::<
                (u64, Option<Seq<char>>),
            >::empty());
        }
        while j < m
            invariant
                0 <= j <= m,
                m == replica.removed@.len(),
                replica.wf(),
                g == (|x: u64| (x, None::<Seq<char>>)),
                ins_total == set_nat_sum(ins_atoms(replica.inserted@), aw_size_fn()),
                sum == clip_nat(
                    (ins_total + set_nat_sum(
                        replica.removed@.take(j as int).map_values(g).to_set(),
                        aw_size_fn(),
                    )) as nat,
                ),
            decreases m - j,
        {
            proof {
                let pre = replica.removed@.take(j as int).map_values(g).to_set();
                let a = (replica.removed@[j as int], None::<Seq<char>>);
                assert(replica.removed@.take(j + 1).map_values(g) =~= replica.removed@.take(
                    j as int,
                ).map_values(g).push(a));
                lemma_to_set_push(replica.removed@.take(j as int).map_values(g), a);
                assert(!replica.removed@.take(j as int).map_values(g).contains(a)) by {
                    if replica.removed@.take(j as int).map_values(g).contains(a) {
                        let k = choose|k: int|
                            0 <= k < j && replica.removed@.take(j as int).map_values(g)[k] == a;
                        assert(replica.removed@[k] == a.0);
                        assert(replica.removed@[j as int] == a.0);
                        assert(false);
                    }
                }
                vstd::seq_lib::seq_to_set_is_finite(replica.removed@.take(j as int).map_values(g));
                lemma_set_nat_sum_insert(pre, aw_size_fn(), a);
                assert(aw_size_fn()(a) == aw_atom_size(a));
                assert(aw_atom_size(a) == 8);
            }
            sum = sum.saturating_add(8);
            j = j + 1;
        }
        proof {
            assert(replica.removed@.take(m as int) =~= replica.removed@);
            lemma_atoms_split(replica);
            let f2 = |e: (u64, String)| (e.0, Some(e.1@));
            vstd::seq_lib::seq_to_set_is_finite(replica.inserted@.map_values(f2));
            vstd::seq_lib::seq_to_set_is_finite(replica.removed@.map_values(g));
            assert(ins_atoms(replica.inserted@).disjoint(del_atoms::<Seq<char>>(replica.removed@)));
            crate::decompose::lemma_set_nat_sum_disjoint(
                ins_atoms(replica.inserted@),
                del_atoms::<Seq<char>>(replica.removed@),
                aw_size_fn(),
            );
        }
        sum
    }

    fn false_matches(&self, other: &Self) -> (r: usize) {
        let la = self.live_dedup();
        let lb = other.live_dedup();
        let a = count_live_missing(&la, other);
        let b = count_live_missing(&lb, self);
        proof {
            let sa = live_values(self.atoms()).difference(live_values(other.atoms()));
            let sb = live_values(other.atoms()).difference(live_values(self.atoms()));
            vstd::seq_lib::seq_to_set_is_finite(crate::gset::views_of(la@));
            vstd::seq_lib::seq_to_set_is_finite(crate::gset::views_of(lb@));
            assert(sa.finite());
            assert(sb.finite());
            assert(sa.disjoint(sb));
            lemma_len_disjoint_union(sa, sb);
        }
        a.saturating_add(b)
    }
}

impl<T: Carrier> AWSet<T> {
    /// Builds a state from explicit slots and tombstones; refused when two
    /// slots share a uid or a tombstone repeats.
    pub fn from_parts(inserted: Vec<(u64, T)>, removed: Vec<u64>) -> (r: Option<Self>)
        ensures
            r matches Some(s) ==> s.wf() && s.atoms() == ins_atoms(inserted@).union(
                del_atoms::<T::V>(removed@),
            ),
            r is Some <==> uids_of(inserted@).no_duplicates() && removed@.no_duplicates(),
    {
        let n = inserted.len();
        let mut i: usize = 0;
        while i < n
            invariant
                0 <= i <= n,
                n == inserted@.len(),
                forall|a: int, b: int|
                    0 <= a < b < i ==> (#[trigger] inserted@[a]).0 != (#[trigger] inserted@[b]).0,
            decreases n - i,
        {
            let mut j: usize = 0;
            while j < i
                invariant
                    0 <= j <= i < n,
                    n == inserted@.len(),
                    forall|b: int| 0 <= b < j ==> (#[trigger] inserted@[b]).0 != inserted@[i as int].0,
                decreases i - j,
            {
                if inserted[j].0 == inserted[i].0 {
                    proof {
                        assert(uids_of(inserted@)[j as int] == uids_of(inserted@)[i as int]);
                        assert(!uids_of(inserted@).no_duplicates());
                    }
                    return None;
                }
                j = j + 1;
            }
            i = i + 1;
        }
        let m = removed.len();
        let mut p: usize = 0;
        while p < m
            invariant
                0 <= p <= m,
                m == removed@.len(),
                forall|a: int, b: int| 0 <= a < b < p ==> removed@[a] != removed@[b],
            decreases m - p,
        {
            let mut q: usize = 0;
            while q < p
                invariant
                    0 <= q <= p < m,
                    m == removed@.len(),
                    forall|b: int| 0 <= b < q ==> removed@[b] != removed@[p as int],
                decreases p - q,
            {
                if removed[q] == removed[p] {
                    proof {
                        assert(!removed@.no_duplicates());
                    }
                    return None;
                }
                q = q + 1;
            }
            p = p + 1;
        }
        let s = AWSet { inserted, removed };
        proof {
            assert(uids_of(s.inserted@).no_duplicates()) by {
                assert forall|a: int, b: int|
                    0 <= a < b < uids_of(s.inserted@).len() implies uids_of(s.inserted@)[a]
                    != uids_of(s.inserted@)[b] by {
                    assert(s.inserted@[a].0 != s.inserted@[b].0);
                }
            }
            assert(s.removed@.no_duplicates());
            lemma_atoms_split(&s);
        }
        Some(s)
    }

    /// The slot pairs, as values.
    pub fn slots_list(&self) -> (r: Vec<(u64, T)>)
        requires
            self.wf(),
        ensures
            r@.len() == self.slots(),
            forall|k: int|
                0 <= k < r@.len() ==> self.atoms().contains(
                    ((#[trigger] r@[k]).0, Some(r@[k].1@)),
                ),
    {
        let n = self.inserted.len();
        let mut r: Vec<(u64, T)> = Vec::new();
        let mut i: usize = 0;
        proof {
            lemma_atoms_split(self);
        }
        while i < n
            invariant
                0 <= i <= n,
                n == self.inserted@.len(),
                self.wf(),
                r@.len() == i,
                forall|k: int|
                    0 <= k < r@.len() ==> self.atoms().contains(
                        ((#[trigger] r@[k]).0, Some(r@[k].1@)),
                    ),
            decreases n - i,
        {
            let e = (self.inserted[i].0, self.inserted[i].1.dup());
            proof {
                lemma_atoms_split(self);
                let f = |q: (u64, T)| (q.0, Some(q.1@));
                assert(self.inserted@.map_values(f)[i as int] == (e.0, Some(e.1@)));
                assert(ins_atoms(self.inserted@).contains((e.0, Some(e.1@))));
            }
            r.push(e);
            i = i + 1;
        }
        r
    }

    /// The tombstoned uids, as values.
    pub fn tombstones_list(&self) -> (r: Vec<u64>)
        requires
            self.wf(),
        ensures
            forall|k: int|
                0 <= k < r@.len() ==> self.atoms().contains(
                    ((#[trigger] r@[k]), None::<T::V>),
                ),
    {
        let m = self.removed.len();
        let mut r: Vec<u64> = Vec::new();
        let mut j: usize = 0;
        proof {
            lemma_atoms_split(self);
        }
        while j < m
            invariant
                0 <= j <= m,
                m == self.removed@.len(),
                self.wf(),
                forall|k: int|
                    0 <= k < r@.len() ==> self.atoms().contains(
                        ((#[trigger] r@[k]), None::<T::V>),
                    ),
            decreases m - j,
        {
            let u = self.removed[j];
            proof {
                lemma_atoms_split(self);
                let g = |x: u64| (x, None::<T::V>);
                assert(self.removed@.map_values(g)[j as int] == (u, None::<T::V>));
                assert(del_atoms::<T::V>(self.removed@).contains((u, None::<T::V>)));
            }
            r.push(u);
            j = j + 1;
        }
        r
    }
}

} // verus!
