//! The lattice interface: join-decompositions with a mathematical model.
//!
//! Every replicated type is modelled by a finite set of *atoms*: the smallest
//! units of information the type can hold (an element, one unit of one
//! replica's counter, a single insertion or tombstone). Joining is union of
//! atom sets; a value dominates another when it holds a superset of its
//! atoms. The executable operations carry contracts over this model, so the
//! algebraic laws of the lattice are stated and proved once, at the level of
//! sets.

use vstd::prelude::*;

verus! {

/// The error returned when a single carrier value is requested from a
/// decomposition that does not hold exactly one piece.
#[derive(Clone, Copy, PartialEq, Eq, Structural, Debug)]
pub struct ExtractError;

/// The union of a list of atom sets.
pub open spec fn sets_union<A>(ss: Seq<Set<A>>) -> Set<A>
    decreases ss.len(),
{
    if ss.len() == 0 {
        Set::empty()
    } else {
        sets_union(ss.drop_last()).union(ss.last())
    }
}

pub trait Decompose: Sized {
    /// The atom type of the model.
    type Atom;

    /// The atoms this value holds.
    spec fn atoms(&self) -> Set<Self::Atom>;

    /// Representation invariant.
    spec fn wf(&self) -> bool;

    /// Compatibility of two atoms: whether one state may hold both. (An
    /// add-wins set must not map one uid to two values; for the other types
    /// any two atoms coexist.)
    spec fn atom_ok(x: Self::Atom, y: Self::Atom) -> bool;

    /// Whether this value is a single irredundant piece of a decomposition.
    spec fn is_unit(&self) -> bool;

    /// The byte key under which a unit piece is hashed.
    spec fn unit_key(&self) -> Seq<u8>;

    /// The key of the decomposition piece of a state with atoms `s` that
    /// carries the atom `a`.
    spec fn atom_piece_key(s: Set<Self::Atom>, a: Self::Atom) -> Seq<u8>;

    /// The number of pieces the decomposition of this value holds.
    spec fn count_spec(&self) -> nat;

    /// The exact delta between states with atom sets `s` and `t`: the atoms
    /// of the pieces of `s` that `t` does not dominate.
    spec fn diff_spec(s: Set<Self::Atom>, t: Set<Self::Atom>) -> Set<Self::Atom>;

    /// Facts every well-formed value provides.
    proof fn wf_facts(&self)
        requires
            self.wf(),
        ensures
            self.atoms().finite(),
            forall|x: Self::Atom, y: Self::Atom|
                self.atoms().contains(x) && self.atoms().contains(y) ==> #[trigger] Self::atom_ok(
                    x,
                    y,
                ),
            forall|x: Self::Atom, y: Self::Atom|
                #[trigger] Self::atom_ok(x, y) == Self::atom_ok(y, x),
            self.is_unit() ==> exists|a: Self::Atom| self.atoms().contains(a),
        ;

    /// The least element: no atoms at all.
    fn bottom() -> (r: Self)
        ensures
            r.wf(),
            r.atoms() == Set::<Self::Atom>::empty(),
        ;

    /// The irredundant join-decomposition: unit pieces whose joint atoms are
    /// exactly the atoms of `self`. The pieces carry disjoint atoms, and the
    /// key of each piece is determined by the atoms it carries.
    fn split(&self) -> (r: Vec<Self>)
        requires
            self.wf(),
        ensures
            forall|i: int|
                0 <= i < r@.len() ==> (#[trigger] r@[i]).wf() && r@[i].is_unit()
                    && r@[i].atoms().subset_of(self.atoms()),
            sets_union(r@.map_values(|p: Self| p.atoms())) == self.atoms(),
            r@.len() == self.count_spec(),
            forall|i: int, j: int|
                0 <= i < r@.len() && 0 <= j < r@.len() && i != j ==> (#[trigger] r@[i]).atoms().disjoint(
                    (#[trigger] r@[j]).atoms(),
                ),
            forall|i: int, a: Self::Atom|
                0 <= i < r@.len() && #[trigger] r@[i].atoms().contains(a) ==> r@[i].unit_key()
                    == Self::atom_piece_key(self.atoms(), a),
        ;

    /// Joins a batch of mutually compatible deltas into `self`: afterwards
    /// `self` holds the union of all their atoms and its own.
    fn join(&mut self, deltas: Vec<Self>)
        requires
            old(self).wf(),
            forall|i: int| 0 <= i < deltas@.len() ==> (#[trigger] deltas@[i]).wf(),
            forall|i: int, x: Self::Atom, y: Self::Atom|
                #![trigger deltas@[i].atoms().contains(y), old(self).atoms().contains(x)]
                0 <= i < deltas@.len() && old(self).atoms().contains(x)
                    && deltas@[i].atoms().contains(y) ==> Self::atom_ok(x, y),
            forall|i: int, j: int, x: Self::Atom, y: Self::Atom|
                #![trigger deltas@[i].atoms().contains(x), deltas@[j].atoms().contains(y)]
                0 <= i < deltas@.len() && 0 <= j < deltas@.len() && deltas@[i].atoms().contains(x)
                    && deltas@[j].atoms().contains(y) ==> Self::atom_ok(x, y),
        ensures
            final(self).wf(),
            final(self).atoms() == old(self).atoms().union(
                sets_union(deltas@.map_values(|p: Self| p.atoms())),
            ),
        ;

    /// The minimal delta that raises `other` to the join of both: joining it
    /// into `other` yields exactly `join(self, other)`, it never exceeds
    /// `self`, and it is empty whenever `other` already dominates `self`.
    fn difference(&self, other: &Self) -> (d: Self)
        requires
            self.wf(),
            other.wf(),
            forall|x: Self::Atom, y: Self::Atom|
                #![trigger self.atoms().contains(x), other.atoms().contains(y)]
                self.atoms().contains(x) && other.atoms().contains(y) ==> Self::atom_ok(x, y),
        ensures
            d.wf(),
            d.atoms() == Self::diff_spec(self.atoms(), other.atoms()),
            d.atoms().subset_of(self.atoms()),
            other.atoms().union(d.atoms()) == other.atoms().union(self.atoms()),
            self.atoms().subset_of(other.atoms()) ==> d.atoms() == Set::<Self::Atom>::empty(),
        ;

    /// The byte key of a unit piece; the error when `self` is not a unit.
    fn key_bytes(&self) -> (r: Result<Vec<u8>, ExtractError>)
        requires
            self.wf(),
        ensures
            r.is_ok() <==> self.is_unit(),
            r matches Ok(k) ==> k@ == self.unit_key(),
        ;
}

/// Every atom of a union of sets comes from one of the sets, and conversely.
pub proof fn lemma_sets_union<A>(ss: Seq<Set<A>>)
    ensures
        forall|i: int| 0 <= i < ss.len() ==> (#[trigger] ss[i]).subset_of(sets_union(ss)),
        forall|a: A|
            sets_union(ss).contains(a) ==> exists|i: int|
                0 <= i < ss.len() && (#[trigger] ss[i]).contains(a),
    decreases ss.len(),
{
    if ss.len() > 0 {
        lemma_sets_union(ss.drop_last());
        assert forall|i: int| 0 <= i < ss.len() implies (#[trigger] ss[i]).subset_of(
            sets_union(ss),
        ) by {
            if i < ss.len() - 1 {
                assert(ss.drop_last()[i] == ss[i]);
            } else {
                assert(ss[i] == ss.last());
            }
        }
        assert forall|a: A| sets_union(ss).contains(a) implies exists|i: int|
            0 <= i < ss.len() && (#[trigger] ss[i]).contains(a) by {
            if sets_union(ss.drop_last()).contains(a) {
                let i = choose|i: int|
                    0 <= i < ss.drop_last().len() && (#[trigger] ss.drop_last()[i]).contains(a);
                assert(ss[i].contains(a));
            } else {
                assert(ss[ss.len() - 1].contains(a));
            }
        }
    }
}

/// A union of sets each inside `b` sits inside `b`.
pub proof fn lemma_sets_union_bound<A>(ss: Seq<Set<A>>, b: Set<A>)
    requires
        forall|i: int| 0 <= i < ss.len() ==> (#[trigger] ss[i]).subset_of(b),
    ensures
        sets_union(ss).subset_of(b),
    decreases ss.len(),
{
    if ss.len() > 0 {
        assert forall|i: int| 0 <= i < ss.drop_last().len() implies (
        #[trigger] ss.drop_last()[i]).subset_of(b) by {
            assert(ss.drop_last()[i] == ss[i]);
        }
        lemma_sets_union_bound(ss.drop_last(), b);
        assert(ss[ss.len() - 1].subset_of(b));
    }
}

/// Extending the list extends the union.
pub proof fn lemma_sets_union_push<A>(ss: Seq<Set<A>>, s: Set<A>)
    ensures
        sets_union(ss.push(s)) == sets_union(ss).union(s),
{
    assert(ss.push(s).drop_last() =~= ss);
    assert(ss.push(s).last() == s);
}

/// Two disjoint finite sets contribute their cardinalities in full.
pub proof fn lemma_len_disjoint_union<A>(a: Set<A>, b: Set<A>)
    requires
        a.finite(),
        b.finite(),
        a.disjoint(b),
    ensures
        a.union(b).len() == a.len() + b.len(),
    decreases a.len(),
{
    if a.is_empty() {
        assert(a.union(b) =~= b);
    } else {
        let x = a.choose();
        assert(a.remove(x).union(b) =~= a.union(b).remove(x));
        lemma_len_disjoint_union(a.remove(x), b);
        assert(a.union(b).contains(x));
    }
}

/// The union over a singleton list is the single set.
pub proof fn lemma_sets_union_one<A>(s: Set<A>)
    ensures
        sets_union(seq![s]) == s,
{
    assert(seq![s].drop_last() =~= Seq::<Set<A>>::empty());
    assert(seq![s].last() == s);
    assert(sets_union(Seq::<Set<A>>::empty()) == Set::<A>::empty());
    assert(sets_union(seq![s]) == sets_union(seq![s].drop_last()).union(seq![s].last()));
    assert(Set::<A>::empty().union(s) =~= s);
}

/// A natural number, clipped to the machine word.
pub open spec fn clip_nat(n: nat) -> usize {
    if n > usize::MAX {
        usize::MAX
    } else {
        n as usize
    }
}

/// The symmetric difference of two sets.
pub open spec fn sym_diff<A>(a: Set<A>, b: Set<A>) -> Set<A> {
    a.difference(b).union(b.difference(a))
}

/// The sum of `f` over a finite set.
pub open spec fn set_nat_sum<A>(s: Set<A>, f: spec_fn(A) -> nat) -> nat {
    s.fold(0, |acc: nat, a: A| acc + f(a))
}

pub proof fn lemma_set_nat_sum_empty<A>(f: spec_fn(A) -> nat)
    ensures
        set_nat_sum(Set::<A>::empty(), f) == 0,
{
    vstd::set::fold::lemma_fold_empty(0nat, |acc: nat, a: A| acc + f(a));
}

pub proof fn lemma_set_nat_sum_insert<A>(s: Set<A>, f: spec_fn(A) -> nat, a: A)
    requires
        s.finite(),
        !s.contains(a),
    ensures
        set_nat_sum(s.insert(a), f) == set_nat_sum(s, f) + f(a),
{
    vstd::set::fold::lemma_fold_insert(s, 0nat, |acc: nat, a: A| acc + f(a), a);
}

/// Disjoint parts contribute their sums in full.
pub proof fn lemma_set_nat_sum_disjoint<A>(a: Set<A>, b: Set<A>, f: spec_fn(A) -> nat)
    requires
        a.finite(),
        b.finite(),
        a.disjoint(b),
    ensures
        set_nat_sum(a.union(b), f) == set_nat_sum(a, f) + set_nat_sum(b, f),
    decreases a.len(),
{
    if a.is_empty() {
        assert(a.union(b) =~= b);
        lemma_set_nat_sum_empty(f);
        assert(a =~= Set::<A>::empty());
    } else {
        let x = a.choose();
        assert(a.remove(x).union(b) =~= a.union(b).remove(x));
        lemma_set_nat_sum_disjoint(a.remove(x), b, f);
        lemma_set_nat_sum_insert(a.remove(x), f, x);
        assert(a.remove(x).insert(x) =~= a);
        lemma_set_nat_sum_insert(a.union(b).remove(x), f, x);
        assert(a.union(b).remove(x).insert(x) =~= a.union(b));
        vstd::set_lib::lemma_set_subset_finite(a.union(b), a.union(b).remove(x));
    }
}

/// The sum of `f` over a subset never exceeds the sum over the whole set.
pub proof fn lemma_set_nat_sum_le<A>(s: Set<A>, t: Set<A>, f: spec_fn(A) -> nat)
    requires
        t.finite(),
        s.subset_of(t),
    ensures
        set_nat_sum(s, f) <= set_nat_sum(t, f),
    decreases t.len(),
{
    vstd::set_lib::lemma_len_subset(s, t);
    if s =~= t {
    } else {
        let x = choose|x: A| t.contains(x) && !s.contains(x);
        assert(t.remove(x).insert(x) =~= t);
        lemma_set_nat_sum_insert(t.remove(x), f, x);
        lemma_set_nat_sum_le(s, t.remove(x), f);
    }
}

/// Observation and cost model of a replicated type, for convergence checks
/// and bandwidth accounting.
pub trait Measure: Decompose {
    /// What a reader of the state observes.
    type Obs;

    /// The observation determined by a set of atoms.
    spec fn obs_of(s: Set<Self::Atom>) -> Set<Self::Obs>;

    /// The wire size, in bytes, of a state holding exactly these atoms.
    spec fn size_spec(s: Set<Self::Atom>) -> nat;

    /// The observation of a well-formed state is finite.
    proof fn obs_facts(&self)
        requires
            self.wf(),
        ensures
            Self::obs_of(self.atoms()).finite(),
        ;

    /// The cardinality of the irredundant join-decomposition, saturating at
    /// the machine word.
    fn len(replica: &Self) -> (r: usize)
        requires
            replica.wf(),
        ensures
            r == clip_nat(replica.count_spec()),
        ;

    /// The payload size of the state in bytes, saturating at the machine
    /// word; used for cost accounting only.
    fn size_of(replica: &Self) -> (r: usize)
        requires
            replica.wf(),
        ensures
            r == clip_nat(Self::size_spec(replica.atoms())),
        ;

    /// The convergence oracle: how many observable values the two states
    /// disagree on.
    fn false_matches(&self, other: &Self) -> (r: usize)
        requires
            self.wf(),
            other.wf(),
        ensures
            r == clip_nat(sym_diff(Self::obs_of(self.atoms()), Self::obs_of(other.atoms())).len()),
        ;
}

/// Joining a replica with itself changes nothing: at the level of the model,
/// the union of a value's atoms with themselves is the value's atoms.
pub proof fn lemma_join_idempotent<L: Decompose>(a: L)
    ensures
        a.atoms().union(a.atoms()) == a.atoms(),
{
    assert(a.atoms().union(a.atoms()) =~= a.atoms());
}

/// The join is insensitive to the order of its arguments: union of atom sets
/// commutes.
pub proof fn lemma_join_commutative<L: Decompose>(a: L, b: L)
    ensures
        a.atoms().union(b.atoms()) == b.atoms().union(a.atoms()),
{
    assert(a.atoms().union(b.atoms()) =~= b.atoms().union(a.atoms()));
}

/// Grouping of joins is irrelevant: union of atom sets associates.
pub proof fn lemma_join_associative<L: Decompose>(a: L, b: L, c: L)
    ensures
        a.atoms().union(b.atoms()).union(c.atoms()) == a.atoms().union(
            b.atoms().union(c.atoms()),
        ),
{
    assert(a.atoms().union(b.atoms()).union(c.atoms()) =~= a.atoms().union(
        b.atoms().union(c.atoms()),
    ));
}

} // verus!
