//! Grow-only set: the simplest replicated type. Elements can be inserted and
//! queried, never removed; the join of two states is their union. Atoms of
//! the model are the element views themselves.

use vstd::prelude::*;

use crate::carrier::Carrier;
use crate::decompose::{
    clip_nat, lemma_set_nat_sum_insert, lemma_sets_union_push, lemma_len_disjoint_union,
    set_nat_sum, sets_union, sym_diff, Decompose, ExtractError, Measure,
};

verus! {

/// The views of the elements of a sequence, in order.
pub open spec fn views_of<T: View>(s: Seq<T>) -> Seq<T::V> {
    s.map_values(|e: T| e@)
}

/// Appending one element appends its view.
pub proof fn lemma_views_of_push<T: View>(s: Seq<T>, e: T)
    ensures
        views_of(s.push(e)) == views_of(s).push(e@),
{
    assert(views_of(s.push(e)) =~= views_of(s).push(e@));
}

/// Appending an element inserts it into the set of entries.
pub proof fn lemma_to_set_push<A>(s: Seq<A>, x: A)
    ensures
        s.push(x).to_set() == s.to_set().insert(x),
{
    assert forall|y: A| s.push(x).to_set().contains(y) implies s.to_set().insert(x).contains(
        y,
    ) by {
        let i = choose|i: int| 0 <= i < s.push(x).len() && s.push(x)[i] == y;
        if i < s.len() {
            assert(s[i] == y);
        }
    }
    assert forall|y: A| s.to_set().insert(x).contains(y) implies s.push(x).to_set().contains(
        y,
    ) by {
        if s.to_set().contains(y) {
            let i = choose|i: int| 0 <= i < s.len() && s[i] == y;
            assert(s.push(x)[i] == y);
        } else {
            assert(s.push(x)[s.len() as int] == x);
        }
    }
    assert(s.push(x).to_set() =~= s.to_set().insert(x));
}

/// A one-element sequence holds exactly its element.
pub proof fn lemma_to_set_single<A>(x: A)
    ensures
        seq![x].to_set() == Set::<A>::empty().insert(x),
{
    assert forall|y: A| seq![x].to_set().contains(y) implies Set::<A>::empty().insert(
        x,
    ).contains(y) by {
        let i = choose|i: int| 0 <= i < seq![x].len() && seq![x][i] == y;
    }
    assert(seq![x][0] == x);
    assert(seq![x].to_set() =~= Set::<A>::empty().insert(x));
}

/// A grow-only set over carrier elements.
#[derive(Debug)]
pub struct GSet<T: Carrier> {
    base: Vec<T>,
}

impl<T: Carrier> GSet<T> {
    /// An empty set.
    pub fn new() -> (r: Self)
        ensures
            r.wf(),
            r.atoms() == Set::<T::V>::empty(),
    {
        let r = GSet { base: Vec::new() };
        proof {
            assert(views_of(r.base@) =~= Seq::<T::V>::empty());
            assert(r.atoms() =~= Set::<T::V>::empty());
        }
        r
    }

    /// True when the set holds no element.
    pub fn is_empty(&self) -> (r: bool)
        ensures
            r == self.atoms().is_empty(),
    {
        let r = self.base.len() == 0;
        proof {
            if self.base@.len() == 0 {
                assert(views_of(self.base@) =~= Seq::<T::V>::empty());
                assert(self.atoms() =~= Set::<T::V>::empty());
            } else {
                assert(views_of(self.base@).len() > 0);
                assert(self.atoms().contains(views_of(self.base@)[0]));
            }
        }
        r
    }

    /// The cardinality of the set.
    pub fn len(&self) -> (r: usize)
        requires
            self.wf(),
        ensures
            r == self.atoms().len(),
            r == self.count_spec(),
    {
        proof {
            views_of(self.base@).unique_seq_to_set();
        }
        self.base.len()
    }

    /// Membership query.
    pub fn contains(&self, value: &T) -> (r: bool)
        ensures
            r == self.atoms().contains(value@),
    {
        let n = self.base.len();
        let mut i: usize = 0;
        while i < n
            invariant
                0 <= i <= n,
                n == self.base@.len(),
                forall|j: int| 0 <= j < i ==> views_of(self.base@)[j] != value@,
            decreases n - i,
        {
            if self.base[i].same(value) {
                proof {
                    assert(views_of(self.base@)[i as int] == value@);
                }
                return true;
            }
            i = i + 1;
        }
        proof {
            assert(!views_of(self.base@).contains(value@));
        }
        false
    }

    /// The elements, one representative per atom, in the set's own order.
    pub fn elements(&self) -> (r: Vec<T>)
        requires
            self.wf(),
        ensures
            views_of(r@).no_duplicates(),
            views_of(r@).to_set() == self.atoms(),
            r@.len() == self.atoms().len(),
    {
        let n = self.base.len();
        let mut r: Vec<T> = Vec::new();
        let mut i: usize = 0;
        while i < n
            invariant
                0 <= i <= n,
                n == self.base@.len(),
                views_of(r@) == views_of(self.base@).take(i as int),
            decreases n - i,
        {
            let e = self.base[i].dup();
            proof {
                lemma_views_of_push(r@, e);
                assert(views_of(self.base@).take(i + 1) =~= views_of(self.base@).take(
                    i as int,
                ).push(views_of(self.base@)[i as int]));
            }
            r.push(e);
            i = i + 1;
        }
        proof {
            assert(views_of(self.base@).take(n as int) =~= views_of(self.base@));
            assert(views_of(r@) == views_of(self.base@));
            views_of(r@).unique_seq_to_set();
        }
        r
    }

    /// The whole state as one delta.
    pub fn as_delta(&self) -> (d: Self)
        requires
            self.wf(),
        ensures
            d.wf(),
            d.atoms() == self.atoms(),
    {
        GSet { base: self.elements() }
    }

    /// Inserts a value; the returned delta holds the value when it was new
    /// and is empty when the value was already present.
    pub fn insert(&mut self, value: T) -> (delta: Self)
        requires
            old(self).wf(),
        ensures
            final(self).wf(),
            final(self).atoms() == old(self).atoms().insert(value@),
            delta.wf(),
            old(self).atoms().contains(value@) ==> delta.atoms() == Set::<T::V>::empty()
                && final(self).atoms() == old(self).atoms(),
            !old(self).atoms().contains(value@) ==> delta.atoms() == Set::<T::V>::empty().insert(
                value@,
            ),
    {
        if self.contains(&value) {
            proof {
                assert(old(self).atoms().insert(value@) =~= old(self).atoms());
            }
            Self::new()
        } else {
            let d = value.dup();
            proof {
                lemma_views_of_push(self.base@, value);
                lemma_to_set_push(views_of(self.base@), value@);
                assert(!views_of(self.base@).contains(value@));
            }
            self.base.push(value);
            let mut single: Vec<T> = Vec::new();
            single.push(d);
            let delta = GSet { base: single };
            proof {
                assert(views_of(delta.base@) =~= seq![d@]);
                lemma_to_set_single(d@);
                assert(delta.atoms() == Set::<T::V>::empty().insert(value@));
                assert(delta.wf());
            }
            delta
        }
    }

    /// Disjointness of the observable contents.
    pub fn is_disjoint(&self, other: &Self) -> (r: bool)
        ensures
            r == self.atoms().disjoint(other.atoms()),
    {
        let n = self.base.len();
        let mut i: usize = 0;
        while i < n
            invariant
                0 <= i <= n,
                n == self.base@.len(),
                forall|j: int|
                    0 <= j < i ==> !other.atoms().contains(#[trigger] views_of(self.base@)[j]),
            decreases n - i,
        {
            if other.contains(&self.base[i]) {
                proof {
                    assert(self.atoms().contains(views_of(self.base@)[i as int]));
                }
                return false;
            }
            i = i + 1;
        }
        proof {
            assert forall|v: T::V| self.atoms().contains(v) implies !other.atoms().contains(
                v,
            ) by {
                let j = choose|j: int|
                    0 <= j < views_of(self.base@).len() && views_of(self.base@)[j] == v;
            }
        }
        true
    }

    /// True when every element of `self` is held by `other`.
    pub fn is_subset(&self, other: &Self) -> (r: bool)
        ensures
            r == self.atoms().subset_of(other.atoms()),
    {
        let n = self.base.len();
        let mut i: usize = 0;
        while i < n
            invariant
                0 <= i <= n,
                n == self.base@.len(),
                forall|j: int|
                    0 <= j < i ==> other.atoms().contains(#[trigger] views_of(self.base@)[j]),
            decreases n - i,
        {
            if !other.contains(&self.base[i]) {
                proof {
                    assert(self.atoms().contains(views_of(self.base@)[i as int]));
                }
                return false;
            }
            i = i + 1;
        }
        proof {
            assert forall|v: T::V| self.atoms().contains(v) implies other.atoms().contains(v) by {
                let j = choose|j: int|
                    0 <= j < views_of(self.base@).len() && views_of(self.base@)[j] == v;
            }
        }
        true
    }

    /// True when `self` holds every element of `other`.
    pub fn is_superset(&self, other: &Self) -> (r: bool)
        ensures
            r == other.atoms().subset_of(self.atoms()),
    {
        other.is_subset(self)
    }

    /// The cardinality of the set equals the piece count of its
    /// decomposition.
    pub proof fn lemma_count_is_card(&self)
        requires
            self.wf(),
        ensures
            self.count_spec() == self.atoms().len(),
    {
        views_of(self.base@).unique_seq_to_set();
    }

    /// A unit piece of a grow-only set carries exactly one element.
    pub proof fn lemma_unit_singleton(&self)
        requires
            self.wf(),
            self.is_unit(),
        ensures
            self.atoms().len() == 1,
    {
        assert(views_of(self.base@) =~= seq![self.base@[0]@]);
        lemma_to_set_single(self.base@[0]@);
        assert(self.atoms() == Set::<T::V>::empty().insert(self.base@[0]@));
    }

    /// The single element of a unit decomposition; the error otherwise.
    pub fn extract(&self) -> (r: Result<T, ExtractError>)
        requires
            self.wf(),
        ensures
            r.is_ok() <==> self.is_unit(),
            r matches Ok(v) ==> self.atoms() == Set::<T::V>::empty().insert(v@),
    {
        if self.base.len() == 1 {
            let v = self.base[0].dup();
            proof {
                assert(views_of(self.base@) =~= seq![self.base@[0]@]);
                lemma_to_set_single(self.base@[0]@);
                assert(self.atoms() == Set::<T::V>::empty().insert(v@));
            }
            Ok(v)
        } else {
            Err(ExtractError)
        }
    }
}

impl<T: Carrier> Decompose for GSet<T> {
    type Atom = T::V;

    closed spec fn atoms(&self) -> Set<T::V> {
        views_of(self.base@).to_set()
    }

    closed spec fn wf(&self) -> bool {
        views_of(self.base@).no_duplicates()
    }

    open spec fn atom_ok(x: T::V, y: T::V) -> bool {
        true
    }

    closed spec fn is_unit(&self) -> bool {
        self.base@.len() == 1
    }

    closed spec fn unit_key(&self) -> Seq<u8> {
        T::key_view(self.base@[0]@)
    }

    open spec fn atom_piece_key(s: Set<T::V>, a: T::V) -> Seq<u8> {
        T::key_view(a)
    }

    closed spec fn count_spec(&self) -> nat {
        self.base@.len() as nat
    }

    open spec fn diff_spec(s: Set<T::V>, t: Set<T::V>) -> Set<T::V> {
        s.difference(t)
    }

    proof fn wf_facts(&self) {
        vstd::seq_lib::seq_to_set_is_finite(views_of(self.base@));
        if self.is_unit() {
            assert(self.atoms().contains(views_of(self.base@)[0]));
        }
    }

    fn bottom() -> (r: Self) {
        Self::new()
    }

    fn split(&self) -> (r: Vec<Self>) {
        let n = self.base.len();
        let mut r: Vec<Self> = Vec::new();
        let mut i: usize = 0;
        while i < n
            invariant
                0 <= i <= n,
                n == self.base@.len(),
                self.wf(),
                r@.len() == i,
                forall|k: int|
                    0 <= k < i ==> (#[trigger] r@[k]).wf() && r@[k].is_unit()
                        && r@[k].atoms() == Set::<T::V>::empty().insert(views_of(self.base@)[k]),
                sets_union(r@.map_values(|p: Self| p.atoms())) == views_of(self.base@).take(
                    i as int,
                ).to_set(),
            decreases n - i,
        {
            let mut single: Vec<T> = Vec::new();
            single.push(self.base[i].dup());
            let piece = GSet { base: single };
            proof {
                assert(views_of(piece.base@) =~= seq![self.base@[i as int]@]);
                lemma_to_set_single(self.base@[i as int]@);
                assert(piece.atoms() == Set::<T::V>::empty().insert(
                    views_of(self.base@)[i as int],
                ));
                assert(r@.push(piece).map_values(|p: Self| p.atoms()) =~= r@.map_values(
                    |p: Self| p.atoms(),
                ).push(piece.atoms()));
                lemma_sets_union_push(r@.map_values(|p: Self| p.atoms()), piece.atoms());
                assert(views_of(self.base@).take(i + 1) =~= views_of(self.base@).take(
                    i as int,
                ).push(views_of(self.base@)[i as int]));
                lemma_to_set_push(
                    views_of(self.base@).take(i as int),
                    views_of(self.base@)[i as int],
                );
                assert(views_of(self.base@).take(i as int).to_set().insert(
                    views_of(self.base@)[i as int],
                ) =~= views_of(self.base@).take(i + 1).to_set());
            }
            r.push(piece);
            i = i + 1;
        }
        proof {
            assert(views_of(self.base@).take(n as int) =~= views_of(self.base@));
            assert forall|k: int| 0 <= k < r@.len() implies (#[trigger] r@[k]).atoms().subset_of(
                self.atoms(),
            ) by {
                assert(views_of(self.base@).contains(views_of(self.base@)[k]));
            }
            assert forall|i: int, j: int|
                0 <= i < r@.len() && 0 <= j < r@.len() && i != j implies (
            #[trigger] r@[i]).atoms().disjoint((#[trigger] r@[j]).atoms()) by {
                assert(views_of(self.base@)[i] != views_of(self.base@)[j]);
            }
            assert forall|i: int, a: T::V|
                0 <= i < r@.len() && #[trigger] r@[i].atoms().contains(a) implies r@[i].unit_key()
                == Self::atom_piece_key(self.atoms(), a) by {
                assert(a == views_of(self.base@)[i]);
            }
        }
        r
    }

    fn join(&mut self, deltas: Vec<Self>) {
        let ghost orig = *self;
        let nd = deltas.len();
        let mut di: usize = 0;
        while di < nd
            invariant
                0 <= di <= nd,
                nd == deltas@.len(),
                self.wf(),
                self.atoms() == orig.atoms().union(
                    sets_union(deltas@.take(di as int).map_values(|p: Self| p.atoms())),
                ),
            decreases nd - di,
        {
            let ghost before = *self;
            let m = deltas[di].base.len();
            let mut j: usize = 0;
            while j < m
                invariant
                    0 <= j <= m,
                    0 <= di < nd,
                    nd == deltas@.len(),
                    m == deltas@[di as int].base@.len(),
                    self.wf(),
                    self.atoms() == before.atoms().union(
                        views_of(deltas@[di as int].base@).take(j as int).to_set(),
                    ),
                decreases m - j,
            {
                let e = deltas[di].base[j].dup();
                proof {
                    assert(views_of(deltas@[di as int].base@).take(j + 1) =~= views_of(
                        deltas@[di as int].base@,
                    ).take(j as int).push(e@));
                    lemma_to_set_push(views_of(deltas@[di as int].base@).take(j as int), e@);
                }
                if !self.contains(&e) {
                    proof {
                        assert(!views_of(self.base@).contains(e@));
                        lemma_views_of_push(self.base@, e);
                        lemma_to_set_push(views_of(self.base@), e@);
                    }
                    self.base.push(e);
                    proof {
                        assert(self.atoms() =~= before.atoms().union(
                            views_of(deltas@[di as int].base@).take(j + 1).to_set(),
                        ));
                    }
                } else {
                    proof {
                        assert(self.atoms() =~= before.atoms().union(
                            views_of(deltas@[di as int].base@).take(j + 1).to_set(),
                        ));
                    }
                }
                j = j + 1;
            }
            proof {
                assert(views_of(deltas@[di as int].base@).take(m as int) =~= views_of(
                    deltas@[di as int].base@,
                ));
                assert(deltas@.take(di + 1) =~= deltas@.take(di as int).push(deltas@[di as int]));
                assert(deltas@.take(di + 1).map_values(|p: Self| p.atoms()) =~= deltas@.take(
                    di as int,
                ).map_values(|p: Self| p.atoms()).push(deltas@[di as int].atoms()));
                lemma_sets_union_push(
                    deltas@.take(di as int).map_values(|p: Self| p.atoms()),
                    deltas@[di as int].atoms(),
                );
                assert(self.atoms() =~= orig.atoms().union(
                    sets_union(deltas@.take(di + 1).map_values(|p: Self| p.atoms())),
                ));
            }
            di = di + 1;
        }
        proof {
            assert(deltas@.take(nd as int) =~= deltas@);
        }
    }

    fn difference(&self, other: &Self) -> (d: Self) {
        let n = self.base.len();
        let mut out: Vec<T> = Vec::new();
        let mut i: usize = 0;
        while i < n
            invariant
                0 <= i <= n,
                n == self.base@.len(),
                self.wf(),
                views_of(out@).no_duplicates(),
                views_of(out@).to_set() == views_of(self.base@).take(i as int).to_set().difference(
                    other.atoms(),
                ),
            decreases n - i,
        {
            let keep = !other.contains(&self.base[i]);
            proof {
                assert(views_of(self.base@).take(i + 1) =~= views_of(self.base@).take(
                    i as int,
                ).push(views_of(self.base@)[i as int]));
                lemma_to_set_push(
                    views_of(self.base@).take(i as int),
                    views_of(self.base@)[i as int],
                );
            }
            if keep {
                let e = self.base[i].dup();
                proof {
                    let v = views_of(self.base@)[i as int];
                    assert(e@ == v);
                    assert(!views_of(self.base@).take(i as int).to_set().contains(v)) by {
                        if views_of(self.base@).take(i as int).to_set().contains(v) {
                            let k = choose|k: int|
                                0 <= k < i && views_of(self.base@).take(i as int)[k] == v;
                            assert(views_of(self.base@)[k] == v);
                            assert(false);
                        }
                    }
                    assert(!views_of(out@).to_set().contains(v));
                    assert(!views_of(out@).contains(v));
                    lemma_views_of_push(out@, e);
                    lemma_to_set_push(views_of(out@), e@);
                }
                out.push(e);
                proof {
                    assert(views_of(out@).to_set() =~= views_of(self.base@).take(
                        i + 1,
                    ).to_set().difference(other.atoms()));
                }
            } else {
                proof {
                    assert(views_of(out@).to_set() =~= views_of(self.base@).take(
                        i + 1,
                    ).to_set().difference(other.atoms()));
                }
            }
            i = i + 1;
        }
        let d = GSet { base: out };
        proof {
            assert(views_of(self.base@).take(n as int) =~= views_of(self.base@));
            assert(d.atoms() == self.atoms().difference(other.atoms()));
            assert(d.atoms() == Self::diff_spec(self.atoms(), other.atoms()));
            assert(other.atoms().union(d.atoms()) =~= other.atoms().union(self.atoms()));
            if self.atoms().subset_of(other.atoms()) {
                assert(d.atoms() =~= Set::<T::V>::empty());
            }
        }
        d
    }

    fn key_bytes(&self) -> (r: Result<Vec<u8>, ExtractError>) {
        if self.base.len() == 1 {
            Ok(self.base[0].bytes())
        } else {
            Err(ExtractError)
        }
    }
}

impl Measure for GSet<String> {
    type Obs = Seq<char>;

    open spec fn obs_of(s: Set<Seq<char>>) -> Set<Seq<char>> {
        s
    }

    open spec fn size_spec(s: Set<Seq<char>>) -> nat {
        set_nat_sum(s, |v: Seq<char>| vstd::utf8::encode_utf8(v).len())
    }

    proof fn obs_facts(&self) {
        vstd::seq_lib::seq_to_set_is_finite(views_of(self.base@));
    }

    fn len(replica: &Self) -> (r: usize) {
        replica.base.len()
    }

    fn size_of(replica: &Self) -> (r: usize) {
        let ghost f = |v: Seq<char>| vstd::utf8::encode_utf8(v).len();
        let n = replica.base.len();
        let mut sum: usize = 0;
        let mut i: usize = 0;
        proof {
            crate::decompose::lemma_set_nat_sum_empty(f);
            assert(views_of(replica.base@).take(0).to_set() =~= Set::<Seq<char>>::empty());
        }
        while i < n
            invariant
                0 <= i <= n,
                n == replica.base@.len(),
                replica.wf(),
                sum == clip_nat(
                    set_nat_sum(views_of(replica.base@).take(i as int).to_set(), f),
                ),
                f == (|v: Seq<char>| vstd::utf8::encode_utf8(v).len()),
            decreases n - i,
        {
            let bv = replica.base[i].as_str().as_bytes_vec();
            let b = bv.len();
            proof {
                let pre = views_of(replica.base@).take(i as int).to_set();
                let v = views_of(replica.base@)[i as int];
                assert(v == replica.base@[i as int]@);
                assert(views_of(replica.base@).take(i + 1) =~= views_of(replica.base@).take(
                    i as int,
                ).push(v));
                lemma_to_set_push(views_of(replica.base@).take(i as int), v);
                assert(!views_of(replica.base@).take(i as int).contains(v)) by {
                    assert(forall|k: int|
                        0 <= k < i ==> views_of(replica.base@).take(i as int)[k] == views_of(
                            replica.base@,
                        )[k]);
                }
                vstd::seq_lib::seq_to_set_is_finite(views_of(replica.base@).take(i as int));
                lemma_set_nat_sum_insert(pre, f, v);
                assert(b == f(v));
            }
            sum = sum.saturating_add(b);
            i = i + 1;
        }
        proof {
            assert(views_of(replica.base@).take(n as int) =~= views_of(replica.base@));
        }
        sum
    }

    fn false_matches(&self, other: &Self) -> (r: usize) {
        let a = count_missing(self, other);
        let b = count_missing(other, self);
        proof {
            let sa = self.atoms().difference(other.atoms());
            let sb = other.atoms().difference(self.atoms());
            vstd::seq_lib::seq_to_set_is_finite(views_of(self.base@));
            vstd::seq_lib::seq_to_set_is_finite(views_of(other.base@));
            assert(sa.finite());
            assert(sb.finite());
            assert(sa.disjoint(sb));
            lemma_len_disjoint_union(sa, sb);
            views_of(self.base@).unique_seq_to_set();
            views_of(other.base@).unique_seq_to_set();
            vstd::set_lib::lemma_len_subset(sa, self.atoms());
            vstd::set_lib::lemma_len_subset(sb, other.atoms());
        }
        a.saturating_add(b)
    }
}

/// How many elements of `a` are absent from `b`.
fn count_missing<T: Carrier>(a: &GSet<T>, b: &GSet<T>) -> (r: usize)
    requires
        a.wf(),
    ensures
        r == a.atoms().difference(b.atoms()).len(),
        r <= a.atoms().len(),
{
    let n = a.base.len();
    let mut count: usize = 0;
    let mut i: usize = 0;
    proof {
        assert(views_of(a.base@).take(0).to_set().difference(b.atoms()) =~= Set::<
            T::V,
        >::empty());
    }
    while i < n
        invariant
            0 <= i <= n,
            n == a.base@.len(),
            a.wf(),
            count <= i,
            count == views_of(a.base@).take(i as int).to_set().difference(b.atoms()).len(),
        decreases n - i,
    {
        let absent = !b.contains(&a.base[i]);
        proof {
            let pre = views_of(a.base@).take(i as int).to_set();
            let v = views_of(a.base@)[i as int];
            assert(views_of(a.base@).take(i + 1) =~= views_of(a.base@).take(i as int).push(v));
            lemma_to_set_push(views_of(a.base@).take(i as int), v);
            assert(!views_of(a.base@).take(i as int).contains(v)) by {
                assert(forall|k: int|
                    0 <= k < i ==> views_of(a.base@).take(i as int)[k] == views_of(a.base@)[k]);
            }
            vstd::seq_lib::seq_to_set_is_finite(views_of(a.base@).take(i as int));
            if b.atoms().contains(v) {
                assert(pre.insert(v).difference(b.atoms()) =~= pre.difference(b.atoms()));
            } else {
                assert(pre.insert(v).difference(b.atoms()) =~= pre.difference(b.atoms()).insert(
                    v,
                ));
                assert(!pre.difference(b.atoms()).contains(v));
                vstd::set_lib::lemma_len_subset(pre.difference(b.atoms()), pre);
            }
        }
        if absent {
            count = count + 1;
        }
        i = i + 1;
    }
    proof {
        assert(views_of(a.base@).take(n as int) =~= views_of(a.base@));
        vstd::seq_lib::seq_to_set_is_finite(views_of(a.base@));
        vstd::set_lib::lemma_len_subset(a.atoms().difference(b.atoms()), a.atoms());
    }
    count
}

} // verus!
