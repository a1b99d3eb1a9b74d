//! Grow-only counter: a map from replica id to the number of increments that
//! replica has issued. The join takes the entry-wise maximum. An atom of the
//! model is one unit of one replica's tally, `(id, n)` with `1 <= n <= count`,
//! so the atoms of an entry form a downward-closed run and joining two states
//! is, again, union of atoms.

use vstd::prelude::*;

use crate::carrier::Carrier;
use crate::decompose::{
    clip_nat, lemma_len_disjoint_union, lemma_sets_union_push, sets_union, sym_diff, Decompose,
    ExtractError, Measure,
};

verus! {

/// The tally units of a single entry: `(v, 1) .. (v, c)`.
pub open spec fn down<V>(v: V, c: u64) -> Set<(V, u64)> {
    Set::new(|a: (V, u64)| a.0 == v && 1 <= a.1 <= c)
}

/// The atoms of a list of entries.
pub open spec fn entries_atoms<I: Carrier>(s: Seq<(I, u64)>) -> Set<(I::V, u64)>
    decreases s.len(),
{
    if s.len() == 0 {
        Set::empty()
    } else {
        entries_atoms(s.drop_last()).union(down(s.last().0@, s.last().1))
    }
}

/// The id views of a list of entries.
pub open spec fn ids_of<I: Carrier>(s: Seq<(I, u64)>) -> Seq<I::V> {
    s.map_values(|e: (I, u64)| e.0@)
}

/// A downset is finite.
pub proof fn lemma_down_finite<V>(v: V, c: u64)
    ensures
        down(v, c).finite(),
        down(v, c).len() == c,
    decreases c,
{
    if c == 0 {
        assert(down(v, c) =~= Set::<(V, u64)>::empty());
    } else {
        lemma_down_finite(v, (c - 1) as u64);
        assert(down(v, c) =~= down(v, (c - 1) as u64).insert((v, c)));
    }
}

/// Atoms of a list of entries with distinct ids are exactly the tally units
/// reachable through some entry.
pub proof fn lemma_entries_atoms_lookup<I: Carrier>(s: Seq<(I, u64)>)
    ensures
        forall|a: (I::V, u64)|
            entries_atoms(s).contains(a) <==> exists|k: int|
                0 <= k < s.len() && (#[trigger] s[k]).0@ == a.0 && 1 <= a.1 <= s[k].1,
    decreases s.len(),
{
    if s.len() > 0 {
        lemma_entries_atoms_lookup(s.drop_last());
        assert forall|a: (I::V, u64)| entries_atoms(s).contains(a) implies exists|k: int|
            0 <= k < s.len() && (#[trigger] s[k]).0@ == a.0 && 1 <= a.1 <= s[k].1 by {
            if entries_atoms(s.drop_last()).contains(a) {
                let k = choose|k: int|
                    0 <= k < s.drop_last().len() && (#[trigger] s.drop_last()[k]).0@ == a.0 && 1
                        <= a.1 <= s.drop_last()[k].1;
                assert(s[k].0@ == a.0 && 1 <= a.1 <= s[k].1);
            } else {
                assert(s[s.len() - 1].0@ == a.0 && 1 <= a.1 <= s[s.len() - 1].1);
            }
        }
        assert forall|a: (I::V, u64)|
            exists|k: int|
                0 <= k < s.len() && (#[trigger] s[k]).0@ == a.0 && 1 <= a.1
                    <= s[k].1 implies entries_atoms(s).contains(a) by {
            let k = choose|k: int|
                0 <= k < s.len() && (#[trigger] s[k]).0@ == a.0 && 1 <= a.1 <= s[k].1;
            if k < s.len() - 1 {
                assert(s.drop_last()[k] == s[k]);
                assert(entries_atoms(s.drop_last()).contains(a));
            } else {
                assert(down(s.last().0@, s.last().1).contains(a));
            }
        }
    }
}



/// Produces the entry through which an atom is reachable.
pub proof fn lemma_atom_entry<I: Carrier>(s: Seq<(I, u64)>, a: (I::V, u64)) -> (k: int)
    requires
        entries_atoms(s).contains(a),
    ensures
        0 <= k < s.len(),
        s[k].0@ == a.0,
        1 <= a.1 <= s[k].1,
    decreases s.len(),
{
    if s.len() == 0 {
        assert(false);
        0
    } else if entries_atoms(s.drop_last()).contains(a) {
        let k = lemma_atom_entry(s.drop_last(), a);
        assert(s.drop_last()[k] == s[k]);
        k
    } else {
        assert(down(s.last().0@, s.last().1).contains(a));
        s.len() - 1
    }
}

/// Every unit of an entry's tally is an atom.
pub proof fn lemma_entry_atom<I: Carrier>(s: Seq<(I, u64)>, k: int, n: u64)
    requires
        0 <= k < s.len(),
        1 <= n <= s[k].1,
    ensures
        entries_atoms(s).contains((s[k].0@, n)),
    decreases s.len(),
{
    if k == s.len() - 1 {
        assert(down(s.last().0@, s.last().1).contains((s[k].0@, n)));
    } else {
        assert(s.drop_last()[k] == s[k]);
        lemma_entry_atom(s.drop_last(), k, n);
    }
}

/// Entries with distinct ids: equal ids force equal indices.
pub proof fn lemma_unique_id<I: Carrier>(s: Seq<(I, u64)>, k1: int, k2: int)
    requires
        ids_of(s).no_duplicates(),
        0 <= k1 < s.len(),
        0 <= k2 < s.len(),
        s[k1].0@ == s[k2].0@,
    ensures
        k1 == k2,
{
    if k1 != k2 {
        assert(ids_of(s)[k1] == s[k1].0@);
        assert(ids_of(s)[k2] == s[k2].0@);
        assert(ids_of(s)[k1] != ids_of(s)[k2]);
        assert(false);
    }
}

/// A one-entry list holds exactly the downset of its entry.
pub proof fn lemma_entries_atoms_single<I: Carrier>(e: (I, u64))
    ensures
        entries_atoms(seq![e]) == down(e.0@, e.1),
{
    assert(seq![e].drop_last() =~= Seq::<(I, u64)>::empty());
    assert(entries_atoms(seq![e].drop_last()) == Set::<(I::V, u64)>::empty());
    assert(seq![e].last() == e);
    assert(entries_atoms(seq![e]) =~= down(e.0@, e.1));
}

/// A grow-only counter keyed by carrier replica ids.
#[derive(Debug)]
pub struct GCounter<I: Carrier> {
    inner: Vec<(I, u64)>,
}

impl<I: Carrier> GCounter<I> {
    /// The sum of all entries, as a mathematical integer.
    pub closed spec fn total(&self) -> int {
        spec_entries_total(self.inner@)
    }

    /// An empty counter.
    pub fn new() -> (r: Self)
        ensures
            r.wf(),
            r.atoms() == Set::<(I::V, u64)>::empty(),
            r.total() == 0,
    {
        let r = GCounter { inner: Vec::new() };
        proof {
            assert(r.atoms() =~= Set::<(I::V, u64)>::empty());
        }
        r
    }

    /// The tally of one replica id, when present.
    pub fn count_of(&self, id: &I) -> (r: Option<u64>)
        requires
            self.wf(),
        ensures
            r matches Some(c) ==> c >= 1 && self.atoms().contains((id@, c)) && forall|n: u64|
                n > c ==> !self.atoms().contains((id@, n)),
            r is None ==> forall|n: u64| !self.atoms().contains((id@, n)),
    {
        let found = find_entry(&self.inner, id);
        proof {
            lemma_entries_atoms_lookup(self.inner@);
        }
        match found {
            Some(k) => {
                let c = self.inner[k].1;
                proof {
                    assert(self.inner@[k as int].0@ == id@ && 1 <= c <= self.inner@[k as int].1);
                    lemma_entry_atom(self.inner@, k as int, c);
                    assert(self.atoms().contains((id@, c)));
                    assert forall|n: u64| n > c implies !self.atoms().contains((id@, n)) by {
                        if self.atoms().contains((id@, n)) {
                            let k2 = lemma_atom_entry(self.inner@, (id@, n));
                            lemma_unique_id(self.inner@, k2, k as int);
                            assert(false);
                        }
                    }
                }
                Some(c)
            },
            None => {
                proof {
                    assert forall|m: u64| !self.atoms().contains((id@, m)) by {
                        if self.atoms().contains((id@, m)) {
                            let k = lemma_atom_entry(self.inner@, (id@, m));
                            assert(false);
                        }
                    }
                }
                None
            },
        }
    }

    /// The total number of increments across all replicas.
    pub fn count(&self) -> (r: u64)
        requires
            self.wf(),
            self.total() <= u64::MAX,
        ensures
            r == self.total(),
    {
        let n = self.inner.len();
        let mut sum: u64 = 0;
        let mut i: usize = 0;
        proof {
            assert(self.inner@.take(0) =~= Seq::<(I, u64)>::empty());
            lemma_entries_total_prefix(self.inner@, 0);
        }
        while i < n
            invariant
                0 <= i <= n,
                n == self.inner@.len(),
                self.wf(),
                self.total() <= u64::MAX,
                sum == spec_entries_total(self.inner@.take(i as int)),
                sum <= self.total(),
            decreases n - i,
        {
            proof {
                assert(self.inner@.take(i + 1).drop_last() =~= self.inner@.take(i as int));
                assert(self.inner@.take(i + 1).last() == self.inner@[i as int]);
                lemma_entries_total_prefix(self.inner@, i + 1);
            }
            sum = sum + self.inner[i].1;
            i = i + 1;
        }
        proof {
            assert(self.inner@.take(n as int) =~= self.inner@);
        }
        sum
    }

    /// Increments `id`, creating its entry at 1 when absent; the returned
    /// delta carries just that entry.
    pub fn increment(&mut self, id: &I) -> (delta: Self)
        requires
            old(self).wf(),
            old(self).total() < u64::MAX,
        ensures
            final(self).wf(),
            delta.wf(),
            delta.is_unit(),
            final(self).atoms() == old(self).atoms().insert(
                (id@, next_tally(old(self).atoms(), id@)),
            ),
            delta.atoms() == down(id@, next_tally(old(self).atoms(), id@)),
            !old(self).atoms().contains((id@, next_tally(old(self).atoms(), id@))),
            final(self).total() == old(self).total() + 1,
    {
        let found = find_entry(&self.inner, id);
        proof {
            lemma_entries_atoms_lookup(self.inner@);
        }
        match found {
            Some(k) => {
                proof {
                    lemma_entries_total_le(self.inner@, k as int);
                }
                let c = self.inner[k].1;
                let newc = c + 1;
                let dup_id = self.inner[k].0.dup();
                let ghost pre = self.inner@;
                self.inner[k].1 = newc;
                let mut single: Vec<(I, u64)> = Vec::new();
                single.push((dup_id, newc));
                let delta = GCounter { inner: single };
                proof {
                    assert(ids_of(self.inner@) =~= ids_of(pre));
                    lemma_entry_atom(pre, k as int, c);
                    assert(has_id(entries_atoms(pre), id@)) by {
                        assert(entries_atoms(pre).contains((id@, c)));
                    }
                    lemma_top_count(pre, k as int);
                    assert(next_tally(entries_atoms(pre), id@) == newc);
                    lemma_entries_atoms_update(pre, self.inner@, k as int, id@, newc);
                    assert(delta.inner@ =~= seq![(dup_id, newc)]);
                    lemma_entries_atoms_single((dup_id, newc));
                    assert(delta.atoms() == down(id@, newc));
                    assert(ids_of(delta.inner@).no_duplicates());
                    lemma_entries_total_update(pre, self.inner@, k as int);
                    let ghost a = (id@, newc);
                    assert(!entries_atoms(pre).contains(a)) by {
                        if entries_atoms(pre).contains(a) {
                            let k2 = lemma_atom_entry(pre, a);
                            lemma_unique_id(pre, k2, k as int);
                            assert(false);
                        }
                    }
                    assert(1 <= newc && !old(self).atoms().contains((id@, newc)) && self.atoms()
                        == old(self).atoms().insert((id@, newc)) && delta.atoms() == down(
                        id@,
                        newc,
                    ));
                }
                delta
            },
            None => {
                let dup_id = id.dup();
                let ghost pre = self.inner@;
                self.inner.push((dup_id, 1));
                let mut single: Vec<(I, u64)> = Vec::new();
                single.push((id.dup(), 1));
                let delta = GCounter { inner: single };
                proof {
                    assert(!has_id(entries_atoms(pre), id@)) by {
                        if has_id(entries_atoms(pre), id@) {
                            let m = choose|m: u64| #[trigger] entries_atoms(pre).contains((id@, m));
                            let k2 = lemma_atom_entry(pre, (id@, m));
                            assert(false);
                        }
                    }
                    assert(next_tally(entries_atoms(pre), id@) == 1);
                    assert(self.inner@ =~= pre.push((dup_id, 1)));
                    lemma_entries_atoms_push(pre, (dup_id, 1));
                    assert(entries_atoms(self.inner@) == entries_atoms(pre).union(down(id@, 1)));
                    assert(down(id@, 1) =~= Set::<(I::V, u64)>::empty().insert((id@, 1)));
                    assert(entries_atoms(self.inner@) =~= entries_atoms(pre).insert((id@, 1)));
                    assert(ids_of(self.inner@) =~= ids_of(pre).push(id@));
                    crate::gset::lemma_to_set_push(ids_of(pre), id@);
                    assert forall|k: int| 0 <= k < pre.len() implies (#[trigger] ids_of(pre)[k])
                        != id@ by {
                        assert(pre[k].0@ != id@);
                    }
                    assert(!ids_of(pre).contains(id@));
                    assert(ids_of(self.inner@).no_duplicates());
                    assert(!entries_atoms(pre).contains((id@, 1))) by {
                        if entries_atoms(pre).contains((id@, 1)) {
                            let k2 = lemma_atom_entry(pre, (id@, 1));
                            assert(false);
                        }
                    }
                    assert(delta.inner@ =~= seq![(delta.inner@[0].0, 1u64)]);
                    lemma_entries_atoms_single(delta.inner@[0]);
                    assert(delta.atoms() == down(id@, 1));
                    assert(ids_of(delta.inner@).no_duplicates());
                    assert(self.inner@.drop_last() =~= pre);
                    assert(spec_entries_total(self.inner@) == spec_entries_total(pre) + 1);
                    assert(1 <= 1u64 && !old(self).atoms().contains((id@, 1u64)) && self.atoms()
                        == old(self).atoms().insert((id@, 1u64)) && delta.atoms() == down(
                        id@,
                        1u64,
                    ));
                }
                delta
            },
        }
    }

    /// The whole state as one delta.
    pub fn as_delta(&self) -> (d: Self)
        requires
            self.wf(),
        ensures
            d.wf(),
            d.atoms() == self.atoms(),
            d.entries() == self.entries(),
    {
        let n = self.inner.len();
        let mut out: Vec<(I, u64)> = Vec::new();
        let mut i: usize = 0;
        while i < n
            invariant
                0 <= i <= n,
                n == self.inner@.len(),
                out@.len() == i,
                forall|k: int|
                    0 <= k < i ==> (#[trigger] out@[k]).0@ == self.inner@[k].0@ && out@[k].1
                        == self.inner@[k].1,
            decreases n - i,
        {
            let e = (self.inner[i].0.dup(), self.inner[i].1);
            out.push(e);
            i = i + 1;
        }
        let d = GCounter { inner: out };
        proof {
            assert(ids_of(d.inner@) =~= ids_of(self.inner@));
            lemma_entries_atoms_lookup(d.inner@);
            lemma_entries_atoms_lookup(self.inner@);
            assert forall|a: (I::V, u64)| d.atoms().contains(a) implies self.atoms().contains(
                a,
            ) by {
                let k = choose|k: int|
                    0 <= k < d.inner@.len() && (#[trigger] d.inner@[k]).0@ == a.0 && 1 <= a.1
                        <= d.inner@[k].1;
                assert(self.inner@[k].0@ == a.0 && 1 <= a.1 <= self.inner@[k].1);
            }
            assert forall|a: (I::V, u64)| self.atoms().contains(a) implies d.atoms().contains(
                a,
            ) by {
                let k = choose|k: int|
                    0 <= k < self.inner@.len() && (#[trigger] self.inner@[k]).0@ == a.0 && 1 <= a.1
                        <= self.inner@[k].1;
                assert(d.inner@[k].0@ == a.0 && 1 <= a.1 <= d.inner@[k].1);
            }
            assert(d.atoms() =~= self.atoms());
        }
        d
    }

    /// The number of entries.
    pub closed spec fn entries(&self) -> nat {
        self.inner@.len() as nat
    }

    /// The single entry of a unit decomposition; the error otherwise.
    pub fn extract(&self) -> (r: Result<(I, u64), ExtractError>)
        requires
            self.wf(),
        ensures
            r.is_ok() <==> self.is_unit(),
            r matches Ok(p) ==> p.1 >= 1 && self.atoms() == down(p.0@, p.1),
    {
        if self.inner.len() == 1 {
            let p = (self.inner[0].0.dup(), self.inner[0].1);
            proof {
                assert(self.inner@ =~= seq![self.inner@[0]]);
                lemma_entries_atoms_single(self.inner@[0]);
                assert(self.atoms() == down(p.0@, p.1));
            }
            Ok(p)
        } else {
            Err(ExtractError)
        }
    }
}

/// The sum of the entry values.
pub open spec fn spec_entries_total<I: Carrier>(s: Seq<(I, u64)>) -> int
    decreases s.len(),
{
    if s.len() == 0 {
        0
    } else {
        spec_entries_total(s.drop_last()) + s.last().1
    }
}

/// Prefix sums never exceed the total.
proof fn lemma_entries_total_prefix<I: Carrier>(s: Seq<(I, u64)>, i: int)
    requires
        0 <= i <= s.len(),
    ensures
        spec_entries_total(s.take(i)) <= spec_entries_total(s),
        spec_entries_total(s) >= 0,
    decreases s.len(),
{
    if s.len() == 0 {
    } else if i == s.len() {
        assert(s.take(i) =~= s);
        lemma_entries_total_prefix(s.drop_last(), i - 1);
    } else {
        assert(s.drop_last().take(i) =~= s.take(i));
        lemma_entries_total_prefix(s.drop_last(), i);
    }
}

/// Each single entry contributes no more than the total.
proof fn lemma_entries_total_le<I: Carrier>(s: Seq<(I, u64)>, i: int)
    requires
        0 <= i < s.len(),
    ensures
        s[i].1 <= spec_entries_total(s),
    decreases s.len(),
{
    if i == s.len() - 1 {
        lemma_entries_total_prefix(s.drop_last(), s.len() - 1);
    } else {
        assert(s.drop_last()[i] == s[i]);
        lemma_entries_total_le(s.drop_last(), i);
    }
}

/// Raising one entry by one raises the total by one.
proof fn lemma_entries_total_update<I: Carrier>(pre: Seq<(I, u64)>, post: Seq<(I, u64)>, i: int)
    requires
        0 <= i < pre.len(),
        post.len() == pre.len(),
        forall|k: int| 0 <= k < pre.len() && k != i ==> post[k] == pre[k],
        post[i].1 == pre[i].1 + 1,
    ensures
        spec_entries_total(post) == spec_entries_total(pre) + 1,
    decreases pre.len(),
{
    if i == pre.len() - 1 {
        assert(post.drop_last() =~= pre.drop_last());
    } else {
        assert(post.drop_last().len() == pre.drop_last().len());
        lemma_entries_total_update(pre.drop_last(), post.drop_last(), i);
        assert(post.last() == pre.last());
    }
}

/// Raising the entry at `i` to `newc` extends the atoms by the new top unit.
proof fn lemma_entries_atoms_update<I: Carrier>(
    pre: Seq<(I, u64)>,
    post: Seq<(I, u64)>,
    i: int,
    v: I::V,
    newc: u64,
)
    requires
        0 <= i < pre.len(),
        post.len() == pre.len(),
        forall|k: int| 0 <= k < pre.len() && k != i ==> post[k] == pre[k],
        post[i].0@ == pre[i].0@,
        pre[i].0@ == v,
        newc == pre[i].1 + 1,
        post[i].1 == newc,
        ids_of(pre).no_duplicates(),
    ensures
        entries_atoms(post) == entries_atoms(pre).insert((v, newc)),
{
    lemma_entries_atoms_lookup(pre);
    lemma_entries_atoms_lookup(post);
    assert forall|a: (I::V, u64)| entries_atoms(post).contains(a) implies entries_atoms(
        pre,
    ).insert((v, newc)).contains(a) by {
        let k = choose|k: int|
            0 <= k < post.len() && (#[trigger] post[k]).0@ == a.0 && 1 <= a.1 <= post[k].1;
        if k == i {
            if a.1 <= pre[i].1 {
                assert(pre[i].0@ == a.0 && 1 <= a.1 <= pre[i].1);
            } else {
                assert(a == (v, newc));
            }
        } else {
            assert(pre[k].0@ == a.0 && 1 <= a.1 <= pre[k].1);
        }
    }
    assert forall|a: (I::V, u64)| entries_atoms(pre).insert((v, newc)).contains(
        a,
    ) implies entries_atoms(post).contains(a) by {
        if a == (v, newc) {
            assert(post[i].0@ == a.0 && 1 <= a.1 <= post[i].1);
        } else {
            let k = choose|k: int|
                0 <= k < pre.len() && (#[trigger] pre[k]).0@ == a.0 && 1 <= a.1 <= pre[k].1;
            if k == i {
                assert(post[i].0@ == a.0 && 1 <= a.1 <= post[i].1);
            } else {
                assert(post[k].0@ == a.0 && 1 <= a.1 <= post[k].1);
            }
        }
    }
    assert(entries_atoms(post) =~= entries_atoms(pre).insert((v, newc)));
}

/// Distinct entries carry distinct ids.
pub proof fn lemma_unique_id_contra<I: Carrier>(s: Seq<(I, u64)>, k1: int, k2: int)
    requires
        ids_of(s).no_duplicates(),
        0 <= k1 < s.len(),
        0 <= k2 < s.len(),
        k1 != k2,
    ensures
        s[k1].0@ != s[k2].0@,
{
    assert(ids_of(s)[k1] == s[k1].0@);
    assert(ids_of(s)[k2] == s[k2].0@);
}

/// Whether any tally unit of `id` is present.
pub open spec fn has_id<V>(s: Set<(V, u64)>, id: V) -> bool {
    exists|n: u64| #[trigger] s.contains((id, n))
}

/// The tally `id` reaches after one more increment of a state with atoms
/// `s`.
pub open spec fn next_tally<V>(s: Set<(V, u64)>, id: V) -> u64 {
    if has_id(s, id) {
        (top_count(s, id) + 1) as u64
    } else {
        1
    }
}

/// The grand total of a set of counter atoms: the sum of the visible entry
/// tallies.
pub open spec fn counter_total<V>(s: Set<(V, u64)>) -> nat {
    crate::decompose::set_nat_sum(counter_obs(s), |p: (V, u64)| p.1 as nat)
}

/// The tally an id reaches in a set of counter atoms: the unique maximal
/// unit.
pub open spec fn top_count<V>(s: Set<(V, u64)>, id: V) -> u64 {
    choose|c: u64| s.contains((id, c)) && forall|m: u64| m > c ==> !(#[trigger] s.contains((id, m)))
}

/// In a well-formed counter, the top of an id is its entry value.
pub proof fn lemma_top_count<I: Carrier>(s: Seq<(I, u64)>, k: int)
    requires
        ids_of(s).no_duplicates(),
        0 <= k < s.len(),
        s[k].1 >= 1,
    ensures
        top_count(entries_atoms(s), s[k].0@) == s[k].1,
{
    let id = s[k].0@;
    let c0 = s[k].1;
    lemma_entry_atom(s, k, c0);
    assert forall|m: u64| m > c0 implies !(#[trigger] entries_atoms(s).contains((id, m))) by {
        if entries_atoms(s).contains((id, m)) {
            let k2 = lemma_atom_entry(s, (id, m));
            lemma_unique_id(s, k2, k);
            assert(false);
        }
    }
    assert(entries_atoms(s).contains((id, c0)) && forall|m: u64|
        m > c0 ==> !(#[trigger] entries_atoms(s).contains((id, m))));
    let c = top_count(entries_atoms(s), id);
    assert(entries_atoms(s).contains((id, c)) && forall|m: u64|
        m > c ==> !(#[trigger] entries_atoms(s).contains((id, m))));
    if c != c0 {
        if c > c0 {
            assert(!entries_atoms(s).contains((id, c)));
        } else {
            assert(!entries_atoms(s).contains((id, c0)));
        }
        assert(false);
    }
}

/// The executable total agrees with the atoms: it is the sum of the
/// visible entry tallies.
pub proof fn lemma_total_atoms<I: Carrier>(c: &GCounter<I>)
    requires
        c.wf(),
    ensures
        c.total() == counter_total(c.atoms()),
{
    lemma_obs_entries(c.inner@);
    lemma_total_pairs(c.inner@);
}

/// The entry-list total equals the sum over the entry-pair set.
proof fn lemma_total_pairs<I: Carrier>(s: Seq<(I, u64)>)
    requires
        ids_of(s).no_duplicates(),
        forall|k: int| 0 <= k < s.len() ==> (#[trigger] s[k]).1 >= 1,
    ensures
        spec_entries_total(s) == crate::decompose::set_nat_sum(
            pairs_of(s).to_set(),
            |p: (I::V, u64)| p.1 as nat,
        ),
    decreases s.len(),
{
    let f = |p: (I::V, u64)| p.1 as nat;
    if s.len() == 0 {
        assert(pairs_of(s) =~= Seq::<(I::V, u64)>::empty());
        assert(pairs_of(s).to_set() =~= Set::<(I::V, u64)>::empty());
        crate::decompose::lemma_set_nat_sum_empty(f);
    } else {
        assert(ids_of(s.drop_last()) =~= ids_of(s).drop_last());
        assert forall|k: int| 0 <= k < s.drop_last().len() implies (
        #[trigger] s.drop_last()[k]).1 >= 1 by {
            assert(s.drop_last()[k] == s[k]);
        }
        lemma_total_pairs(s.drop_last());
        let p = (s.last().0@, s.last().1);
        assert(pairs_of(s) =~= pairs_of(s.drop_last()).push(p));
        crate::gset::lemma_to_set_push(pairs_of(s.drop_last()), p);
        assert(!pairs_of(s.drop_last()).contains(p)) by {
            if pairs_of(s.drop_last()).contains(p) {
                let k = choose|k: int|
                    0 <= k < pairs_of(s.drop_last()).len() && pairs_of(s.drop_last())[k] == p;
                assert(s[k].0@ == p.0);
                assert(ids_of(s)[k] == p.0);
                assert(ids_of(s)[s.len() - 1] == p.0);
                assert(false);
            }
        }
        vstd::seq_lib::seq_to_set_is_finite(pairs_of(s.drop_last()));
        crate::decompose::lemma_set_nat_sum_insert(pairs_of(s.drop_last()).to_set(), f, p);
    }
}

/// Shorthand used in proofs: membership of an atom in a list's atoms.
spec fn pre_atoms_contains<I: Carrier>(s: Seq<(I, u64)>, v: I::V, n: u64) -> bool {
    entries_atoms(s).contains((v, n))
}

/// Finds the entry holding `id`, if any.
fn find_entry<I: Carrier>(s: &Vec<(I, u64)>, id: &I) -> (r: Option<usize>)
    ensures
        r matches Some(k) ==> 0 <= k < s@.len() && s@[k as int].0@ == id@,
        r is None ==> forall|k: int| 0 <= k < s@.len() ==> (#[trigger] s@[k]).0@ != id@,
{
    let n = s.len();
    let mut i: usize = 0;
    while i < n
        invariant
            0 <= i <= n,
            n == s@.len(),
            forall|k: int| 0 <= k < i ==> (#[trigger] s@[k]).0@ != id@,
        decreases n - i,
    {
        if s[i].0.same(id) {
            return Some(i);
        }
        i = i + 1;
    }
    None
}

/// The atoms of a list of entries are finite.
pub proof fn lemma_entries_atoms_finite<I: Carrier>(s: Seq<(I, u64)>)
    ensures
        entries_atoms(s).finite(),
    decreases s.len(),
{
    if s.len() > 0 {
        lemma_entries_atoms_finite(s.drop_last());
        lemma_down_finite(s.last().0@, s.last().1);
    }
}

/// Appending an entry unions in its downset.
proof fn lemma_entries_atoms_push<I: Carrier>(s: Seq<(I, u64)>, e: (I, u64))
    ensures
        entries_atoms(s.push(e)) == entries_atoms(s).union(down(e.0@, e.1)),
{
    assert(s.push(e).drop_last() =~= s);
    assert(s.push(e).last() == e);
}

/// Raising the entry at `i` to `newc` unions in the taller downset.
proof fn lemma_entries_atoms_raise<I: Carrier>(
    pre: Seq<(I, u64)>,
    post: Seq<(I, u64)>,
    i: int,
    v: I::V,
    newc: u64,
)
    requires
        0 <= i < pre.len(),
        post.len() == pre.len(),
        forall|k: int| 0 <= k < pre.len() && k != i ==> post[k] == pre[k],
        post[i].0@ == pre[i].0@,
        pre[i].0@ == v,
        newc >= pre[i].1,
        post[i].1 == newc,
    ensures
        entries_atoms(post) == entries_atoms(pre).union(down(v, newc)),
{
    lemma_entries_atoms_lookup(pre);
    lemma_entries_atoms_lookup(post);
    assert forall|a: (I::V, u64)| entries_atoms(post).contains(a) implies entries_atoms(
        pre,
    ).union(down(v, newc)).contains(a) by {
        let k = choose|k: int|
            0 <= k < post.len() && (#[trigger] post[k]).0@ == a.0 && 1 <= a.1 <= post[k].1;
        if k == i {
            assert(down(v, newc).contains(a));
        } else {
            assert(pre[k].0@ == a.0 && 1 <= a.1 <= pre[k].1);
        }
    }
    assert forall|a: (I::V, u64)| entries_atoms(pre).union(down(v, newc)).contains(
        a,
    ) implies entries_atoms(post).contains(a) by {
        if down(v, newc).contains(a) {
            assert(post[i].0@ == a.0 && 1 <= a.1 <= post[i].1);
        } else {
            let k = choose|k: int|
                0 <= k < pre.len() && (#[trigger] pre[k]).0@ == a.0 && 1 <= a.1 <= pre[k].1;
            if k == i {
                assert(post[i].0@ == a.0 && 1 <= a.1 <= post[i].1);
            } else {
                assert(post[k].0@ == a.0 && 1 <= a.1 <= post[k].1);
            }
        }
    }
    assert(entries_atoms(post) =~= entries_atoms(pre).union(down(v, newc)));
}

impl<I: Carrier> Decompose for GCounter<I> {
    type Atom = (I::V, u64);

    closed spec fn atoms(&self) -> Set<(I::V, u64)> {
        entries_atoms(self.inner@)
    }

    closed spec fn wf(&self) -> bool {
        &&& ids_of(self.inner@).no_duplicates()
        &&& forall|k: int| 0 <= k < self.inner@.len() ==> (#[trigger] self.inner@[k]).1 >= 1
    }

    open spec fn atom_ok(x: (I::V, u64), y: (I::V, u64)) -> bool {
        true
    }

    closed spec fn is_unit(&self) -> bool {
        self.inner@.len() == 1
    }

    closed spec fn unit_key(&self) -> Seq<u8> {
        I::key_view(self.inner@[0].0@) + vstd::bytes::spec_u64_to_le_bytes(self.inner@[0].1)
    }

    open spec fn atom_piece_key(s: Set<(I::V, u64)>, a: (I::V, u64)) -> Seq<u8> {
        I::key_view(a.0) + vstd::bytes::spec_u64_to_le_bytes(top_count(s, a.0))
    }

    closed spec fn count_spec(&self) -> nat {
        self.inner@.len() as nat
    }

    open spec fn diff_spec(s: Set<(I::V, u64)>, t: Set<(I::V, u64)>) -> Set<(I::V, u64)> {
        Set::new(
            |a: (I::V, u64)|
                s.contains(a) && (!has_id(t, a.0) || top_count(t, a.0) < top_count(s, a.0)),
        )
    }

    proof fn wf_facts(&self) {
        lemma_entries_atoms_finite(self.inner@);
        if self.is_unit() {
            lemma_entry_atom(self.inner@, 0, 1);
            assert(self.atoms().contains((self.inner@[0].0@, 1u64)));
        }
    }

    fn bottom() -> (r: Self) {
        Self::new()
    }

    fn split(&self) -> (r: Vec<Self>) {
        let n = self.inner.len();
        let mut r: Vec<Self> = Vec::new();
        let mut i: usize = 0;
        while i < n
            invariant
                0 <= i <= n,
                n == self.inner@.len(),
                self.wf(),
                r@.len() == i,
                forall|k: int|
                    0 <= k < i ==> (#[trigger] r@[k]).wf() && r@[k].is_unit()
                        && r@[k].atoms() == down(self.inner@[k].0@, self.inner@[k].1)
                        && r@[k].unit_key() == I::key_view(self.inner@[k].0@)
                        + vstd::bytes::spec_u64_to_le_bytes(self.inner@[k].1),
                sets_union(r@.map_values(|p: Self| p.atoms())) == entries_atoms(
                    self.inner@.take(i as int),
                ),
            decreases n - i,
        {
            let mut single: Vec<(I, u64)> = Vec::new();
            single.push((self.inner[i].0.dup(), self.inner[i].1));
            let piece = GCounter { inner: single };
            proof {
                let e = self.inner@[i as int];
                assert(piece.inner@ =~= seq![piece.inner@[0]]);
                lemma_entries_atoms_single(piece.inner@[0]);
                assert(piece.atoms() == down(e.0@, e.1));
                assert(ids_of(piece.inner@).no_duplicates());
                assert(r@.push(piece).map_values(|p: Self| p.atoms()) =~= r@.map_values(
                    |p: Self| p.atoms(),
                ).push(piece.atoms()));
                lemma_sets_union_push(r@.map_values(|p: Self| p.atoms()), piece.atoms());
                assert(self.inner@.take(i + 1).drop_last() =~= self.inner@.take(i as int));
                assert(self.inner@.take(i + 1).last() == e);
            }
            r.push(piece);
            i = i + 1;
        }
        proof {
            assert(self.inner@.take(n as int) =~= self.inner@);
            lemma_entries_atoms_lookup(self.inner@);
            assert forall|k: int| 0 <= k < r@.len() implies (#[trigger] r@[k]).atoms().subset_of(
                self.atoms(),
            ) by {
                assert forall|a: (I::V, u64)| r@[k].atoms().contains(a) implies self.atoms().contains(
                    a,
                ) by {
                    assert(self.inner@[k].0@ == a.0 && 1 <= a.1 <= self.inner@[k].1);
                }
            }
            assert forall|i2: int, j2: int|
                0 <= i2 < r@.len() && 0 <= j2 < r@.len() && i2 != j2 implies (
            #[trigger] r@[i2]).atoms().disjoint((#[trigger] r@[j2]).atoms()) by {
                lemma_unique_id_contra(self.inner@, i2, j2);
                assert forall|a: (I::V, u64)| r@[i2].atoms().contains(a) implies !r@[j2].atoms().contains(
                    a,
                ) by {
                    assert(a.0 == self.inner@[i2].0@);
                }
            }
            assert forall|i2: int, a: (I::V, u64)|
                0 <= i2 < r@.len() && #[trigger] r@[i2].atoms().contains(a) implies r@[i2].unit_key()
                == Self::atom_piece_key(self.atoms(), a) by {
                assert(a.0 == self.inner@[i2].0@);
                assert(self.inner@[i2].1 >= 1);
                lemma_top_count(self.inner@, i2);
            }
        }
        r
    }

    fn join(&mut self, deltas: Vec<Self>) {
        let ghost orig = *self;
        let nd = deltas.len();
        let mut di: usize = 0;
        while di < nd
            invariant
                0 <= di <= nd,
                nd == deltas@.len(),
                forall|i: int| 0 <= i < deltas@.len() ==> (#[trigger] deltas@[i]).wf(),
                self.wf(),
                self.atoms() == orig.atoms().union(
                    sets_union(deltas@.take(di as int).map_values(|p: Self| p.atoms())),
                ),
            decreases nd - di,
        {
            let ghost before = *self;
            let m = deltas[di].inner.len();
            let mut j: usize = 0;
            while j < m
                invariant
                    0 <= j <= m,
                    0 <= di < nd,
                    nd == deltas@.len(),
                    m == deltas@[di as int].inner@.len(),
                    forall|i: int| 0 <= i < deltas@.len() ==> (#[trigger] deltas@[i]).wf(),
                    self.wf(),
                    self.atoms() == before.atoms().union(
                        entries_atoms(deltas@[di as int].inner@.take(j as int)),
                    ),
                decreases m - j,
            {
                let ghost e = deltas@[di as int].inner@[j as int];
                let c = deltas[di].inner[j].1;
                proof {
                    assert(deltas@[di as int].inner@.take(j + 1).drop_last() =~= deltas@[di as int].inner@.take(j as int));
                    assert(deltas@[di as int].inner@.take(j + 1).last() == e);
                    assert(c >= 1) by {
                        assert(deltas@[di as int].wf());
                    }
                }
                let found = find_entry(&self.inner, &deltas[di].inner[j].0);
                match found {
                    Some(k) => {
                        let own = self.inner[k].1;
                        if own < c {
                            let ghost pre = self.inner@;
                            self.inner[k].1 = c;
                            proof {
                                assert(ids_of(self.inner@) =~= ids_of(pre));
                                lemma_entries_atoms_raise(pre, self.inner@, k as int, e.0@, c);
                                assert(self.atoms() =~= before.atoms().union(
                                    entries_atoms(deltas@[di as int].inner@.take(j + 1)),
                                ));
                            }
                        } else {
                            proof {
                                lemma_entries_atoms_lookup(self.inner@);
                                assert forall|a: (I::V, u64)| down(e.0@, c).contains(
                                    a,
                                ) implies self.atoms().contains(a) by {
                                    assert(self.inner@[k as int].0@ == a.0 && 1 <= a.1
                                        <= self.inner@[k as int].1);
                                }
                                assert(self.atoms() =~= before.atoms().union(
                                    entries_atoms(deltas@[di as int].inner@.take(j + 1)),
                                ));
                            }
                        }
                    },
                    None => {
                        let idd = deltas[di].inner[j].0.dup();
                        let ghost pre = self.inner@;
                        self.inner.push((idd, c));
                        proof {
                            lemma_entries_atoms_push(pre, self.inner@[pre.len() as int]);
                            assert(ids_of(self.inner@) =~= ids_of(pre).push(e.0@));
                            crate::gset::lemma_to_set_push(ids_of(pre), e.0@);
                            assert forall|k: int| 0 <= k < pre.len() implies (
                            #[trigger] ids_of(pre)[k]) != e.0@ by {
                                assert(pre[k].0@ != e.0@);
                            }
                            assert(!ids_of(pre).contains(e.0@));
                            assert(ids_of(self.inner@).no_duplicates());
                            assert(self.atoms() =~= before.atoms().union(
                                entries_atoms(deltas@[di as int].inner@.take(j + 1)),
                            ));
                        }
                    },
                }
                j = j + 1;
            }
            proof {
                assert(deltas@[di as int].inner@.take(m as int) =~= deltas@[di as int].inner@);
                assert(deltas@.take(di + 1) =~= deltas@.take(di as int).push(deltas@[di as int]));
                assert(deltas@.take(di + 1).map_values(|p: Self| p.atoms()) =~= deltas@.take(
                    di as int,
                ).map_values(|p: Self| p.atoms()).push(deltas@[di as int].atoms()));
                lemma_sets_union_push(
                    deltas@.take(di as int).map_values(|p: Self| p.atoms()),
                    deltas@[di as int].atoms(),
                );
                assert(self.atoms() =~= orig.atoms().union(
                    sets_union(deltas@.take(di + 1).map_values(|p: Self| p.atoms())),
                ));
            }
            di = di + 1;
        }
        proof {
            assert(deltas@.take(nd as int) =~= deltas@);
        }
    }

    fn difference(&self, other: &Self) -> (d: Self) {
        let n = self.inner.len();
        let mut out: Vec<(I, u64)> = Vec::new();
        let mut i: usize = 0;
        while i < n
            invariant
                0 <= i <= n,
                n == self.inner@.len(),
                self.wf(),
                other.wf(),
                forall|m: int|
                    0 <= m < out@.len() ==> exists|k: int|
                        0 <= k < i && (#[trigger] out@[m]).0@ == self.inner@[k].0@ && out@[m].1
                            == self.inner@[k].1,
                forall|m: int, k2: int|
                    0 <= m < out@.len() && 0 <= k2 < other.inner@.len() && (
                    #[trigger] other.inner@[k2]).0@ == (#[trigger] out@[m]).0@
                        ==> other.inner@[k2].1 < out@[m].1,
                ids_of(out@).no_duplicates(),
                forall|k: int| 0 <= k < out@.len() ==> (#[trigger] out@[k]).1 >= 1,
                forall|a: (I::V, u64)|
                    entries_atoms(self.inner@.take(i as int)).contains(a)
                        ==> other.atoms().contains(a) || #[trigger] entries_atoms(out@).contains(a),
                forall|k: int|
                    #![trigger down(self.inner@[k].0@, self.inner@[k].1)]
                    0 <= k < i && (forall|k2: int|
                        0 <= k2 < other.inner@.len() && (#[trigger] other.inner@[k2]).0@
                            == self.inner@[k].0@ ==> other.inner@[k2].1 < self.inner@[k].1)
                        ==> down(self.inner@[k].0@, self.inner@[k].1).subset_of(
                        entries_atoms(out@),
                    ),
            decreases n - i,
        {
            let ghost e = self.inner@[i as int];
            let c = self.inner[i].1;
            let found = find_entry(&other.inner, &self.inner[i].0);
            let keep = match found {
                Some(k) => other.inner[k].1 < c,
                None => true,
            };
            proof {
                assert(self.inner@.take(i + 1).drop_last() =~= self.inner@.take(i as int));
                assert(self.inner@.take(i + 1).last() == e);
            }
            if keep {
                let idd = self.inner[i].0.dup();
                let ghost pre = out@;
                out.push((idd, c));
                proof {
                    lemma_entries_atoms_push(pre, out@[pre.len() as int]);
                    assert(ids_of(out@) =~= ids_of(pre).push(e.0@));
                    crate::gset::lemma_to_set_push(ids_of(pre), e.0@);
                    assert forall|m: int| 0 <= m < pre.len() implies (#[trigger] ids_of(pre)[m])
                        != e.0@ by {
                        let k = choose|k: int|
                            0 <= k < i && (#[trigger] pre[m]).0@ == self.inner@[k].0@ && pre[m].1
                                == self.inner@[k].1;
                        assert(ids_of(self.inner@)[k] == pre[m].0@);
                        assert(ids_of(self.inner@)[i as int] == e.0@);
                    }
                    assert(!ids_of(pre).contains(e.0@));
                    assert(ids_of(out@).no_duplicates());
                    assert forall|m: int, k2: int|
                        0 <= m < out@.len() && 0 <= k2 < other.inner@.len() && (
                        #[trigger] other.inner@[k2]).0@ == (#[trigger] out@[m]).0@
                            implies other.inner@[k2].1 < out@[m].1 by {
                        if m < pre.len() {
                            assert(pre[m] == out@[m]);
                        } else {
                            assert(out@[m].0@ == e.0@ && out@[m].1 == c);
                            match found {
                                Some(kf) => {
                                    lemma_unique_id(other.inner@, k2, kf as int);
                                },
                                None => {
                                    assert(other.inner@[k2].0@ != e.0@);
                                },
                            }
                        }
                    }
                    assert forall|a: (I::V, u64)|
                        entries_atoms(self.inner@.take(i + 1)).contains(a)
                            implies other.atoms().contains(a) || entries_atoms(out@).contains(
                        a,
                    ) by {
                        if !entries_atoms(self.inner@.take(i as int)).contains(a) {
                            assert(down(e.0@, e.1).contains(a));
                            assert(down(e.0@, c).contains(a));
                            assert(entries_atoms(out@).contains(a));
                        } else {
                            assert(entries_atoms(pre).subset_of(entries_atoms(out@)));
                        }
                    }
                    assert forall|k: int|
                        #![trigger down(self.inner@[k].0@, self.inner@[k].1)]
                        0 <= k < i + 1 && (forall|k2: int|
                            0 <= k2 < other.inner@.len() && (#[trigger] other.inner@[k2]).0@
                                == self.inner@[k].0@ ==> other.inner@[k2].1 < self.inner@[k].1)
                            implies down(self.inner@[k].0@, self.inner@[k].1).subset_of(
                        entries_atoms(out@),
                    ) by {
                        if k < i {
                            assert(entries_atoms(pre).subset_of(entries_atoms(out@)));
                        } else {
                            assert(down(e.0@, c).subset_of(entries_atoms(out@)));
                        }
                    }
                }
            } else {
                proof {
                    let k = match found {
                        Some(k) => k as int,
                        None => 0,
                    };
                    assert(other.inner@[k].0@ == e.0@ && other.inner@[k].1 >= c);
                    lemma_entries_atoms_lookup(other.inner@);
                    assert forall|a: (I::V, u64)|
                        entries_atoms(self.inner@.take(i + 1)).contains(a)
                            implies other.atoms().contains(a) || entries_atoms(out@).contains(
                        a,
                    ) by {
                        if !entries_atoms(self.inner@.take(i as int)).contains(a) {
                            assert(down(e.0@, e.1).contains(a));
                            assert(other.inner@[k].0@ == a.0 && 1 <= a.1 <= other.inner@[k].1);
                        }
                    }
                    assert forall|k3: int|
                        #![trigger down(self.inner@[k3].0@, self.inner@[k3].1)]
                        0 <= k3 < i + 1 && (forall|k2: int|
                            0 <= k2 < other.inner@.len() && (#[trigger] other.inner@[k2]).0@
                                == self.inner@[k3].0@ ==> other.inner@[k2].1 < self.inner@[k3].1)
                            implies down(self.inner@[k3].0@, self.inner@[k3].1).subset_of(
                        entries_atoms(out@),
                    ) by {
                        if k3 == i {
                            assert(other.inner@[k].0@ == self.inner@[k3].0@
                                && other.inner@[k].1 >= self.inner@[k3].1);
                            assert(false);
                        }
                    }
                }
            }
            i = i + 1;
        }
        proof {
            assert(self.inner@.take(n as int) =~= self.inner@);
            lemma_entries_atoms_lookup(self.inner@);
            lemma_entries_atoms_lookup(out@);
            assert forall|a: (I::V, u64)| entries_atoms(out@).contains(
                a,
            ) implies self.atoms().contains(a) by {
                let m = choose|m: int|
                    0 <= m < out@.len() && (#[trigger] out@[m]).0@ == a.0 && 1 <= a.1 <= out@[m].1;
                let k = choose|k: int|
                    0 <= k < i && (#[trigger] out@[m]).0@ == self.inner@[k].0@ && out@[m].1
                        == self.inner@[k].1;
                assert(self.inner@[k].0@ == a.0 && 1 <= a.1 <= self.inner@[k].1);
            }
            assert forall|a: (I::V, u64)| self.atoms().contains(
                a,
            ) implies other.atoms().union(entries_atoms(out@)).contains(a) by {
                assert(entries_atoms(self.inner@.take(n as int)).contains(a));
                assert(other.atoms().contains(a) || entries_atoms(out@).contains(a));
            }
            assert(other.atoms().union(entries_atoms(out@)) =~= other.atoms().union(
                self.atoms(),
            ));
            assert forall|a: (I::V, u64)| entries_atoms(out@).contains(
                a,
            ) implies Self::diff_spec(self.atoms(), other.atoms()).contains(a) by {
                let m = choose|m: int|
                    0 <= m < out@.len() && (#[trigger] out@[m]).0@ == a.0 && 1 <= a.1 <= out@[m].1;
                let k = choose|k: int|
                    0 <= k < i && (#[trigger] out@[m]).0@ == self.inner@[k].0@ && out@[m].1
                        == self.inner@[k].1;
                assert(self.inner@[k].0@ == a.0 && 1 <= a.1 <= self.inner@[k].1);
                assert(self.inner@[k].1 >= 1);
                lemma_top_count(self.inner@, k);
                if has_id(other.atoms(), a.0) {
                    let n2 = choose|n2: u64| #[trigger] other.atoms().contains((a.0, n2));
                    let k2 = lemma_atom_entry(other.inner@, (a.0, n2));
                    assert(other.inner@[k2].1 >= 1);
                    lemma_top_count(other.inner@, k2);
                    assert(other.inner@[k2].1 < out@[m].1);
                }
            }
            assert forall|a: (I::V, u64)|
                Self::diff_spec(self.atoms(), other.atoms()).contains(
                a,
            ) implies entries_atoms(out@).contains(a) by {
                let k = lemma_atom_entry(self.inner@, a);
                assert(self.inner@[k].1 >= 1);
                lemma_top_count(self.inner@, k);
                assert forall|k2: int|
                    0 <= k2 < other.inner@.len() && (#[trigger] other.inner@[k2]).0@
                        == self.inner@[k].0@ implies other.inner@[k2].1 < self.inner@[k].1 by {
                    assert(other.inner@[k2].1 >= 1);
                    lemma_entry_atom(other.inner@, k2, 1);
                    assert(has_id(other.atoms(), a.0)) by {
                        assert(other.atoms().contains((a.0, 1u64)));
                    }
                    lemma_top_count(other.inner@, k2);
                }
                assert(down(self.inner@[k].0@, self.inner@[k].1).subset_of(entries_atoms(out@)));
                assert(down(self.inner@[k].0@, self.inner@[k].1).contains(a));
            }
            assert(entries_atoms(out@) =~= Self::diff_spec(self.atoms(), other.atoms()));
            if self.atoms().subset_of(other.atoms()) {
                lemma_entries_atoms_lookup(other.inner@);
                if out@.len() > 0 {
                    let e0 = out@[0];
                    assert(e0.1 >= 1);
                    lemma_entry_atom(out@, 0, e0.1);
                    assert(entries_atoms(out@).contains((e0.0@, e0.1)));
                    assert(self.atoms().contains((e0.0@, e0.1)));
                    assert(other.atoms().contains((e0.0@, e0.1)));
                    let k2 = lemma_atom_entry(other.inner@, (e0.0@, e0.1));
                    assert(other.inner@[k2].1 >= e0.1);
                    assert(other.inner@[k2].0@ == out@[0].0@);
                    assert(other.inner@[k2].1 < out@[0].1);
                    assert(false);
                }
                assert(entries_atoms(out@) =~= Set::<(I::V, u64)>::empty());
            }
        }
        let d = GCounter { inner: out };
        d
    }

    fn key_bytes(&self) -> (r: Result<Vec<u8>, ExtractError>) {
        if self.inner.len() == 1 {
            let mut b = self.inner[0].0.bytes();
            let mut tail = vstd::bytes::u64_to_le_bytes(self.inner[0].1);
            b.append(&mut tail);
            Ok(b)
        } else {
            Err(ExtractError)
        }
    }
}

/// The entry pairs of a counter, at the level of views.
pub open spec fn pairs_of<I: Carrier>(s: Seq<(I, u64)>) -> Seq<(I::V, u64)> {
    s.map_values(|e: (I, u64)| (e.0@, e.1))
}

/// For a well-formed counter, the maximal atoms are exactly the entries.
proof fn lemma_obs_entries<I: Carrier>(s: Seq<(I, u64)>)
    requires
        ids_of(s).no_duplicates(),
        forall|k: int| 0 <= k < s.len() ==> (#[trigger] s[k]).1 >= 1,
    ensures
        counter_obs(entries_atoms(s)) == pairs_of(s).to_set(),
        counter_obs(entries_atoms(s)).len() == s.len(),
{
    lemma_entries_atoms_lookup(s);
    assert forall|p: (I::V, u64)| counter_obs(entries_atoms(s)).contains(p) implies pairs_of(
        s,
    ).to_set().contains(p) by {
        let k = lemma_atom_entry(s, p);
        if p.1 < s[k].1 {
            lemma_entry_atom(s, k, s[k].1);
            assert(entries_atoms(s).contains((p.0, s[k].1)));
            assert(false);
        }
        assert(pairs_of(s)[k] == p);
    }
    assert forall|p: (I::V, u64)| pairs_of(s).to_set().contains(p) implies counter_obs(
        entries_atoms(s),
    ).contains(p) by {
        let k = choose|k: int| 0 <= k < pairs_of(s).len() && pairs_of(s)[k] == p;
        assert(s[k].0@ == p.0 && 1 <= p.1 <= s[k].1);
        lemma_entry_atom(s, k, p.1);
        assert forall|m: u64| m > p.1 implies !(entries_atoms(s).contains((p.0, m))) by {
            if entries_atoms(s).contains((p.0, m)) {
                let k2 = lemma_atom_entry(s, (p.0, m));
                lemma_unique_id(s, k2, k);
                assert(false);
            }
        }
    }
    assert(counter_obs(entries_atoms(s)) =~= pairs_of(s).to_set());
    assert(pairs_of(s).no_duplicates()) by {
        assert forall|i: int, j: int|
            0 <= i < j < pairs_of(s).len() implies pairs_of(s)[i] != pairs_of(s)[j] by {
            assert(ids_of(s)[i] != ids_of(s)[j]);
        }
    }
    pairs_of(s).unique_seq_to_set();
}

/// The entries visible in a set of counter atoms: the tally tops.
pub open spec fn counter_obs<V>(s: Set<(V, u64)>) -> Set<(V, u64)> {
    Set::new(
        |p: (V, u64)|
            s.contains(p) && forall|m: u64| m > p.1 ==> !(#[trigger] s.contains((p.0, m))),
    )
}

impl Measure for GCounter<String> {
    type Obs = (Seq<char>, u64);

    open spec fn obs_of(s: Set<(Seq<char>, u64)>) -> Set<(Seq<char>, u64)> {
        counter_obs(s)
    }

    closed spec fn size_spec(s: Set<(Seq<char>, u64)>) -> nat {
        8 * counter_obs(s).len()
    }

    proof fn obs_facts(&self) {
        lemma_entries_atoms_finite(self.inner@);
        assert(counter_obs(self.atoms()).subset_of(self.atoms()));
        vstd::set_lib::lemma_set_subset_finite(self.atoms(), counter_obs(self.atoms()));
    }

    fn len(replica: &Self) -> (r: usize) {
        replica.inner.len()
    }

    fn size_of(replica: &Self) -> (r: usize) {
        proof {
            lemma_obs_entries(replica.inner@);
        }
        let n = replica.inner.len();
        if n > usize::MAX / 8 {
            usize::MAX
        } else {
            8 * n
        }
    }

    fn false_matches(&self, other: &Self) -> (r: usize) {
        proof {
            lemma_obs_entries(self.inner@);
            lemma_obs_entries(other.inner@);
        }
        let a = count_entries_missing(self, other);
        let b = count_entries_missing(other, self);
        proof {
            let sa = counter_obs(self.atoms()).difference(counter_obs(other.atoms()));
            let sb = counter_obs(other.atoms()).difference(counter_obs(self.atoms()));
            vstd::seq_lib::seq_to_set_is_finite(pairs_of(self.inner@));
            vstd::seq_lib::seq_to_set_is_finite(pairs_of(other.inner@));
            vstd::set_lib::lemma_set_subset_finite(counter_obs(self.atoms()), sa);
            vstd::set_lib::lemma_set_subset_finite(counter_obs(other.atoms()), sb);
            assert(sa.disjoint(sb));
            lemma_len_disjoint_union(sa, sb);
        }
        a.saturating_add(b)
    }
}

/// How many entries of `a` are not matched exactly in `b`.
fn count_entries_missing(a: &GCounter<String>, b: &GCounter<String>) -> (r: usize)
    requires
        a.wf(),
        b.wf(),
    ensures
        r == counter_obs(a.atoms()).difference(counter_obs(b.atoms())).len(),
{
    proof {
        lemma_obs_entries(a.inner@);
        lemma_obs_entries(b.inner@);
    }
    let n = a.inner.len();
    let mut count: usize = 0;
    let mut i: usize = 0;
    proof {
        assert(pairs_of(a.inner@.take(0)).to_set() =~= Set::<(Seq<char>, u64)>::empty());
        assert(pairs_of(a.inner@.take(0)).to_set().difference(counter_obs(b.atoms())) =~= Set::<
            (Seq<char>, u64),
        >::empty());
    }
    while i < n
        invariant
            0 <= i <= n,
            n == a.inner@.len(),
            a.wf(),
            b.wf(),
            count <= i,
            count == pairs_of(a.inner@.take(i as int)).to_set().difference(
                counter_obs(b.atoms()),
            ).len(),
        decreases n - i,
    {
        let c = a.inner[i].1;
        let found = find_entry(&b.inner, &a.inner[i].0);
        let matched = match found {
            Some(k) => b.inner[k].1 == c,
            None => false,
        };
        proof {
            lemma_obs_entries(b.inner@);
            let p = pairs_of(a.inner@)[i as int];
            let pre = pairs_of(a.inner@.take(i as int)).to_set();
            assert(pairs_of(a.inner@.take(i + 1)) =~= pairs_of(a.inner@.take(i as int)).push(p));
            crate::gset::lemma_to_set_push(pairs_of(a.inner@.take(i as int)), p);
            assert(!pairs_of(a.inner@.take(i as int)).contains(p)) by {
                if pairs_of(a.inner@.take(i as int)).contains(p) {
                    let k = choose|k: int|
                        0 <= k < i && pairs_of(a.inner@.take(i as int))[k] == p;
                    assert(ids_of(a.inner@)[k] == p.0);
                    assert(ids_of(a.inner@)[i as int] == p.0);
                    assert(false);
                }
            }
            vstd::seq_lib::seq_to_set_is_finite(pairs_of(a.inner@.take(i as int)));
            if matched {
                let k = match found {
                    Some(k) => k as int,
                    None => 0,
                };
                assert(pairs_of(b.inner@)[k] == p);
                assert(pairs_of(b.inner@).to_set().contains(p));
                assert(pre.insert(p).difference(counter_obs(b.atoms())) =~= pre.difference(
                    counter_obs(b.atoms()),
                ));
            } else {
                assert(!pairs_of(b.inner@).to_set().contains(p)) by {
                    if pairs_of(b.inner@).to_set().contains(p) {
                        let k = choose|k: int|
                            0 <= k < pairs_of(b.inner@).len() && pairs_of(b.inner@)[k] == p;
                        assert(b.inner@[k].0@ == p.0 && b.inner@[k].1 == p.1);
                        match found {
                            Some(k2) => {
                                assert(ids_of(b.inner@)[k2 as int] == p.0);
                                assert(ids_of(b.inner@)[k] == p.0);
                                assert(k == k2);
                                assert(false);
                            },
                            None => {
                                assert(b.inner@[k].0@ != p.0);
                                assert(false);
                            },
                        }
                    }
                }
                assert(pre.insert(p).difference(counter_obs(b.atoms())) =~= pre.difference(
                    counter_obs(b.atoms()),
                ).insert(p));
                assert(!pre.difference(counter_obs(b.atoms())).contains(p));
                vstd::set_lib::lemma_len_subset(pre.difference(counter_obs(b.atoms())), pre);
                vstd::seq_lib::seq_to_set_is_finite(pairs_of(a.inner@.take(i as int)));
                pairs_of(a.inner@.take(i as int)).lemma_cardinality_of_set();
                assert(pairs_of(a.inner@.take(i as int)).len() == i);
            }
        }
        if !matched {
            count = count + 1;
        }
        i = i + 1;
    }
    proof {
        assert(a.inner@.take(n as int) =~= a.inner@);
        assert(pairs_of(a.inner@).to_set() == counter_obs(a.atoms()));
    }
    count
}

} // verus!
