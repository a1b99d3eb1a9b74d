//! Causal dot context: a compact description of the operations a replica has
//! seen. The clock covers a contiguous prefix of each peer's dots; the cloud
//! holds the out-of-order rest. Compaction folds cloud dots into the clock
//! whenever they extend or fall under a clock entry, and joining takes the
//! entry-wise clock maximum, unions the clouds, and compacts.

use vstd::prelude::*;

use crate::carrier::Carrier;

verus! {

/// One operation: the issuing replica and its sequence number.
#[derive(Debug)]
pub struct Dot<I>(pub I, pub u64);

/// The clock value of `v`, when an entry exists.
pub open spec fn clk<I: Carrier>(s: Seq<(I, u64)>, v: I::V) -> Option<u64>
    decreases s.len(),
{
    if s.len() == 0 {
        None
    } else if s.last().0@ == v {
        Some(s.last().1)
    } else {
        clk(s.drop_last(), v)
    }
}

/// The dot pairs of a cloud, at the level of views.
pub open spec fn dots_of<I: Carrier>(c: Seq<Dot<I>>) -> Seq<(I::V, u64)> {
    c.map_values(|d: Dot<I>| (d.0@, d.1))
}

/// Whether the cloud holds the dot `(v, n)`.
pub open spec fn cloud_has<I: Carrier>(c: Seq<Dot<I>>, v: I::V, n: u64) -> bool {
    dots_of(c).contains((v, n))
}

/// Everything a context covers: the clock prefixes and the cloud dots.
pub open spec fn covered<I: Carrier>(s: Seq<(I, u64)>, c: Seq<Dot<I>>) -> Set<(I::V, u64)> {
    Set::new(
        |p: (I::V, u64)|
            (clk(s, p.0) matches Some(cv) && p.1 <= cv) || cloud_has(c, p.0, p.1),
    )
}

/// A cloud dot the compaction may fold into the clock: its prefix is already
/// contiguous up to it, or the clock already covers it.
pub open spec fn foldable<I: Carrier>(s: Seq<(I, u64)>, d: (I::V, u64)) -> bool {
    clk(s, d.0) matches Some(cv) && (cv >= d.1 || cv + 1 == d.1)
}

/// A clock entry pins the lookup.
pub proof fn lemma_clk_index<I: Carrier>(s: Seq<(I, u64)>, k: int)
    requires
        crate::gcounter::ids_of(s).no_duplicates(),
        0 <= k < s.len(),
    ensures
        clk(s, s[k].0@) == Some(s[k].1),
    decreases s.len(),
{
    if k == s.len() - 1 {
    } else {
        assert(crate::gcounter::ids_of(s)[k] == s[k].0@);
        assert(crate::gcounter::ids_of(s)[s.len() - 1] == s.last().0@);
        assert(s.drop_last()[k] == s[k]);
        assert(crate::gcounter::ids_of(s.drop_last()) =~= crate::gcounter::ids_of(s).drop_last());
        lemma_clk_index(s.drop_last(), k);
    }
}

/// An absent lookup means no entry.
pub proof fn lemma_clk_none<I: Carrier>(s: Seq<(I, u64)>, v: I::V)
    requires
        clk(s, v) is None,
    ensures
        forall|k: int| 0 <= k < s.len() ==> (#[trigger] s[k]).0@ != v,
    decreases s.len(),
{
    if s.len() > 0 {
        lemma_clk_none(s.drop_last(), v);
        assert forall|k: int| 0 <= k < s.len() implies (#[trigger] s[k]).0@ != v by {
            if k < s.len() - 1 {
                assert(s.drop_last()[k] == s[k]);
            }
        }
    }
}

/// A present lookup has an entry behind it.
pub proof fn lemma_clk_some<I: Carrier>(s: Seq<(I, u64)>, v: I::V) -> (k: int)
    requires
        clk(s, v) is Some,
    ensures
        0 <= k < s.len(),
        s[k].0@ == v,
        clk(s, v) == Some(s[k].1),
    decreases s.len(),
{
    if s.last().0@ == v {
        s.len() - 1
    } else {
        let k = lemma_clk_some(s.drop_last(), v);
        assert(s.drop_last()[k] == s[k]);
        k
    }
}

/// Updating one entry moves only that lookup.
pub proof fn lemma_clk_update<I: Carrier>(pre: Seq<(I, u64)>, post: Seq<(I, u64)>, k: int)
    requires
        0 <= k < pre.len(),
        post.len() == pre.len(),
        forall|j: int| 0 <= j < pre.len() && j != k ==> post[j] == pre[j],
        post[k].0@ == pre[k].0@,
        crate::gcounter::ids_of(pre).no_duplicates(),
    ensures
        clk(post, pre[k].0@) == Some(post[k].1),
        forall|v: I::V| v != pre[k].0@ ==> clk(post, v) == clk(pre, v),
        crate::gcounter::ids_of(post) == crate::gcounter::ids_of(pre),
    decreases pre.len(),
{
    assert(crate::gcounter::ids_of(post) =~= crate::gcounter::ids_of(pre));
    lemma_clk_index(post, k);
    assert forall|v: I::V| v != pre[k].0@ implies clk(post, v) == clk(pre, v) by {
        lemma_clk_frame(pre, post, k, v);
    }
}

proof fn lemma_clk_frame<I: Carrier>(pre: Seq<(I, u64)>, post: Seq<(I, u64)>, k: int, v: I::V)
    requires
        0 <= k < pre.len(),
        post.len() == pre.len(),
        forall|j: int| 0 <= j < pre.len() && j != k ==> post[j] == pre[j],
        post[k].0@ == pre[k].0@,
        v != pre[k].0@,
    ensures
        clk(post, v) == clk(pre, v),
    decreases pre.len(),
{
    if pre.len() > 0 {
        if k == pre.len() - 1 {
            assert(post.drop_last() =~= pre.drop_last());
        } else {
            assert(post.last() == pre.last());
            if pre.last().0@ == v {
            } else {
                lemma_clk_frame(pre.drop_last(), post.drop_last(), k, v);
            }
        }
    }
}

/// Appending an entry leaves other lookups alone.
pub proof fn lemma_clk_push<I: Carrier>(s: Seq<(I, u64)>, e: (I, u64), v: I::V)
    ensures
        v == e.0@ ==> clk(s.push(e), v) == Some(e.1),
        v != e.0@ ==> clk(s.push(e), v) == clk(s, v),
{
    assert(s.push(e).drop_last() =~= s);
    assert(s.push(e).last() == e);
}

/// A causality-tracking context over carrier replica ids.
#[derive(Debug)]
pub struct DotContext<I: Carrier> {
    clock: Vec<(I, u64)>,
    cloud: Vec<Dot<I>>,
}

impl<I: Carrier> DotContext<I> {
    /// Representation invariant: one clock entry per replica, no duplicate
    /// cloud dots.
    pub closed spec fn wf(&self) -> bool {
        &&& crate::gcounter::ids_of(self.clock@).no_duplicates()
        &&& dots_of(self.cloud@).no_duplicates()
    }

    /// The covered dot pairs.
    pub closed spec fn model(&self) -> Set<(I::V, u64)> {
        covered(self.clock@, self.cloud@)
    }

    /// The clock value of one replica.
    pub closed spec fn clock_of(&self, v: I::V) -> Option<u64> {
        clk(self.clock@, v)
    }

    /// No cloud dot is foldable into the clock.
    pub closed spec fn compacted(&self) -> bool {
        forall|k: int|
            0 <= k < self.cloud@.len() ==> !foldable(
                self.clock@,
                ((#[trigger] self.cloud@[k]).0@, self.cloud@[k].1),
            )
    }

    /// An empty context.
    pub fn new() -> (r: Self)
        ensures
            r.wf(),
            r.model() == Set::<(I::V, u64)>::empty(),
            r.compacted(),
    {
        let r = DotContext { clock: Vec::new(), cloud: Vec::new() };
        proof {
            assert(dots_of(r.cloud@) =~= Seq::<(I::V, u64)>::empty());
            assert forall|p: (I::V, u64)| !r.model().contains(p) by {
                if cloud_has(r.cloud@, p.0, p.1) {
                    let k = choose|k: int|
                        0 <= k < dots_of(r.cloud@).len() && dots_of(r.cloud@)[k] == p;
                }
            }
            assert(r.model() =~= Set::<(I::V, u64)>::empty());
        }
        r
    }

    /// Whether the context covers `dot`.
    pub fn contains(&self, dot: &Dot<I>) -> (r: bool)
        requires
            self.wf(),
        ensures
            r == self.model().contains((dot.0@, dot.1)),
    {
        let found = find_clock(&self.clock, &dot.0);
        match found {
            Some(k) => {
                let c = self.clock[k].1;
                proof {
                    lemma_clk_index(self.clock@, k as int);
                }
                if c >= dot.1 {
                    return true;
                }
            },
            None => {
                proof {
                    if clk(self.clock@, dot.0@) is Some {
                        let k = lemma_clk_some(self.clock@, dot.0@);
                        assert(false);
                    }
                }
            },
        }
        let n = self.cloud.len();
        let mut i: usize = 0;
        while i < n
            invariant
                0 <= i <= n,
                n == self.cloud@.len(),
                forall|k: int| 0 <= k < i ==> (#[trigger] dots_of(self.cloud@)[k]) != (dot.0@, dot.1),
            decreases n - i,
        {
            let idmatch = self.cloud[i].0.same(&dot.0);
            if idmatch && self.cloud[i].1 == dot.1 {
                proof {
                    assert(dots_of(self.cloud@)[i as int] == (dot.0@, dot.1));
                }
                return true;
            }
            proof {
                assert(dots_of(self.cloud@)[i as int] == (self.cloud@[i as int].0@,
                self.cloud@[i as int].1));
            }
            i = i + 1;
        }
        proof {
            if cloud_has(self.cloud@, dot.0@, dot.1) {
                let k = choose|k: int|
                    0 <= k < dots_of(self.cloud@).len() && dots_of(self.cloud@)[k] == (
                    dot.0@,
                    dot.1,
                );
                assert(false);
            }
        }
        false
    }

    /// Issues the next dot for `id`: the clock entry grows by one, or starts
    /// at one.
    pub fn next(&mut self, id: &I) -> (r: u64)
        requires
            old(self).wf(),
            old(self).clock_of(id@) matches Some(c) ==> c < u64::MAX,
        ensures
            final(self).wf(),
            r == match old(self).clock_of(id@) {
                Some(c) => c + 1,
                None => 1,
            },
            final(self).clock_of(id@) == Some(r),
            forall|v: I::V| v != id@ ==> final(self).clock_of(v) == old(self).clock_of(v),
            final(self).cloud_pairs() == old(self).cloud_pairs(),
    {
        let found = find_clock(&self.clock, id);
        match found {
            Some(k) => {
                proof {
                    lemma_clk_index(self.clock@, k as int);
                }
                let c = self.clock[k].1;
                let ghost pre = self.clock@;
                self.clock[k].1 = c + 1;
                proof {
                    lemma_clk_update(pre, self.clock@, k as int);
                }
                c + 1
            },
            None => {
                proof {
                    if clk(self.clock@, id@) is Some {
                        let k = lemma_clk_some(self.clock@, id@);
                        assert(false);
                    }
                }
                let ghost pre = self.clock@;
                self.clock.push((id.dup(), 1));
                proof {
                    assert(self.clock@ =~= pre.push(self.clock@[pre.len() as int]));
                    assert forall|v: I::V| true implies #[trigger] clk(self.clock@, v) == (if v
                        == id@ {
                        Some(1u64)
                    } else {
                        clk(pre, v)
                    }) by {
                        lemma_clk_push(pre, self.clock@[pre.len() as int], v);
                    }
                    assert(crate::gcounter::ids_of(self.clock@) =~= crate::gcounter::ids_of(
                        pre,
                    ).push(id@));
                    crate::gset::lemma_to_set_push(crate::gcounter::ids_of(pre), id@);
                    assert forall|k: int| 0 <= k < pre.len() implies (
                    #[trigger] crate::gcounter::ids_of(pre)[k]) != id@ by {
                        if crate::gcounter::ids_of(pre)[k] == id@ {
                            lemma_clk_index(pre, k);
                            assert(false);
                        }
                    }
                    assert(!crate::gcounter::ids_of(pre).contains(id@));
                    assert(crate::gcounter::ids_of(self.clock@).no_duplicates());
                }
                1
            },
        }
    }

    /// The cloud, as a set of dot pairs.
    pub closed spec fn cloud_pairs(&self) -> Set<(I::V, u64)> {
        dots_of(self.cloud@).to_set()
    }
}

/// Finds the clock entry holding `id`, if any.
fn find_clock<I: Carrier>(s: &Vec<(I, u64)>, id: &I) -> (r: Option<usize>)
    ensures
        r matches Some(k) ==> 0 <= k < s@.len() && s@[k as int].0@ == id@,
        r is None ==> forall|k: int| 0 <= k < s@.len() ==> (#[trigger] s@[k]).0@ != id@,
{
    let n = s.len();
    let mut i: usize = 0;
    while i < n
        invariant
            0 <= i <= n,
            n == s@.len(),
            forall|k: int| 0 <= k < i ==> (#[trigger] s@[k]).0@ != id@,
        decreases n - i,
    {
        if s[i].0.same(id) {
            return Some(i);
        }
        i = i + 1;
    }
    None
}


/// Finds a cloud dot the clock can fold, if any.
fn find_foldable<I: Carrier>(clock: &Vec<(I, u64)>, cloud: &Vec<Dot<I>>) -> (r: Option<usize>)
    requires
        crate::gcounter::ids_of(clock@).no_duplicates(),
    ensures
        r matches Some(fi) ==> 0 <= fi < cloud@.len() && foldable(
            clock@,
            (cloud@[fi as int].0@, cloud@[fi as int].1),
        ),
        r is None ==> forall|k: int|
            0 <= k < cloud@.len() ==> !foldable(
                clock@,
                ((#[trigger] cloud@[k]).0@, cloud@[k].1),
            ),
{
    let n = cloud.len();
    let mut i: usize = 0;
    while i < n
        invariant
            0 <= i <= n,
            n == cloud@.len(),
            crate::gcounter::ids_of(clock@).no_duplicates(),
            forall|k: int|
                0 <= k < i ==> !foldable(clock@, ((#[trigger] cloud@[k]).0@, cloud@[k].1)),
        decreases n - i,
    {
        let fc = find_clock(clock, &cloud[i].0);
        match fc {
            Some(k) => {
                proof {
                    lemma_clk_index(clock@, k as int);
                }
                let c = clock[k].1;
                if c >= cloud[i].1 || c + 1 == cloud[i].1 {
                    return Some(i);
                }
            },
            None => {
                proof {
                    if clk(clock@, cloud@[i as int].0@) is Some {
                        let k = lemma_clk_some(clock@, cloud@[i as int].0@);
                        assert(false);
                    }
                }
            },
        }
        i = i + 1;
    }
    None
}

/// Removing one dot keeps the rest of the cloud intact.
proof fn lemma_dots_remove<I: Carrier>(c: Seq<Dot<I>>, i: int)
    requires
        0 <= i < c.len(),
    ensures
        dots_of(c.remove(i)) == dots_of(c).remove(i),
        dots_of(c).no_duplicates() ==> dots_of(c.remove(i)).no_duplicates(),
        forall|p: (I::V, u64)|
            #[trigger] cloud_has(c.remove(i), p.0, p.1) ==> cloud_has(c, p.0, p.1),
        forall|p: (I::V, u64)|
            #[trigger] cloud_has(c, p.0, p.1) && p != dots_of(c)[i] ==> cloud_has(
                c.remove(i),
                p.0,
                p.1,
            ),
{
    assert(dots_of(c.remove(i)) =~= dots_of(c).remove(i));
    dots_of(c).remove_ensures(i);
    if dots_of(c).no_duplicates() {
        assert forall|k1: int, k2: int|
            0 <= k1 < k2 < dots_of(c).remove(i).len() implies dots_of(c).remove(i)[k1] != dots_of(
            c,
        ).remove(i)[k2] by {
            let j1: int = if k1 < i {
                k1
            } else {
                k1 + 1
            };
            let j2: int = if k2 < i {
                k2
            } else {
                k2 + 1
            };
            assert(dots_of(c).remove(i)[k1] == dots_of(c)[j1]);
            assert(dots_of(c).remove(i)[k2] == dots_of(c)[j2]);
        }
    }
    assert forall|p: (I::V, u64)|
        #[trigger] cloud_has(c.remove(i), p.0, p.1) implies cloud_has(c, p.0, p.1) by {
        let k = choose|k: int|
            0 <= k < dots_of(c.remove(i)).len() && dots_of(c.remove(i))[k] == p;
        let j: int = if k < i {
            k
        } else {
            k + 1
        };
        assert(dots_of(c)[j] == p);
    }
    assert forall|p: (I::V, u64)|
        #[trigger] cloud_has(c, p.0, p.1) && p != dots_of(c)[i] implies cloud_has(
        c.remove(i),
        p.0,
        p.1,
    ) by {
        let k = choose|k: int| 0 <= k < dots_of(c).len() && dots_of(c)[k] == p;
        let j: int = if k < i {
            k
        } else {
            k - 1
        };
        assert(dots_of(c).remove(i)[j] == p);
    }
}

impl<I: Carrier> DotContext<I> {
    /// Folds cloud dots into the clock until none extends or falls under a
    /// clock entry. The covered set is unchanged.
    pub fn compact(&mut self)
        requires
            old(self).wf(),
        ensures
            final(self).wf(),
            final(self).model() == old(self).model(),
            final(self).compacted(),
            forall|v: I::V|
                #[trigger] final(self).clock_of(v) is Some ==> final(self).model().contains(
                    (v, final(self).clock_of(v).unwrap()),
                ) || final(self).clock_of(v) == Some(0u64),
    {
        let mut progress = true;
        while progress
            invariant
                self.wf(),
                self.model() == old(self).model(),
                !progress ==> self.compacted(),
            decreases self.cloud@.len() * 2 + (if progress {
                1int
            } else {
                0int
            }),
        {
            let found = find_foldable(&self.clock, &self.cloud);
            match found {
                Some(fi) => {
                    let fc = find_clock(&self.clock, &self.cloud[fi].0);
                    let k = match fc {
                        Some(k) => k,
                        None => {
                            proof {
                                if clk(self.clock@, self.cloud@[fi as int].0@) is None {
                                    lemma_clk_none(self.clock@, self.cloud@[fi as int].0@);
                                    assert(false);
                                } else {
                                    let kk = lemma_clk_some(
                                        self.clock@,
                                        self.cloud@[fi as int].0@,
                                    );
                                }
                            }
                            0
                        },
                    };
                    proof {
                        lemma_clk_index(self.clock@, k as int);
                    }
                    let c = self.clock[k].1;
                    let dn = self.cloud[fi].1;
                    let ghost v = self.cloud@[fi as int].0@;
                    let ghost pre_clock = self.clock@;
                    let ghost pre_cloud = self.cloud@;
                    if c >= dn {
                        self.cloud.remove(fi);
                        proof {
                            lemma_dots_remove(pre_cloud, fi as int);
                            assert forall|p: (I::V, u64)|
                                covered(pre_clock, pre_cloud).contains(p) implies covered(
                                self.clock@,
                                self.cloud@,
                            ).contains(p) by {
                                if cloud_has(pre_cloud, p.0, p.1) {
                                    if p == dots_of(pre_cloud)[fi as int] {
                                        assert(p.0 == v && p.1 == dn);
                                    } else {
                                        assert(cloud_has(self.cloud@, p.0, p.1));
                                    }
                                }
                            }
                            assert(covered(self.clock@, self.cloud@) =~= covered(
                                pre_clock,
                                pre_cloud,
                            ));
                        }
                    } else {
                        self.clock[k].1 = dn;
                        self.cloud.remove(fi);
                        proof {
                            lemma_clk_update(pre_clock, self.clock@, k as int);
                            lemma_dots_remove(pre_cloud, fi as int);
                            assert forall|p: (I::V, u64)|
                                covered(pre_clock, pre_cloud).contains(p) implies covered(
                                self.clock@,
                                self.cloud@,
                            ).contains(p) by {
                                if cloud_has(pre_cloud, p.0, p.1) {
                                    if p == dots_of(pre_cloud)[fi as int] {
                                        assert(clk(self.clock@, v) == Some(dn));
                                    } else {
                                        assert(cloud_has(self.cloud@, p.0, p.1));
                                    }
                                } else {
                                    let cv = clk(pre_clock, p.0).unwrap();
                                    if p.0 == v {
                                        assert(clk(self.clock@, p.0) == Some(dn));
                                    } else {
                                        assert(clk(self.clock@, p.0) == clk(pre_clock, p.0));
                                    }
                                }
                            }
                            assert forall|p: (I::V, u64)|
                                covered(self.clock@, self.cloud@).contains(p) implies covered(
                                pre_clock,
                                pre_cloud,
                            ).contains(p) by {
                                if cloud_has(self.cloud@, p.0, p.1) {
                                    assert(cloud_has(pre_cloud, p.0, p.1));
                                } else {
                                    if p.0 == v {
                                        assert(clk(self.clock@, p.0) == Some(dn));
                                        if p.1 <= c {
                                            assert(clk(pre_clock, p.0) == Some(c));
                                        } else {
                                            assert(p.1 == dn);
                                            assert(dots_of(pre_cloud)[fi as int] == (v, dn));
                                            assert(cloud_has(pre_cloud, p.0, p.1));
                                        }
                                    } else {
                                        assert(clk(self.clock@, p.0) == clk(pre_clock, p.0));
                                    }
                                }
                            }
                            assert(covered(self.clock@, self.cloud@) =~= covered(
                                pre_clock,
                                pre_cloud,
                            ));
                        }
                    }
                },
                None => {
                    progress = false;
                },
            }
        }
        proof {
            assert forall|v: I::V|
                #[trigger] self.clock_of(v) is Some implies self.model().contains(
                (v, self.clock_of(v).unwrap()),
            ) || self.clock_of(v) == Some(0u64) by {
                let c = self.clock_of(v).unwrap();
                if c >= 1 {
                    assert(covered(self.clock@, self.cloud@).contains((v, c)));
                }
            }
        }
    }

    /// Joins `other` into `self`: clock entries rise to the maximum, missing
    /// cloud dots are adopted, and the result is compacted.
    pub fn join(&mut self, other: &Self)
        requires
            old(self).wf(),
            other.wf(),
        ensures
            final(self).wf(),
            final(self).model() == old(self).model().union(other.model()),
            final(self).compacted(),
    {
        let n = other.clock.len();
        let mut i: usize = 0;
        while i < n
            invariant
                0 <= i <= n,
                n == other.clock@.len(),
                self.wf(),
                other.wf(),
                forall|v: I::V| #[trigger] clk(self.clock@, v) == spec_clock_merge(
                    old(self).clock@,
                    other.clock@,
                    v,
                    i as int,
                ),
                self.cloud@ == old(self).cloud@,
            decreases n - i,
        {
            let ghost e = other.clock@[i as int];
            proof {
                lemma_clk_index(other.clock@, i as int);
            }
            let rc = other.clock[i].1;
            let found = find_clock(&self.clock, &other.clock[i].0);
            match found {
                Some(k) => {
                    proof {
                        lemma_clk_index(self.clock@, k as int);
                    }
                    let c = self.clock[k].1;
                    if c < rc {
                        let ghost pre = self.clock@;
                        self.clock[k].1 = rc;
                        proof {
                            lemma_clk_update(pre, self.clock@, k as int);
                            lemma_merge_step(old(self).clock@, other.clock@, i as int);
                        }
                    } else {
                        proof {
                            lemma_merge_step(old(self).clock@, other.clock@, i as int);
                        }
                    }
                },
                None => {
                    proof {
                        if clk(self.clock@, e.0@) is Some {
                            let kk = lemma_clk_some(self.clock@, e.0@);
                            assert(false);
                        }
                    }
                    let ghost pre = self.clock@;
                    self.clock.push((other.clock[i].0.dup(), rc));
                    proof {
                        assert(self.clock@ =~= pre.push(self.clock@[pre.len() as int]));
                        assert forall|v: I::V| true implies #[trigger] clk(self.clock@, v) == (if v
                            == e.0@ {
                            Some(rc)
                        } else {
                            clk(pre, v)
                        }) by {
                            lemma_clk_push(pre, self.clock@[pre.len() as int], v);
                        }
                        assert(crate::gcounter::ids_of(self.clock@)
                            =~= crate::gcounter::ids_of(pre).push(e.0@));
                        crate::gset::lemma_to_set_push(crate::gcounter::ids_of(pre), e.0@);
                        assert forall|k: int| 0 <= k < pre.len() implies (
                        #[trigger] crate::gcounter::ids_of(pre)[k]) != e.0@ by {
                            if crate::gcounter::ids_of(pre)[k] == e.0@ {
                                lemma_clk_index(pre, k);
                                assert(false);
                            }
                        }
                        assert(!crate::gcounter::ids_of(pre).contains(e.0@));
                        assert(crate::gcounter::ids_of(self.clock@).no_duplicates());
                        lemma_merge_step(old(self).clock@, other.clock@, i as int);
                    }
                },
            }
            i = i + 1;
        }
        let m = other.cloud.len();
        let mut j: usize = 0;
        while j < m
            invariant
                0 <= j <= m,
                m == other.cloud@.len(),
                self.wf(),
                other.wf(),
                forall|v: I::V| #[trigger] clk(self.clock@, v) == spec_clock_merge(
                    old(self).clock@,
                    other.clock@,
                    v,
                    n as int,
                ),
                n == other.clock@.len(),
                forall|p: (I::V, u64)|
                    #[trigger] cloud_has(self.cloud@, p.0, p.1) <==> cloud_has(
                        old(self).cloud@,
                        p.0,
                        p.1,
                    ) || cloud_has(other.cloud@.take(j as int), p.0, p.1),
            decreases m - j,
        {
            let ghost dp = (other.cloud@[j as int].0@, other.cloud@[j as int].1);
            proof {
                assert(dots_of(other.cloud@.take(j + 1)) =~= dots_of(
                    other.cloud@.take(j as int),
                ).push(dp));
                assert forall|p: (I::V, u64)|
                    #![trigger cloud_has(other.cloud@.take(j + 1), p.0, p.1)]
                    cloud_has(other.cloud@.take(j + 1), p.0, p.1) implies p == dp || cloud_has(
                    other.cloud@.take(j as int),
                    p.0,
                    p.1,
                ) by {
                    let dseq = dots_of(other.cloud@.take(j + 1));
                    let kk = choose|kk: int| 0 <= kk < dseq.len() && dseq[kk] == p;
                    if kk < j {
                        assert(dots_of(other.cloud@.take(j as int))[kk] == p);
                    }
                }
                assert forall|p: (I::V, u64)|
                    #![trigger cloud_has(other.cloud@.take(j as int), p.0, p.1)]
                    cloud_has(other.cloud@.take(j as int), p.0, p.1) implies cloud_has(
                    other.cloud@.take(j + 1),
                    p.0,
                    p.1,
                ) by {
                    let dseq = dots_of(other.cloud@.take(j as int));
                    let kk = choose|kk: int| 0 <= kk < dseq.len() && dseq[kk] == p;
                    assert(dots_of(other.cloud@.take(j + 1))[kk] == p);
                }
                assert(dots_of(other.cloud@.take(j + 1))[j as int] == dp);
            }
            let mine = self.cloud_holds(&other.cloud[j]);
            if !mine {
                let ghost pre = self.cloud@;
                let d = Dot(other.cloud[j].0.dup(), other.cloud[j].1);
                self.cloud.push(d);
                proof {
                    assert(dots_of(self.cloud@) =~= dots_of(pre).push(dp));
                    crate::gset::lemma_to_set_push(dots_of(pre), dp);
                    assert forall|k: int| 0 <= k < pre.len() implies (
                    #[trigger] dots_of(pre)[k]) != dp by {
                        if dots_of(pre)[k] == dp {
                            assert(cloud_has(pre, dp.0, dp.1));
                            assert(false);
                        }
                    }
                    assert(!dots_of(pre).contains(dp));
                    assert(dots_of(self.cloud@).no_duplicates());
                    assert forall|p: (I::V, u64)|
                        #[trigger] cloud_has(self.cloud@, p.0, p.1) implies cloud_has(
                        pre,
                        p.0,
                        p.1,
                    ) || p == dp by {
                        let dseq = dots_of(self.cloud@);
                        let kk = choose|kk: int| 0 <= kk < dseq.len() && dseq[kk] == p;
                        if kk < pre.len() {
                            assert(dots_of(pre)[kk] == p);
                        }
                    }
                    assert forall|p: (I::V, u64)|
                        #[trigger] cloud_has(pre, p.0, p.1) implies cloud_has(
                        self.cloud@,
                        p.0,
                        p.1,
                    ) by {
                        let dseq = dots_of(pre);
                        let kk = choose|kk: int| 0 <= kk < dseq.len() && dseq[kk] == p;
                        assert(dots_of(self.cloud@)[kk] == p);
                    }
                    assert(cloud_has(self.cloud@, dp.0, dp.1)) by {
                        assert(dots_of(self.cloud@)[pre.len() as int] == dp);
                    }
                    assert forall|p: (I::V, u64)|
                        #[trigger] cloud_has(self.cloud@, p.0, p.1) <==> cloud_has(
                        old(self).cloud@,
                        p.0,
                        p.1,
                    ) || cloud_has(other.cloud@.take(j + 1), p.0, p.1) by {
                        assert(cloud_has(other.cloud@.take(j + 1), dp.0, dp.1)) by {
                            assert(dots_of(other.cloud@.take(j + 1))[j as int] == dp);
                        }
                        if cloud_has(self.cloud@, p.0, p.1) {
                            assert(cloud_has(pre, p.0, p.1) || p == dp);
                        }
                        if cloud_has(old(self).cloud@, p.0, p.1) {
                            assert(cloud_has(pre, p.0, p.1));
                            assert(cloud_has(self.cloud@, p.0, p.1));
                        }
                        if cloud_has(other.cloud@.take(j + 1), p.0, p.1) {
                            assert(p == dp || cloud_has(other.cloud@.take(j as int), p.0, p.1));
                            if p != dp {
                                assert(cloud_has(pre, p.0, p.1));
                            }
                            assert(cloud_has(self.cloud@, p.0, p.1));
                        }
                    }
                }
            } else {
                proof {
                    assert forall|p: (I::V, u64)|
                        #[trigger] cloud_has(self.cloud@, p.0, p.1) <==> cloud_has(
                        old(self).cloud@,
                        p.0,
                        p.1,
                    ) || cloud_has(other.cloud@.take(j + 1), p.0, p.1) by {
                        assert(cloud_has(self.cloud@, dp.0, dp.1));
                        if cloud_has(other.cloud@.take(j + 1), p.0, p.1) {
                            assert(p == dp || cloud_has(other.cloud@.take(j as int), p.0, p.1));
                        }
                    }
                }
            }
            j = j + 1;
        }
        proof {
            assert(other.cloud@.take(m as int) =~= other.cloud@);
            lemma_merge_full(old(self).clock@, other.clock@);
            assert forall|p: (I::V, u64)|
                covered(self.clock@, self.cloud@).contains(p) <==> old(self).model().contains(p)
                    || other.model().contains(p) by {
                lemma_merge_full(old(self).clock@, other.clock@);
            }
            assert(covered(self.clock@, self.cloud@) =~= old(self).model().union(other.model()));
        }
        self.compact();
    }

    /// Whether the cloud holds this exact dot.
    fn cloud_holds(&self, d: &Dot<I>) -> (r: bool)
        ensures
            r == cloud_has(self.cloud@, d.0@, d.1),
    {
        let n = self.cloud.len();
        let mut i: usize = 0;
        while i < n
            invariant
                0 <= i <= n,
                n == self.cloud@.len(),
                forall|k: int| 0 <= k < i ==> (#[trigger] dots_of(self.cloud@)[k]) != (d.0@, d.1),
            decreases n - i,
        {
            let idmatch = self.cloud[i].0.same(&d.0);
            if idmatch && self.cloud[i].1 == d.1 {
                proof {
                    assert(dots_of(self.cloud@)[i as int] == (d.0@, d.1));
                }
                return true;
            }
            proof {
                assert(dots_of(self.cloud@)[i as int] == (self.cloud@[i as int].0@,
                self.cloud@[i as int].1));
            }
            i = i + 1;
        }
        proof {
            if cloud_has(self.cloud@, d.0@, d.1) {
                let k = choose|k: int|
                    0 <= k < dots_of(self.cloud@).len() && dots_of(self.cloud@)[k] == (d.0@, d.1);
                assert(false);
            }
        }
        false
    }
}

/// The clock lookup after merging the first `i` entries of `other` into
/// `base` by entry-wise maximum.
pub open spec fn spec_clock_merge<I: Carrier>(
    base: Seq<(I, u64)>,
    other: Seq<(I, u64)>,
    v: I::V,
    i: int,
) -> Option<u64>
    decreases i,
{
    if i <= 0 {
        clk(base, v)
    } else if other[i - 1].0@ == v {
        match spec_clock_merge(base, other, v, i - 1) {
            Some(c) => if c >= other[i - 1].1 {
                Some(c)
            } else {
                Some(other[i - 1].1)
            },
            None => Some(other[i - 1].1),
        }
    } else {
        spec_clock_merge(base, other, v, i - 1)
    }
}

/// One merge step only changes the merged id.
proof fn lemma_merge_step<I: Carrier>(base: Seq<(I, u64)>, other: Seq<(I, u64)>, i: int)
    requires
        0 <= i < other.len(),
    ensures
        forall|v: I::V|
            v != other[i].0@ ==> spec_clock_merge(base, other, v, i + 1) == #[trigger] spec_clock_merge(
                base,
                other,
                v,
                i,
            ),
        spec_clock_merge(base, other, other[i].0@, i + 1) == (match spec_clock_merge(
            base,
            other,
            other[i].0@,
            i,
        ) {
            Some(c) => if c >= other[i].1 {
                Some(c)
            } else {
                Some(other[i].1)
            },
            None => Some(other[i].1),
        }),
{
}

/// After merging every entry, the lookup is the entry-wise maximum.
proof fn lemma_merge_full<I: Carrier>(base: Seq<(I, u64)>, other: Seq<(I, u64)>)
    requires
        crate::gcounter::ids_of(other).no_duplicates(),
    ensures
        forall|p: (I::V, u64)|
            (#[trigger] spec_clock_merge(base, other, p.0, other.len() as int) matches Some(c)
                && p.1 <= c) <==> ((clk(base, p.0) matches Some(c1) && p.1 <= c1) || (clk(
                other,
                p.0,
            ) matches Some(c2) && p.1 <= c2)),
{
    assert forall|p: (I::V, u64)| true implies ((#[trigger] spec_clock_merge(
        base,
        other,
        p.0,
        other.len() as int,
    ) matches Some(c) && p.1 <= c) <==> ((clk(base, p.0) matches Some(c1) && p.1 <= c1) || (clk(
        other,
        p.0,
    ) matches Some(c2) && p.1 <= c2))) by {
        lemma_merge_value(base, other, p.0, other.len() as int);
        assert(other.take(other.len() as int) =~= other);
    }
}

/// The merged lookup equals the maximum of the base lookup and the lookup in
/// the merged prefix.
proof fn lemma_merge_value<I: Carrier>(base: Seq<(I, u64)>, other: Seq<(I, u64)>, v: I::V, i: int)
    requires
        crate::gcounter::ids_of(other).no_duplicates(),
        0 <= i <= other.len(),
    ensures
        spec_clock_merge(base, other, v, i) == (match (clk(base, v), clk(other.take(i), v)) {
            (Some(a), Some(b)) => if a >= b {
                Some(a)
            } else {
                Some(b)
            },
            (Some(a), None) => Some(a),
            (None, Some(b)) => Some(b),
            (None, None) => None::<u64>,
        }),
    decreases i,
{
    if i == 0 {
        assert(other.take(0) =~= Seq::<(I, u64)>::empty());
    } else {
        assert(crate::gcounter::ids_of(other.take(i - 1)) =~= crate::gcounter::ids_of(
            other,
        ).take(i - 1));
        lemma_merge_value(base, other, v, i - 1);
        assert(other.take(i).drop_last() =~= other.take(i - 1));
        assert(other.take(i).last() == other[i - 1]);
        if other[i - 1].0@ == v {
            if clk(other.take(i - 1), v) is Some {
                let k = lemma_clk_some(other.take(i - 1), v);
                assert(other.take(i - 1)[k] == other[k]);
                assert(crate::gcounter::ids_of(other)[k] == v);
                assert(crate::gcounter::ids_of(other)[i - 1] == v);
                assert(false);
            }
        } else {
        }
    }
}

impl<I: Carrier> DotContext<I> {
    /// Builds a context from explicit clock entries and cloud dots; refused
    /// when a clock id or a cloud dot repeats.
    pub fn from_parts(clock: Vec<(I, u64)>, cloud: Vec<Dot<I>>) -> (r: Option<Self>)
        ensures
            r matches Some(c) ==> c.wf() && c.model() == covered(clock@, cloud@) && (forall|
                k: int,
            |
                0 <= k < clock@.len() ==> c.clock_of((#[trigger] clock@[k]).0@) == Some(
                    clock@[k].1,
                )),
            r is Some <==> crate::gcounter::ids_of(clock@).no_duplicates() && dots_of(
                cloud@,
            ).no_duplicates(),
    {
        let n = clock.len();
        let mut i: usize = 0;
        while i < n
            invariant
                0 <= i <= n,
                n == clock@.len(),
                forall|a: int, b: int|
                    0 <= a < b < i ==> (#[trigger] clock@[a]).0@ != (#[trigger] clock@[b]).0@,
            decreases n - i,
        {
            let mut j: usize = 0;
            while j < i
                invariant
                    0 <= j <= i < n,
                    n == clock@.len(),
                    forall|b: int| 0 <= b < j ==> (#[trigger] clock@[b]).0@ != clock@[i as int].0@,
                decreases i - j,
            {
                if clock[j].0.same(&clock[i].0) {
                    proof {
                        assert(crate::gcounter::ids_of(clock@)[j as int]
                            == crate::gcounter::ids_of(clock@)[i as int]);
                        assert(!crate::gcounter::ids_of(clock@).no_duplicates());
                    }
                    return None;
                }
                j = j + 1;
            }
            i = i + 1;
        }
        let m = cloud.len();
        let mut p: usize = 0;
        while p < m
            invariant
                0 <= p <= m,
                m == cloud@.len(),
                forall|a: int, b: int|
                    0 <= a < b < p ==> (#[trigger] dots_of(cloud@)[a]) != (#[trigger] dots_of(
                        cloud@,
                    )[b]),
            decreases m - p,
        {
            let mut q: usize = 0;
            while q < p
                invariant
                    0 <= q <= p < m,
                    m == cloud@.len(),
                    forall|b: int|
                        0 <= b < q ==> (#[trigger] dots_of(cloud@)[b]) != dots_of(
                            cloud@,
                        )[p as int],
                decreases p - q,
            {
                let idmatch = cloud[q].0.same(&cloud[p].0);
                if idmatch && cloud[q].1 == cloud[p].1 {
                    proof {
                        assert(dots_of(cloud@)[q as int] == dots_of(cloud@)[p as int]);
                        assert(!dots_of(cloud@).no_duplicates());
                    }
                    return None;
                }
                proof {
                    assert(dots_of(cloud@)[q as int] == (cloud@[q as int].0@, cloud@[q as int].1));
                    assert(dots_of(cloud@)[p as int] == (cloud@[p as int].0@, cloud@[p as int].1));
                }
                q = q + 1;
            }
            p = p + 1;
        }
        let c = DotContext { clock, cloud };
        proof {
            assert(crate::gcounter::ids_of(c.clock@).no_duplicates()) by {
                assert forall|a: int, b: int|
                    0 <= a < b < crate::gcounter::ids_of(c.clock@).len() implies crate::gcounter::ids_of(
                    c.clock@,
                )[a] != crate::gcounter::ids_of(c.clock@)[b] by {
                    assert(c.clock@[a].0@ != c.clock@[b].0@);
                }
            }
            assert(dots_of(c.cloud@).no_duplicates());
            assert forall|k: int| 0 <= k < c.clock@.len() implies c.clock_of(
                (#[trigger] c.clock@[k]).0@,
            ) == Some(c.clock@[k].1) by {
                lemma_clk_index(c.clock@, k);
            }
        }
        Some(c)
    }

    /// The clock value of one replica, as an executable query.
    pub fn clock_value(&self, id: &I) -> (r: Option<u64>)
        requires
            self.wf(),
        ensures
            r == self.clock_of(id@),
    {
        let found = find_clock(&self.clock, id);
        match found {
            Some(k) => {
                proof {
                    lemma_clk_index(self.clock@, k as int);
                }
                Some(self.clock[k].1)
            },
            None => {
                proof {
                    if clk(self.clock@, id@) is Some {
                        let kk = lemma_clk_some(self.clock@, id@);
                        assert(false);
                    }
                }
                None
            },
        }
    }

    /// How many dots the cloud still holds.
    pub fn cloud_len(&self) -> (r: usize)
        ensures
            r == self.cloud_size(),
    {
        self.cloud.len()
    }

    /// The number of dots in the cloud.
    pub closed spec fn cloud_size(&self) -> nat {
        self.cloud@.len() as nat
    }

    /// A compacted context's observables are pinned by its model: the clock
    /// prefixes are covered, everything covered beyond a prefix is a cloud
    /// dot, no cloud dot falls at or below a prefix's next slot, and the
    /// cloud count equals the number of such dots.
    pub proof fn canonical(&self)
        requires
            self.wf(),
            self.compacted(),
        ensures
            forall|v: I::V, n: u64|
                #![trigger self.model().contains((v, n))]
                self.clock_of(v) matches Some(cv) && 1 <= n <= cv ==> self.model().contains(
                    (v, n),
                ),
            forall|v: I::V, n: u64|
                #![trigger self.model().contains((v, n))]
                (self.clock_of(v) matches Some(cv) ==> n > cv) ==> (self.cloud_pairs().contains(
                    (v, n),
                ) <==> self.model().contains((v, n))),
            forall|v: I::V, n: u64|
                #![trigger self.cloud_pairs().contains((v, n))]
                self.cloud_pairs().contains((v, n)) ==> (self.clock_of(v) matches Some(cv) ==> n
                    > cv + 1),
            self.cloud_size() == self.cloud_pairs().len(),
    {
        assert forall|v: I::V, n: u64|
            #[trigger] self.cloud_pairs().contains((v, n)) implies cloud_has(
            self.cloud@,
            v,
            n,
        ) by {
            let k = choose|k: int|
                0 <= k < dots_of(self.cloud@).len() && dots_of(self.cloud@)[k] == (v, n);
        }
        assert forall|v: I::V, n: u64|
            cloud_has(self.cloud@, v, n) implies #[trigger] self.cloud_pairs().contains(
            (v, n),
        ) by {
            let k = choose|k: int|
                0 <= k < dots_of(self.cloud@).len() && dots_of(self.cloud@)[k] == (v, n);
        }
        assert forall|v: I::V, n: u64|
            #[trigger] self.cloud_pairs().contains((v, n)) implies (self.clock_of(v) matches Some(
                cv,
            ) ==> n > cv + 1) by {
            let k = choose|k: int|
                0 <= k < dots_of(self.cloud@).len() && dots_of(self.cloud@)[k] == (v, n);
            assert(!foldable(self.clock@, (self.cloud@[k].0@, self.cloud@[k].1)));
        }
        dots_of(self.cloud@).unique_seq_to_set();
    }
}

} // verus!
