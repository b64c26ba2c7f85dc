//! Union-find over microset roots, with path compression, union by size
//! and, per component, the member closest to the tree root.
use vstd::prelude::*;
use vstd::set_lib::{lemma_len_subset, lemma_int_range, set_int_range};

verus! {

/// Standard union-find (disjoint set forest) with path compression,
/// union by size, and `macro_top` tracking.
///
/// Used for cross-microset queries. Each microset root participates
/// as a node in the macroset. `macro_top` tracks the node closest to
/// the tree root (lowest level) in each component.
#[derive(Clone)]
pub struct Macroset {
    parent: Vec<u32>,
    size: Vec<u32>,
    /// The node closest to the tree root in this macroset component.
    /// Valid only at union-find roots.
    macro_top: Vec<u32>,
    level: Vec<u32>,
    /// Nodes made into sets by `make_set`.
    members: Ghost<Set<int>>,
    /// The root of each node's tree.
    rep: Ghost<Seq<int>>,
    /// Strictly increases from a node to its parent.
    rank: Ghost<Seq<nat>>,
}

/// The members whose representative is `r`.
#[verifier::opaque]
spec fn comp_of(members: Set<int>, rep: Seq<int>, r: int) -> Set<int> {
    members.filter(|w: int| rep[w] == r)
}

proof fn lemma_comp_contains(members: Set<int>, rep: Seq<int>, r: int, w: int)
    ensures
        comp_of(members, rep, r).contains(w) <==> members.contains(w) && rep[w] == r,
{
    reveal(comp_of);
}

/// Components are determined by which members map to which root.
proof fn lemma_comp_eq(m1: Set<int>, rep1: Seq<int>, m2: Set<int>, rep2: Seq<int>, r: int)
    requires
        forall|w: int|
            (#[trigger] m1.contains(w) && rep1[w] == r) <==> (m2.contains(w) && rep2[w] == r),
    ensures
        comp_of(m1, rep1, r) == comp_of(m2, rep2, r),
{
    reveal(comp_of);
    assert forall|w: int| #[trigger] comp_of(m1, rep1, r).contains(w) == comp_of(m2, rep2, r).contains(w) by {
        if m1.contains(w) {
        }
        if m2.contains(w) {
            if !m1.contains(w) {
            }
        }
    }
    assert(comp_of(m1, rep1, r) =~= comp_of(m2, rep2, r));
}

/// A component is a finite set of at most n nodes.
proof fn lemma_comp_bound(members: Set<int>, rep: Seq<int>, r: int, n: int)
    requires
        members.subset_of(set_int_range(0, n)),
        n >= 0,
    ensures
        comp_of(members, rep, r).len() <= n,
        comp_of(members, rep, r).finite(),
        comp_of(members, rep, r).subset_of(set_int_range(0, n)),
{
    reveal(comp_of);
    lemma_int_range(0, n);
    vstd::set_lib::lemma_set_subset_finite(set_int_range(0, n), members);
    assert(comp_of(members, rep, r).subset_of(set_int_range(0, n)));
    lemma_len_subset(comp_of(members, rep, r), set_int_range(0, n));
}

impl Macroset {
    /// Number of nodes.
    pub closed spec fn len(&self) -> nat {
        self.parent@.len()
    }

    /// The nodes that `make_set` has initialized.
    pub closed spec fn members(&self) -> Set<int> {
        self.members@
    }

    /// The representative (union-find root) of `u`'s component.
    pub closed spec fn rep(&self, u: int) -> int {
        self.rep@[u]
    }

    /// The member of `u`'s component closest to the tree root.
    pub closed spec fn top_of(&self, u: int) -> int {
        self.macro_top@[self.rep@[u]] as int
    }

    /// The tree level recorded for `u`.
    pub closed spec fn level_of(&self, u: int) -> int {
        self.level@[u] as int
    }

    /// The size recorded for `u`'s component.
    pub closed spec fn weight(&self, u: int) -> int {
        self.size@[self.rep@[u]] as int
    }

    /// `u` was never made a set, and either is a root or has no node below it.
    pub closed spec fn fresh(&self, u: int) -> bool {
        &&& !self.members@.contains(u)
        &&& (self.parent@[u] == u || forall|w: int|
            0 <= w < self.parent@.len() ==> #[trigger] self.parent@[w] != u)
    }

    /// `u` is a member and the only member of its component, of which it is
    /// the root.
    pub closed spec fn singleton(&self, u: int) -> bool {
        &&& self.members@.contains(u)
        &&& self.rep@[u] == u
        &&& forall|w: int| #[trigger] self.members@.contains(w) && self.rep@[w] == u ==> w == u
    }

    spec fn comp(&self, r: int) -> Set<int> {
        comp_of(self.members@, self.rep@, r)
    }

    /// Parents, representatives and ranks agree.
    spec fn forest_clauses(&self) -> bool {
        let n = self.parent@.len();
        &&& n <= u32::MAX
        &&& self.size@.len() == n
        &&& self.macro_top@.len() == n
        &&& self.level@.len() == n
        &&& self.rep@.len() == n
        &&& self.rank@.len() == n
        &&& forall|i: int| 0 <= i < n ==> #[trigger] self.parent@[i] < n
        &&& forall|i: int| 0 <= i < n ==> 0 <= #[trigger] self.rep@[i] < n
        &&& forall|i: int| 0 <= i < n ==> self.parent@[#[trigger] self.rep@[i]] == self.rep@[i]
        &&& forall|i: int| 0 <= i < n && #[trigger] self.parent@[i] == i ==> self.rep@[i] == i
        &&& forall|i: int|
            0 <= i < n ==> #[trigger] self.rep@[self.parent@[i] as int] == self.rep@[i]
        &&& forall|i: int|
            0 <= i < n && #[trigger] self.parent@[i] != i ==> self.rank@[i]
                < self.rank@[self.parent@[i] as int]
        &&& forall|i: int| 0 <= i < n ==> #[trigger] self.rank@[i] <= self.rank@[self.rep@[i]]
    }

    #[verifier::opaque]
    spec fn forest_wf(&self) -> bool {
        self.forest_clauses()
    }

    /// Members' components hold only members, each component's top is one
    /// of its members, and sizes never exceed the members they count.
    spec fn member_clauses(&self) -> bool {
        let n = self.parent@.len();
        &&& self.members@.subset_of(set_int_range(0, n as int))
        &&& forall|m: int|
            self.members@.contains(m) ==> self.members@.contains(#[trigger] self.parent@[m] as int)
        &&& forall|m: int|
            self.members@.contains(m) ==> self.members@.contains(#[trigger] self.rep@[m])
        &&& forall|m: int|
            self.members@.contains(m) ==> {
                let t = #[trigger] self.macro_top@[self.rep@[m]] as int;
                &&& self.members@.contains(t)
                &&& self.rep@[t] == self.rep@[m]
            }
        &&& forall|m: int| #[trigger]
            self.members@.contains(m) ==> self.size@[self.rep@[m]] <= self.comp(
                self.rep@[m],
            ).len()
        &&& forall|m: int|
            #[trigger] self.members@.contains(m) ==> self.level@[self.macro_top@[self.rep@[m]] as int]
                <= self.level@[m]
    }

    #[verifier::opaque]
    spec fn members_wf(&self) -> bool {
        self.member_clauses()
    }

    /// The union-find structure is well formed.
    pub closed spec fn wf(&self) -> bool {
        self.forest_wf() && self.members_wf()
    }

    proof fn lemma_forest_intro(&self)
        requires
            self.forest_clauses(),
        ensures
            self.forest_wf(),
    {
        reveal(Macroset::forest_wf);
    }

    proof fn lemma_members_intro(&self)
        requires
            self.member_clauses(),
        ensures
            self.members_wf(),
    {
        reveal(Macroset::members_wf);
    }

    proof fn lemma_forest_lens(&self)
        requires
            self.forest_wf(),
        ensures
            self.parent@.len() <= u32::MAX,
            self.size@.len() == self.parent@.len(),
            self.macro_top@.len() == self.parent@.len(),
            self.level@.len() == self.parent@.len(),
            self.rep@.len() == self.parent@.len(),
            self.rank@.len() == self.parent@.len(),
    {
        reveal(Macroset::forest_wf);
    }

    proof fn lemma_forest_at(&self, i: int)
        requires
            self.forest_wf(),
            0 <= i < self.parent@.len(),
        ensures
            self.parent@.len() <= u32::MAX,
            self.size@.len() == self.parent@.len(),
            self.macro_top@.len() == self.parent@.len(),
            self.level@.len() == self.parent@.len(),
            self.rep@.len() == self.parent@.len(),
            self.rank@.len() == self.parent@.len(),
            self.parent@[i] < self.parent@.len(),
            0 <= self.rep@[i] < self.parent@.len(),
            self.parent@[self.rep@[i]] == self.rep@[i],
            self.parent@[i] == i ==> self.rep@[i] == i,
            self.rep@[self.parent@[i] as int] == self.rep@[i],
            self.parent@[i] != i ==> self.rank@[i] < self.rank@[self.parent@[i] as int],
            self.rank@[i] <= self.rank@[self.rep@[i]],
    {
        reveal(Macroset::forest_wf);
    }

    proof fn lemma_member_at(&self, m: int)
        requires
            self.members_wf(),
            self.members@.contains(m),
        ensures
            0 <= m < self.parent@.len(),
            self.members@.contains(self.parent@[m] as int),
            self.members@.contains(self.rep@[m]),
            self.members@.contains(self.macro_top@[self.rep@[m]] as int),
            0 <= self.macro_top@[self.rep@[m]] < self.parent@.len(),
            self.rep@[self.macro_top@[self.rep@[m]] as int] == self.rep@[m],
            self.size@[self.rep@[m]] <= self.comp(self.rep@[m]).len(),
            self.level@[self.macro_top@[self.rep@[m]] as int] <= self.level@[m],
    {
        reveal(Macroset::members_wf);
        assert(self.macro_top@[self.rep@[m]] == self.macro_top@[self.rep@[m]]);
    }

    proof fn lemma_members_range(&self)
        requires
            self.members_wf(),
        ensures
            self.members@.subset_of(set_int_range(0, self.parent@.len() as int)),
    {
        reveal(Macroset::members_wf);
    }

    pub fn new(capacity: usize) -> (m: Self)
        requires
            capacity <= u32::MAX,
        ensures
            m.wf(),
            m.len() == capacity,
            m.members() == Set::<int>::empty(),
            forall|u: int| 0 <= u < capacity ==> #[trigger] m.fresh(u),
    {
        let m = Self {
            parent: vec![0; capacity],
            size: vec![0; capacity],
            macro_top: vec![0; capacity],
            level: vec![0; capacity],
            members: Ghost(Set::empty()),
            rep: Ghost(Seq::new(capacity as nat, |i: int| 0int)),
            rank: Ghost(
                Seq::new(
                    capacity as nat,
                    |i: int|
                        if i == 0 {
                            1nat
                        } else {
                            0nat
                        },
                ),
            ),
        };
        proof {
            assert forall|i: int| 0 <= i < capacity implies #[trigger] m.parent@[i] == 0 by {
                assert(cloned(0u32, m.parent@[i]));
            }
            assert(m.forest_clauses());
            m.lemma_forest_intro();
            assert(m.member_clauses());
            m.lemma_members_intro();
            assert forall|u: int| 0 <= u < capacity implies #[trigger] m.fresh(u) by {
                if u != 0 {
                    assert forall|w: int| 0 <= w < m.parent@.len() implies #[trigger] m.parent@[w]
                        != u by {
                        assert(m.parent@[w] == 0);
                    }
                }
            }
        }
        m
    }

    /// The fields other than `parent` are unchanged, and `parent` is changed
    /// only at `u`.
    spec fn parent_changed_at(&self, other: Self, u: int) -> bool {
        &&& self.parent@.len() == other.parent@.len()
        &&& forall|i: int|
            0 <= i < self.parent@.len() && i != u ==> #[trigger] self.parent@[i]
                == other.parent@[i]
        &&& self.size@ == other.size@
        &&& self.macro_top@ == other.macro_top@
        &&& self.level@ == other.level@
        &&& self.members@ == other.members@
        &&& self.rep@ == other.rep@
        &&& self.rank@ == other.rank@
    }

    /// Pointing a non-root node straight at its root keeps the structure.
    proof fn lemma_compress(before: Self, after: Self, u: int)
        requires
            before.wf(),
            0 <= u < before.parent@.len(),
            after.parent_changed_at(before, u),
            after.parent@[u] == before.rep@[u],
        ensures
            after.wf(),
            after.same_sets(before),
            forall|w: int|
                0 <= w < before.parent@.len() && #[trigger] before.fresh(w) ==> after.fresh(w),
    {
        let n = before.parent@.len() as int;
        let root = before.rep@[u];
        before.lemma_forest_at(u);
        before.lemma_forest_at(root);
        before.lemma_forest_at(before.parent@[u] as int);
        assert(after.forest_clauses()) by {
            assert forall|i: int| 0 <= i < n && #[trigger] after.parent@[i] != i implies after.rank@[i]
                < after.rank@[after.parent@[i] as int] by {
                before.lemma_forest_at(i);
            }
            assert forall|i: int| 0 <= i < n implies #[trigger] after.rep@[after.parent@[i] as int]
                == after.rep@[i] by {
                before.lemma_forest_at(i);
            }
            assert forall|i: int| 0 <= i < n implies after.parent@[#[trigger] after.rep@[i]]
                == after.rep@[i] by {
                before.lemma_forest_at(i);
            }
            assert forall|i: int| 0 <= i < n && #[trigger] after.parent@[i] == i implies after.rep@[i]
                == i by {
                before.lemma_forest_at(i);
            }
            assert forall|i: int| 0 <= i < n implies #[trigger] after.parent@[i] < n by {
                before.lemma_forest_at(i);
            }
            assert forall|i: int| 0 <= i < n implies 0 <= #[trigger] after.rep@[i] < n by {
                before.lemma_forest_at(i);
            }
            assert forall|i: int| 0 <= i < n implies #[trigger] after.rank@[i] <= after.rank@[after.rep@[i]] by {
                before.lemma_forest_at(i);
            }
        }
        after.lemma_forest_intro();
        before.lemma_members_range();
        assert(after.member_clauses()) by {
            assert forall|m: int|
                after.members@.contains(m) implies after.members@.contains(
                #[trigger] after.parent@[m] as int,
            ) by {
                before.lemma_member_at(m);
            }
            assert forall|m: int|
                after.members@.contains(m) implies after.members@.contains(#[trigger] after.rep@[m]) by {
                before.lemma_member_at(m);
            }
            assert forall|m: int| after.members@.contains(m) implies {
                let t = #[trigger] after.macro_top@[after.rep@[m]] as int;
                &&& after.members@.contains(t)
                &&& after.rep@[t] == after.rep@[m]
            } by {
                before.lemma_member_at(m);
            }
            assert forall|m: int| #[trigger]
                after.members@.contains(m) implies after.size@[after.rep@[m]] <= after.comp(
                after.rep@[m],
            ).len() by {
                before.lemma_member_at(m);
            }
            assert forall|m: int| #[trigger]
                after.members@.contains(m) implies after.level@[after.macro_top@[after.rep@[m]] as int]
                <= after.level@[m] by {
                before.lemma_member_at(m);
            }
        }
        after.lemma_members_intro();
        assert forall|w: int| 0 <= w < n && #[trigger] before.fresh(w) implies after.fresh(w) by {
            if after.parent@[w] != w && w != root {
                assert(before.parent@[w] != w);
                assert forall|x: int| 0 <= x < n implies #[trigger] after.parent@[x] != w by {
                    if x != u {
                        assert(before.parent@[x] != w);
                    }
                }
            }
        }
    }

    /// Initialize node `u` as a singleton macroset with the given tree level.
    pub fn make_set(&mut self, u: u32, level: u32)
        requires
            old(self).wf(),
            u < old(self).len(),
            old(self).fresh(u as int) || old(self).singleton(u as int),
        ensures
            final(self).wf(),
            final(self).len() == old(self).len(),
            final(self).members() == old(self).members().insert(u as int),
            final(self).rep(u as int) == u,
            final(self).top_of(u as int) == u,
            final(self).level_of(u as int) == level,
            final(self).weight(u as int) == 1,
            forall|w: int|
                0 <= w < old(self).len() && w != u ==> #[trigger] final(self).rep(w) == old(
                    self,
                ).rep(w),
            forall|w: int|
                0 <= w < old(self).len() && w != u ==> #[trigger] final(self).level_of(w)
                    == old(self).level_of(w),
            forall|w: int|
                0 <= w < old(self).len() && w != u && old(self).members().contains(w)
                    ==> #[trigger] final(self).top_of(w) == old(self).top_of(w),
            forall|w: int|
                0 <= w < old(self).len() && w != u && old(self).members().contains(w)
                    ==> #[trigger] final(self).weight(w) == old(self).weight(w),
            forall|w: int|
                0 <= w < old(self).len() && w != u && #[trigger] old(self).fresh(w)
                    ==> final(self).fresh(w),
            final(self).singleton(u as int),
            forall|w: int| w != u && #[trigger] old(self).singleton(w) ==> final(self).singleton(w),
    {
        let ghost old_self = *self;
        proof {
            self.lemma_forest_lens();
        }
        let i = u as usize;
        self.parent.set(i, u);
        self.size.set(i, 1);
        self.macro_top.set(i, u);
        self.level.set(i, level);
        proof {
            let ui = u as int;
            let was_root = old_self.parent@[ui] == ui;
            if !was_root {
                // u has no node below it: it leaves its tree alone
                self.rep@ = self.rep@.update(ui, ui);
                self.rank@ = self.rank@.update(ui, 0);
            }
            self.members@ = self.members@.insert(ui);
            Self::lemma_make_set(old_self, *self, ui);
            assert(old_self == *old(self));
            assert forall|w: int| 0 <= w < old(self).len() && w != u && old(self).members().contains(w)
                implies #[trigger] self.top_of(w) == old(self).top_of(w) && self.weight(w) == old(self).weight(w) by {
                assert(old_self.rep@[w] != ui);
                old_self.lemma_forest_at(w);
                assert(self.macro_top@[old_self.rep@[w]] == old_self.macro_top@[old_self.rep@[w]]);
                assert(self.size@[old_self.rep@[w]] == old_self.size@[old_self.rep@[w]]);
            }
            assert forall|w: int| 0 <= w < old(self).len() && w != u && old(self).members().contains(w)
                implies #[trigger] self.weight(w) == old(self).weight(w) by {
                assert(self.top_of(w) == old(self).top_of(w));
            }
            assert forall|w: int| #[trigger] self.members@.contains(w) && self.rep@[w] == ui implies w == ui by {
                if w != ui {
                    assert(old_self.members@.contains(w));
                    old_self.lemma_member_props(w);
                }
            }
            assert forall|w: int| w != u && #[trigger] old(self).singleton(w) implies self.singleton(w) by {
                old_self.lemma_member_props(w);
                assert forall|x: int| #[trigger] self.members@.contains(x) && self.rep@[x] == w implies x == w by {
                    if x != ui {
                        assert(old_self.members@.contains(x));
                        old_self.lemma_member_props(x);
                    }
                }
            }
        }
    }

    proof fn lemma_make_set(before: Self, after: Self, u: int)
        requires
            before.wf(),
            0 <= u < before.parent@.len(),
            before.fresh(u) || before.singleton(u),
            after.parent@ == before.parent@.update(u, u as u32),
            after.size@ == before.size@.update(u, 1),
            after.macro_top@ == before.macro_top@.update(u, u as u32),
            after.level@.len() == before.level@.len(),
            forall|w: int|
                0 <= w < before.level@.len() && w != u ==> #[trigger] after.level@[w]
                    == before.level@[w],
            after.members@ == before.members@.insert(u),
            before.parent@[u] == u ==> after.rep@ == before.rep@ && after.rank@ == before.rank@,
            before.parent@[u] != u ==> after.rep@ == before.rep@.update(u, u) && after.rank@
                == before.rank@.update(u, 0),
        ensures
            after.wf(),
            after.rep@[u] == u,
            forall|w: int|
                0 <= w < before.parent@.len() && w != u ==> #[trigger] after.rep@[w]
                    == before.rep@[w],
            forall|w: int|
                0 <= w < before.parent@.len() && w != u && #[trigger] before.fresh(w)
                    ==> after.fresh(w),
            forall|m: int| #[trigger] before.members@.contains(m) && m != u ==> before.rep@[m] != u,
            forall|w: int|
                0 <= w < before.len() && w != u ==> {
                    &&& #[trigger] after.rep(w) == before.rep(w)
                    &&& after.level_of(w) == before.level_of(w)
                    &&& (before.members().contains(w) ==> after.top_of(w) == before.top_of(w)
                        && after.weight(w) == before.weight(w))
                    &&& (before.fresh(w) ==> after.fresh(w))
                },
    {
        let n = before.parent@.len() as int;
        before.lemma_forest_at(u);
        let was_root = before.parent@[u] == u;
        if !was_root {
            assert(before.fresh(u));
            assert forall|w: int| 0 <= w < n && w != u implies #[trigger] before.rep@[w] != u by {
                before.lemma_forest_at(w);
            }
        }
        assert forall|m: int| #[trigger] before.members@.contains(m) && m != u implies before.rep@[m]
            != u by {
            before.lemma_member_at(m);
            if before.rep@[m] == u {
                before.lemma_forest_at(m);
            }
        }
        assert(after.forest_clauses()) by {
            assert forall|i: int| 0 <= i < n implies #[trigger] after.rep@[after.parent@[i] as int]
                == after.rep@[i] by {
                before.lemma_forest_at(i);
            }
            assert forall|i: int| 0 <= i < n implies after.parent@[#[trigger] after.rep@[i]]
                == after.rep@[i] by {
                before.lemma_forest_at(i);
            }
            assert forall|i: int| 0 <= i < n && #[trigger] after.parent@[i] != i implies after.rank@[i]
                < after.rank@[after.parent@[i] as int] by {
                before.lemma_forest_at(i);
            }
            assert forall|i: int| 0 <= i < n implies #[trigger] after.rank@[i]
                <= after.rank@[after.rep@[i]] by {
                before.lemma_forest_at(i);
            }
            assert forall|i: int| 0 <= i < n && #[trigger] after.parent@[i] == i implies after.rep@[i]
                == i by {
                before.lemma_forest_at(i);
            }
            assert forall|i: int| 0 <= i < n implies #[trigger] after.parent@[i] < n by {
                before.lemma_forest_at(i);
            }
            assert forall|i: int| 0 <= i < n implies 0 <= #[trigger] after.rep@[i] < n by {
                before.lemma_forest_at(i);
            }
        }
        after.lemma_forest_intro();
        before.lemma_members_range();
        assert(comp_of(after.members@, after.rep@, u) =~= set![u]) by {
            assert forall|w: int| #[trigger] comp_of(after.members@, after.rep@, u).contains(w) <==> w == u by {
                lemma_comp_contains(after.members@, after.rep@, u, w);
                if w != u && after.members@.contains(w) {
                    assert(before.members@.contains(w));
                }
            }
        }
        assert(after.member_clauses()) by {
            assert forall|m: int|
                after.members@.contains(m) implies after.members@.contains(
                #[trigger] after.parent@[m] as int,
            ) by {
                if m != u {
                    before.lemma_member_at(m);
                }
            }
            assert forall|m: int|
                after.members@.contains(m) implies after.members@.contains(#[trigger] after.rep@[m]) by {
                if m != u {
                    before.lemma_member_at(m);
                }
            }
            assert forall|m: int| after.members@.contains(m) implies {
                let t = #[trigger] after.macro_top@[after.rep@[m]] as int;
                &&& after.members@.contains(t)
                &&& after.rep@[t] == after.rep@[m]
            } by {
                if m != u {
                    before.lemma_member_at(m);
                    let t = before.macro_top@[before.rep@[m]] as int;
                    if t == u {
                        before.lemma_member_at(t);
                    }
                }
            }
            assert forall|m: int| #[trigger]
                after.members@.contains(m) implies after.size@[after.rep@[m]] <= after.comp(
                after.rep@[m],
            ).len() by {
                if m != u {
                    before.lemma_member_at(m);
                    let r = before.rep@[m];
                    assert forall|w: int|
                        (#[trigger] before.members@.contains(w) && before.rep@[w] == r) <==> (
                        after.members@.contains(w) && after.rep@[w] == r) by {
                    }
                    lemma_comp_eq(before.members@, before.rep@, after.members@, after.rep@, r);
                }
            }
            assert forall|m: int| #[trigger]
                after.members@.contains(m) implies after.level@[after.macro_top@[after.rep@[m]] as int]
                <= after.level@[m] by {
                if m != u {
                    before.lemma_member_at(m);
                    let t = before.macro_top@[before.rep@[m]] as int;
                    if t == u {
                        before.lemma_member_at(t);
                    }
                }
            }
        }
        after.lemma_members_intro();
        assert forall|w: int|
            0 <= w < n && w != u && #[trigger] before.fresh(w) implies after.fresh(w) by {
            if after.parent@[w] != w {
                assert forall|x: int| 0 <= x < n implies #[trigger] after.parent@[x] != w by {
                    if x != u {
                        assert(before.parent@[x] != w);
                    }
                }
            }
        }
        assert forall|w: int| 0 <= w < before.len() && w != u implies {
            &&& #[trigger] after.rep(w) == before.rep(w)
            &&& after.level_of(w) == before.level_of(w)
            &&& (before.members().contains(w) ==> after.top_of(w) == before.top_of(w)
                && after.weight(w) == before.weight(w))
            &&& (before.fresh(w) ==> after.fresh(w))
        } by {
            if before.members@.contains(w) {
                before.lemma_forest_at(w);
            }
        }
    }

    /// Find with path compression. Returns the root of `u`'s component.
    pub fn find(&mut self, u: u32) -> (r: u32)
        requires
            old(self).wf(),
            u < old(self).len(),
        ensures
            final(self).wf(),
            r == old(self).rep(u as int),
            final(self).same_sets(*old(self)),
            forall|w: int|
                0 <= w < old(self).len() && #[trigger] old(self).fresh(w) ==> final(self).fresh(w),
    {
        let mut u = u;
        let ghost n = self.parent@.len() as int;
        let ghost r0 = self.rep@[u as int];
        let ghost old_self = *self;
        proof {
            self.lemma_forest_at(u as int);
        }
        let mut root = u;
        while self.parent[root as usize] != root
            invariant
                self.wf(),
                n == self.parent@.len(),
                0 <= root < n,
                self.rep@[root as int] == r0,
            decreases self.rank@[r0] - self.rank@[root as int],
        {
            proof {
                self.lemma_forest_at(root as int);
                self.lemma_forest_at(self.parent@[root as int] as int);
            }
            root = self.parent[root as usize];
        }
        proof {
            self.lemma_forest_at(root as int);
        }
        // Path compression
        while self.parent[u as usize] != root
            invariant
                self.wf(),
                n == self.parent@.len(),
                0 <= u < n,
                root == r0,
                self.rep@[u as int] == r0,
                self.same_sets(old_self),
                forall|w: int| 0 <= w < n && #[trigger] old_self.fresh(w) ==> self.fresh(w),
            decreases self.rank@[r0] - self.rank@[u as int],
        {
            let next = self.parent[u as usize];
            let ghost before = *self;
            proof {
                self.lemma_forest_at(u as int);
                self.lemma_forest_at(next as int);
            }
            self.parent.set(u as usize, root);
            proof {
                Self::lemma_compress(before, *self, u as int);
            }
            u = next;
        }
        root
    }

    /// Same members, components, tops, weights and levels.
    pub closed spec fn same_sets(&self, other: Self) -> bool {
        &&& self.parent@.len() == other.parent@.len()
        &&& self.members@ == other.members@
        &&& self.rep@ == other.rep@
        &&& self.macro_top@ == other.macro_top@
        &&& self.size@ == other.size@
        &&& self.level@ == other.level@
    }

    /// Representatives are roots of their own, members' representatives and
    /// tops are members of the same component, and a member's component has
    /// one top.
    pub proof fn lemma_member_props(&self, u: int)
        requires
            self.wf(),
            self.members().contains(u),
        ensures
            0 <= u < self.len(),
            0 <= self.rep(u) < self.len(),
            self.rep(self.rep(u)) == self.rep(u),
            self.members().contains(self.rep(u)),
            self.members().contains(self.top_of(u)),
            0 <= self.top_of(u) < self.len(),
            self.rep(self.top_of(u)) == self.rep(u),
            self.top_of(self.top_of(u)) == self.top_of(u),
            self.top_of(self.rep(u)) == self.top_of(u),
    {
        self.lemma_member_at(u);
        self.lemma_forest_at(u);
        self.lemma_forest_at(self.rep@[u]);
        let t = self.macro_top@[self.rep@[u]] as int;
        self.lemma_forest_at(t);
    }

    /// Nodes of one component share its top.
    pub proof fn lemma_top_same_rep(&self, a: int, b: int)
        requires
            self.rep(a) == self.rep(b),
        ensures
            self.top_of(a) == self.top_of(b),
    {
    }

    /// Same members, components, tops, weights and levels.
    pub proof fn lemma_same_sets(&self, other: Self)
        requires
            self.same_sets(other),
        ensures
            self.len() == other.len(),
            self.members() == other.members(),
            forall|w: int| #[trigger] self.rep(w) == other.rep(w),
            forall|w: int| #[trigger] self.top_of(w) == other.top_of(w),
            forall|w: int| #[trigger] self.weight(w) == other.weight(w),
            forall|w: int| #[trigger] self.level_of(w) == other.level_of(w),
    {
    }

    /// Two distinct member roots hold, together, no more than `u32::MAX`.
    proof fn lemma_sizes_fit(s1: Self, a: int, b: int)
        requires
            s1.wf(),
            a != b,
            s1.members@.contains(a),
            s1.members@.contains(b),
            s1.rep@[a] == a,
            s1.rep@[b] == b,
        ensures
            s1.size@[a] + s1.size@[b] <= u32::MAX,
    {
        s1.lemma_member_at(a);
        s1.lemma_member_at(b);
        s1.lemma_members_range();
        s1.lemma_forest_lens();
        let n = s1.parent@.len() as int;
        lemma_comp_bound(s1.members@, s1.rep@, a, n);
        lemma_comp_bound(s1.members@, s1.rep@, b, n);
        assert(s1.comp(a).disjoint(s1.comp(b))) by {
            reveal(comp_of);
        }
        vstd::set_lib::lemma_set_disjoint_lens(s1.comp(a), s1.comp(b));
        lemma_int_range(0, n);
        assert((s1.comp(a) + s1.comp(b)).subset_of(set_int_range(0, n)));
        lemma_len_subset(s1.comp(a) + s1.comp(b), set_int_range(0, n));
    }

    /// The top of a component is one of its members, at the least level of
    /// them all.
    pub proof fn lemma_top_least(&self, u: int, w: int)
        requires
            self.wf(),
            self.members().contains(u),
            self.members().contains(w),
            self.rep(u) == self.rep(w),
        ensures
            self.members().contains(self.top_of(u)),
            self.rep(self.top_of(u)) == self.rep(u),
            self.level_of(self.top_of(u)) <= self.level_of(w),
    {
        self.lemma_member_at(u);
        self.lemma_member_at(w);
    }

    /// Unite the macrosets containing `u` and `v` (union by size).
    /// The first argument `u` determines the name: after the unite,
    /// `macro_top` is set to whichever top has the smaller level (closer to
    /// the tree root), and to `u`'s top when the levels tie.
    ///
    /// Returns the new union-find root.
    pub fn unite(&mut self, u: u32, v: u32) -> (r: u32)
        requires
            old(self).wf(),
            old(self).members().contains(u as int),
            old(self).members().contains(v as int),
        ensures
            final(self).wf(),
            final(self).len() == old(self).len(),
            final(self).members() == old(self).members(),
            old(self).rep(u as int) == old(self).rep(v as int) ==> r == old(self).rep(u as int)
                && final(self).same_sets(*old(self)),
            old(self).rep(u as int) != old(self).rep(v as int) ==> Self::linked(
                *old(self),
                *final(self),
                u as int,
                v as int,
                r as int,
            ),
            forall|w: int|
                0 <= w < old(self).len() && #[trigger] old(self).fresh(w) ==> final(self).fresh(w),
    {
        let ghost n = self.parent@.len() as int;
        let ghost s0 = *self;
        proof {
            self.lemma_member_at(u as int);
            self.lemma_member_at(v as int);
        }
        let ru = self.find(u);
        let rv = self.find(v);
        let ghost s1 = *self;
        if ru == rv {
            return ru;
        }
        proof {
            s1.lemma_member_at(u as int);
            s1.lemma_member_at(v as int);
            s1.lemma_forest_at(u as int);
            s1.lemma_forest_at(v as int);
            s1.lemma_forest_at(ru as int);
            s1.lemma_forest_at(rv as int);
            Self::lemma_sizes_fit(s1, ru as int, rv as int);
        }
        // Union by size: attach smaller tree under larger
        let (big, small) = if self.size[ru as usize] >= self.size[rv as usize] {
            (ru, rv)
        } else {
            (rv, ru)
        };
        proof {
            s1.lemma_member_at(big as int);
            s1.lemma_member_at(small as int);
        }
        self.parent.set(small as usize, big);
        let sz = self.size[big as usize] + self.size[small as usize];
        self.size.set(big as usize, sz);
        // macro_top: the one with smaller level (closer to root), `u`'s on a tie
        let top_u = self.macro_top[ru as usize];
        let top_v = self.macro_top[rv as usize];
        let new_top = if self.level[top_v as usize] < self.level[top_u as usize] {
            top_v
        } else {
            top_u
        };
        self.macro_top.set(big as usize, new_top);
        proof {
            let b = big as int;
            let sm = small as int;
            let new_rank = if s1.rank@[b] > s1.rank@[sm] {
                s1.rank@[b]
            } else {
                s1.rank@[sm] + 1
            };
            self.rank@ = s1.rank@.update(b, new_rank);
            self.rep@ = Seq::new(
                n as nat,
                |w: int|
                    if s1.rep@[w] == sm {
                        b
                    } else {
                        s1.rep@[w]
                    },
            );
            Self::lemma_link(s1, *self, b, sm, new_top);
            assert forall|w: int| 0 <= w < n && #[trigger] s0.fresh(w) implies self.fresh(w) by {
                assert(s1.fresh(w));
                if self.parent@[w] != w {
                    assert forall|x: int| 0 <= x < n implies #[trigger] self.parent@[x] != w by {
                        if x != sm {
                            assert(s1.parent@[x] != w);
                        }
                    }
                }
            }
            assert(s1.same_sets(s0));
            assert(ru == s0.rep@[u as int]);
            assert(rv == s0.rep@[v as int]);
            assert(self.size@[b] == s0.size@[ru as int] + s0.size@[rv as int]);
            assert forall|w: int| 0 <= w < s0.len() implies {
                &&& #[trigger] self.rep(w) == (if s0.rep(w) == ru || s0.rep(w) == rv {
                    b
                } else {
                    s0.rep(w)
                })
                &&& self.level_of(w) == s0.level_of(w)
                &&& (s0.rep(w) != ru && s0.rep(w) != rv) ==> self.top_of(w)
                    == s0.top_of(w) && self.weight(w) == s0.weight(w)
            } by {
                s1.lemma_forest_at(w);
            }
            assert(Self::linked(s0, *self, u as int, v as int, b));
        }
        big
    }

    /// `after` is `before` with the components of `u` and `v` merged under
    /// the root `r` of the heavier one (of `u`'s on a tie): the merged
    /// weights add up, the merged top is the top with the lower level (`u`'s
    /// on a tie), and nothing else changes.
    pub open spec fn linked(before: Self, after: Self, u: int, v: int, r: int) -> bool {
        let ru = before.rep(u);
        let rv = before.rep(v);
        let big = if before.weight(u) >= before.weight(v) {
            ru
        } else {
            rv
        };
        let small = if big == ru {
            rv
        } else {
            ru
        };
        let t_u = before.top_of(u);
        let t_v = before.top_of(v);
        &&& r == big
        &&& after.weight(big) == before.weight(u) + before.weight(v)
        &&& after.top_of(big) == (if before.level_of(t_v) < before.level_of(t_u) {
            t_v
        } else {
            t_u
        })
        &&& forall|w: int|
            0 <= w < before.len() ==> {
                &&& #[trigger] after.rep(w) == (if before.rep(w) == ru || before.rep(w) == rv {
                    big
                } else {
                    before.rep(w)
                })
                &&& after.level_of(w) == before.level_of(w)
                &&& (before.rep(w) != ru && before.rep(w) != rv) ==> after.top_of(w)
                    == before.top_of(w) && after.weight(w) == before.weight(w)
            }
    }

    proof fn lemma_link(s1: Self, after: Self, b: int, sm: int, t: u32)
        requires
            s1.wf(),
            0 <= b < s1.parent@.len(),
            0 <= sm < s1.parent@.len(),
            b != sm,
            s1.rep@[b] == b,
            s1.rep@[sm] == sm,
            s1.members@.contains(b),
            s1.members@.contains(sm),
            s1.size@[b] + s1.size@[sm] <= u32::MAX,
            after.members@ == s1.members@,
            after.parent@ == s1.parent@.update(sm, b as u32),
            after.size@ == s1.size@.update(b, (s1.size@[b] + s1.size@[sm]) as u32),
            t == s1.macro_top@[b] || t == s1.macro_top@[sm],
            s1.level@[t as int] <= s1.level@[s1.macro_top@[b] as int],
            s1.level@[t as int] <= s1.level@[s1.macro_top@[sm] as int],
            after.macro_top@ == s1.macro_top@.update(b, t),
            after.level@ == s1.level@,
            after.rank@ == s1.rank@.update(
                b,
                if s1.rank@[b] > s1.rank@[sm] {
                    s1.rank@[b]
                } else {
                    s1.rank@[sm] + 1
                },
            ),
            after.rep@ == Seq::new(
                s1.parent@.len(),
                |w: int|
                    if s1.rep@[w] == sm {
                        b
                    } else {
                        s1.rep@[w]
                    },
            ),
        ensures
            after.wf(),
    {
        let n = s1.parent@.len() as int;
        s1.lemma_forest_at(b);
        s1.lemma_forest_at(sm);
        assert(after.forest_clauses()) by {
            assert forall|i: int| 0 <= i < n implies #[trigger] after.rank@[i]
                <= after.rank@[after.rep@[i]] by {
                s1.lemma_forest_at(i);
            }
            assert forall|i: int|
                0 <= i < n && #[trigger] after.parent@[i] != i implies after.rank@[i]
                < after.rank@[after.parent@[i] as int] by {
                s1.lemma_forest_at(i);
            }
            assert forall|i: int|
                0 <= i < n implies #[trigger] after.rep@[after.parent@[i] as int] == after.rep@[i] by {
                s1.lemma_forest_at(i);
            }
            assert forall|i: int| 0 <= i < n implies after.parent@[#[trigger] after.rep@[i]]
                == after.rep@[i] by {
                s1.lemma_forest_at(i);
            }
            assert forall|i: int| 0 <= i < n && #[trigger] after.parent@[i] == i implies after.rep@[i]
                == i by {
                s1.lemma_forest_at(i);
            }
            assert forall|i: int| 0 <= i < n implies #[trigger] after.parent@[i] < n by {
                s1.lemma_forest_at(i);
            }
            assert forall|i: int| 0 <= i < n implies 0 <= #[trigger] after.rep@[i] < n by {
                s1.lemma_forest_at(i);
            }
        }
        after.lemma_forest_intro();
        s1.lemma_member_at(b);
        s1.lemma_member_at(sm);
        s1.lemma_members_range();
        lemma_comp_bound(s1.members@, s1.rep@, b, n);
        lemma_comp_bound(s1.members@, s1.rep@, sm, n);
        assert(after.comp(b) =~= s1.comp(b) + s1.comp(sm)) by {
            reveal(comp_of);
        }
        assert(s1.comp(b).disjoint(s1.comp(sm))) by {
            reveal(comp_of);
        }
        vstd::set_lib::lemma_set_disjoint_lens(s1.comp(b), s1.comp(sm));
        assert(after.member_clauses()) by {
            assert forall|m: int| #[trigger]
                after.members@.contains(m) implies after.size@[after.rep@[m]] <= after.comp(
                after.rep@[m],
            ).len() by {
                s1.lemma_member_at(m);
                let r = s1.rep@[m];
                if r != b && r != sm {
                    assert forall|w: int|
                        (#[trigger] s1.members@.contains(w) && s1.rep@[w] == r) <==> (
                        after.members@.contains(w) && after.rep@[w] == r) by {
                    }
                    lemma_comp_eq(s1.members@, s1.rep@, after.members@, after.rep@, r);
                }
            }
            assert forall|m: int| after.members@.contains(m) implies {
                let t = #[trigger] after.macro_top@[after.rep@[m]] as int;
                &&& after.members@.contains(t)
                &&& after.rep@[t] == after.rep@[m]
            } by {
                s1.lemma_member_at(m);
            }
            assert forall|m: int|
                after.members@.contains(m) implies after.members@.contains(
                #[trigger] after.parent@[m] as int,
            ) by {
                s1.lemma_member_at(m);
            }
            assert forall|m: int|
                after.members@.contains(m) implies after.members@.contains(#[trigger] after.rep@[m]) by {
                s1.lemma_member_at(m);
            }
            assert forall|m: int| #[trigger]
                after.members@.contains(m) implies after.level@[after.macro_top@[after.rep@[m]] as int]
                <= after.level@[m] by {
                s1.lemma_member_at(m);
            }
        }
        after.lemma_members_intro();
    }

    /// Get the `macro_top` (node closest to tree root) for the
    /// macroset component containing `u`.
    pub fn top(&mut self, u: u32) -> (t: u32)
        requires
            old(self).wf(),
            u < old(self).len(),
        ensures
            final(self).wf(),
            t == old(self).top_of(u as int),
            final(self).same_sets(*old(self)),
            forall|w: int|
                0 <= w < old(self).len() && #[trigger] old(self).fresh(w) ==> final(self).fresh(w),
    {
        proof {
            self.lemma_forest_at(u as int);
        }
        let root = self.find(u);
        proof {
            self.lemma_forest_at(root as int);
        }
        self.macro_top[root as usize]
    }
}

} // verus!
