//! Reference answers for tree set union: a standard union-find with set
//! names, and a naive walk up the tree.
use vstd::prelude::*;
use crate::construct::{
    count_eq, relabel, lemma_count_eq_update, lemma_count_eq_le, lemma_count_relabel, lemma_count_two_labels,
    lemma_count_eq_all,
};
use crate::static_tree::StaticTreeSetUnion;
use crate::incremental::IncrementalTreeSetUnion;
use crate::tree::{
    tree_depths, is_rooted_tree, set_name, walk_up, lemma_set_name_depth, lemma_set_name_unlinked,
    lemma_link_set_names, lemma_set_name_end,
};

verus! {

/// Standard union-find oracle with set naming.
///
/// This is an independent implementation of the same abstract problem
/// that Gabow-Tarjan solves: disjoint set union on a tree, where each
/// set's name is the nearest unlinked ancestor.
pub struct UfOracle {
    parent: Vec<usize>,
    size: Vec<usize>,
    name: Vec<usize>,
    /// The root each node's parent chain leads to.
    rep: Ghost<Seq<int>>,
    /// Ranks that grow strictly along parent links.
    rank: Ghost<Seq<nat>>,
    /// A bound on every rank.
    bound: Ghost<nat>,
}

impl UfOracle {
    /// Number of elements.
    pub closed spec fn len(&self) -> nat {
        self.parent@.len()
    }

    /// Whether `u` and `w` are in one set.
    pub closed spec fn same(&self, u: int, w: int) -> bool {
        self.rep@[u] == self.rep@[w]
    }

    /// The name of `u`'s set.
    pub closed spec fn name_of(&self, u: int) -> int {
        self.name@[self.rep@[u]] as int
    }

    /// Node `u`'s parent link leads, through a strictly greater rank, into
    /// its set, whose root keeps the set's size and name.
    spec fn node_ok(&self, u: int) -> bool {
        let n = self.parent@.len();
        let r = self.rep@[u];
        &&& 0 <= r < n
        &&& self.rep@[r] == r
        &&& (self.parent@[u] == u <==> r == u)
        &&& self.parent@[u] < n
        &&& self.rep@[self.parent@[u] as int] == r
        &&& (self.parent@[u] != u ==> self.rank@[self.parent@[u] as int] > self.rank@[u])
        &&& (u != r ==> self.rank@[r] > self.rank@[u])
        &&& self.rank@[u] <= self.bound@
        &&& (r == u ==> self.size@[u] == count_eq(self.rep@, u))
        &&& self.name@[u] < n
    }

    /// Parent links lead, through strictly growing ranks, to the root of
    /// each set, whose size and name are kept at the root.
    pub closed spec fn wf(&self) -> bool {
        let n = self.parent@.len();
        &&& self.size@.len() == n
        &&& self.name@.len() == n
        &&& self.rep@.len() == n
        &&& self.rank@.len() == n
        &&& forall|u: int| 0 <= u < n ==> #[trigger] self.node_ok(u)
    }

    /// What linking `v` below `p` does: the sets of `v` and `p` merge, under
    /// the name of `p`'s set; the other sets and names stay.
    pub open spec fn link_effect(before: Self, after: Self, v: int, p: int) -> bool {
        &&& after.wf()
        &&& after.len() == before.len()
        &&& forall|u: int, w: int|
            0 <= u < before.len() && 0 <= w < before.len() ==> (#[trigger] after.same(u, w) <==> (
            before.same(u, w) || ((before.same(u, v) || before.same(u, p)) && (before.same(w, v)
                || before.same(w, p)))))
        &&& forall|u: int|
            0 <= u < before.len() ==> #[trigger] after.name_of(u) == if before.same(u, v) || before.same(u, p) {
                before.name_of(p)
            } else {
                before.name_of(u)
            }
    }

    /// The oracle's sets are those of tree set union on the tree `par` with
    /// linked flags `linked`: two nodes share a set exactly when they share a
    /// set name, which names the set.
    pub open spec fn names_tree(&self, par: Seq<usize>, linked: Seq<bool>) -> bool {
        &&& self.len() == par.len()
        &&& forall|u: int| 0 <= u < par.len() ==> #[trigger] self.name_of(u) == set_name(par, linked, u)
        &&& forall|u: int, w: int|
            0 <= u < par.len() && 0 <= w < par.len() ==> (#[trigger] self.same(u, w) <==> set_name(par, linked, u)
                == set_name(par, linked, w))
    }

    /// Nodes in one set share its name.
    pub proof fn lemma_same_name(&self, u: int, w: int)
        requires
            self.same(u, w),
        ensures
            self.name_of(u) == self.name_of(w),
    {
    }

    /// Being in one set is an equivalence.
    pub proof fn lemma_same_equiv(&self, u: int, w: int, x: int)
        ensures
            self.same(u, u),
            self.same(u, w) ==> self.same(w, u),
            self.same(u, w) && self.same(w, x) ==> self.same(u, x),
    {
    }

    /// A fresh oracle names the sets of any tree of its size with no node
    /// linked.
    pub proof fn lemma_fresh_names_tree(s: Self, par: Seq<usize>)
        requires
            is_rooted_tree(par),
            s.len() == par.len(),
            forall|u: int| 0 <= u < s.len() ==> #[trigger] s.name_of(u) == u,
            forall|u: int, w: int| 0 <= u < s.len() && 0 <= w < s.len() ==> (#[trigger] s.same(u, w) <==> u == w),
        ensures
            s.names_tree(par, Seq::new(par.len(), |i: int| false)),
    {
        let lk = Seq::new(par.len(), |i: int| false);
        let d = choose|d: Seq<nat>| tree_depths(par, d);
        assert(tree_depths(par, d));
        assert forall|u: int| 0 <= u < par.len() implies #[trigger] set_name(par, lk, u) == u by {
            lemma_set_name_unlinked(par, lk, d, u);
        }
        assert forall|u: int, w: int| 0 <= u < par.len() && 0 <= w < par.len() implies (#[trigger] s.same(u, w)
            <==> set_name(par, lk, u) == set_name(par, lk, w)) by {
            assert(set_name(par, lk, u) == u);
            assert(set_name(par, lk, w) == w);
        }
    }

    /// Linking an unlinked node `v` below its tree parent keeps the oracle
    /// naming the sets of tree set union, now with `v` linked.
    pub proof fn lemma_link_names_tree(s0: Self, s1: Self, par: Seq<usize>, linked: Seq<bool>, v: int)
        requires
            is_rooted_tree(par),
            linked.len() == par.len(),
            0 <= v < par.len(),
            par[v] != v,
            !linked[v],
            s0.names_tree(par, linked),
            Self::link_effect(s0, s1, v, par[v] as int),
        ensures
            s1.names_tree(par, linked.update(v, true)),
    {
        let n = par.len() as int;
        let p = par[v] as int;
        let lk2 = linked.update(v, true);
        let d = choose|d: Seq<nat>| tree_depths(par, d);
        assert(tree_depths(par, d));
        lemma_set_name_unlinked(par, linked, d, v);
        assert forall|u: int| 0 <= u < n implies #[trigger] set_name(par, lk2, u) == if set_name(par, linked, u)
            == v || set_name(par, linked, u) == set_name(par, linked, p) {
            set_name(par, linked, p)
        } else {
            set_name(par, linked, u)
        } by {
            lemma_link_set_names(par, linked, v, u);
        }
        assert forall|u: int| 0 <= u < n implies #[trigger] s1.name_of(u) == set_name(par, lk2, u) by {
            assert(s0.same(u, v) <==> set_name(par, linked, u) == set_name(par, linked, v));
            assert(s0.same(u, p) <==> set_name(par, linked, u) == set_name(par, linked, p));
        }
        assert forall|u: int, w: int| 0 <= u < n && 0 <= w < n implies (#[trigger] s1.same(u, w) <==> set_name(
            par,
            lk2,
            u,
        ) == set_name(par, lk2, w)) by {
            assert(s0.same(u, v) <==> set_name(par, linked, u) == set_name(par, linked, v));
            assert(s0.same(u, p) <==> set_name(par, linked, u) == set_name(par, linked, p));
            assert(s0.same(w, v) <==> set_name(par, linked, w) == set_name(par, linked, v));
            assert(s0.same(w, p) <==> set_name(par, linked, w) == set_name(par, linked, p));
            assert(s0.same(u, w) <==> set_name(par, linked, u) == set_name(par, linked, w));
            assert(set_name(par, lk2, u) == if set_name(par, linked, u) == v || set_name(par, linked, u) == set_name(par, linked, p) {
                set_name(par, linked, p)
            } else {
                set_name(par, linked, u)
            });
            assert(set_name(par, lk2, w) == if set_name(par, linked, w) == v || set_name(par, linked, w) == set_name(par, linked, p) {
                set_name(par, linked, p)
            } else {
                set_name(par, linked, w)
            });
        }
    }

    /// A fresh oracle of `n` singleton sets, each named by its element.
    pub fn new(n: usize) -> (s: Self)
        ensures
            s.wf(),
            s.len() == n,
            forall|u: int| 0 <= u < n ==> #[trigger] s.name_of(u) == u,
            forall|u: int, w: int| 0 <= u < n && 0 <= w < n ==> (#[trigger] s.same(u, w) <==> u == w),
    {
        let mut parent: Vec<usize> = Vec::new();
        let mut size: Vec<usize> = Vec::new();
        let mut name: Vec<usize> = Vec::new();
        let mut i: usize = 0;
        while i < n
            invariant
                i <= n,
                parent@.len() == i,
                size@.len() == i,
                name@.len() == i,
                forall|j: int| 0 <= j < i ==> #[trigger] parent@[j] == j,
                forall|j: int| 0 <= j < i ==> #[trigger] size@[j] == 1,
                forall|j: int| 0 <= j < i ==> #[trigger] name@[j] == j,
            decreases n - i,
        {
            parent.push(i);
            size.push(1);
            name.push(i);
            i += 1;
        }
        let ghost rep = Seq::new(n as nat, |u: int| u);
        let s = UfOracle {
            parent,
            size,
            name,
            rep: Ghost(rep),
            rank: Ghost(Seq::new(n as nat, |u: int| 0nat)),
            bound: Ghost(0),
        };
        proof {
            assert forall|u: int| 0 <= u < n implies #[trigger] s.node_ok(u) by {
                crate::construct::lemma_count_eq_one_at(rep, u);
                assert(s.parent@[u] == u && s.size@[u] == 1 && s.name@[u] == u);
            }
            assert forall|u: int| 0 <= u < n implies #[trigger] s.name_of(u) == u by {
                assert(s.rep@[u] == u);
                assert(s.name@[u] == u);
            }
            assert forall|u: int, w: int| 0 <= u < n && 0 <= w < n implies (#[trigger] s.same(u, w) <==> u == w) by {
                assert(s.rep@[u] == u && s.rep@[w] == w);
            }
        }
        s
    }

    /// The root of `u`'s tree, compressing the path on the way.
    fn root(&mut self, u: usize) -> (r: usize)
        requires
            old(self).wf(),
            u < old(self).len(),
        ensures
            final(self).wf(),
            final(self).rep@ == old(self).rep@,
            final(self).name@ == old(self).name@,
            final(self).len() == old(self).len(),
            r == old(self).rep@[u as int],
    {
        let ghost n = self.parent@.len();
        let ghost rt = self.rep@[u as int];
        let mut r = u;
        while self.parent[r] != r
            invariant
                self.wf(),
                n == self.parent@.len(),
                r < n,
                self.rep@[r as int] == rt,
            decreases self.bound@ - self.rank@[r as int],
        {
            proof {
                assert(self.node_ok(r as int));
            }
            r = self.parent[r];
            proof {
                assert(self.node_ok(r as int));
            }
        }
        proof {
            assert(self.node_ok(r as int));
        }
        let mut u = u;
        let ghost s0 = *self;
        while self.parent[u] != r
            invariant
                self.wf(),
                n == self.parent@.len(),
                u < n,
                r == rt,
                self.rep@[u as int] == rt,
                self.rep@ == s0.rep@,
                self.name@ == s0.name@,
                self.rank@ == s0.rank@,
                self.bound@ == s0.bound@,
                self.size@ == s0.size@,
                s0.rep@[rt] == rt,
            decreases self.bound@ - self.rank@[u as int],
        {
            let next = self.parent[u];
            let ghost before = *self;
            proof {
                assert(before.node_ok(u as int));
                assert(before.node_ok(rt));
            }
            self.parent.set(u, r);
            proof {
                assert forall|w: int| 0 <= w < n implies #[trigger] self.node_ok(w) by {
                    assert(before.node_ok(w));
                    if w == u {
                        assert(u != rt);
                    }
                }
            }
            u = next;
            proof {
                assert(self.node_ok(u as int));
            }
        }
        r
    }

    /// link(v): merge v's set into tree_parent's set.
    /// The resulting set's name is tree_parent's current set name.
    pub fn link(&mut self, v: usize, tree_parent: usize)
        requires
            old(self).wf(),
            v < old(self).len(),
            tree_parent < old(self).len(),
        ensures
            Self::link_effect(*old(self), *final(self), v as int, tree_parent as int),
    {
        let ghost s0 = *self;
        let ghost n = self.parent@.len();
        let rv = self.root(v);
        let rp = self.root(tree_parent);
        proof {
            assert(self.node_ok(v as int));
            assert(self.node_ok(tree_parent as int));
        }
        if rv == rp {
            return;
        }
        let result_name = self.name[rp];
        let (big, small) = if self.size[rv] >= self.size[rp] {
            (rv, rp)
        } else {
            (rp, rv)
        };
        let ghost s1 = *self;
        let total = self.parent.len();
        proof {
            assert(self.node_ok(v as int));
            assert(self.node_ok(tree_parent as int));
            assert(self.node_ok(rv as int));
            assert(self.node_ok(rp as int));
            assert(self.rep@[rv as int] == rv);
            assert(self.rep@[rp as int] == rp);
            lemma_count_two_labels(self.rep@, rv as int, rp as int);
            lemma_count_eq_le(self.rep@, rv as int);
        }
        self.parent.set(small, big);
        self.size.set(big, self.size[big] + self.size[small]);
        self.name.set(big, result_name);
        proof {
            let bi = big as int;
            let si = small as int;
            let new_rank = if s1.rank@[bi] > s1.rank@[si] {
                s1.rank@[bi]
            } else {
                s1.rank@[si] + 1
            };
            self.rep@ = relabel(s1.rep@, si, bi);
            self.rank@ = s1.rank@.update(bi, new_rank);
            self.bound@ = if new_rank > s1.bound@ {
                new_rank
            } else {
                s1.bound@
            };
            Self::lemma_union(s0, s1, *self, v as int, tree_parent as int, bi, si);
        }
    }

    /// Hanging root `small` below root `big`, with the sizes added and the
    /// name of `tp`'s set, merges the sets of `v` and `tp`.
    proof fn lemma_union(s0: Self, s1: Self, s2: Self, v: int, tp: int, bi: int, si: int)
        requires
            s0.wf(),
            s1.wf(),
            0 <= v < s0.len(),
            0 <= tp < s0.len(),
            s1.parent@.len() == s0.parent@.len(),
            s1.parent@.len() <= usize::MAX,
            s1.rep@ == s0.rep@,
            s1.name@ == s0.name@,
            s1.rep@[bi] == bi,
            s1.rep@[si] == si,
            bi != si,
            (bi == s0.rep@[v] && si == s0.rep@[tp]) || (bi == s0.rep@[tp] && si == s0.rep@[v]),
            s1.size@[bi] + s1.size@[si] <= usize::MAX,
            s2.parent@ == s1.parent@.update(si, bi as usize),
            s2.size@ == s1.size@.update(bi, (s1.size@[bi] + s1.size@[si]) as usize),
            s2.name@ == s1.name@.update(bi, s1.name@[s0.rep@[tp]]),
            s2.rep@ == relabel(s1.rep@, si, bi),
            s2.rank@ == s1.rank@.update(
                bi,
                if s1.rank@[bi] > s1.rank@[si] {
                    s1.rank@[bi]
                } else {
                    s1.rank@[si] + 1
                },
            ),
            s2.bound@ >= s1.bound@,
            s2.bound@ >= s2.rank@[bi],
        ensures
            s2.wf(),
            s2.len() == s0.len(),
            forall|u: int, w: int|
                0 <= u < s0.len() && 0 <= w < s0.len() ==> (#[trigger] s2.same(u, w) <==> (s0.same(u, w) || ((
                s0.same(u, v) || s0.same(u, tp)) && (s0.same(w, v) || s0.same(w, tp))))),
            forall|u: int|
                0 <= u < s0.len() ==> #[trigger] s2.name_of(u) == if s0.same(u, v) || s0.same(u, tp) {
                    s0.name_of(tp)
                } else {
                    s0.name_of(u)
                },
    {
        let n = s1.parent@.len() as int;
        assert(s0.node_ok(tp) && s0.node_ok(v));
        assert(0 <= bi < n && 0 <= si < n);
        lemma_count_relabel(s1.rep@, si, bi, bi);
        assert forall|h: int| 0 <= h < n && h != bi && h != si && s1.rep@[h] == h implies count_eq(s2.rep@, h)
            == count_eq(s1.rep@, h) by {
            lemma_count_relabel(s1.rep@, si, bi, h);
        }
        assert(s0.node_ok(tp) && s0.node_ok(v));
        let rt = s1.rep@[tp];
        assert(s1.node_ok(rt));
        assert(s1.node_ok(bi) && s1.node_ok(si));
        assert forall|w: int| 0 <= w < n implies #[trigger] s2.node_ok(w) by {
            assert(s1.node_ok(w));
            let r0 = s1.rep@[w];
            assert(s1.node_ok(r0));
            let p0 = s1.parent@[w] as int;
            assert(s1.node_ok(p0));
            if w == si {
                assert(s2.parent@[w] == bi);
            }
            if r0 == w && w != bi && w != si {
                assert(count_eq(s2.rep@, w) == count_eq(s1.rep@, w));
            }
        }
        assert forall|u: int, w: int|
            0 <= u < n && 0 <= w < n implies (#[trigger] s2.same(u, w) <==> (s0.same(u, w) || ((s0.same(u, v) || s0.same(
                u,
                tp,
            )) && (s0.same(w, v) || s0.same(w, tp))))) by {
            assert(s1.node_ok(u) && s1.node_ok(w));
        }
        assert forall|u: int| 0 <= u < n implies #[trigger] s2.name_of(u) == if s0.same(u, v) || s0.same(u, tp) {
            s0.name_of(tp)
        } else {
            s0.name_of(u)
        } by {
            assert(s1.node_ok(u));
        }
    }

    /// find(v): return the name of v's set (nearest unlinked ancestor).
    pub fn find(&mut self, v: usize) -> (r: usize)
        requires
            old(self).wf(),
            v < old(self).len(),
        ensures
            final(self).wf(),
            final(self).len() == old(self).len(),
            r == old(self).name_of(v as int),
            forall|u: int, w: int| #[trigger] final(self).same(u, w) == old(self).same(u, w),
            forall|u: int| #[trigger] final(self).name_of(u) == old(self).name_of(u),
    {
        let r = self.root(v);
        proof {
            assert(self.node_ok(v as int));
        }
        self.name[r]
    }
}

/// One step of the walk: a linked node other than the root has its
/// parent's set name; the root is its own.
pub proof fn lemma_set_name_step(par: Seq<usize>, linked: Seq<bool>, d: Seq<nat>, x: int)
    requires
        tree_depths(par, d),
        0 <= x < par.len(),
    ensures
        par[x] == x ==> set_name(par, linked, x) == x,
        linked[x] && par[x] != x ==> set_name(par, linked, x) == set_name(par, linked, par[x] as int),
{
    lemma_set_name_depth(par, linked, d, x);
    if par[x] != x {
        lemma_set_name_depth(par, linked, d, par[x] as int);
    }
}

/// Naive walk-up oracle. O(depth) per find.
/// Serves as a second independent oracle to cross-check UfOracle.
pub fn naive_find(v: usize, parents: &[usize], linked: &[bool]) -> (r: usize)
    requires
        is_rooted_tree(parents@),
        v < parents.len(),
        linked.len() >= parents.len(),
    ensures
        r == set_name(parents@, linked@, v as int),
{
    let ghost d = choose|d: Seq<nat>| tree_depths(parents@, d);
    let mut cur = v;
    loop
        invariant
            tree_depths(parents@, d),
            cur < parents.len(),
            linked.len() >= parents.len(),
            set_name(parents@, linked@, cur as int) == set_name(parents@, linked@, v as int),
        decreases d[cur as int],
    {
        proof {
            lemma_set_name_step(parents@, linked@, d, cur as int);
        }
        if !linked[cur] {
            proof {
                lemma_set_name_unlinked(parents@, linked@, d, cur as int);
            }
            return cur;
        }
        let p = parents[cur];
        if p == cur {
            return cur;
        }
        cur = p;
    }
}

/// The static structure and the growing one, on the same tree with the same
/// nodes linked, and a union-find oracle that names that tree's sets, all
/// answer a find of any node alike: its nearest unlinked ancestor, which is
/// also what `naive_find` returns.
pub proof fn lemma_structures_agree(
    st: StaticTreeSetUnion,
    it: IncrementalTreeSetUnion,
    o: UfOracle,
    v: int,
)
    requires
        st.wf(),
        it.wf(),
        it.parents() == st.parents(),
        it.linked() == st.linked(),
        o.names_tree(st.parents(), st.linked()),
        0 <= v < st.spec_len(),
    ensures
        set_name(it.parents(), it.linked(), v) == set_name(st.parents(), st.linked(), v),
        o.name_of(v) == set_name(st.parents(), st.linked(), v),
        0 <= set_name(st.parents(), st.linked(), v) < st.spec_len(),
        st.parents()[set_name(st.parents(), st.linked(), v)] == set_name(st.parents(), st.linked(), v)
            || !st.linked()[set_name(st.parents(), st.linked(), v)],
{
    st.lemma_lengths();
    it.lemma_lengths();
    lemma_set_name_end(st.parents(), st.linked(), v);
}

} // verus!
