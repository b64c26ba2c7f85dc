//! Tree set union on a tree known in advance.
use vstd::prelude::*;
use vstd::arithmetic::power2::pow2;
use crate::answer_table::{
    AnswerTable, forest_size, forest_parents, nearest_marked, forest_valid,
};
use crate::macroset::Macroset;
use crate::microset::{
    Microset, NodeInfo, NO_PARENT, microfind, microfind_spec, layout_ok, microset_ok, mark_bit,
    lemma_local_walk,
};
use crate::tree::{
    tree_depths, is_rooted_tree, set_name, linked_path, lemma_set_name_path,
    lemma_set_name_unlinked, lemma_path_concat, lemma_path_mono,
};
use crate::answer_table::lemma_compute_b_props;
use crate::construct::{
    find_root, build_children, bfs_levels, bfs_ok, reverse_order, make_microsets, tree_facts, table_ok,
    pre_microset_ok, records_kept,
};

verus! {

/// Static tree set union data structure (Gabow-Tarjan Section 2).
///
/// The tree must be known in advance. Supports `link` and `find` operations
/// in O(1) amortized time, with O(m + n) total for m operations on n nodes.
///
/// # Semantics
///
/// - Initially every node is its own **set name** (marked).
/// - `link(v)` removes `v` as a set name, merging it into `parent(v)`'s set.
///   After this, `find` will skip past `v`.
/// - `find(v)` returns the nearest ancestor of `v` that is still a set name
///   (has not been linked). A node is its own ancestor.
/// - `link(root)` is refused: the root has no parent.
#[derive(Clone)]
pub struct StaticTreeSetUnion {
    node_info: Vec<NodeInfo>,
    microsets: Vec<Microset>,
    /// Flat array of all microset node IDs. Each microset's nodes are a
    /// contiguous slice at `[offset..offset+len]`.
    all_nodes: Vec<u32>,
    answer_table: AnswerTable,
    macroset: Macroset,
    n: usize,
    /// The parent array the structure was built from.
    par: Ghost<Seq<usize>>,
}

/// The nodes of microset `ms`, in position order.
pub open spec fn ms_nodes(all: Seq<u32>, ms: Microset) -> Seq<u32> {
    all.subrange(ms.nodes_offset as int, ms.nodes_offset + forest_size(ms.forest))
}

/// Each node's linked flag, read from its bit in its microset's mark.
pub open spec fn linked_flags(info: Seq<NodeInfo>, mss: Seq<Microset>, n: nat) -> Seq<bool> {
    Seq::new(n, |v: int| mark_bit(mss[info[v].micro as int].mark, info[v].number as int))
}

/// The level recorded for each node.
pub open spec fn level_seq(info: Seq<NodeInfo>) -> Seq<nat> {
    Seq::new(info.len(), |v: int| info[v].level as nat)
}

impl StaticTreeSetUnion {
    /// The parent array of the tree (the root is its own parent).
    pub closed spec fn parents(&self) -> Seq<usize> {
        self.par@
    }

    /// Which nodes have been linked.
    pub closed spec fn linked(&self) -> Seq<bool> {
        linked_flags(self.node_info@, self.microsets@, self.n as nat)
    }

    /// Number of nodes.
    pub closed spec fn spec_len(&self) -> nat {
        self.n as nat
    }

    /// Every microset's external root is in the macroset, in a set of its
    /// own, as construction leaves them before any `find`.
    pub closed spec fn roots_apart(&self) -> bool {
        forall|j: int|
            0 <= j < self.microsets@.len() && (#[trigger] self.microsets@[j]).root != NO_PARENT
                ==> self.macroset.singleton(self.microsets@[j].root as int)
    }

    /// The tree and the linked flags cover exactly the structure's nodes.
    pub proof fn lemma_lengths(&self)
        requires
            self.wf(),
        ensures
            self.parents().len() == self.spec_len(),
            self.linked().len() == self.spec_len(),
            is_rooted_tree(self.parents()),
            forall|r: int| 0 <= r < self.spec_len() && self.parents()[r] == r ==> !#[trigger] self.linked()[r],
    {
    }

    /// The macroset invariant: every member's top is an ancestor reached
    /// from it over linked nodes only, and every microset root is a member.
    spec fn macro_ok(&self) -> bool {
        let n = self.n as int;
        let levels = level_seq(self.node_info@);
        let linked = self.linked();
        &&& self.macroset.wf()
        &&& self.macroset.len() == n
        &&& forall|m: int|
            0 <= m < self.microsets@.len() && #[trigger] self.microsets@[m].root != NO_PARENT
                ==> self.macroset.members().contains(self.microsets@[m].root as int)
        &&& forall|u: int| #[trigger]
            self.macroset.members().contains(u) ==> {
                let t = self.macroset.top_of(u);
                &&& 0 <= u < n
                &&& 0 <= t < n
                &&& self.macroset.level_of(u) == levels[u]
                &&& levels[t] <= levels[u]
                &&& linked_path(self.par@, linked, u, t, (levels[u] - levels[t]) as nat)
            }
    }

    /// The structure is consistent with the tree and its linked nodes.
    pub closed spec fn wf(&self) -> bool {
        let n = self.n as int;
        let info = self.node_info@;
        let mss = self.microsets@;
        let b = self.answer_table.b as nat;
        &&& info.len() == n
        &&& self.par@.len() == n
        &&& n < NO_PARENT
        &&& self.all_nodes@.len() == n
        &&& is_rooted_tree(self.par@)
        &&& tree_depths(self.par@, level_seq(info))
        &&& forall|v: int|
            0 <= v < n ==> #[trigger] info[v].parent == (if self.par@[v] == v {
                NO_PARENT
            } else {
                self.par@[v] as u32
            })
        &&& self.answer_table.wf()
        &&& forall|v: int|
            0 <= v < n ==> #[trigger] layout_ok(info, mss, self.n as nat, b, v) && self.all_nodes@[mss[info[v].micro as int].nodes_offset
                + info[v].number] == v
        &&& forall|m: int|
            0 <= m < mss.len() ==> {
                let ms = #[trigger] mss[m];
                &&& ms.nodes_offset + forest_size(ms.forest) <= n
                &&& microset_ok(
                    ms_nodes(self.all_nodes@, ms),
                    ms.forest,
                    ms.mark,
                    ms.root,
                    m,
                    info,
                    self.par@,
                    b,
                )
            }
        &&& forall|r: int| 0 <= r < n && #[trigger] self.par@[r] == r ==> !self.linked()[r]
        &&& self.macro_ok()
    }
}

proof fn lemma_bits_after_set(mark: u32, j: u32, s: u32, jj: u32)
    by (bit_vector)
    requires
        j < s <= 16,
        jj < 32,
        mark < (1u32 << s),
    ensures
        (mark | (1u32 << j)) < (1u32 << s),
        jj != j ==> ((mark | (1u32 << j)) >> jj) & 1u32 == (mark >> jj) & 1u32,
        ((mark | (1u32 << j)) >> j) & 1u32 == 1u32,
{
}

impl StaticTreeSetUnion {
    /// The linked flags of the tree's nodes, as a lemma-friendly fact: each
    /// microset's nodes carry their microset's mark bits.
    proof fn lemma_marks(&self, m: int)
        requires
            self.wf(),
            0 <= m < self.microsets@.len(),
        ensures
            forall|jj: int|
                0 <= jj < forest_size(self.microsets@[m].forest) ==> self.linked()[#[trigger] ms_nodes(
                    self.all_nodes@,
                    self.microsets@[m],
                )[jj] as int] == mark_bit(self.microsets@[m].mark, jj),
    {
        let ms = self.microsets@[m];
        let nodes = ms_nodes(self.all_nodes@, ms);
        assert forall|jj: int| 0 <= jj < forest_size(ms.forest) implies self.linked()[#[trigger] nodes[jj] as int]
            == mark_bit(ms.mark, jj) by {
            let w = nodes[jj] as int;
            assert(self.node_info@[w].micro == m);
            assert(self.node_info@[w].number == jj);
        }
    }

    /// Link node `v`: remove `v` as a set name, merging it into its
    /// parent's set.
    pub fn link(&mut self, v: usize)
        requires
            old(self).wf(),
            v < old(self).spec_len(),
            old(self).parents()[v as int] != v,
        ensures
            final(self).wf(),
            final(self).spec_len() == old(self).spec_len(),
            final(self).parents() == old(self).parents(),
            final(self).linked() == old(self).linked().update(v as int, true),
    {
        let ghost s0 = *self;
        proof {
            assert(layout_ok(s0.node_info@, s0.microsets@, s0.n as nat, s0.answer_table.b as nat, v as int));
        }
        let info = self.node_info[v];
        let mi = info.micro as usize;
        let mut ms = self.microsets[mi];
        let ghost size = forest_size(ms.forest);
        proof {
            vstd::bits::lemma_u32_pow2_no_overflow(size);
            vstd::bits::lemma_u32_shl_is_mul(1, size as u32);
        }
        ms.mark = ms.mark | (1 << info.number);
        self.microsets.set(mi, ms);
        proof {
            let n = s0.n as int;
            let j = info.number as u32;
            lemma_bits_after_set(s0.microsets@[mi as int].mark, j, size as u32, 0);
            assert forall|jj: int| 0 <= jj < 32 implies mark_bit(ms.mark, jj) == (if jj == j {
                true
            } else {
                mark_bit(s0.microsets@[mi as int].mark, jj)
            }) by {
                lemma_bits_after_set(s0.microsets@[mi as int].mark, j, size as u32, jj as u32);
            }
            let lk0 = s0.linked();
            let lk = self.linked();
            assert(self.microsets@ == s0.microsets@.update(mi as int, ms));
            assert forall|w: int| 0 <= w < n implies #[trigger] lk[w] == lk0.update(v as int, true)[w] by {
                let wi = self.node_info@[w];
                assert(layout_ok(s0.node_info@, s0.microsets@, s0.n as nat, s0.answer_table.b as nat, w));
                assert(lk[w] == mark_bit(self.microsets@[wi.micro as int].mark, wi.number as int));
                assert(lk0[w] == mark_bit(s0.microsets@[wi.micro as int].mark, wi.number as int));
                if wi.micro == mi && w != v {
                    assert(layout_ok(s0.node_info@, s0.microsets@, s0.n as nat, s0.answer_table.b as nat, w));
                    assert(wi.number != j) by {
                        if wi.number == j {
                            assert(s0.all_nodes@[s0.microsets@[mi as int].nodes_offset + wi.number] == w);
                            assert(s0.all_nodes@[s0.microsets@[mi as int].nodes_offset + info.number] == v);
                        }
                    }
                    assert(wi.number < 16);
                }
            }
            assert(lk =~= lk0.update(v as int, true));
            self.lemma_link_wf(s0, v as int);
        }
    }

    proof fn lemma_link_wf(&self, s0: Self, v: int)
        requires
            s0.wf(),
            0 <= v < s0.n,
            s0.par@[v] != v,
            self.n == s0.n,
            self.par@ == s0.par@,
            self.node_info@ == s0.node_info@,
            self.all_nodes@ == s0.all_nodes@,
            self.answer_table == s0.answer_table,
            self.macroset == s0.macroset,
            self.microsets@.len() == s0.microsets@.len(),
            forall|m: int|
                0 <= m < self.microsets@.len() && m != s0.node_info@[v].micro ==> #[trigger] self.microsets@[m]
                    == s0.microsets@[m],
            ({
                let m = s0.node_info@[v].micro as int;
                let ms = self.microsets@[m];
                let ms0 = s0.microsets@[m];
                &&& ms.forest == ms0.forest
                &&& ms.nodes_offset == ms0.nodes_offset
                &&& ms.root == ms0.root
                &&& ms.mark < pow2(forest_size(ms.forest))
            }),
            self.linked() == s0.linked().update(v, true),
        ensures
            self.wf(),
    {
        let n = self.n as int;
        let info = self.node_info@;
        let mss = self.microsets@;
        let b = self.answer_table.b as nat;
        let mv = s0.node_info@[v].micro as int;
        assert forall|w: int| 0 <= w < n implies #[trigger] layout_ok(info, mss, self.n as nat, b, w)
            && self.all_nodes@[mss[info[w].micro as int].nodes_offset + info[w].number] == w by {
            assert(layout_ok(s0.node_info@, s0.microsets@, s0.n as nat, b, w));
        }
        assert forall|m: int| 0 <= m < mss.len() implies {
            let ms = #[trigger] mss[m];
            &&& ms.nodes_offset + forest_size(ms.forest) <= n
            &&& microset_ok(ms_nodes(self.all_nodes@, ms), ms.forest, ms.mark, ms.root, m, info, self.par@, b)
        } by {
            let ms0 = s0.microsets@[m];
            assert(microset_ok(ms_nodes(s0.all_nodes@, ms0), ms0.forest, ms0.mark, ms0.root, m, info, self.par@, b));
            assert(ms_nodes(self.all_nodes@, mss[m]) == ms_nodes(s0.all_nodes@, ms0));
        }
        assert forall|r: int| 0 <= r < n && #[trigger] self.par@[r] == r implies !self.linked()[r] by {
            assert(!s0.linked()[r]);
        }
        assert forall|x: int| 0 <= x < n && #[trigger] s0.linked()[x] implies self.linked()[x] by {
        }
        let levels = level_seq(info);
        assert forall|u: int| #[trigger] self.macroset.members().contains(u) implies {
            let t = self.macroset.top_of(u);
            &&& 0 <= u < n
            &&& 0 <= t < n
            &&& self.macroset.level_of(u) == levels[u]
            &&& levels[t] <= levels[u]
            &&& linked_path(self.par@, self.linked(), u, t, (levels[u] - levels[t]) as nat)
        } by {
            let t = self.macroset.top_of(u);
            assert(s0.macroset.members().contains(u));
            lemma_path_mono(self.par@, levels, s0.linked(), self.linked(), u, t, (levels[u] - levels[t]) as nat);
        }
        assert forall|m: int|
            0 <= m < mss.len() && #[trigger] mss[m].root != NO_PARENT implies self.macroset.members().contains(mss[m].root as int) by {
            assert(s0.microsets@[m].root == mss[m].root);
        }
        assert(self.macro_ok());
        assert(is_rooted_tree(self.par@));
        assert(tree_depths(self.par@, level_seq(info)));
        assert(self.answer_table.wf());
        assert(forall|v: int|
            0 <= v < n ==> #[trigger] info[v].parent == (if self.par@[v] == v {
                NO_PARENT
            } else {
                self.par@[v] as u32
            }));
    }

    /// Find the nearest ancestor of `v` that is still a set name
    /// (has not been linked). A node is its own ancestor.
    #[must_use]
    pub fn find(&mut self, v: usize) -> (r: usize)
        requires
            old(self).wf(),
            v < old(self).spec_len(),
        ensures
            final(self).wf(),
            final(self).spec_len() == old(self).spec_len(),
            final(self).parents() == old(self).parents(),
            final(self).linked() == old(self).linked(),
            r == set_name(old(self).parents(), old(self).linked(), v as int),
    {
        let ghost s0 = *self;
        let ghost par = self.par@;
        let ghost lk = self.linked();
        let ghost levels = level_seq(self.node_info@);
        let ghost target = set_name(par, lk, v as int);
        let mut x = v as u32;
        proof {
            self.lemma_microfind(x as int);
        }
        let mut y = microfind(
            x,
            &self.node_info,
            &self.microsets,
            &self.all_nodes,
            &self.answer_table,
        );

        let x_micro = self.node_info[x as usize].micro;
        let y_micro = self.node_info[y as usize].micro;

        if x_micro != y_micro {
            proof {
                self.lemma_macro_member(y as int);
            }
            x = self.macroset.top(y);
            proof {
                self.lemma_macro_after(s0, y as int, x as int);
            }
            loop
                invariant
                    self.wf(),
                    self.n == s0.n,
                    self.par@ == par,
                    self.node_info@ == s0.node_info@,
                    self.microsets@ == s0.microsets@,
                    self.all_nodes@ == s0.all_nodes@,
                    self.answer_table == s0.answer_table,
                    self.linked() == lk,
                    levels == level_seq(self.node_info@),
                    target == set_name(par, lk, v as int),
                    self.macroset.members().contains(x as int),
                    self.macroset.top_of(x as int) == x,
                    set_name(par, lk, x as int) == target,
                ensures
                    self.wf(),
                    self.n == s0.n,
                    self.par@ == par,
                    self.node_info@ == s0.node_info@,
                    self.microsets@ == s0.microsets@,
                    self.linked() == lk,
                    y == target,
                decreases levels[x as int],
            {
                proof {
                    self.lemma_macro_member(x as int);
                    self.lemma_microfind(x as int);
                }
                y = microfind(x, &self.node_info, &self.microsets, &self.all_nodes, &self.answer_table);

                let x_micro = self.node_info[x as usize].micro;
                let y_micro = self.node_info[y as usize].micro;

                if x_micro == y_micro {
                    break;
                }
                // MacroUnite(MicroFind(x), x)
                let ghost s1 = *self;
                proof {
                    self.lemma_macro_member(y as int);
                }
                self.macroset.unite(y, x);
                proof {
                    self.lemma_after_unite(s1, x as int, y as int);
                }
                let ghost s2 = *self;
                x = self.macroset.top(y);
                proof {
                    self.lemma_macro_after(s2, y as int, x as int);
                }
            }
        }
        y as usize
    }

    #[must_use]
    pub fn len(&self) -> (r: usize)
        ensures
            r == self.spec_len(),
    {
        self.n
    }

    #[must_use]
    pub fn is_empty(&self) -> (r: bool)
        ensures
            r == (self.spec_len() == 0),
    {
        self.n == 0
    }
}

impl StaticTreeSetUnion {
    /// What `microfind` gives for a node: the set name itself, inside the
    /// node's microset; or a macroset member outside it, higher up the tree
    /// over linked nodes, with the same set name.
    proof fn lemma_microfind(&self, x: int)
        requires
            self.wf(),
            0 <= x < self.n,
        ensures
            layout_ok(self.node_info@, self.microsets@, self.n as nat, self.answer_table.b as nat, x),
            self.all_nodes@.len() <= u32::MAX,
            ({
                let y = microfind_spec(self.node_info@, self.microsets@, self.all_nodes@, x) as int;
                let levels = level_seq(self.node_info@);
                &&& 0 <= y < self.n
                &&& self.node_info@[y].micro == self.node_info@[x].micro ==> y == set_name(
                    self.par@,
                    self.linked(),
                    x,
                )
                &&& self.node_info@[y].micro != self.node_info@[x].micro ==> {
                    &&& self.macroset.members().contains(y)
                    &&& levels[y] < levels[x]
                    &&& linked_path(self.par@, self.linked(), x, y, (levels[x] - levels[y]) as nat)
                    &&& set_name(self.par@, self.linked(), x) == set_name(self.par@, self.linked(), y)
                }
            }),
    {
        let info = self.node_info@;
        let m = info[x].micro as int;
        let ms = self.microsets@[m];
        let nodes = ms_nodes(self.all_nodes@, ms);
        let b = self.answer_table.b as nat;
        let levels = level_seq(info);
        let lk = self.linked();
        let j = info[x].number as int;
        assert(layout_ok(info, self.microsets@, self.n as nat, b, x));
        assert(self.all_nodes@[ms.nodes_offset + j] == x);
        assert(nodes[j] == x);
        self.lemma_marks(m);
        assert(microset_ok(nodes, ms.forest, ms.mark, ms.root, m, info, self.par@, b));
        lemma_local_walk(nodes, ms.forest, ms.mark, ms.root, m, info, self.par@, levels, lk, b, j);
        let k = nearest_marked(forest_parents(ms.forest), ms.mark, j);
        if k > 0 {
            let t = nodes[k - 1] as int;
            assert(self.all_nodes@[ms.nodes_offset + k - 1] == nodes[k - 1]);
            assert(info[t].micro == m);
            lemma_set_name_path(self.par@, lk, levels, x, t, (levels[x] - levels[t]) as nat);
            lemma_set_name_unlinked(self.par@, lk, levels, t);
        } else {
            lemma_set_name_path(self.par@, lk, levels, x, ms.root as int, (levels[x] - levels[ms.root as int]) as nat);
        }
    }

    /// A macroset member's top is above it over linked nodes, and keeps the
    /// set name.
    proof fn lemma_macro_member(&self, u: int)
        requires
            self.wf(),
            self.macroset.members().contains(u),
        ensures
            0 <= u < self.n,
            self.macroset.members().contains(self.macroset.top_of(u)),
            self.macroset.top_of(self.macroset.top_of(u)) == self.macroset.top_of(u),
            0 <= self.macroset.top_of(u) < self.n,
            set_name(self.par@, self.linked(), u) == set_name(
                self.par@,
                self.linked(),
                self.macroset.top_of(u),
            ),
            level_seq(self.node_info@)[self.macroset.top_of(u)] <= level_seq(self.node_info@)[u],
    {
        self.macroset.lemma_member_props(u);
        let levels = level_seq(self.node_info@);
        let t = self.macroset.top_of(u);
        lemma_set_name_path(self.par@, self.linked(), levels, u, t, (levels[u] - levels[t]) as nat);
    }

    /// After `top` the structure is unchanged in what it holds, and the top
    /// found is its own top, with the same set name.
    proof fn lemma_macro_after(&self, before: Self, y: int, x: int)
        requires
            before.wf(),
            before.macroset.members().contains(y),
            x == before.macroset.top_of(y),
            self.macroset.wf(),
            self.macroset.same_sets(before.macroset),
            self.n == before.n,
            self.par@ == before.par@,
            self.node_info@ == before.node_info@,
            self.microsets@ == before.microsets@,
            self.all_nodes@ == before.all_nodes@,
            self.answer_table == before.answer_table,
        ensures
            self.wf(),
            self.linked() == before.linked(),
            self.macroset.members().contains(x),
            self.macroset.top_of(x) == x,
            set_name(self.par@, self.linked(), y) == set_name(self.par@, self.linked(), x),
    {
        self.macroset.lemma_same_sets(before.macroset);
        before.lemma_macro_member(y);
        assert(self.linked() == before.linked());
        let levels = level_seq(self.node_info@);
        assert forall|u: int| #[trigger] self.macroset.members().contains(u) implies {
            let t = self.macroset.top_of(u);
            &&& 0 <= u < self.n
            &&& 0 <= t < self.n
            &&& self.macroset.level_of(u) == levels[u]
            &&& levels[t] <= levels[u]
            &&& linked_path(self.par@, self.linked(), u, t, (levels[u] - levels[t]) as nat)
        } by {
            assert(before.macroset.members().contains(u));
        }
        assert(self.macro_ok());
    }

    /// Uniting the microset root `y` found above the macroset top `x` keeps
    /// the structure, and the merged component's top is `y`'s top.
    proof fn lemma_after_unite(&self, s1: Self, x: int, y: int)
        requires
            s1.wf(),
            s1.macroset.members().contains(x),
            s1.macroset.members().contains(y),
            s1.macroset.top_of(x) == x,
            level_seq(s1.node_info@)[y] < level_seq(s1.node_info@)[x],
            linked_path(
                s1.par@,
                s1.linked(),
                x,
                y,
                (level_seq(s1.node_info@)[x] - level_seq(s1.node_info@)[y]) as nat,
            ),
            self.n == s1.n,
            self.par@ == s1.par@,
            self.node_info@ == s1.node_info@,
            self.microsets@ == s1.microsets@,
            self.all_nodes@ == s1.all_nodes@,
            self.answer_table == s1.answer_table,
            self.macroset.wf(),
            self.macroset.len() == s1.macroset.len(),
            self.macroset.members() == s1.macroset.members(),
            s1.macroset.rep(y) == s1.macroset.rep(x) ==> self.macroset.same_sets(s1.macroset),
            s1.macroset.rep(y) != s1.macroset.rep(x) ==> exists|r: int|
                Macroset::linked(s1.macroset, self.macroset, y, x, r),
        ensures
            self.wf(),
            self.linked() == s1.linked(),
            self.macroset.members().contains(y),
            self.macroset.top_of(y) == s1.macroset.top_of(y),
            level_seq(self.node_info@)[s1.macroset.top_of(y)] < level_seq(self.node_info@)[x],
    {
        let levels = level_seq(self.node_info@);
        let par = self.par@;
        let lk = s1.linked();
        let ms0 = s1.macroset;
        let ms1 = self.macroset;
        assert(self.linked() == lk);
        s1.lemma_macro_member(x);
        s1.lemma_macro_member(y);
        ms0.lemma_member_props(x);
        ms0.lemma_member_props(y);
        let ty = ms0.top_of(y);
        let rx = ms0.rep(x);
        let ry = ms0.rep(y);
        assert(rx != ry) by {
            if rx == ry {
                ms0.lemma_top_same_rep(x, y);
            }
        }
        let r = choose|r: int| Macroset::linked(ms0, ms1, y, x, r);
        assert(Macroset::linked(ms0, ms1, y, x, r));
        let big = if ms0.weight(y) >= ms0.weight(x) {
            ry
        } else {
            rx
        };
        assert(ms0.level_of(ty) == levels[ty]);
        assert(ms0.level_of(x) == levels[x]);
        ms0.lemma_member_props(ty);
        assert(ms0.top_of(rx) == x);
        assert(ms0.top_of(ry) == ty);
        assert(ms1.top_of(big) == ty);
        assert(ms1.rep(big) == big);
        assert forall|w: int| #[trigger] ms1.members().contains(w) implies {
            let t = ms1.top_of(w);
            &&& 0 <= w < self.n
            &&& 0 <= t < self.n
            &&& ms1.level_of(w) == levels[w]
            &&& levels[t] <= levels[w]
            &&& linked_path(par, lk, w, t, (levels[w] - levels[t]) as nat)
        } by {
            assert(ms0.members().contains(w));
            s1.lemma_macro_member(w);
            ms0.lemma_member_props(w);
            let rw = ms0.rep(w);
            assert(0 <= w < ms0.len());
            let _ = ms1.rep(w);
            assert(ms1.level_of(w) == ms0.level_of(w));
            if rw != rx && rw != ry {
                assert(ms1.top_of(w) == ms0.top_of(w));
            }
            if rw == rx || rw == ry {
                assert(ms1.rep(w) == big);
                ms1.lemma_top_same_rep(w, big);
                if rw == rx {
                    ms0.lemma_top_same_rep(w, x);
                    lemma_path_concat(par, lk, w, x, (levels[w] - levels[x]) as nat, y, (levels[x] - levels[y]) as nat);
                    lemma_path_concat(par, lk, w, y, (levels[w] - levels[y]) as nat, ty, (levels[y] - levels[ty]) as nat);
                } else {
                    ms0.lemma_top_same_rep(w, y);
                }
            }
        }
        assert forall|m: int|
            0 <= m < self.microsets@.len() && #[trigger] self.microsets@[m].root != NO_PARENT implies ms1.members().contains(self.microsets@[m].root as int) by {
            assert(s1.microsets@[m].root == self.microsets@[m].root);
        }
        assert(self.macro_ok());
        assert(ms1.rep(y) == big);
        ms1.lemma_top_same_rep(y, big);
    }
}

/// Record `r` holds the parent (`NO_PARENT` for the root) and level of node
/// `x`.
spec fn record_ok(r: NodeInfo, parents: Seq<usize>, root: int, levels: Seq<u32>, x: int) -> bool {
    &&& r.parent == (if x == root {
        NO_PARENT
    } else {
        parents[x] as u32
    })
    &&& r.level == levels[x]
}

/// A record for each node holding its parent (`NO_PARENT` for the root) and
/// its level.
fn node_records(parents: &[usize], root: usize, levels: &Vec<u32>) -> (node_info: Vec<NodeInfo>)
    requires
        parents.len() < NO_PARENT,
        forall|x: int| 0 <= x < parents.len() ==> #[trigger] parents@[x] < parents.len(),
        root < parents.len(),
        levels@.len() == parents.len(),
    ensures
        node_info@.len() == parents.len(),
        forall|x: int|
            0 <= x < parents.len() ==> #[trigger] node_info@[x].parent == (if x == root {
                NO_PARENT
            } else {
                parents@[x] as u32
            }) && node_info@[x].level == levels@[x],
{
    let n = parents.len();
    let mut node_info = vec![NodeInfo::default(); n];
    let mut i: usize = 0;
    while i < n
        invariant
            n == parents@.len() < NO_PARENT,
            forall|x: int| 0 <= x < n ==> #[trigger] parents@[x] < n,
            root < n,
            levels@.len() == n,
            node_info@.len() == n,
            i <= n,
            forall|x: int|
                0 <= x < i ==> #[trigger] record_ok(node_info@[x], parents@, root as int, levels@, x),
        decreases n - i,
    {
        let p: u32 = if i == root {
            NO_PARENT
        } else {
            parents[i] as u32
        };
        let ni = NodeInfo { micro: 0, number: 0, parent: p, level: levels[i] };
        proof {
            assert(record_ok(ni, parents@, root as int, levels@, i as int));
        }
        let ghost ni0 = node_info@;
        node_info.set(i, ni);
        proof {
            assert forall|x: int| 0 <= x < i + 1 implies #[trigger] record_ok(
                node_info@[x],
                parents@,
                root as int,
                levels@,
                x,
            ) by {
                if x < i {
                    assert(node_info@[x] == ni0[x]);
                } else {
                    assert(node_info@[x] == ni);
                }
            }
        }
        i += 1;
    }
    assert forall|x: int| 0 <= x < parents.len() implies #[trigger] node_info@[x].parent == (if x == root {
        NO_PARENT
    } else {
        parents@[x] as u32
    }) && node_info@[x].level == levels@[x] by {
        assert(record_ok(node_info@[x], parents@, root as int, levels@, x));
    }
    node_info
}

/// Records that kept the parents and levels they were made with still
/// hold them.
proof fn lemma_records_moved(info_init: Seq<NodeInfo>, info: Seq<NodeInfo>, par: Seq<usize>, rt: int, levels: Seq<u32>)
    requires
        is_rooted_tree(par),
        0 <= rt < par.len(),
        par[rt] == rt,
        info_init.len() == par.len(),
        forall|x: int|
            0 <= x < par.len() ==> #[trigger] info_init[x].parent == (if x == rt {
                NO_PARENT
            } else {
                par[x] as u32
            }) && info_init[x].level == levels[x],
        records_kept(info_init, info),
    ensures
        forall|x: int|
            #![trigger info[x].parent]
            #![trigger info[x].level]
            0 <= x < par.len() ==> info[x].parent == (if par[x] == x {
                NO_PARENT
            } else {
                par[x] as u32
            }) && info[x].level == levels[x],
{
    assert forall|x: int|
        #![trigger info[x].parent]
        #![trigger info[x].level]
        0 <= x < par.len() implies info[x].parent == (if par[x] == x {
            NO_PARENT
        } else {
            par[x] as u32
        }) && info[x].level == levels[x] by {
        assert(info[x].parent == info_init[x].parent && info[x].level == info_init[x].level);
        assert(info_init[x].parent == (if x == rt {
            NO_PARENT
        } else {
            par[x] as u32
        }));
        if par[x] == x {
            assert(x == rt);
        }
    }
}

impl StaticTreeSetUnion {
    /// Construct from a parent array. `parents[i]` is the parent of node `i`.
    /// The root node must satisfy `parents[root] == root`.
    pub fn from_parents(parents: &[usize]) -> (s: Self)
        requires
            is_rooted_tree(parents@),
            parents.len() < NO_PARENT,
        ensures
            s.wf(),
            s.parents() == parents@,
            s.spec_len() == parents.len(),
            s.linked() == Seq::new(parents.len() as nat, |i: int| false),
            s.roots_apart(),
    {
        let n = parents.len();
        let ghost par = parents@;
        proof {
            let d = choose|d: Seq<nat>| tree_depths(par, d);
            assert(tree_depths(par, d));
        }
        // Find root
        let root = find_root(parents);
        let ghost rt = root as int;
        // Children lists, flat with offsets
        let (offsets, children_flat, Ghost(slot)) = build_children(parents, root);
        // Levels via BFS
        let (queue, levels, Ghost(qpos)) = bfs_levels(root, &offsets, &children_flat, Ghost(par), Ghost(slot));
        // Answer table
        let answer_table = AnswerTable::new(n);
        let b = answer_table.b;
        // Node records: parent and level
        let mut node_info = node_records(parents, root, &levels);
        let ghost info_init = node_info@;
        let (order, Ghost(opos)) = reverse_order(&queue, Ghost(par), Ghost(rt), Ghost(levels@), Ghost(qpos));
        proof {
            lemma_compute_b_props(n as nat);
            reveal(tree_facts);
        }
        let (microsets_list, all_nodes) = make_microsets(
            &order,
            root,
            b,
            &offsets,
            &children_flat,
            &mut node_info,
            Ghost(par),
            Ghost(slot),
            Ghost(opos),
        );
        proof {
            assert forall|j: int| 0 <= j < microsets_list@.len() implies (#[trigger] microsets_list@[j]).root
                == NO_PARENT || microsets_list@[j].root < n by {
                reveal(table_ok);
            }
        }
        // Initialize macrosets for all microset external roots
        let mut macroset = Macroset::new(n);
        let mut m: usize = 0;
        while m < microsets_list.len()
            invariant
                n == par.len(),
                node_info@.len() == n,
                macroset.wf(),
                macroset.len() == n,
                m <= microsets_list@.len(),
                forall|j: int|
                    0 <= j < microsets_list@.len() ==> (#[trigger] microsets_list@[j]).root == NO_PARENT
                        || microsets_list@[j].root < n,
                forall|j: int|
                    0 <= j < m && (#[trigger] microsets_list@[j]).root != NO_PARENT ==> macroset.members().contains(
                        microsets_list@[j].root as int,
                    ),
                forall|u: int|
                    #[trigger] macroset.members().contains(u) ==> 0 <= u < n && macroset.singleton(u)
                        && macroset.top_of(u) == u && macroset.level_of(u) == node_info@[u].level,
                forall|u: int| 0 <= u < n && !macroset.members().contains(u) ==> #[trigger] macroset.fresh(u),
            decreases microsets_list@.len() - m,
        {
            let ms = microsets_list[m];
            if ms.root != NO_PARENT {
                let ghost before = macroset;
                proof {
                    if !macroset.members().contains(ms.root as int) {
                        assert(macroset.fresh(ms.root as int));
                    }
                }
                macroset.make_set(ms.root, node_info[ms.root as usize].level);
                proof {
                    assert forall|u: int| #[trigger] macroset.members().contains(u) implies 0 <= u < n
                        && macroset.singleton(u) && macroset.top_of(u) == u && macroset.level_of(u)
                        == node_info@[u].level by {
                        if u != ms.root {
                            assert(before.members().contains(u));
                            assert(before.singleton(u));
                        }
                    }
                    assert forall|u: int| 0 <= u < n && !macroset.members().contains(u) implies #[trigger] macroset.fresh(u) by {
                        assert(before.fresh(u));
                    }
                }
            }
            m += 1;
        }
        let s = Self {
            node_info,
            microsets: microsets_list,
            all_nodes,
            answer_table,
            macroset,
            n,
            par: Ghost(par),
        };
        proof {
            s.lemma_built(rt, levels@, queue@, qpos, info_init);
            assert(s.linked() =~= Seq::new(parents.len() as nat, |i: int| false));
            assert forall|j: int|
                0 <= j < s.microsets@.len() && (#[trigger] s.microsets@[j]).root != NO_PARENT implies s.macroset.singleton(
                s.microsets@[j].root as int,
            ) by {
                assert(s.macroset.members().contains(s.microsets@[j].root as int));
            }
        }
        s
    }
}

/// No bit of an empty mark is set.
proof fn lemma_mark_zero(j: u32)
    ensures
        !mark_bit(0, j as int),
{
    assert((0u32 >> j) & 1u32 == 0u32) by (bit_vector);
}

impl StaticTreeSetUnion {
    /// The freshly built structure is consistent, with nothing linked.
    proof fn lemma_built(&self, rt: int, levels: Seq<u32>, queue: Seq<usize>, qpos: Seq<int>, info_init: Seq<NodeInfo>)
        requires
            is_rooted_tree(self.par@),
            self.n == self.par@.len(),
            self.n < NO_PARENT,
            0 <= rt < self.n,
            self.par@[rt] == rt,
            bfs_ok(self.par@, rt, queue, levels, qpos),
            info_init.len() == self.n,
            forall|x: int|
                0 <= x < self.n ==> #[trigger] info_init[x].parent == (if x == rt {
                    NO_PARENT
                } else {
                    self.par@[x] as u32
                }) && info_init[x].level == levels[x],
            records_kept(info_init, self.node_info@),
            self.all_nodes@.len() == self.n,
            table_ok(
                self.par@,
                self.answer_table.b as nat,
                Seq::new(self.n as nat, |x: int| true),
                self.node_info@,
                self.microsets@,
                self.all_nodes@,
            ),
            self.answer_table.wf(),
            self.macroset.wf(),
            self.macroset.len() == self.n,
            forall|j: int|
                0 <= j < self.microsets@.len() && (#[trigger] self.microsets@[j]).root != NO_PARENT
                    ==> self.macroset.members().contains(self.microsets@[j].root as int),
            forall|u: int|
                #[trigger] self.macroset.members().contains(u) ==> 0 <= u < self.n && self.macroset.top_of(u) == u
                    && self.macroset.level_of(u) == self.node_info@[u].level,
        ensures
            self.wf(),
            forall|v: int| 0 <= v < self.n ==> !#[trigger] self.linked()[v],
    {
        reveal(table_ok);
        let n = self.n as int;
        let par = self.par@;
        let info = self.node_info@;
        let mss = self.microsets@;
        let b = self.answer_table.b as nat;
        let all_true = Seq::new(self.n as nat, |x: int| true);
        let levels_n = level_seq(info);
        // parents and levels
        lemma_records_moved(info_init, info, par, rt, levels);
        let d = choose|d: Seq<nat>| tree_depths(par, d);
        assert(tree_depths(par, levels_n)) by {
            assert forall|x: int| 0 <= x < n implies (par[x] == x <==> #[trigger] levels_n[x] == 0) by {
                assert(info[x].level == levels[x]);
                assert(levels_n[x] == levels[x]);
                if x != rt {
                    assert(par[x] != x);
                    assert(levels[x] == levels[par[x] as int] + 1);
                } else {
                    assert(levels[rt] == 0);
                }
            }
            assert forall|x: int| 0 <= x < n && par[x] != x implies #[trigger] levels_n[x] == levels_n[par[x] as int]
                + 1 by {
                assert(x != rt);
                assert(levels[x] == levels[par[x] as int] + 1);
                assert(par[x] < n);
                assert(info[x].level == levels[x]);
                assert(info[par[x] as int].level == levels[par[x] as int]);
                assert(levels_n[x] == levels[x]);
                assert(levels_n[par[x] as int] == levels[par[x] as int]);
            }
        }
        // nothing is linked
        assert forall|v: int| 0 <= v < n implies !#[trigger] self.linked()[v] by {
            let m = info[v].micro as int;
            assert(all_true[v]);
            assert(mss[m].mark == 0);
            lemma_mark_zero(info[v].number as u32);
        }
        // the microsets
        assert forall|m: int| 0 <= m < mss.len() implies {
            let ms = #[trigger] mss[m];
            &&& ms.nodes_offset + forest_size(ms.forest) <= n
            &&& microset_ok(ms_nodes(self.all_nodes@, ms), ms.forest, ms.mark, ms.root, m, info, par, b)
        } by {
            let ms = mss[m];
            let nodes = ms_nodes(self.all_nodes@, ms);
            assert(pre_microset_ok(nodes, ms.forest, ms.root, m, info, par, b));
            vstd::arithmetic::power2::lemma_pow2_pos(forest_size(ms.forest));
            if ms.root != NO_PARENT {
                assert(all_true[ms.root as int]);
                assert(info[ms.root as int].micro > m);
            }
            assert forall|j: int| 0 <= j < forest_size(ms.forest) implies {
                let w = (#[trigger] nodes[j]) as int;
                let ps = forest_parents(ms.forest);
                &&& 0 <= w < par.len()
                &&& info[w].micro == m
                &&& info[w].number == j
                &&& (ps[j] == -1 ==> if par[w] == w {
                    ms.root == NO_PARENT
                } else {
                    ms.root == par[w] && info[par[w] as int].micro != m
                })
                &&& (ps[j] != -1 ==> par[w] != w && par[w] == nodes[ps[j]])
            } by {
            }
        }
        // each node's place
        assert forall|v: int| 0 <= v < n implies #[trigger] layout_ok(info, mss, self.n as nat, b, v)
            && self.all_nodes@[mss[info[v].micro as int].nodes_offset + info[v].number] == v by {
            assert(all_true[v]);
            let m = info[v].micro as int;
            let ms = mss[m];
            assert(pre_microset_ok(ms_nodes(self.all_nodes@, ms), ms.forest, ms.root, m, info, par, b));
            vstd::arithmetic::power2::lemma_pow2_pos(forest_size(ms.forest));
        }
        // the macrosets
        assert forall|m: int|
            0 <= m < mss.len() && #[trigger] mss[m].root != NO_PARENT implies self.macroset.members().contains(
                mss[m].root as int,
            ) by {
        }
        assert forall|u: int| #[trigger] self.macroset.members().contains(u) implies {
            let t = self.macroset.top_of(u);
            &&& 0 <= u < n
            &&& 0 <= t < n
            &&& self.macroset.level_of(u) == levels_n[u]
            &&& levels_n[t] <= levels_n[u]
            &&& linked_path(par, self.linked(), u, t, (levels_n[u] - levels_n[t]) as nat)
        } by {
            assert(crate::tree::ancestor(par, u, 0) == u);
        }
        assert(self.macro_ok());
    }
}

} // verus!
