//! Tree set union on a tree that grows one leaf at a time.
use vstd::prelude::*;
use vstd::arithmetic::power2::pow2;
use crate::answer_table::{
    AnswerTable, encode_forest, forest_size, forest_parents, forest_counts, nearest_marked, field,
    compute_b_spec, lemma_b_for_u32, lemma_compute_b_props, count_sum, as_nats, decode_counts, counts_closed, forest_valid,
    lemma_encode_bound, lemma_encode_roundtrip, lemma_forest_parents_ordered, lemma_nearest_le,
};
use crate::macroset::Macroset;
use crate::microset::{
    NodeInfo, NO_PARENT, microset_ok, mark_bit, lemma_local_walk, lemma_table_entry_fits,
};
use crate::tree::{
    tree_depths, is_rooted_tree, set_name, linked_path, ancestor, lemma_set_name_path,
    lemma_set_name_unlinked, lemma_path_concat, lemma_path_mono,
};
use crate::preorder::{
    earlier_parents, children_ok, lists_view, parents_recorded, is_top, old_bit, member_preorder,
    list_contains, list_position, lemma_distinct_within, siblings_in_order,
};
use crate::local_tree::{
    desc, kids, lemma_kids, lemma_desc_trans, lemma_desc_le, lemma_desc_step, lemma_desc_parent,
    lemma_desc_nested, lemma_desc_child, sum_f, list_sum, open_terms, top_terms, kid_terms,
    lemma_open_step, lemma_open_frame, lemma_open_tops, lemma_kids_sum, lemma_list_sum_take,
    lemma_list_sum_frame,
};
use crate::answer_table::parents_ordered;

verus! {

/// Incremental tree set union data structure (Gabow-Tarjan Section 3).
///
/// Supports `grow`, `link`, and `find` operations on a dynamically
/// growing rooted tree. Each grow rebuilds the preorder of one microset,
/// so the total time is O(m + n log log n).
///
/// # Semantics
///
/// - The tree starts with a single root node (node 0).
/// - `grow(v, w)` adds node `w` as a child of existing node `v`.
/// - `link(v)` removes `v` as a set name, merging it into `parent(v)`'s set.
/// - `find(v)` returns the nearest ancestor of `v` that is still a set name.
///   A node is its own ancestor. Initially all nodes are set names.
#[derive(Clone)]
pub struct IncrementalTreeSetUnion {
    node_info: Vec<NodeInfo>,
    microsets: Vec<IncrMicroset>,
    answer_table: AnswerTable,
    macroset: Macroset,
    n: usize,
    capacity: usize,
    tree_children: Vec<Vec<u32>>,
    micro_child_counts: Vec<Vec<u32>>,
    in_macroset: Vec<bool>,
    /// The parent of each node grown so far (node 0 is its own).
    par: Ghost<Seq<usize>>,
}

/// Incremental microset: its nodes in preorder, linked bits, forest
/// encoding, and the node outside it that its top nodes hang from.
#[derive(Clone, Debug)]
struct IncrMicroset {
    nodes: Vec<u32>,
    mark: u32,
    forest: u32,
    root: u32,
}

/// The largest capacity served. Node numbers are 32 bits wide and
/// `u32::MAX` marks the missing parent of the root, so every node number,
/// and the number of nodes, stays below it.
pub const MAX_CAPACITY: usize = 4_294_967_294;

/// The most top nodes (nodes whose parent lies outside) a microset may
/// have, for microsets of at most `b - 1` nodes: a split never carves more
/// children than this, nor leaves more than this many nodes below a top.
pub open spec fn top_bound(b: nat) -> nat {
    (b + 2) / 4
}

/// The nodes of `nodes` at the positions whose decoded parent is -1.
pub open spec fn tops_list(nodes: Seq<u32>, ps: Seq<int>) -> Seq<u32>
    decreases nodes.len(),
{
    if nodes.len() == 0 || ps.len() != nodes.len() {
        seq![]
    } else {
        let rest = tops_list(nodes.drop_last(), ps.drop_last());
        if ps.last() == -1 {
            rest.push(nodes.last())
        } else {
            rest
        }
    }
}

/// Each node listed as a top stands at a position whose decoded parent is -1.
proof fn lemma_tops_list_sound(nodes: Seq<u32>, ps: Seq<int>, x: u32)
    requires
        ps.len() == nodes.len(),
        tops_list(nodes, ps).contains(x),
    ensures
        exists|j: int| 0 <= j < nodes.len() && ps[j] == -1 && #[trigger] nodes[j] == x,
    decreases nodes.len(),
{
    let rest = tops_list(nodes.drop_last(), ps.drop_last());
    if ps.last() == -1 && x == nodes.last() {
        assert(nodes[nodes.len() - 1] == x);
    } else {
        if ps.last() == -1 {
            let i = choose|i: int| 0 <= i < rest.push(nodes.last()).len() && rest.push(nodes.last())[i] == x;
            assert(i < rest.len());
            assert(rest[i] == x);
        }
        assert(rest.contains(x));
        lemma_tops_list_sound(nodes.drop_last(), ps.drop_last(), x);
        let j = choose|j: int|
            0 <= j < nodes.drop_last().len() && ps.drop_last()[j] == -1 && #[trigger] nodes.drop_last()[j] == x;
        assert(nodes[j] == x);
    }
}

/// Every position whose decoded parent is -1 has its node listed as a top.
proof fn lemma_tops_list_complete(nodes: Seq<u32>, ps: Seq<int>, j: int)
    requires
        ps.len() == nodes.len(),
        0 <= j < nodes.len(),
        ps[j] == -1,
    ensures
        tops_list(nodes, ps).contains(nodes[j]),
    decreases nodes.len(),
{
    let rest = tops_list(nodes.drop_last(), ps.drop_last());
    if j == nodes.len() - 1 {
        assert(tops_list(nodes, ps) == rest.push(nodes.last()));
        assert(rest.push(nodes.last())[rest.len() as int] == nodes[j]);
    } else {
        lemma_tops_list_complete(nodes.drop_last(), ps.drop_last(), j);
        assert(nodes.drop_last()[j] == nodes[j]);
        let i = choose|i: int| 0 <= i < rest.len() && rest[i] == nodes[j];
        if ps.last() == -1 {
            assert(rest.push(nodes.last())[i] == nodes[j]);
        }
    }
}

/// The tops of a list without repetitions are without repetitions.
proof fn lemma_tops_list_distinct(nodes: Seq<u32>, ps: Seq<int>)
    requires
        ps.len() == nodes.len(),
        nodes.no_duplicates(),
    ensures
        tops_list(nodes, ps).no_duplicates(),
    decreases nodes.len(),
{
    if nodes.len() > 0 {
        let rest = tops_list(nodes.drop_last(), ps.drop_last());
        assert(nodes.drop_last().no_duplicates()) by {
            assert forall|a: int, b: int| 0 <= a < b < nodes.drop_last().len() implies nodes.drop_last()[a]
                != nodes.drop_last()[b] by {
                assert(nodes[a] != nodes[b]);
            }
        }
        lemma_tops_list_distinct(nodes.drop_last(), ps.drop_last());
        if ps.last() == -1 {
            assert(!rest.contains(nodes.last())) by {
                if rest.contains(nodes.last()) {
                    lemma_tops_list_sound(nodes.drop_last(), ps.drop_last(), nodes.last());
                    let j = choose|j: int|
                        0 <= j < nodes.drop_last().len() && ps.drop_last()[j] == -1 && #[trigger] nodes.drop_last()[j]
                            == nodes.last();
                    assert(nodes[j] == nodes[nodes.len() - 1]);
                }
            }
            let t = rest.push(nodes.last());
            assert forall|a: int, b: int| 0 <= a < b < t.len() implies t[a] != t[b] by {
                if b == rest.len() {
                    assert(rest.contains(t[a]));
                }
            }
        }
    }
}

/// Ancestors of a node of a tree whose nodes hang from earlier ones are no
/// later than the node, and do not change when nodes are added after it.
proof fn lemma_ancestor_below(par: Seq<usize>, par2: Seq<usize>, u: int, k: nat)
    requires
        earlier_parents(par),
        par2.len() >= par.len(),
        forall|i: int| 0 <= i < par.len() ==> #[trigger] par2[i] == par[i],
        0 <= u < par.len(),
    ensures
        0 <= ancestor(par, u, k) <= u,
        ancestor(par2, u, k) == ancestor(par, u, k),
    decreases k,
{
    if k > 0 {
        let p = par[u] as int;
        if u > 0 {
            assert(par[u] < u);
        }
        lemma_ancestor_below(par, par2, p, (k - 1) as nat);
    }
}

/// A linked path from a node depends only on the tree and the linked flags
/// up to that node.
proof fn lemma_path_below(
    par: Seq<usize>,
    par2: Seq<usize>,
    lk: Seq<bool>,
    lk2: Seq<bool>,
    u: int,
    t: int,
    k: nat,
)
    requires
        earlier_parents(par),
        par2.len() >= par.len(),
        forall|i: int| 0 <= i < par.len() ==> #[trigger] par2[i] == par[i],
        forall|i: int| 0 <= i <= u ==> #[trigger] lk2[i] == lk[i],
        0 <= u < par.len(),
        linked_path(par, lk, u, t, k),
    ensures
        linked_path(par2, lk2, u, t, k),
{
    lemma_ancestor_below(par, par2, u, k);
    assert forall|i: nat| i < k implies #[trigger] lk2[ancestor(par2, u, i)] by {
        lemma_ancestor_below(par, par2, u, i);
        assert(lk[ancestor(par, u, i)]);
    }
}

/// A microset laid out on a tree stays laid out when nodes are added after
/// all of its nodes, whatever records the added nodes get.
proof fn lemma_microset_extend(
    nodes: Seq<u32>,
    forest: u32,
    mark: u32,
    root: u32,
    m: int,
    info: Seq<NodeInfo>,
    info2: Seq<NodeInfo>,
    par: Seq<usize>,
    par2: Seq<usize>,
    cap: nat,
)
    requires
        microset_ok(nodes, forest, mark, root, m, info, par, cap),
        par2.len() >= par.len(),
        forall|i: int| 0 <= i < par.len() ==> #[trigger] par2[i] == par[i],
        forall|i: int| 0 <= i < par.len() ==> #[trigger] info2[i] == info[i],
        earlier_parents(par),
    ensures
        microset_ok(nodes, forest, mark, root, m, info2, par2, cap),
{
    let ps = forest_parents(forest);
    assert forall|j: int| 0 <= j < forest_size(forest) implies {
        let w = #[trigger] nodes[j] as int;
        &&& 0 <= w < par2.len()
        &&& info2[w].micro == m
        &&& info2[w].number == j
        &&& (ps[j] == -1 ==> if par2[w] == w {
            root == NO_PARENT
        } else {
            root == par2[w] && info2[par2[w] as int].micro != m
        })
        &&& (ps[j] != -1 ==> par2[w] != w && par2[w] == nodes[ps[j]])
    } by {
        let w = nodes[j] as int;
        assert(0 <= w < par.len());
        if w > 0 {
            assert(par[w] < w);
        }
    }
}

/// A node record moved to position `j` of microset `m`.
pub open spec fn placed(i: NodeInfo, m: int, j: int) -> NodeInfo {
    NodeInfo { micro: m as usize, number: j as u16, ..i }
}

/// The recorded level of each of the first `n` nodes.
pub open spec fn levels_of(info: Seq<NodeInfo>, n: nat) -> Seq<nat> {
    Seq::new(n, |v: int| info[v].level as nat)
}

impl IncrMicroset {
    /// Laid out as microset `m` of the tree `par` for tables of parameter
    /// `cap`, with no more top nodes than parameter `b` allows.
    spec fn ok(&self, m: int, info: Seq<NodeInfo>, par: Seq<usize>, cap: nat, b: nat) -> bool {
        &&& microset_ok(self.nodes@, self.forest, self.mark, self.root, m, info, par, cap)
        &&& tops_list(self.nodes@, forest_parents(self.forest)).len() <= top_bound(b)
    }
}

impl IncrementalTreeSetUnion {
    /// The parent array of the tree grown so far (the root is its own
    /// parent).
    pub closed spec fn parents(&self) -> Seq<usize> {
        self.par@
    }

    /// Which nodes have been linked.
    pub closed spec fn linked(&self) -> Seq<bool> {
        Seq::new(
            self.n as nat,
            |v: int|
                mark_bit(
                    self.microsets@[self.node_info@[v].micro as int].mark,
                    self.node_info@[v].number as int,
                ),
        )
    }

    /// Number of nodes grown so far.
    pub closed spec fn spec_len(&self) -> nat {
        self.n as nat
    }

    /// Number of nodes the structure can hold.
    pub closed spec fn spec_capacity(&self) -> nat {
        self.capacity as nat
    }

    /// The tree and the linked flags cover exactly the nodes grown so far,
    /// and the tree is a rooted tree.
    pub proof fn lemma_lengths(&self)
        requires
            self.wf(),
        ensures
            self.parents().len() == self.spec_len(),
            self.linked().len() == self.spec_len(),
            is_rooted_tree(self.parents()),
            self.parents()[0] == 0,
            !self.linked()[0],
    {
        reveal(IncrementalTreeSetUnion::shape_ok);
        crate::shapes::lemma_earlier_parents(self.par@);
    }

    /// Node 0, the root, is never linked, so in every state it is its own
    /// set name: a find of it returns 0.
    pub proof fn lemma_root_own_name(&self)
        requires
            self.wf(),
        ensures
            set_name(self.parents(), self.linked(), 0) == 0,
    {
        self.lemma_lengths();
        let d = choose|d: Seq<nat>| tree_depths(self.parents(), d);
        lemma_set_name_unlinked(self.parents(), self.linked(), d, 0);
    }

    /// The tree and its bookkeeping: parents recorded per node, levels,
    /// children lists, and the answer table with b at most 10.
    #[verifier::opaque]
    spec fn shape_ok(&self) -> bool {
        let n = self.n as int;
        let info = self.node_info@;
        &&& 1 <= n <= self.capacity
        &&& 2 <= self.capacity <= MAX_CAPACITY
        &&& 9 * self.capacity <= usize::MAX
        &&& info.len() == self.capacity
        &&& self.tree_children@.len() == self.capacity
        &&& self.in_macroset@.len() == self.capacity
        &&& self.par@.len() == n
        &&& earlier_parents(self.par@)
        &&& parents_recorded(info, self.par@)
        &&& tree_depths(self.par@, levels_of(info, n as nat))
        &&& forall|v: int| 0 <= v < n ==> #[trigger] info[v].level <= v
        &&& children_ok(lists_view(self.tree_children@), self.par@)
        &&& forall|v: int|
            n <= v < self.capacity ==> (#[trigger] self.tree_children@[v])@.len() == 0
        &&& self.answer_table.wf()
        &&& self.answer_table.b <= 10
        &&& self.micro_child_counts@.len() == self.microsets@.len()
        &&& self.microsets@.len() + 8 <= 9 * n
    }

    /// Every node's microset lists it at its position and is laid out
    /// correctly; microset `big` may hold one node more than the table does.
    #[verifier::opaque]
    spec fn layout_ok(&self, big: int) -> bool {
        let n = self.n as int;
        let info = self.node_info@;
        let mss = self.microsets@;
        let b = self.answer_table.b as nat;
        forall|v: int|
            0 <= v < n ==> {
                let m = (#[trigger] info[v]).micro as int;
                &&& 0 <= m < mss.len()
                &&& info[v].number < mss[m].nodes@.len()
                &&& mss[m].nodes@[info[v].number as int] == v
                &&& mss[m].ok(
                    m,
                    info,
                    self.par@,
                    if m == big {
                        b + 1
                    } else {
                        b
                    },
                    b,
                )
            }
    }

    /// The macroset invariant: every member's top is an ancestor reached
    /// from it over linked nodes only, and every microset root in use is a
    /// member, as `in_macroset` records.
    spec fn macro_ok(&self) -> bool {
        let n = self.n as int;
        let levels = levels_of(self.node_info@, n as nat);
        let linked = self.linked();
        &&& self.macroset.wf()
        &&& self.macroset.len() == self.capacity
        &&& forall|u: int|
            0 <= u < self.capacity ==> #[trigger] self.in_macroset@[u] == self.macroset.members().contains(
                u,
            )
        &&& forall|u: int|
            0 <= u < self.capacity && !self.macroset.members().contains(u) ==> #[trigger] self.macroset.fresh(u)
        &&& forall|v: int|
            0 <= v < n && #[trigger] self.microsets@[self.node_info@[v].micro as int].root != NO_PARENT
                ==> self.macroset.members().contains(
                self.microsets@[self.node_info@[v].micro as int].root as int,
            )
        &&& forall|u: int| #[trigger]
            self.macroset.members().contains(u) ==> {
                let t = self.macroset.top_of(u);
                &&& 0 <= u < n
                &&& 0 <= t < n
                &&& self.macroset.level_of(u) == levels[u]
                &&& levels[t] <= levels[u]
                &&& linked_path(self.par@, linked, u, t, (levels[u] - levels[t]) as nat)
            }
    }

    /// The structure is consistent with the tree grown so far and its
    /// linked nodes.
    pub closed spec fn wf(&self) -> bool {
        &&& self.shape_ok()
        &&& self.layout_ok(-1)
        &&& !self.linked()[0]
        &&& self.macro_ok()
    }
}

/// Capacities that node numbers of 32 bits can address choose b at most 10.
proof fn lemma_b_small(n: nat)
    requires
        n < NO_PARENT,
    ensures
        compute_b_spec(n).0 <= 10,
{
    lemma_b_for_u32(n);
}

/// O(1) microfind for the incremental variant: the node at the answer's
/// position in `v`'s microset, or the microset's external root when the
/// answer is 0.
fn incr_microfind(
    v: u32,
    node_info: &Vec<NodeInfo>,
    microsets: &Vec<IncrMicroset>,
    answer_table: &AnswerTable,
) -> (r: u32)
    requires
        answer_table.wf(),
        v < node_info.len(),
        ({
            let m = node_info@[v as int].micro as int;
            let ms = microsets@[m];
            let size = forest_size(ms.forest);
            let b = answer_table.b as nat;
            &&& 0 <= m < microsets@.len()
            &&& forest_valid(ms.forest)
            &&& 1 <= size <= b - 1
            &&& ms.forest < pow2((2 * b - 3) as nat)
            &&& ms.mark < pow2(size)
            &&& node_info@[v as int].number < size
            &&& ms.nodes@.len() == size
        }),
    ensures
        ({
            let info = node_info@[v as int];
            let ms = microsets@[info.micro as int];
            let k = nearest_marked(forest_parents(ms.forest), ms.mark, info.number as int);
            r == if k == 0 {
                ms.root
            } else {
                ms.nodes@[k - 1]
            }
        }),
{
    let info = node_info[v as usize];
    let ms = &microsets[info.micro as usize];
    let ghost b = answer_table.b as nat;
    let ghost size = forest_size(ms.forest);
    let ghost ps = forest_parents(ms.forest);
    proof {
        lemma_table_entry_fits(ms.forest as nat, ms.mark as nat, b, size);
        answer_table.lemma_entry(ms.forest as nat, ms.mark as nat);
        lemma_forest_parents_ordered(ms.forest);
        lemma_nearest_le(ps, ms.mark, info.number as int);
        assert(info.number * answer_table.ceil_lg_b < 64) by (nonlinear_arith)
            requires
                info.number + 2 <= b,
                (b - 1) * answer_table.ceil_lg_b <= 63,
        ;
    }
    let packed = answer_table.lookup(ms.forest, ms.mark);
    let k = answer_table.extract(packed, info.number);
    proof {
        let j = info.number as int;
        assert(field(packed, (j * answer_table.ceil_lg_b) as u64, answer_table.ceil_lg_b as u64)
            == nearest_marked(ps, ms.mark, j));
    }
    if k == 0 {
        ms.root
    } else {
        ms.nodes[(k - 1) as usize]
    }
}

proof fn lemma_bits_after_set(mark: u32, j: u32, s: u32, jj: u32)
    by (bit_vector)
    requires
        j < s <= 16,
        jj < 32,
        mark < (1u32 << s),
    ensures
        (mark | (1u32 << j)) < (1u32 << s),
        jj != j ==> ((mark | (1u32 << j)) >> jj) & 1u32 == (mark >> jj) & 1u32,
        ((mark | (1u32 << j)) >> j) & 1u32 == 1u32,
{
}

/// The children lists of the positions `0..bb` of a microset's nodes, read
/// from the nodes' recorded parents: position `i` is listed under the
/// position of its parent when that parent is in the microset.
fn local_children_of(
    old_nodes: &Vec<u32>,
    node_info: &Vec<NodeInfo>,
    Ghost(ps): Ghost<Seq<int>>,
) -> (lc: Vec<Vec<usize>>)
    requires
        old_nodes.len() <= 16,
        node_info.len() < NO_PARENT,
        old_nodes@.no_duplicates(),
        ps.len() == old_nodes.len(),
        parents_ordered(ps),
        forall|i: int| 0 <= i < old_nodes.len() ==> #[trigger] old_nodes@[i] < node_info.len(),
        forall|i: int|
            0 <= i < old_nodes.len() ==> {
                let pr = node_info@[(#[trigger] old_nodes@[i]) as int].parent;
                &&& (ps[i] != -1 ==> pr == old_nodes@[ps[i]])
                &&& (ps[i] == -1 ==> pr == NO_PARENT || !old_nodes@.contains(pr))
            },
    ensures
        lc.len() == old_nodes.len(),
        forall|p: int| 0 <= p < lc.len() ==> (#[trigger] lc@[p])@ == kids(ps, p, old_nodes.len() as int),
{
    let bb = old_nodes.len();
    let mut lc: Vec<Vec<usize>> = Vec::new();
    let mut i: usize = 0;
    while i < bb
        invariant
            i <= bb,
            lc.len() == i,
            forall|p: int| 0 <= p < i ==> (#[trigger] lc@[p])@.len() == 0,
        decreases bb - i,
    {
        lc.push(Vec::new());
        i += 1;
    }
    let mut i: usize = 0;
    while i < bb
        invariant
            i <= bb,
            bb == old_nodes.len(),
            bb <= 16,
            lc.len() == bb,
            node_info.len() < NO_PARENT,
            old_nodes@.no_duplicates(),
            ps.len() == bb,
            parents_ordered(ps),
            forall|j: int| 0 <= j < bb ==> #[trigger] old_nodes@[j] < node_info.len(),
            forall|j: int|
                0 <= j < bb ==> {
                    let pr = node_info@[(#[trigger] old_nodes@[j]) as int].parent;
                    &&& (ps[j] != -1 ==> pr == old_nodes@[ps[j]])
                    &&& (ps[j] == -1 ==> pr == NO_PARENT || !old_nodes@.contains(pr))
                },
            forall|p: int| 0 <= p < bb ==> (#[trigger] lc@[p])@ == kids(ps, p, i as int),
        decreases bb - i,
    {
        let nid = old_nodes[i];
        let parent_nid = node_info[nid as usize].parent;
        let ghost lc0 = lc@;
        if parent_nid != NO_PARENT {
            let p = list_position(old_nodes, parent_nid);
            proof {
                if ps[i as int] != -1 {
                    let q = ps[i as int];
                    assert(0 <= q < i);
                    assert(old_nodes@[q] == parent_nid);
                    assert(p == q) by {
                        if p < q {
                            assert(old_nodes@[p as int] == old_nodes@[q]);
                        } else if p > q {
                        }
                    }
                } else {
                    assert(p == bb) by {
                        if p < bb {
                            assert(old_nodes@.contains(parent_nid));
                        }
                    }
                }
            }
            if p < bb {
                lc[p].push(i);
            }
            proof {
                assert forall|q: int| 0 <= q < bb implies (#[trigger] lc@[q])@ == kids(ps, q, i + 1) by {
                    if q != p {
                        assert(lc@[q] == lc0[q]);
                    }
                }
            }
        } else {
            proof {
                assert(ps[i as int] == -1) by {
                    if ps[i as int] != -1 {
                        assert(old_nodes@[ps[i as int]] < node_info.len());
                    }
                }
                assert forall|q: int| 0 <= q < bb implies (#[trigger] lc@[q])@ == kids(ps, q, i + 1) by {
                }
            }
        }
        i += 1;
    }
    lc
}

/// The positions `0..k` as a sequence.
spec fn positions(k: int) -> Seq<usize> {
    Seq::new(k as nat, |i: int| i as usize)
}

/// A sequence of distinct positions below `k` has at most `k` elements.
proof fn lemma_positions_bound(a: Seq<usize>, k: int)
    requires
        0 <= k <= 0x10000,
        a.no_duplicates(),
        forall|i: int| 0 <= i < a.len() ==> #[trigger] a[i] < k,
    ensures
        a.len() <= k,
{
    assert forall|i: int| 0 <= i < a.len() implies positions(k).contains(#[trigger] a[i]) by {
        assert(positions(k)[a[i] as int] == a[i]);
    }
    lemma_distinct_within(a, positions(k));
}

/// What the search below child `c` has reached: `new` (reached, in order)
/// and `stack` (waiting) hold distinct positions of `c`'s subtree, each `c`
/// itself or a child of a position reached before it; and every position of
/// the subtree is reached or below one waiting.
spec fn search_ok(ps: Seq<int>, bb: int, c: int, new: Seq<usize>, stack: Seq<usize>) -> bool {
    &&& (new + stack).no_duplicates()
    &&& forall|i: int| 0 <= i < stack.len() ==> #[trigger] stack[i] < bb && desc(ps, stack[i] as int, c)
    &&& forall|i: int| 0 <= i < new.len() ==> #[trigger] new[i] < bb && desc(ps, new[i] as int, c)
    &&& forall|i: int|
        0 <= i < stack.len() ==> stack[i] == c || new.contains(ps[(#[trigger] stack[i]) as int] as usize)
    &&& forall|i: int|
        0 <= i < new.len() ==> new[i] == c || new.subrange(0, i).contains(ps[(#[trigger] new[i]) as int] as usize)
    &&& forall|x: int|
        0 <= x < bb && #[trigger] desc(ps, x, c) ==> new.contains(x as usize) || exists|i: int|
            0 <= i < stack.len() && desc(ps, x, #[trigger] stack[i] as int)
}

/// Collect into `out` the subtrees of the children `lc[v][lo..hi]`, marking
/// them carved.
#[verifier::spinoff_prover]
#[verifier::rlimit(40)]
fn collect_subtrees(
    lc: &Vec<Vec<usize>>,
    v: usize,
    lo: usize,
    hi: usize,
    carved: &mut Vec<bool>,
    Ghost(ps): Ghost<Seq<int>>,
) -> (out: Vec<usize>)
    requires
        ps.len() == lc.len(),
        lc.len() <= 16,
        parents_ordered(ps),
        forall|p: int| 0 <= p < lc.len() ==> (#[trigger] lc@[p])@ == kids(ps, p, ps.len() as int),
        v < lc.len(),
        lo < hi <= lc@[v as int].len(),
        old(carved)@.len() == lc.len(),
    ensures
        final(carved)@.len() == lc.len(),
        out@.no_duplicates(),
        out.len() >= 1,
        forall|i: int| 0 <= i < out.len() ==> #[trigger] out@[i] < lc.len() && out@[i] > v,
        forall|x: int|
            0 <= x < lc.len() ==> (#[trigger] out@.contains(x as usize) <==> exists|t: int|
                lo <= t < hi && #[trigger] desc(ps, x, lc@[v as int]@[t] as int)),
        forall|x: int|
            0 <= x < lc.len() ==> #[trigger] final(carved)@[x] == (old(carved)@[x] || out@.contains(
                x as usize,
            )),
{
    let ghost bb = lc.len() as int;
    let ghost kv = lc@[v as int]@;
    proof {
        lemma_kids(ps, v as int, bb);
    }
    let mut out: Vec<usize> = Vec::new();
    let mut ci = lo;
    while ci < hi
        invariant
            lo <= ci <= hi,
            hi <= kv.len(),
            kv == lc@[v as int]@,
            kv == kids(ps, v as int, bb),
            bb == lc.len(),
            bb <= 16,
            ps.len() == bb,
            parents_ordered(ps),
            forall|p: int| 0 <= p < lc.len() ==> (#[trigger] lc@[p])@ == kids(ps, p, bb),
            forall|i: int| 0 <= i < kv.len() ==> #[trigger] kv[i] < bb && ps[kv[i] as int] == v,
            forall|i: int, j: int| 0 <= i < j < kv.len() ==> #[trigger] kv[i] < #[trigger] kv[j],
            v < bb,
            carved@.len() == bb,
            out@.no_duplicates(),
            ci > lo ==> out.len() >= 1,
            forall|i: int| 0 <= i < out.len() ==> #[trigger] out@[i] < bb && out@[i] > v,
            forall|x: int|
                0 <= x < bb ==> (#[trigger] out@.contains(x as usize) <==> exists|t: int|
                    lo <= t < ci && #[trigger] desc(ps, x, kv[t] as int)),
            forall|x: int| 0 <= x < bb ==> #[trigger] carved@[x] == (old(carved)@[x] || out@.contains(x as usize)),
        decreases hi - ci,
    {
        let c = lc[v][ci];
        let ghost ci0 = ci as int;
        proof {
            assert(kv[ci as int] == c);
        }
        let ghost out0 = out@;
        let mut stack: Vec<usize> = Vec::new();
        stack.push(c);
        proof {
            assert(out@ =~= out0 + Seq::<usize>::empty());
            assert(desc(ps, c as int, c as int));
            // `c`'s subtree is new to `out`.
            assert forall|x: int| 0 <= x < bb && #[trigger] desc(ps, x, c as int) implies !out0.contains(x as usize) by {
                if out0.contains(x as usize) {
                    let t = choose|t: int| lo <= t < ci && #[trigger] desc(ps, x, kv[t] as int);
                    let c2 = kv[t] as int;
                    assert(c2 < c);
                    lemma_desc_nested(ps, x, c2, c as int);
                    lemma_desc_step(ps, c as int, c2);
                    lemma_desc_le(ps, v as int, c2);
                }
            }
            let new = Seq::<usize>::empty();
            assert(new + stack@ =~= stack@);
            assert(search_ok(ps, bb, c as int, new, stack@)) by {
                assert forall|x: int| 0 <= x < bb && #[trigger] desc(ps, x, c as int) implies new.contains(x as usize)
                    || exists|i: int| 0 <= i < stack@.len() && desc(ps, x, #[trigger] stack@[i] as int) by {
                    assert(stack@[0] == c);
                }
            }
        }
        while stack.len() > 0
            invariant
                lo <= ci < hi,
                ci == ci0,
                hi <= kv.len(),
                kv == lc@[v as int]@,
                kv == kids(ps, v as int, bb),
                kv[ci as int] == c,
                forall|i: int| 0 <= i < kv.len() ==> #[trigger] kv[i] < bb && ps[kv[i] as int] == v,
                c < bb,
                ps[c as int] == v,
                bb == lc.len(),
                bb <= 16,
                ps.len() == bb,
                parents_ordered(ps),
                forall|p: int| 0 <= p < lc.len() ==> (#[trigger] lc@[p])@ == kids(ps, p, bb),
                v < bb,
                carved@.len() == bb,
                out0.no_duplicates(),
                out@.len() >= out0.len(),
                out@.subrange(0, out0.len() as int) == out0,
                search_ok(ps, bb, c as int, out@.subrange(out0.len() as int, out@.len() as int), stack@),
                forall|x: int| 0 <= x < bb && #[trigger] desc(ps, x, c as int) ==> !out0.contains(x as usize),
                forall|i: int| 0 <= i < out0.len() ==> #[trigger] out0[i] < bb && out0[i] > v,
                forall|x: int|
                    0 <= x < bb ==> (#[trigger] out0.contains(x as usize) <==> exists|t: int|
                        lo <= t < ci && #[trigger] desc(ps, x, kv[t] as int)),
                forall|x: int| 0 <= x < bb ==> #[trigger] carved@[x] == (old(carved)@[x] || out@.contains(x as usize)),
            decreases bb - (out@.len() - out0.len()),
        {
            let ghost new0 = out@.subrange(out0.len() as int, out@.len() as int);
            let ghost st0 = stack@;
            let s = stack.pop().unwrap();
            let ghost out_pre = out@;
            out.push(s);
            carved.set(s, true);
            let gcs = &lc[s];
            proof {
                lemma_kids(ps, s as int, bb);
                assert(st0[st0.len() - 1] == s);
            }
            let ghost st1 = stack@;
            let mut t = gcs.len();
            while t > 0
                invariant
                    t <= gcs@.len(),
                    gcs@ == kids(ps, s as int, bb),
                    stack@.len() == st1.len() + (gcs@.len() - t),
                    stack@.subrange(0, st1.len() as int) == st1,
                    forall|k: int|
                        st1.len() <= k < stack@.len() ==> #[trigger] stack@[k] == gcs@[gcs@.len() - 1 - (k - st1.len())],
                decreases t,
            {
                t -= 1;
                let g = gcs[t];
                let ghost sb = stack@;
                stack.push(g);
                proof {
                    assert(stack@.subrange(0, st1.len() as int) =~= sb.subrange(0, st1.len() as int));
                }
            }
            proof {
                let new1 = out@.subrange(out0.len() as int, out@.len() as int);
                assert(new1 =~= new0.push(s));
                let pn = stack@.subrange(st1.len() as int, stack@.len() as int);
                assert(stack@ =~= st1 + pn);
                assert(st1 =~= st0.drop_last());
                let kd = kids(ps, s as int, bb);
                assert(pn.len() == kd.len());
                assert forall|k: int| 0 <= k < pn.len() implies #[trigger] pn[k] == kd[kd.len() - 1 - k] by {
                    assert(stack@[st1.len() + k] == pn[k]);
                }
                lemma_search_step(ps, bb, c as int, new0, st0, s, kd, pn);
                assert(out@ =~= out0 + new1);
                assert forall|x: int| 0 <= x < bb implies #[trigger] carved@[x] == (old(carved)@[x] || out@.contains(x as usize)) by {
                    if x == s {
                        assert(out@[out@.len() - 1] == s);
                    } else if out_pre.contains(x as usize) {
                        let q = choose|q: int| 0 <= q < out_pre.len() && out_pre[q] == x as usize;
                        assert(out@[q] == x as usize);
                    } else if out@.contains(x as usize) {
                        let q = choose|q: int| 0 <= q < out@.len() && out@[q] == x as usize;
                        if q < out_pre.len() {
                            assert(out_pre[q] == x as usize);
                        }
                    }
                }
                let st2 = stack@;
                assert(new1.no_duplicates()) by {
                    assert forall|a: int, b2: int| 0 <= a < b2 < new1.len() implies new1[a] != new1[b2] by {
                        assert((new1 + st2)[a] == new1[a]);
                        assert((new1 + st2)[b2] == new1[b2]);
                    }
                }
                lemma_positions_bound(new1, bb);
            }
        }
        proof {
            let new = out@.subrange(out0.len() as int, out@.len() as int);
            assert(out@ =~= out0 + new);
            assert(new.contains(c)) by {
                assert(desc(ps, c as int, c as int));
            }
            assert forall|x: int| 0 <= x < bb implies (#[trigger] out@.contains(x as usize) <==> exists|t: int|
                lo <= t < ci + 1 && #[trigger] desc(ps, x, kv[t] as int)) by {
                if out@.contains(x as usize) {
                    let q = choose|q: int| 0 <= q < out@.len() && out@[q] == x as usize;
                    if q < out0.len() {
                        assert(out0[q] == x as usize);
                        assert(out0.contains(x as usize));
                    } else {
                        assert(new[q - out0.len()] == x as usize);
                        assert(desc(ps, x, kv[ci as int] as int));
                    }
                }
                if exists|t: int| lo <= t < ci + 1 && #[trigger] desc(ps, x, kv[t] as int) {
                    let t = choose|t: int| lo <= t < ci + 1 && #[trigger] desc(ps, x, kv[t] as int);
                    if t < ci {
                        assert(out0.contains(x as usize));
                        let q = choose|q: int| 0 <= q < out0.len() && out0[q] == x as usize;
                        assert(out@[q] == x as usize);
                    } else {
                        assert(desc(ps, x, c as int));
                        assert(new.contains(x as usize));
                        let q = choose|q: int| 0 <= q < new.len() && new[q] == x as usize;
                        assert(out@[out0.len() + q] == x as usize);
                    }
                }
            }
            assert(out@.no_duplicates()) by {
                assert forall|a: int, b2: int| 0 <= a < b2 < out@.len() implies out@[a] != out@[b2] by {
                    if b2 >= out0.len() {
                        let y = out@[b2];
                        assert(new[b2 - out0.len()] == y);
                        assert((new + Seq::<usize>::empty())[b2 - out0.len()] == y);
                        if a < out0.len() {
                            assert(desc(ps, y as int, c as int));
                            assert(out0.contains(out0[a]));
                        } else {
                            assert((new + Seq::<usize>::empty())[a - out0.len()] == out@[a]);
                        }
                    } else {
                        assert(out0[a] == out@[a]);
                        assert(out0[b2] == out@[b2]);
                    }
                }
            }
            assert forall|i: int| 0 <= i < out.len() implies #[trigger] out@[i] < bb && out@[i] > v by {
                if i >= out0.len() {
                    let y = out@[i];
                    assert(new[i - out0.len()] == y);
                    assert(desc(ps, y as int, c as int));
                    lemma_desc_le(ps, y as int, c as int);
                    assert(c > v);
                }
            }
        }
        ci += 1;
    }
    out
}

/// One step of the search below `c`: take `s` off the stack, reach it, and
/// put its children on the stack (last child first).
#[verifier::spinoff_prover]
#[verifier::rlimit(60)]
proof fn lemma_search_step(
    ps: Seq<int>,
    bb: int,
    c: int,
    new0: Seq<usize>,
    st0: Seq<usize>,
    s: usize,
    kd: Seq<usize>,
    pn: Seq<usize>,
)
    requires
        parents_ordered(ps),
        ps.len() == bb,
        0 <= bb <= 16,
        0 <= c < bb,
        search_ok(ps, bb, c, new0, st0),
        st0.len() > 0,
        st0[st0.len() - 1] == s,
        kd == kids(ps, s as int, bb),
        pn.len() == kd.len(),
        forall|k: int| 0 <= k < pn.len() ==> #[trigger] pn[k] == kd[kd.len() - 1 - k],
    ensures
        search_ok(ps, bb, c, new0.push(s), st0.drop_last() + pn),
{
    lemma_kids(ps, s as int, bb);
    let new1 = new0.push(s);
    let st1 = st0.drop_last() + pn;
    assert(s < bb && desc(ps, s as int, c));
    assert(!new0.contains(s)) by {
        if new0.contains(s) {
            let q = choose|q: int| 0 <= q < new0.len() && new0[q] == s;
            assert((new0 + st0)[q] == s);
            assert((new0 + st0)[new0.len() + st0.len() - 1] == s);
        }
    }
    // Children pushed: below `s`, hence in `c`'s subtree, and new.
    assert forall|k: int| 0 <= k < pn.len() implies #[trigger] pn[k] < bb && ps[pn[k] as int] == s as int
        && desc(ps, pn[k] as int, c) by {
        let g = pn[k];
        assert(kd[kd.len() - 1 - k] == g);
        lemma_desc_parent(ps, g as int);
        lemma_desc_trans(ps, g as int, s as int, c);
    }
    assert forall|a: int, b: int| 0 <= a < b < (new1 + st1).len() implies (new1 + st1)[a] != (new1 + st1)[b] by {
        let z = new1 + st1;
        let l0 = new0.len() as int;
        let l1 = l0 + 1 + st0.len() - 1;
        // Positions in `new0 + st0` of the old entries.
        if b < l1 {
            let ob = if b < l0 { b } else if b == l0 { l0 + st0.len() - 1 } else { b - 1 };
            let oa = if a < l0 { a } else if a == l0 { l0 + st0.len() - 1 } else { a - 1 };
            assert((new0 + st0)[ob] == z[b]);
            assert((new0 + st0)[oa] == z[a]);
            assert(oa != ob);
        } else {
            let g = z[b];
            assert(g == pn[b - l1]);
            assert(ps[g as int] == s as int);
            if a >= l1 {
                assert(z[a] == pn[a - l1]);
                assert(kd[kd.len() - 1 - (b - l1)] < kd[kd.len() - 1 - (a - l1)]);
            } else {
                let y = z[a];
                assert(g != c) by {
                    lemma_desc_le(ps, s as int, c);
                }
                if y == g {
                    // `y` was reached or waiting: `c` itself or a child of a
                    // position reached before, which `s` was not.
                    if a < l0 {
                        assert(new0[a] == y);
                        assert(new0.subrange(0, a).contains(ps[y as int] as usize));
                        let q = choose|q: int| 0 <= q < a && new0.subrange(0, a)[q] == ps[y as int] as usize;
                        assert(new0[q] == s);
                    } else if a == l0 {
                        assert(y == s);
                        assert(ps[s as int] < s);
                    } else {
                        assert(st0[a - 1 - l0] == y);
                        assert(new0.contains(ps[y as int] as usize));
                    }
                }
            }
        }
    }
    assert(search_ok(ps, bb, c, new1, st1)) by {
        assert forall|i: int| 0 <= i < st1.len() implies #[trigger] st1[i] < bb && desc(ps, st1[i] as int, c) by {
            if i < st0.len() - 1 {
                assert(st1[i] == st0[i]);
            } else {
                assert(st1[i] == pn[i - (st0.len() - 1)]);
            }
        }
        assert forall|i: int| 0 <= i < new1.len() implies #[trigger] new1[i] < bb && desc(ps, new1[i] as int, c) by {
            if i < new0.len() {
                assert(new1[i] == new0[i]);
            }
        }
        assert forall|i: int| 0 <= i < st1.len() implies st1[i] == c || new1.contains(ps[(#[trigger] st1[i]) as int] as usize) by {
            if i < st0.len() - 1 {
                assert(st1[i] == st0[i]);
                if st0[i] != c {
                    let q = choose|q: int| 0 <= q < new0.len() && new0[q] == ps[st0[i] as int] as usize;
                    assert(new1[q] == new0[q]);
                }
            } else {
                assert(st1[i] == pn[i - (st0.len() - 1)]);
                assert(new1[new0.len() as int] == s);
            }
        }
        assert forall|i: int| 0 <= i < new1.len() implies new1[i] == c || new1.subrange(0, i).contains(
            ps[(#[trigger] new1[i]) as int] as usize,
        ) by {
            if i < new0.len() {
                assert(new1.subrange(0, i) =~= new0.subrange(0, i));
            } else {
                if s != c {
                    let si = st0.len() - 1;
                    assert(st0[si] == s);
                    assert(new0.contains(ps[s as int] as usize));
                    assert(new1.subrange(0, i) =~= new0);
                }
            }
        }
        assert forall|x: int| 0 <= x < bb && #[trigger] desc(ps, x, c) implies new1.contains(x as usize) || exists|i: int|
            0 <= i < st1.len() && desc(ps, x, #[trigger] st1[i] as int) by {
            if new0.contains(x as usize) {
                let q = choose|q: int| 0 <= q < new0.len() && new0[q] == x as usize;
                assert(new1[q] == x as usize);
            } else {
                let i = choose|i: int| 0 <= i < st0.len() && desc(ps, x, #[trigger] st0[i] as int);
                if i < st0.len() - 1 {
                    assert(st1[i] == st0[i]);
                } else if x == s {
                    assert(new1[new0.len() as int] == s);
                } else {
                    let g = lemma_desc_child(ps, x, s as int);
                    assert(kd.contains(g as usize));
                    let q = choose|q: int| 0 <= q < kd.len() && kd[q] == g as usize;
                    let k = kd.len() - 1 - q;
                    assert(pn[k] == kd[q]);
                    assert(st1[st0.len() - 1 + k] == pn[k]);
                }
            }
        }
    }
}

/// The nodes at the given positions of a node list.
spec fn member_nodes(on: Seq<u32>, indices: Seq<usize>) -> Seq<u32> {
    Seq::new(indices.len(), |i: int| on[indices[i] as int])
}

/// Position `k` of the forest of `ms`: a top of the set `members` (its parent
/// outside), or hanging from an earlier position.
spec fn forest_preorder_at(ms: IncrMicroset, par: Seq<usize>, members: Seq<u32>, k: int) -> bool {
    let ps = forest_parents(ms.forest);
    let x = ms.nodes@[k] as int;
    &&& (ps[k] == -1 ==> is_top(par, members, x))
    &&& (ps[k] != -1 ==> 0 <= ps[k] < k && par[x] == ms.nodes@[ps[k]])
}

/// The forest of `ms` lists its nodes parents first: each node is a top of
/// the set `members` or hangs from an earlier node of the list.
spec fn forest_preorder(ms: IncrMicroset, par: Seq<usize>, members: Seq<u32>) -> bool {
    forall|k: int| 0 <= k < ms.nodes@.len() ==> #[trigger] forest_preorder_at(ms, par, members, k)
}

/// `ms` is whole subtrees of the node list `on` hanging from its root, a
/// node of `on`: each of its nodes is in `on` and hangs from the root or
/// from another of its nodes, and every node of `on` hanging from one of
/// its nodes is in it.
spec fn carved_from(ms: IncrMicroset, on: Seq<u32>, par: Seq<usize>) -> bool {
    let nodes = ms.nodes@;
    &&& nodes.len() >= 1
    &&& on.contains(ms.root)
    &&& forall|kk: int|
        0 <= kk < nodes.len() ==> on.contains(#[trigger] nodes[kk]) && (par[nodes[kk] as int] == ms.root
            || nodes.contains(par[nodes[kk] as int] as u32))
    &&& forall|x: int|
        0 <= x < par.len() && on.contains(x as u32) && x != 0 && #[trigger] nodes.contains(par[x] as u32)
            ==> nodes.contains(x as u32)
}

/// A microset built from the set `members`: its forest decodes to a preorder
/// of the members, tops first at each level, parents inside the set; its
/// mark carries each node's linked bit from the old numbering `on`.
spec fn built_ok(ms: IncrMicroset, members: Seq<u32>, par: Seq<usize>, on: Seq<u32>, old_mark: u32) -> bool {
    let nodes = ms.nodes@;
    let size = forest_size(ms.forest);
    let ps = forest_parents(ms.forest);
    &&& forest_valid(ms.forest)
    &&& size == members.len()
    &&& nodes.len() == size
    &&& ms.forest < pow2((2 * size - 1) as nat)
    &&& ms.mark < pow2(size)
    &&& nodes.no_duplicates()
    &&& forall|x: u32| #[trigger] nodes.contains(x) <==> members.contains(x)
    &&& forall|j: int|
        0 <= j < size ==> {
            let w = (#[trigger] nodes[j]) as int;
            &&& 0 <= w < par.len()
            &&& (ps[j] == -1 ==> is_top(par, members, w))
            &&& (ps[j] != -1 ==> w != 0 && par[w] == nodes[ps[j]])
        }
    &&& forall|j: int| 0 <= j < size ==> #[trigger] mark_bit(ms.mark, j) == old_bit(on, old_mark, nodes[j])
}

/// A list of positions split off at position `v`: without repetitions,
/// after `v`, and exactly the subtrees of `v`'s children `lo..hi`.
spec fn carved_list(ps: Seq<int>, bb: int, l: Seq<usize>, v: int, lo: int, hi: int) -> bool {
    &&& 0 <= v < bb
    &&& 0 <= lo < hi <= kids(ps, v, bb).len()
    &&& l.no_duplicates()
    &&& l.len() >= 1
    &&& forall|i: int| 0 <= i < l.len() ==> #[trigger] l[i] < bb && l[i] > v
    &&& forall|x: int|
        0 <= x < bb ==> (#[trigger] l.contains(x as usize) <==> exists|t: int|
            lo <= t < hi && #[trigger] desc(ps, x, kids(ps, v, bb)[t] as int))
}

/// The lists split off so far, in order: each a carved list with at most
/// `q` children, from positions no earlier than `lowest`, later lists from
/// earlier positions or later children of the same position.
spec fn lists_ok(
    ps: Seq<int>,
    bb: int,
    on: Seq<u32>,
    q: int,
    ls: Seq<(Vec<usize>, u32)>,
    gv: Seq<int>,
    glo: Seq<int>,
    ghi: Seq<int>,
    lowest: int,
) -> bool {
    &&& gv.len() == ls.len()
    &&& glo.len() == ls.len()
    &&& ghi.len() == ls.len()
    &&& forall|k: int|
        0 <= k < ls.len() ==> {
            &&& carved_list(ps, bb, (#[trigger] ls[k]).0@, gv[k], glo[k], ghi[k])
            &&& ls[k].1 == on[gv[k]]
            &&& ghi[k] - glo[k] <= q
            &&& gv[k] >= lowest
        }
    &&& forall|k: int, k2: int|
        0 <= k < k2 < ls.len() ==> #[trigger] gv[k] > #[trigger] gv[k2] || (gv[k] == gv[k2] && ghi[k] <= glo[k2])
}

/// A lower bound on the positions carved at can be lowered.
proof fn lemma_lists_lower(
    ps: Seq<int>,
    bb: int,
    on: Seq<u32>,
    q: int,
    ls: Seq<(Vec<usize>, u32)>,
    gv: Seq<int>,
    glo: Seq<int>,
    ghi: Seq<int>,
    lo1: int,
    lo2: int,
)
    requires
        lists_ok(ps, bb, on, q, ls, gv, glo, ghi, lo1),
        lo2 <= lo1,
    ensures
        lists_ok(ps, bb, on, q, ls, gv, glo, ghi, lo2),
        forall|k: int| 0 <= k < ls.len() ==> #[trigger] gv[k] >= lo1,
{
    assert forall|k: int| 0 <= k < ls.len() implies #[trigger] gv[k] >= lo1 by {
        assert(ls[k] == ls[k]);
    }
}

/// A new list carved at `v`, after the ones before, keeps the lists in
/// order.
proof fn lemma_lists_push(
    ps: Seq<int>,
    bb: int,
    on: Seq<u32>,
    q: int,
    ls: Seq<(Vec<usize>, u32)>,
    gv: Seq<int>,
    glo: Seq<int>,
    ghi: Seq<int>,
    v: int,
    n_start: int,
    l: Vec<usize>,
    lo: int,
    hi: int,
)
    requires
        lists_ok(ps, bb, on, q, ls, gv, glo, ghi, v),
        0 <= n_start <= ls.len(),
        forall|k: int| 0 <= k < n_start ==> #[trigger] gv[k] > v,
        forall|k: int| n_start <= k < ls.len() ==> #[trigger] gv[k] == v && ghi[k] <= lo,
        carved_list(ps, bb, l@, v, lo, hi),
        hi - lo <= q,
    ensures
        lists_ok(
            ps,
            bb,
            on,
            q,
            ls.push((l, on[v])),
            gv.push(v),
            glo.push(lo),
            ghi.push(hi),
            v,
        ),
        forall|k: int| 0 <= k < n_start ==> #[trigger] gv.push(v)[k] > v,
        forall|k: int| n_start <= k < ls.len() + 1 ==> #[trigger] gv.push(v)[k] == v && ghi.push(hi)[k] <= hi,
{
    let ls2 = ls.push((l, on[v]));
    let gv2 = gv.push(v);
    let glo2 = glo.push(lo);
    let ghi2 = ghi.push(hi);
    let n = ls.len() as int;
    assert forall|k: int| 0 <= k < ls2.len() implies {
        &&& carved_list(ps, bb, (#[trigger] ls2[k]).0@, gv2[k], glo2[k], ghi2[k])
        &&& ls2[k].1 == on[gv2[k]]
        &&& ghi2[k] - glo2[k] <= q
        &&& gv2[k] >= v
    } by {
        if k < n {
            assert(ls2[k] == ls[k]);
        }
    }
    assert forall|k1: int, k2: int| 0 <= k1 < k2 < ls2.len() implies #[trigger] gv2[k1] > #[trigger] gv2[k2] || (gv2[k1] == gv2[k2] && ghi2[k1] <= glo2[k2]) by {
        if k2 < n {
            assert(gv2[k1] == gv[k1] && gv2[k2] == gv[k2] && ghi2[k1] == ghi[k1] && glo2[k2] == glo[k2]);
        } else {
            assert(gv2[k1] == gv[k1] && ghi2[k1] == ghi[k1]);
        }
    }
    assert forall|k: int| n_start <= k < ls.len() + 1 implies #[trigger] gv2[k] == v && ghi2[k] <= hi by {
        if k < n {
            assert(gv2[k] == gv[k] && ghi2[k] == ghi[k]);
            assert(carved_list(ps, bb, ls[k].0@, gv[k], glo[k], ghi[k]));
        }
    }
}

/// The state of the carving with positions `vi..` visited: counts 1 for
/// the positions still to visit and at most `q` for the visited ones; the
/// taken positions are those of the lists; and, while no list has been
/// carved, the open sum counts the visited positions.
spec fn carve_state(
    ps: Seq<int>,
    lc: Seq<Vec<usize>>,
    on: Seq<u32>,
    b: int,
    d: Seq<u32>,
    carved: Seq<bool>,
    ls: Seq<(Vec<usize>, u32)>,
    gv: Seq<int>,
    glo: Seq<int>,
    ghi: Seq<int>,
    vi: int,
) -> bool {
    let bb = lc.len() as int;
    let q = top_bound(b as nat) as int;
    &&& 0 <= vi <= bb
    &&& bb == on.len()
    &&& bb == b
    &&& 2 <= b <= 13
    &&& ps.len() == bb
    &&& parents_ordered(ps)
    &&& forall|p: int| 0 <= p < bb ==> (#[trigger] lc[p])@ == kids(ps, p, bb)
    &&& d.len() == bb
    &&& forall|x: int| 0 <= x < vi ==> #[trigger] d[x] == 1
    &&& forall|x: int| vi <= x < bb ==> 1 <= #[trigger] d[x] <= q
    &&& carved.len() == bb
    &&& forall|x: int|
        0 <= x < bb ==> (#[trigger] carved[x] <==> exists|k: int|
            0 <= k < ls.len() && #[trigger] ls[k].0@.contains(x as usize))
    &&& lists_ok(ps, bb, on, q, ls, gv, glo, ghi, vi)
    &&& ls.len() == 0 ==> sum_f(open_terms(ps, d, vi), bb) == bb - vi
}

/// Visit position `v`: gather its children's counts, carving off their
/// subtrees whenever four times the count exceeds `b + 2`.
#[verifier::spinoff_prover]
#[verifier::rlimit(60)]
fn carve_at(
    lc: &Vec<Vec<usize>>,
    old_nodes: &Vec<u32>,
    b: u32,
    v: usize,
    d: &mut Vec<u32>,
    carved: &mut Vec<bool>,
    new_microsets: &mut Vec<(Vec<usize>, u32)>,
    Ghost(ps): Ghost<Seq<int>>,
    Ghost(gv_in): Ghost<Seq<int>>,
    Ghost(glo_in): Ghost<Seq<int>>,
    Ghost(ghi_in): Ghost<Seq<int>>,
) -> (r: (Ghost<Seq<int>>, Ghost<Seq<int>>, Ghost<Seq<int>>))
    requires
        carve_state(ps, lc@, old_nodes@, b as int, old(d)@, old(carved)@, old(new_microsets)@, gv_in, glo_in, ghi_in, v + 1),
    ensures
        ({
            let (gv, glo, ghi) = r;
            carve_state(ps, lc@, old_nodes@, b as int, final(d)@, final(carved)@, final(new_microsets)@, gv@, glo@, ghi@, v as int)
        }),
{
    let bb = lc.len();
    let ghost q = top_bound(b as nat) as int;
    let threshold_4x = b + 2;
    let ghost mut gv = gv_in;
    let ghost mut glo = glo_in;
    let ghost mut ghi = ghi_in;
    let ghost d_start = d@;
    d.set(v, 1);
    proof {
        lemma_open_frame(ps, d_start, d@, v + 1, bb as int);
    }
    let nch = lc[v].len();
    let ghost kv = kids(ps, v as int, bb as int);
    let ghost n_start = new_microsets@.len();
    proof {
        lemma_kids(ps, v as int, bb as int);
        assert(lc@[v as int]@ == kv);
        assert(kv.subrange(0, 0) =~= Seq::<usize>::empty());
        lemma_lists_lower(ps, bb as int, old_nodes@, q, new_microsets@, gv, glo, ghi, v + 1, v as int);
    }
    let mut child_idx: usize = 0;
    let mut prev_child_idx: usize = 0;
    let mut done = false;
    while !done
        invariant
            v < bb,
            bb == lc.len(),
            bb == old_nodes.len(),
            bb == b,
            2 <= b <= 13,
            q == top_bound(b as nat),
            threshold_4x == b + 2,
            ps.len() == bb,
            parents_ordered(ps),
            forall|p: int| 0 <= p < lc.len() ==> (#[trigger] lc@[p])@ == kids(ps, p, bb as int),
            kv == kids(ps, v as int, bb as int),
            nch == kv.len(),
            forall|i: int| 0 <= i < kv.len() ==> #[trigger] kv[i] < bb && ps[kv[i] as int] == v,
            d.len() == bb,
            forall|x: int| 0 <= x < v ==> #[trigger] d@[x] == 1,
            forall|x: int| v < x < bb ==> 1 <= #[trigger] d@[x] <= q,
            prev_child_idx <= child_idx <= nch,
            d@[v as int] >= 1 + (child_idx - prev_child_idx),
            d@[v as int] <= 2 * q,
            child_idx > prev_child_idx ==> 4 * (d@[v as int] - d@[kv[child_idx - 1] as int]) <= threshold_4x
                && d@[v as int] - d@[kv[child_idx - 1] as int] >= 1 + (child_idx - 1 - prev_child_idx),
            d@[v as int] == 1 + list_sum(d@, kv.subrange(prev_child_idx as int, child_idx as int)),
            done ==> 1 <= d@[v as int] <= q,
            done && new_microsets@.len() == 0 ==> child_idx == nch,
            new_microsets@.len() == n_start ==> prev_child_idx == 0,
            new_microsets@.len() >= n_start,
            carved.len() == bb,
            forall|x: int|
                0 <= x < bb ==> (#[trigger] carved@[x] <==> exists|k: int|
                    0 <= k < new_microsets@.len() && #[trigger] new_microsets@[k].0@.contains(x as usize)),
            lists_ok(ps, bb as int, old_nodes@, q, new_microsets@, gv, glo, ghi, v as int),
            forall|k: int| n_start <= k < new_microsets@.len() ==> #[trigger] gv[k] == v && ghi[k] <= prev_child_idx,
            forall|k: int| 0 <= k < n_start ==> #[trigger] gv[k] > v,
            n_start <= gv.len(),
            new_microsets@.len() == 0 ==> sum_f(open_terms(ps, d@, v + 1), bb as int) == bb - (v + 1),
        decreases nch - prev_child_idx, (if done { 0int } else { 1int }),
    {
        while 4 * d[v] <= threshold_4x && child_idx < nch
            invariant
                v < bb,
                bb == lc.len(),
                bb == b,
                2 <= b <= 13,
                q == top_bound(b as nat),
                threshold_4x == b + 2,
                ps.len() == bb,
                parents_ordered(ps),
                forall|p: int| 0 <= p < lc.len() ==> (#[trigger] lc@[p])@ == kids(ps, p, bb as int),
                kv == kids(ps, v as int, bb as int),
                nch == kv.len(),
                forall|i: int| 0 <= i < kv.len() ==> #[trigger] kv[i] < bb && ps[kv[i] as int] == v,
                d.len() == bb,
                forall|x: int| 0 <= x < v ==> #[trigger] d@[x] == 1,
                forall|x: int| v < x < bb ==> 1 <= #[trigger] d@[x] <= q,
                prev_child_idx <= child_idx <= nch,
                d@[v as int] >= 1 + (child_idx - prev_child_idx),
                d@[v as int] <= 2 * q,
                child_idx > prev_child_idx ==> 4 * (d@[v as int] - d@[kv[child_idx - 1] as int]) <= threshold_4x
                    && d@[v as int] - d@[kv[child_idx - 1] as int] >= 1 + (child_idx - 1 - prev_child_idx),
                d@[v as int] == 1 + list_sum(d@, kv.subrange(prev_child_idx as int, child_idx as int)),
                new_microsets@.len() == 0 ==> sum_f(open_terms(ps, d@, v + 1), bb as int) == bb - (v + 1),
            decreases nch - child_idx,
        {
            let w = lc[v][child_idx];
            proof {
                assert(lc@[v as int]@[child_idx as int] == kv[child_idx as int]);
                assert(w > v) by {
                    assert(ps[w as int] == v);
                    assert(-1 <= ps[w as int] < w);
                }
            }
            let ghost d0 = d@;
            let nv = d[v] + d[w];
            d.set(v, nv);
            child_idx += 1;
            proof {
                assert forall|i: int| 0 <= i < kv.subrange(prev_child_idx as int, child_idx as int).len() implies d@[#[trigger] kv.subrange(prev_child_idx as int, child_idx as int)[i] as int] == d0[kv.subrange(prev_child_idx as int, child_idx as int)[i] as int] by {
                    let y = kv.subrange(prev_child_idx as int, child_idx as int)[i];
                    assert(y == kv[prev_child_idx + i]);
                    assert(y > v) by {
                        assert(ps[y as int] == v);
                        assert(-1 <= ps[y as int] < y);
                    }
                }
                let sub = kv.subrange(prev_child_idx as int, child_idx as int);
                assert(sub.take(sub.len() - 1) =~= kv.subrange(prev_child_idx as int, child_idx - 1));
                lemma_list_sum_take(d@, sub, sub.len() - 1);
                assert(sub.take(sub.len() as int) =~= sub);
                lemma_list_sum_frame(d0, d@, sub);
                assert(sub.take(sub.len() - 1) =~= kv.subrange(prev_child_idx as int, child_idx - 1));
                lemma_list_sum_frame(d0, d@, kv.subrange(prev_child_idx as int, child_idx - 1));
                lemma_open_frame(ps, d0, d@, v + 1, bb as int);
            }
        }
        if 4 * d[v] <= threshold_4x {
            done = true;
        } else if child_idx == prev_child_idx {
            done = true;
        } else {
            let ghost carved0 = carved@;
            let ghost ls0 = new_microsets@;
            let ghost gv0 = gv;
            let ghost ghi0 = ghi;
            let ghost glo0 = glo;
            proof {
                let x = d@[v as int] - d@[kv[child_idx - 1] as int];
                assert(4 * x <= b + 2);
                assert(x <= (b + 2) / 4);
                assert(child_idx - prev_child_idx <= x);
            }
            let ms_nodes = collect_subtrees(lc, v, prev_child_idx, child_idx, carved, Ghost(ps));
            if ms_nodes.len() > 0 {
                new_microsets.push((ms_nodes, old_nodes[v]));
                proof {
                    gv = gv.push(v as int);
                    glo = glo.push(prev_child_idx as int);
                    ghi = ghi.push(child_idx as int);
                }
            }
            proof {
                let ls = new_microsets@;
                let k = ls0.len() as int;
                assert(ls[k].0@ == ms_nodes@);
                assert forall|x: int| 0 <= x < bb implies (#[trigger] ms_nodes@.contains(x as usize) <==> exists|t: int|
                    prev_child_idx <= t < child_idx && #[trigger] desc(ps, x, kids(ps, v as int, bb as int)[t] as int)) by {
                    if ms_nodes@.contains(x as usize) {
                        let t = choose|t: int| prev_child_idx <= t < child_idx && #[trigger] desc(ps, x, lc@[v as int]@[t] as int);
                        assert(desc(ps, x, kids(ps, v as int, bb as int)[t] as int));
                    }
                    if exists|t: int| prev_child_idx <= t < child_idx && #[trigger] desc(ps, x, kids(ps, v as int, bb as int)[t] as int) {
                        let t = choose|t: int| prev_child_idx <= t < child_idx && #[trigger] desc(ps, x, kids(ps, v as int, bb as int)[t] as int);
                        assert(desc(ps, x, lc@[v as int]@[t] as int));
                    }
                }
                assert(carved_list(ps, bb as int, ms_nodes@, v as int, prev_child_idx as int, child_idx as int));
                lemma_lists_push(ps, bb as int, old_nodes@, q, ls0, gv0, glo0, ghi0, v as int, n_start as int, ms_nodes,
                    prev_child_idx as int, child_idx as int);
                assert(ls == ls0.push((ms_nodes, old_nodes@[v as int])));
                assert forall|x: int| 0 <= x < bb implies (#[trigger] carved@[x] <==> exists|kk: int|
                    0 <= kk < ls.len() && #[trigger] ls[kk].0@.contains(x as usize)) by {
                    if carved@[x] {
                        if carved0[x] {
                            let kk = choose|kk: int| 0 <= kk < ls0.len() && #[trigger] ls0[kk].0@.contains(x as usize);
                            assert(ls[kk] == ls0[kk]);
                        } else {
                            assert(ls[k].0@.contains(x as usize));
                        }
                    }
                    if exists|kk: int| 0 <= kk < ls.len() && #[trigger] ls[kk].0@.contains(x as usize) {
                        let kk = choose|kk: int| 0 <= kk < ls.len() && #[trigger] ls[kk].0@.contains(x as usize);
                        if kk < k {
                            assert(ls[kk] == ls0[kk]);
                        }
                    }
                }
            }
            let ghost d0 = d@;
            d.set(v, 1);
            let ghost prev0 = prev_child_idx;
            prev_child_idx = child_idx;
            proof {
                assert(kv.subrange(prev_child_idx as int, child_idx as int) =~= Seq::<usize>::empty());

            }
            if child_idx >= nch {
                done = true;
            }
        }
    }
    proof {
        if new_microsets@.len() == 0 {
            assert(kv.subrange(0, nch as int) =~= kv);
            lemma_kids_sum(ps, d@, v as int, bb as int);
            lemma_open_step(ps, d@, v as int, bb as int);
        }
    }

    (Ghost(gv), Ghost(glo), Ghost(ghi))
}

/// Decide which subtrees split off. Positions are in preorder, so visiting
/// them from last to first visits children before parents. Each position
/// `v` counts 1 plus what its children pass up; once four times the count
/// exceeds `b + 2`, the subtrees of the children gathered since the last cut
/// become a new microset hanging from `v`, and the count restarts at 1.
/// Returns the new microsets (their positions, and the node they hang
/// from), which positions were taken, and for each new microset its
/// position `v` and range of children.
#[verifier::spinoff_prover]
#[verifier::rlimit(60)]
fn carve_subtrees(
    lc: &Vec<Vec<usize>>,
    old_nodes: &Vec<u32>,
    b: u32,
    Ghost(ps): Ghost<Seq<int>>,
) -> (r: (Vec<(Vec<usize>, u32)>, Vec<bool>, Ghost<Seq<int>>, Ghost<Seq<int>>, Ghost<Seq<int>>))
    requires
        lc.len() == old_nodes.len(),
        ps.len() == lc.len(),
        lc.len() == b,
        2 <= b <= 13,
        parents_ordered(ps),
        forall|p: int| 0 <= p < lc.len() ==> (#[trigger] lc@[p])@ == kids(ps, p, ps.len() as int),
        sum_f(top_terms(ps), b as int) <= top_bound(b as nat),
    ensures
        ({
            let (ls, carved, gv, glo, ghi) = r;
            &&& lists_ok(ps, b as int, old_nodes@, top_bound(b as nat) as int, ls@, gv@, glo@, ghi@, 0)
            &&& ls@.len() >= 1
            &&& carved@.len() == b
            &&& forall|x: int|
                0 <= x < b ==> (#[trigger] carved@[x] <==> exists|k: int|
                    0 <= k < ls@.len() && #[trigger] ls@[k].0@.contains(x as usize))
        }),
{
    let bb = lc.len();
    let ghost q = top_bound(b as nat) as int;
    let mut d: Vec<u32> = Vec::new();
    let mut carved: Vec<bool> = Vec::new();
    let mut i: usize = 0;
    while i < bb
        invariant
            i <= bb,
            d.len() == i,
            carved.len() == i,
            forall|x: int| 0 <= x < i ==> #[trigger] d@[x] == 1,
            forall|x: int| 0 <= x < i ==> !#[trigger] carved@[x],
        decreases bb - i,
    {
        d.push(1);
        carved.push(false);
        i += 1;
    }
    let mut new_microsets: Vec<(Vec<usize>, u32)> = Vec::new();
    let ghost mut gv: Seq<int> = seq![];
    let ghost mut glo: Seq<int> = seq![];
    let ghost mut ghi: Seq<int> = seq![];
    let mut vi = bb;
    proof {
        let f = open_terms(ps, d@, bb as int);
        assert forall|j: int| 0 <= j < bb implies #[trigger] f(j) == 0 by {
        }
        crate::local_tree::lemma_sum_single(f, -1, bb as int);
    }
    proof {
        assert(carve_state(ps, lc@, old_nodes@, b as int, d@, carved@, new_microsets@, gv, glo, ghi, vi as int));
    }
    while vi > 0
        invariant
            bb == lc.len(),
            bb == b,
            q == top_bound(b as nat),
            carve_state(ps, lc@, old_nodes@, b as int, d@, carved@, new_microsets@, gv, glo, ghi, vi as int),
        decreases vi,
    {
        vi -= 1;
        let (Ghost(gv2), Ghost(glo2), Ghost(ghi2)) = carve_at(lc, old_nodes, b, vi, &mut d, &mut carved, &mut new_microsets, Ghost(ps), Ghost(gv), Ghost(glo), Ghost(ghi));
        proof {
            gv = gv2;
            glo = glo2;
            ghi = ghi2;
        }
    }
    proof {
        if new_microsets@.len() == 0 {
            lemma_open_tops(ps, d@, q, bb as int);
            let t = sum_f(top_terms(ps), bb as int);
            assert(q * t <= q * q) by (nonlinear_arith)
                requires
                    0 <= t <= q,
                    q >= 0,
            ;
            assert(q * q < b) by {
                if b <= 5 {
                    assert(q == 1);
                } else if b <= 9 {
                    assert(q == 2);
                } else {
                    assert(q == 3);
                }
            }
        }
    }
    (new_microsets, carved, Ghost(gv), Ghost(glo), Ghost(ghi))
}

/// The last of the first `k` lists that holds position `x`, or -1.
spec fn owner(ls: Seq<(Vec<usize>, u32)>, x: int, k: int) -> int
    decreases k,
{
    if k <= 0 {
        -1
    } else if ls[k - 1].0@.contains(x as usize) {
        k - 1
    } else {
        owner(ls, x, k - 1)
    }
}

/// The owner is a list holding the position, and no later one does.
proof fn lemma_owner(ls: Seq<(Vec<usize>, u32)>, x: int, k: int)
    requires
        0 <= k <= ls.len(),
    ensures
        -1 <= owner(ls, x, k) < k,
        owner(ls, x, k) >= 0 ==> ls[owner(ls, x, k)].0@.contains(x as usize),
        forall|j: int| owner(ls, x, k) < j < k ==> !(#[trigger] ls[j]).0@.contains(x as usize),
    decreases k,
{
    if k > 0 {
        lemma_owner(ls, x, k - 1);
    }
}

/// Counting top positions counts the listed tops.
proof fn lemma_tops_count(nodes: Seq<u32>, ps: Seq<int>)
    requires
        ps.len() == nodes.len(),
        parents_ordered(ps),
    ensures
        sum_f(top_terms(ps), nodes.len() as int) == tops_list(nodes, ps).len(),
    decreases nodes.len(),
{
    if nodes.len() > 0 {
        let n1 = nodes.len() - 1;
        let ps1 = ps.drop_last();
        assert(parents_ordered(ps1)) by {
            assert forall|k: int| 0 <= k < ps1.len() implies -1 <= #[trigger] ps1[k] < k by {
                assert(ps1[k] == ps[k]);
            }
        }
        lemma_tops_count(nodes.drop_last(), ps1);
        assert forall|j: int| 0 <= j < n1 implies #[trigger] top_terms(ps)(j) == top_terms(ps1)(j) by {
            assert(ps1[j] == ps[j]);
        }
        crate::local_tree::lemma_sum_ext(top_terms(ps), top_terms(ps1), n1);
        assert(-1 <= ps[n1] < n1);
        assert(ps.last() == ps[n1]);
    }
}

/// Carved lists are nested or apart: a list sharing a position with a later
/// list lies inside it.
proof fn lemma_laminar(
    ps: Seq<int>,
    bb: int,
    on: Seq<u32>,
    q: int,
    ls: Seq<(Vec<usize>, u32)>,
    gv: Seq<int>,
    glo: Seq<int>,
    ghi: Seq<int>,
    k1: int,
    k2: int,
    x: int,
    y: int,
)
    requires
        parents_ordered(ps),
        ps.len() == bb,
        0 <= bb <= 16,
        lists_ok(ps, bb, on, q, ls, gv, glo, ghi, 0),
        0 <= k1 < k2 < ls.len(),
        0 <= x < bb,
        0 <= y < bb,
        ls[k1].0@.contains(x as usize),
        ls[k2].0@.contains(x as usize),
        ls[k1].0@.contains(y as usize),
    ensures
        ls[k2].0@.contains(y as usize),
{
    let v1 = gv[k1];
    let v2 = gv[k2];
    assert(carved_list(ps, bb, ls[k1].0@, v1, glo[k1], ghi[k1]));
    assert(carved_list(ps, bb, ls[k2].0@, v2, glo[k2], ghi[k2]));
    lemma_kids(ps, v1, bb);
    lemma_kids(ps, v2, bb);
    let kv1 = kids(ps, v1, bb);
    let kv2 = kids(ps, v2, bb);
    let t1 = choose|t: int| glo[k1] <= t < ghi[k1] && #[trigger] desc(ps, x, kv1[t] as int);
    let t2 = choose|t: int| glo[k2] <= t < ghi[k2] && #[trigger] desc(ps, x, kv2[t] as int);
    let c1 = kv1[t1] as int;
    let c2 = kv2[t2] as int;
    assert(ps[c1] == v1 && ps[c2] == v2);
    assert(v1 > v2 || (v1 == v2 && ghi[k1] <= glo[k2]));
    if v1 == v2 {
        // Siblings on one path up from `x` are one child, at two places.
        if c1 <= c2 {
            lemma_desc_nested(ps, x, c1, c2);
            if c1 != c2 {
                lemma_desc_step(ps, c2, c1);
                lemma_desc_le(ps, v2, c1);
            }
        } else {
            lemma_desc_nested(ps, x, c2, c1);
            lemma_desc_step(ps, c1, c2);
            lemma_desc_le(ps, v1, c2);
        }
        assert(c1 == c2);
        assert(t1 < t2);
        assert(kv1[t1] < kv1[t2]);
        assert(false);
    } else {
        // `c1` hangs below `c2`, so all of `v1`'s subtree is inside `c2`'s.
        if c2 <= c1 {
            lemma_desc_nested(ps, x, c2, c1);
            if c1 == c2 {
                assert(false);
            }
            lemma_desc_step(ps, c1, c2);
            // v1 = ps[c1] is inside c2's subtree.
            let ty = choose|t: int| glo[k1] <= t < ghi[k1] && #[trigger] desc(ps, y, kv1[t] as int);
            let cy = kv1[ty] as int;
            assert(ps[cy] == v1);
            lemma_desc_parent(ps, cy);
            lemma_desc_trans(ps, y, cy, v1);
            lemma_desc_trans(ps, y, v1, c2);
            assert(desc(ps, y, kv2[t2] as int));
        } else {
            lemma_desc_nested(ps, x, c1, c2);
            lemma_desc_step(ps, c2, c1);
            lemma_desc_le(ps, v2, c1);
            assert(v2 >= c1);
            assert(c1 > v1);
            assert(false);
        }
    }
}

/// All positions of the list owning `x` have that list as owner.
proof fn lemma_owner_shared(
    ps: Seq<int>,
    bb: int,
    on: Seq<u32>,
    q: int,
    ls: Seq<(Vec<usize>, u32)>,
    gv: Seq<int>,
    glo: Seq<int>,
    ghi: Seq<int>,
    x: int,
    y: int,
)
    requires
        parents_ordered(ps),
        ps.len() == bb,
        0 <= bb <= 16,
        lists_ok(ps, bb, on, q, ls, gv, glo, ghi, 0),
        0 <= x < bb,
        0 <= y < bb,
        owner(ls, x, ls.len() as int) >= 0,
        ls[owner(ls, x, ls.len() as int)].0@.contains(y as usize),
    ensures
        owner(ls, y, ls.len() as int) == owner(ls, x, ls.len() as int),
{
    let l = ls.len() as int;
    let o = owner(ls, x, l);
    lemma_owner(ls, x, l);
    lemma_owner(ls, y, l);
    let oy = owner(ls, y, l);
    assert(oy >= o) by {
        if oy < o {
            assert(!ls[o].0@.contains(y as usize));
        }
    }
    if oy > o {
        // The later list holding `y` holds all of `x`'s list.
        lemma_laminar(ps, bb, on, q, ls, gv, glo, ghi, o, oy, y, x);
        assert(!ls[oy].0@.contains(x as usize));
    }
}

/// A sequence of distinct positions below `k` that avoids `e` has fewer
/// than `k` elements.
proof fn lemma_positions_bound_except(a: Seq<usize>, k: int, e: int)
    requires
        0 <= e < k <= 0x10000,
        a.no_duplicates(),
        forall|i: int| 0 <= i < a.len() ==> #[trigger] a[i] < k && a[i] != e,
    ensures
        a.len() <= k - 1,
{
    let spots = Seq::new((k - 1) as nat, |i: int| if i < e { i as usize } else { (i + 1) as usize });
    assert forall|i: int| 0 <= i < a.len() implies spots.contains(#[trigger] a[i]) by {
        if a[i] < e {
            assert(spots[a[i] as int] == a[i]);
        } else {
            assert(spots[a[i] - 1] == a[i]);
        }
    }
    lemma_distinct_within(a, spots);
}

impl IncrementalTreeSetUnion {
    /// Create a new structure with a single root node (node 0), room for
    /// `capacity` nodes (at least 2). Microset numbers are never reused, and
    /// a grow may open up to nine of them, so nine times the capacity must
    /// fit in a `usize`.
    pub fn new(capacity: usize) -> (s: Self)
        requires
            capacity <= MAX_CAPACITY,
            9 * capacity <= usize::MAX,
        ensures
            s.wf(),
            s.spec_len() == 1,
            s.spec_capacity() == if capacity < 2 {
                2
            } else {
                capacity
            },
            s.parents() == seq![0usize],
            s.linked() == seq![false],
    {
        let capacity = if capacity < 2 {
            2
        } else {
            capacity
        };
        proof {
            lemma_b_small(capacity as nat);
            lemma_compute_b_props(capacity as nat);
        }
        let answer_table = AnswerTable::new(capacity);

        let mut node_info: Vec<NodeInfo> = Vec::new();
        let mut tree_children: Vec<Vec<u32>> = Vec::new();
        let mut in_macroset: Vec<bool> = Vec::new();
        let mut i: usize = 0;
        while i < capacity
            invariant
                i <= capacity,
                node_info@.len() == i,
                tree_children@.len() == i,
                in_macroset@.len() == i,
                forall|j: int| 0 <= j < i ==> (#[trigger] tree_children@[j])@.len() == 0,
                forall|j: int| 0 <= j < i ==> !#[trigger] in_macroset@[j],
            decreases capacity - i,
        {
            node_info.push(NodeInfo::default());
            tree_children.push(Vec::new());
            in_macroset.push(false);
            i += 1;
        }
        node_info.set(0, NodeInfo { micro: 0, number: 0, parent: NO_PARENT, level: 0 });

        let zero: [u32; 1] = [0];
        proof {
            assert(as_nats(zero@).take(1) =~= seq![0nat]);
            assert(seq![0nat].drop_first() =~= Seq::<nat>::empty());
            assert(count_sum(Seq::<nat>::empty()) == 0);
            assert(count_sum(seq![0nat]) == 0);
        }
        let forest = encode_forest(&zero, 1);
        proof {
            assert(forest == crate::answer_table::encode_counts(seq![0nat]));
        }
        let root_nodes = vec![0u32];
        let root_ms = IncrMicroset { nodes: root_nodes, mark: 0, forest, root: NO_PARENT };

        let macroset = Macroset::new(capacity);
        let micro_child_counts = vec![vec![0u32]];
        let ghost p0: Seq<usize> = seq![0usize];
        let s = Self {
            node_info,
            microsets: vec![root_ms],
            answer_table,
            macroset,
            n: 1,
            capacity,
            tree_children,
            micro_child_counts,
            in_macroset,
            par: Ghost(p0),
        };
        proof {
            let cc = seq![0nat];
            assert(as_nats(seq![0u32]).take(1) =~= cc);
            assert(cc.drop_first() =~= Seq::<nat>::empty());
            assert(count_sum(cc) == 0);
            lemma_encode_roundtrip(cc);
            lemma_encode_bound(cc);
            vstd::arithmetic::power2::lemma2_to64();
            assert(forest_counts(forest) == cc);
            assert(forest == 1);
            let ps = forest_parents(forest);
            assert(decode_counts(cc.drop_last()).1 =~= Seq::<(nat, nat)>::empty());
            assert(ps =~= seq![-1int]);
            assert(counts_closed(cc));
            assert(forest_valid(forest));
            let b = s.answer_table.b as nat;
            vstd::arithmetic::power2::lemma_pow2_pos((2 * b - 3) as nat);
            if 2 * b - 3 > 1 {
                vstd::arithmetic::power2::lemma_pow2_strictly_increases(1, (2 * b - 3) as nat);
            }
            assert(s.microsets@[0].nodes@ =~= seq![0u32]);
            assert(tops_list(seq![0u32], ps) =~= seq![0u32]) by {
                assert(seq![0u32].drop_last() =~= Seq::<u32>::empty());
                assert(ps.drop_last() =~= Seq::<int>::empty());
                assert(tops_list(Seq::<u32>::empty(), Seq::<int>::empty()) =~= Seq::<u32>::empty());
                assert(ps.last() == -1);
            }
            assert(s.microsets@[0].ok(0, s.node_info@, s.par@, b, b));
            reveal(IncrementalTreeSetUnion::shape_ok);
            reveal(IncrementalTreeSetUnion::layout_ok);
            assert(s.shape_ok()) by {
                assert(children_ok(lists_view(s.tree_children@), s.par@)) by {
                    assert forall|v: int| 0 <= v < lists_view(s.tree_children@).len() implies #[trigger] lists_view(
                        s.tree_children@,
                    )[v].len() == 0 by {
                        assert(s.tree_children@[v]@.len() == 0);
                    }
                }
                assert(tree_depths(s.par@, levels_of(s.node_info@, 1)));
            }
            assert(s.layout_ok(-1));
            assert(s.linked()[0] == mark_bit(0, 0));
            assert(!mark_bit(0u32, 0)) by (bit_vector);
            assert(s.macro_ok()) by {
                assert forall|u: int| 0 <= u < s.capacity implies #[trigger] s.in_macroset@[u]
                    == s.macroset.members().contains(u) by {
                }
            }
            assert(s.linked() =~= seq![false]);
        }
        s
    }

    /// Link node `v`: remove `v` as a set name, merging it into its
    /// parent's set. The root cannot be linked.
    pub fn link(&mut self, v: usize)
        requires
            old(self).wf(),
            0 < v < old(self).spec_len(),
        ensures
            final(self).wf(),
            final(self).spec_len() == old(self).spec_len(),
            final(self).spec_capacity() == old(self).spec_capacity(),
            final(self).parents() == old(self).parents(),
            final(self).linked() == old(self).linked().update(v as int, true),
    {
        let ghost s0 = *self;
        proof {
            reveal(IncrementalTreeSetUnion::shape_ok);
            reveal(IncrementalTreeSetUnion::layout_ok);
        }
        let info = self.node_info[v];
        let mi = info.micro as usize;
        proof {
            assert(s0.node_info@[v as int] == info);
        }
        let ghost size = forest_size(self.microsets@[mi as int].forest);
        proof {
            vstd::bits::lemma_u32_pow2_no_overflow(size);
            vstd::bits::lemma_u32_shl_is_mul(1, size as u32);
        }
        let new_mark = self.microsets[mi].mark | (1u32 << info.number);
        self.set_mark(mi, new_mark);
        proof {
            let n = s0.n as int;
            let j = info.number as u32;
            let m0 = s0.microsets@[mi as int].mark;
            lemma_bits_after_set(m0, j, size as u32, 0);
            assert forall|jj: int| 0 <= jj < 32 implies mark_bit(new_mark, jj) == (if jj == j {
                true
            } else {
                mark_bit(m0, jj)
            }) by {
                lemma_bits_after_set(m0, j, size as u32, jj as u32);
            }
            let lk0 = s0.linked();
            let lk = self.linked();
            assert forall|w: int| 0 <= w < n implies #[trigger] lk[w] == lk0.update(v as int, true)[w] by {
                let wi = self.node_info@[w];
                assert(wi == s0.node_info@[w]);
                if wi.micro == mi && w != v {
                    assert(wi.number != j) by {
                        if wi.number == j {
                            assert(s0.microsets@[mi as int].nodes@[j as int] == w);
                            assert(s0.microsets@[mi as int].nodes@[j as int] == v);
                        }
                    }
                    assert(wi.number < 16);
                }
            }
            assert(lk =~= lk0.update(v as int, true));
            self.lemma_mark_wf(s0, v as int);
        }
    }

    /// Replace microset `mi`'s mark.
    fn set_mark(&mut self, mi: usize, mark: u32)
        requires
            mi < old(self).microsets@.len(),
        ensures
            final(self).microsets@.len() == old(self).microsets@.len(),
            final(self).microsets@[mi as int].mark == mark,
            final(self).microsets@[mi as int].nodes@ == old(self).microsets@[mi as int].nodes@,
            final(self).microsets@[mi as int].forest == old(self).microsets@[mi as int].forest,
            final(self).microsets@[mi as int].root == old(self).microsets@[mi as int].root,
            forall|m: int|
                0 <= m < old(self).microsets@.len() && m != mi ==> #[trigger] final(self).microsets@[m]
                    == old(self).microsets@[m],
            final(self).node_info == old(self).node_info,
            final(self).answer_table == old(self).answer_table,
            final(self).macroset == old(self).macroset,
            final(self).n == old(self).n,
            final(self).capacity == old(self).capacity,
            final(self).tree_children == old(self).tree_children,
            final(self).micro_child_counts == old(self).micro_child_counts,
            final(self).in_macroset == old(self).in_macroset,
            final(self).par == old(self).par,
    {
        self.microsets[mi].mark = mark;
    }

    /// Setting the linked bit of `v` keeps the structure.
    proof fn lemma_mark_wf(&self, s0: Self, v: int)
        requires
            s0.wf(),
            0 < v < s0.n,
            self.n == s0.n,
            self.capacity == s0.capacity,
            self.par@ == s0.par@,
            self.node_info@ == s0.node_info@,
            self.tree_children@ == s0.tree_children@,
            self.in_macroset@ == s0.in_macroset@,
            self.micro_child_counts@.len() == s0.micro_child_counts@.len(),
            self.answer_table == s0.answer_table,
            self.macroset == s0.macroset,
            self.microsets@.len() == s0.microsets@.len(),
            forall|m: int|
                0 <= m < self.microsets@.len() && m != s0.node_info@[v].micro ==> #[trigger] self.microsets@[m]
                    == s0.microsets@[m],
            ({
                let m = s0.node_info@[v].micro as int;
                let ms = self.microsets@[m];
                let ms0 = s0.microsets@[m];
                &&& ms.forest == ms0.forest
                &&& ms.nodes@ == ms0.nodes@
                &&& ms.root == ms0.root
                &&& ms.mark < pow2(forest_size(ms.forest))
            }),
            self.linked() == s0.linked().update(v, true),
        ensures
            self.wf(),
    {
        let n = self.n as int;
        let info = self.node_info@;
        let b = self.answer_table.b as nat;
        reveal(IncrementalTreeSetUnion::shape_ok);
        reveal(IncrementalTreeSetUnion::layout_ok);
        assert(self.shape_ok());
        assert forall|w: int| 0 <= w < n implies {
            let m = (#[trigger] info[w]).micro as int;
            &&& 0 <= m < self.microsets@.len()
            &&& info[w].number < self.microsets@[m].nodes@.len()
            &&& self.microsets@[m].nodes@[info[w].number as int] == w
            &&& self.microsets@[m].ok(m, info, self.par@, b, b)
        } by {
            let m = info[w].micro as int;
            assert(s0.microsets@[m].ok(m, info, self.par@, b, b));
        }
        assert(self.layout_ok(-1));
        let levels = levels_of(info, n as nat);
        assert forall|x: int| 0 <= x < n && #[trigger] s0.linked()[x] implies self.linked()[x] by {
        }
        assert forall|u: int| #[trigger] self.macroset.members().contains(u) implies {
            let t = self.macroset.top_of(u);
            &&& 0 <= u < n
            &&& 0 <= t < n
            &&& self.macroset.level_of(u) == levels[u]
            &&& levels[t] <= levels[u]
            &&& linked_path(self.par@, self.linked(), u, t, (levels[u] - levels[t]) as nat)
        } by {
            let t = self.macroset.top_of(u);
            lemma_path_mono(self.par@, levels, s0.linked(), self.linked(), u, t, (levels[u] - levels[t]) as nat);
        }
        assert forall|w: int|
            0 <= w < n && #[trigger] self.microsets@[self.node_info@[w].micro as int].root != NO_PARENT implies self.macroset.members().contains(
            self.microsets@[self.node_info@[w].micro as int].root as int,
        ) by {
            let m = info[w].micro as int;
            assert(self.microsets@[m].root == s0.microsets@[m].root);
            assert(s0.microsets@[s0.node_info@[w].micro as int].root != NO_PARENT);
        }
        assert(self.macro_ok());
    }

    /// Find the nearest ancestor of `v` that is still a set name
    /// (has not been linked). A node is its own ancestor.
    #[must_use]
    pub fn find(&mut self, v: usize) -> (r: usize)
        requires
            old(self).wf(),
            v < old(self).spec_len(),
        ensures
            final(self).wf(),
            final(self).spec_len() == old(self).spec_len(),
            final(self).spec_capacity() == old(self).spec_capacity(),
            final(self).parents() == old(self).parents(),
            final(self).linked() == old(self).linked(),
            r == set_name(old(self).parents(), old(self).linked(), v as int),
    {
        let ghost s0 = *self;
        let ghost par = self.par@;
        let ghost lk = self.linked();
        let ghost levels = levels_of(self.node_info@, self.n as nat);
        let ghost target = set_name(par, lk, v as int);
        let mut x = v as u32;
        proof {
            self.lemma_microfind(x as int);
        }
        let mut y = incr_microfind(x, &self.node_info, &self.microsets, &self.answer_table);

        let x_micro = self.node_info[x as usize].micro;
        let y_micro = self.node_info[y as usize].micro;

        if x_micro != y_micro {
            proof {
                self.lemma_macro_member(y as int);
            }
            x = self.macroset.top(y);
            proof {
                self.lemma_macro_after(s0, y as int, x as int);
            }
            loop
                invariant
                    self.wf(),
                    self.n == s0.n,
                    self.capacity == s0.capacity,
                    self.par@ == par,
                    self.node_info@ == s0.node_info@,
                    self.microsets@ == s0.microsets@,
                    self.tree_children@ == s0.tree_children@,
                    self.answer_table == s0.answer_table,
                    self.linked() == lk,
                    levels == levels_of(self.node_info@, self.n as nat),
                    target == set_name(par, lk, v as int),
                    self.macroset.members().contains(x as int),
                    self.macroset.top_of(x as int) == x,
                    set_name(par, lk, x as int) == target,
                ensures
                    self.wf(),
                    self.n == s0.n,
                    self.capacity == s0.capacity,
                    self.par@ == par,
                    self.linked() == lk,
                    y == target,
                decreases levels[x as int],
            {
                proof {
                    self.lemma_macro_member(x as int);
                    self.lemma_microfind(x as int);
                }
                y = incr_microfind(x, &self.node_info, &self.microsets, &self.answer_table);

                let x_micro = self.node_info[x as usize].micro;
                let y_micro = self.node_info[y as usize].micro;

                if x_micro == y_micro {
                    break;
                }
                // MacroUnite(MicroFind(x), x)
                let ghost s1 = *self;
                proof {
                    self.lemma_macro_member(y as int);
                }
                self.macroset.unite(y, x);
                proof {
                    self.lemma_after_unite(s1, x as int, y as int);
                }
                let ghost s2 = *self;
                x = self.macroset.top(y);
                proof {
                    self.lemma_macro_after(s2, y as int, x as int);
                }
            }
        }
        y as usize
    }

    /// What `incr_microfind` gives for a node: the set name itself, inside
    /// the node's microset; or a macroset member outside it, higher up the
    /// tree over linked nodes, with the same set name.
    proof fn lemma_microfind(&self, x: int)
        requires
            self.wf(),
            0 <= x < self.n,
        ensures
            self.answer_table.wf(),
            self.node_info@.len() == self.capacity,
            self.n <= self.capacity < NO_PARENT,
            ({
                let info = self.node_info@;
                let m = info[x].micro as int;
                let ms = self.microsets@[m];
                let size = forest_size(ms.forest);
                let b = self.answer_table.b as nat;
                &&& 0 <= m < self.microsets@.len()
                &&& forest_valid(ms.forest)
                &&& 1 <= size <= b - 1
                &&& ms.forest < pow2((2 * b - 3) as nat)
                &&& ms.mark < pow2(size)
                &&& info[x].number < size
                &&& ms.nodes@.len() == size
            }),
            ({
                let info = self.node_info@;
                let ms = self.microsets@[info[x].micro as int];
                let k = nearest_marked(forest_parents(ms.forest), ms.mark, info[x].number as int);
                let y = (if k == 0 {
                    ms.root
                } else {
                    ms.nodes@[k - 1]
                }) as int;
                let levels = levels_of(info, self.n as nat);
                &&& 0 <= y < self.n
                &&& info[y].micro == info[x].micro ==> y == set_name(self.par@, self.linked(), x)
                &&& info[y].micro != info[x].micro ==> {
                    &&& self.macroset.members().contains(y)
                    &&& levels[y] < levels[x]
                    &&& linked_path(self.par@, self.linked(), x, y, (levels[x] - levels[y]) as nat)
                    &&& set_name(self.par@, self.linked(), x) == set_name(self.par@, self.linked(), y)
                }
            }),
    {
        reveal(IncrementalTreeSetUnion::shape_ok);
        reveal(IncrementalTreeSetUnion::layout_ok);
        let info = self.node_info@;
        let m = info[x].micro as int;
        let ms = self.microsets@[m];
        let nodes = ms.nodes@;
        let b = self.answer_table.b as nat;
        let levels = levels_of(info, self.n as nat);
        let lk = self.linked();
        let par = self.par@;
        let j = info[x].number as int;
        assert(info[x] == info[x]);
        assert(ms.ok(m, info, par, b, b));
        assert(nodes[j] == x);
        assert forall|jj: int| 0 <= jj < forest_size(ms.forest) implies lk[#[trigger] nodes[jj] as int]
            == mark_bit(ms.mark, jj) by {
            let w = nodes[jj] as int;
            assert(info[w].micro == m);
            assert(info[w].number == jj);
        }
        assert forall|r: int| 0 <= r < par.len() && #[trigger] par[r] == r implies !lk[r] by {
            if r != 0 {
                assert(par[r] < r);
            }
        }
        lemma_local_walk(nodes, ms.forest, ms.mark, ms.root, m, info, par, levels, lk, b, j);
        let k = nearest_marked(forest_parents(ms.forest), ms.mark, j);
        if k > 0 {
            let t = nodes[k - 1] as int;
            assert(info[t].micro == m);
            lemma_set_name_path(par, lk, levels, x, t, (levels[x] - levels[t]) as nat);
            lemma_set_name_unlinked(par, lk, levels, t);
        } else {
            let rt = ms.root as int;
            assert(self.microsets@[info[x].micro as int].root != NO_PARENT);
            lemma_set_name_path(par, lk, levels, x, rt, (levels[x] - levels[rt]) as nat);
        }
    }

    /// A macroset member's top is above it over linked nodes, and keeps the
    /// set name.
    proof fn lemma_macro_member(&self, u: int)
        requires
            self.wf(),
            self.macroset.members().contains(u),
        ensures
            0 <= u < self.n,
            self.macroset.members().contains(self.macroset.top_of(u)),
            self.macroset.top_of(self.macroset.top_of(u)) == self.macroset.top_of(u),
            0 <= self.macroset.top_of(u) < self.n,
            set_name(self.par@, self.linked(), u) == set_name(
                self.par@,
                self.linked(),
                self.macroset.top_of(u),
            ),
            levels_of(self.node_info@, self.n as nat)[self.macroset.top_of(u)] <= levels_of(
                self.node_info@,
                self.n as nat,
            )[u],
    {
        reveal(IncrementalTreeSetUnion::shape_ok);
        self.macroset.lemma_member_props(u);
        let levels = levels_of(self.node_info@, self.n as nat);
        let t = self.macroset.top_of(u);
        lemma_set_name_path(self.par@, self.linked(), levels, u, t, (levels[u] - levels[t]) as nat);
    }

    /// After `top` the structure is unchanged in what it holds, and the top
    /// found is its own top, with the same set name.
    proof fn lemma_macro_after(&self, before: Self, y: int, x: int)
        requires
            before.wf(),
            before.macroset.members().contains(y),
            x == before.macroset.top_of(y),
            self.macroset.wf(),
            self.macroset.same_sets(before.macroset),
            forall|w: int| 0 <= w < before.macroset.len() && #[trigger] before.macroset.fresh(w) ==> self.macroset.fresh(w),
            self.n == before.n,
            self.capacity == before.capacity,
            self.par@ == before.par@,
            self.node_info@ == before.node_info@,
            self.microsets@ == before.microsets@,
            self.tree_children@ == before.tree_children@,
            self.micro_child_counts@ == before.micro_child_counts@,
            self.in_macroset@ == before.in_macroset@,
            self.answer_table == before.answer_table,
        ensures
            self.wf(),
            self.linked() == before.linked(),
            self.macroset.members().contains(x),
            self.macroset.top_of(x) == x,
            set_name(self.par@, self.linked(), y) == set_name(self.par@, self.linked(), x),
    {
        self.macroset.lemma_same_sets(before.macroset);
        before.lemma_macro_member(y);
        assert(self.linked() == before.linked());
        let levels = levels_of(self.node_info@, self.n as nat);
        assert forall|u: int| #[trigger] self.macroset.members().contains(u) implies {
            let t = self.macroset.top_of(u);
            &&& 0 <= u < self.n
            &&& 0 <= t < self.n
            &&& self.macroset.level_of(u) == levels[u]
            &&& levels[t] <= levels[u]
            &&& linked_path(self.par@, self.linked(), u, t, (levels[u] - levels[t]) as nat)
        } by {
            assert(before.macroset.members().contains(u));
        }
        assert(self.shape_ok() && self.layout_ok(-1)) by {
            reveal(IncrementalTreeSetUnion::shape_ok);
            reveal(IncrementalTreeSetUnion::layout_ok);
        }
        assert forall|u: int| 0 <= u < self.capacity && !self.macroset.members().contains(u) implies #[trigger] self.macroset.fresh(u) by {
            assert(before.macroset.fresh(u));
        }
        assert(self.macro_ok());
    }

    /// Uniting the microset root `y` found above the macroset top `x` keeps
    /// the structure, and the merged component's top is `y`'s top.
    #[verifier::spinoff_prover]
    #[verifier::rlimit(40)]
    proof fn lemma_after_unite(&self, s1: Self, x: int, y: int)
        requires
            s1.wf(),
            s1.macroset.members().contains(x),
            s1.macroset.members().contains(y),
            s1.macroset.top_of(x) == x,
            levels_of(s1.node_info@, s1.n as nat)[y] < levels_of(s1.node_info@, s1.n as nat)[x],
            linked_path(
                s1.par@,
                s1.linked(),
                x,
                y,
                (levels_of(s1.node_info@, s1.n as nat)[x] - levels_of(s1.node_info@, s1.n as nat)[y]) as nat,
            ),
            self.n == s1.n,
            self.capacity == s1.capacity,
            self.par@ == s1.par@,
            self.node_info@ == s1.node_info@,
            self.microsets@ == s1.microsets@,
            self.tree_children@ == s1.tree_children@,
            self.micro_child_counts@ == s1.micro_child_counts@,
            self.in_macroset@ == s1.in_macroset@,
            self.answer_table == s1.answer_table,
            self.macroset.wf(),
            self.macroset.len() == s1.macroset.len(),
            self.macroset.members() == s1.macroset.members(),
            forall|w: int| 0 <= w < s1.macroset.len() && #[trigger] s1.macroset.fresh(w) ==> self.macroset.fresh(w),
            s1.macroset.rep(y) == s1.macroset.rep(x) ==> self.macroset.same_sets(s1.macroset),
            s1.macroset.rep(y) != s1.macroset.rep(x) ==> exists|r: int|
                Macroset::linked(s1.macroset, self.macroset, y, x, r),
        ensures
            self.wf(),
            self.linked() == s1.linked(),
            self.macroset.members().contains(y),
            self.macroset.top_of(y) == s1.macroset.top_of(y),
            levels_of(self.node_info@, self.n as nat)[s1.macroset.top_of(y)] < levels_of(
                self.node_info@,
                self.n as nat,
            )[x],
    {
        let levels = levels_of(self.node_info@, self.n as nat);
        let par = self.par@;
        let lk = s1.linked();
        let ms0 = s1.macroset;
        let ms1 = self.macroset;
        assert(self.linked() == lk);
        s1.lemma_macro_member(x);
        s1.lemma_macro_member(y);
        ms0.lemma_member_props(x);
        ms0.lemma_member_props(y);
        let ty = ms0.top_of(y);
        let rx = ms0.rep(x);
        let ry = ms0.rep(y);
        assert(rx != ry) by {
            if rx == ry {
                ms0.lemma_top_same_rep(x, y);
            }
        }
        let r = choose|r: int| Macroset::linked(ms0, ms1, y, x, r);
        assert(Macroset::linked(ms0, ms1, y, x, r));
        let big = if ms0.weight(y) >= ms0.weight(x) {
            ry
        } else {
            rx
        };
        assert(ms0.level_of(ty) == levels[ty]);
        assert(ms0.level_of(x) == levels[x]);
        ms0.lemma_member_props(ty);
        assert(ms0.top_of(rx) == x);
        assert(ms0.top_of(ry) == ty);
        assert(ms1.top_of(big) == ty);
        assert(ms1.rep(big) == big);
        assert forall|w: int| #[trigger] ms1.members().contains(w) implies {
            let t = ms1.top_of(w);
            &&& 0 <= w < self.n
            &&& 0 <= t < self.n
            &&& ms1.level_of(w) == levels[w]
            &&& levels[t] <= levels[w]
            &&& linked_path(par, lk, w, t, (levels[w] - levels[t]) as nat)
        } by {
            assert(ms0.members().contains(w));
            s1.lemma_macro_member(w);
            ms0.lemma_member_props(w);
            let rw = ms0.rep(w);
            assert(0 <= w < ms0.len());
            let _ = ms1.rep(w);
            assert(ms1.level_of(w) == ms0.level_of(w));
            if rw != rx && rw != ry {
                assert(ms1.top_of(w) == ms0.top_of(w));
            }
            if rw == rx || rw == ry {
                assert(ms1.rep(w) == big);
                ms1.lemma_top_same_rep(w, big);
                if rw == rx {
                    ms0.lemma_top_same_rep(w, x);
                    lemma_path_concat(par, lk, w, x, (levels[w] - levels[x]) as nat, y, (levels[x] - levels[y]) as nat);
                    lemma_path_concat(par, lk, w, y, (levels[w] - levels[y]) as nat, ty, (levels[y] - levels[ty]) as nat);
                } else {
                    ms0.lemma_top_same_rep(w, y);
                }
            }
        }
        assert forall|v: int|
            0 <= v < self.n && #[trigger] self.microsets@[self.node_info@[v].micro as int].root != NO_PARENT implies ms1.members().contains(
            self.microsets@[self.node_info@[v].micro as int].root as int,
        ) by {
            assert(s1.microsets@[s1.node_info@[v].micro as int].root != NO_PARENT);
        }
        assert forall|u: int| 0 <= u < self.capacity implies #[trigger] self.in_macroset@[u]
            == ms1.members().contains(u) by {
            assert(s1.in_macroset@[u] == ms0.members().contains(u));
        }
        assert(self.shape_ok() && self.layout_ok(-1)) by {
            reveal(IncrementalTreeSetUnion::shape_ok);
            reveal(IncrementalTreeSetUnion::layout_ok);
        }
        assert forall|u: int| 0 <= u < self.capacity && !ms1.members().contains(u) implies #[trigger] ms1.fresh(u) by {
            assert(ms0.fresh(u));
        }
        assert(self.macro_ok());
        assert(ms1.rep(y) == big);
        ms1.lemma_top_same_rep(y, big);
    }

    /// The state right after node `w` was attached below a node of microset
    /// `m`: the tree and its bookkeeping include `w`, every other node sits in
    /// its microset as `wf` demands, and `w` is recorded under microset `m`
    /// without being listed in it yet.
    spec fn pending_ok(&self, w: int, m: int) -> bool {
        let n = self.n as int;
        let info = self.node_info@;
        let mss = self.microsets@;
        let b = self.answer_table.b as nat;
        &&& self.shape_ok()
        &&& w == n - 1
        &&& w >= 1
        &&& 0 <= m < mss.len()
        &&& info[w].micro == m
        &&& info[self.par@[w] as int].micro == m
        &&& forall|j: int| 0 <= j < mss[m].nodes@.len() ==> #[trigger] mss[m].nodes@[j] < w
        &&& forall|v: int|
            0 <= v < n && v != w ==> {
                let mv = (#[trigger] info[v]).micro as int;
                &&& 0 <= mv < mss.len()
                &&& info[v].number < mss[mv].nodes@.len()
                &&& mss[mv].nodes@[info[v].number as int] == v
                &&& mss[mv].ok(mv, info, self.par@, b, b)
            }
        &&& !self.linked()[0]
        &&& !self.macroset.members().contains(w)
        &&& self.macro_ok()
        &&& self.microsets@.len() + 17 <= 9 * n
    }

    /// The state before a split: every node sits in its microset, microset
    /// `m` holding `b` nodes, one more than the answer table covers.
    spec fn big_ok(&self, m: int) -> bool {
        &&& self.shape_ok()
        &&& self.layout_ok(m)
        &&& 0 <= m < self.microsets@.len()
        &&& self.microsets@[m].nodes@.len() == self.answer_table.b
        &&& !self.linked()[0]
        &&& self.macro_ok()
        &&& self.microsets@.len() + 17 <= 9 * self.n
        &&& self.n >= 1
        &&& self.node_info@[self.n - 1].micro == m
    }

    /// Add node `w` as a child of existing node `v`. `w` must be the next
    /// node number and fit the capacity.
    pub fn grow(&mut self, v: usize, w: usize)
        requires
            old(self).wf(),
            v < old(self).spec_len(),
            w == old(self).spec_len(),
            w < old(self).spec_capacity(),
        ensures
            final(self).wf(),
            final(self).spec_len() == old(self).spec_len() + 1,
            final(self).spec_capacity() == old(self).spec_capacity(),
            final(self).parents() == old(self).parents().push(v),
            final(self).linked() == old(self).linked().push(false),
    {
        let ghost s0 = *self;
        proof {
            reveal(IncrementalTreeSetUnion::shape_ok);
            reveal(IncrementalTreeSetUnion::layout_ok);
            assert(self.node_info@[v as int].level <= v);
        }
        let level = self.node_info[v].level + 1;
        self.node_info.set(w, NodeInfo { micro: 0, number: 0, parent: v as u32, level });
        self.tree_children[v].push(w as u32);
        self.n += 1;
        proof {
            self.par@ = self.par@.push(v);
        }
        let ms_idx = self.node_info[v].micro as usize;
        let mut ni = self.node_info[w];
        ni.micro = ms_idx;
        self.node_info.set(w, ni);
        let new_size = self.microsets[ms_idx].nodes.len() + 1;
        proof {
            assert(self.node_info@ =~= s0.node_info@.update(
                w as int,
                (NodeInfo {
                    micro: s0.node_info@[v as int].micro,
                    number: 0,
                    parent: v as u32,
                    level: (s0.node_info@[v as int].level + 1) as u32,
                }),
            ));
            self.lemma_grown(s0, v as int, w as int);
        }
        let ghost s1 = *self;
        if new_size as u32 == self.answer_table.b {
            self.rebuild_microset_with_new_node(ms_idx, w as u32);
            self.split_microset(ms_idx);
        } else {
            self.rebuild_microset_with_new_node(ms_idx, w as u32);
        }
        proof {
            assert(self.linked() =~= s0.linked().push(false));
        }
    }

    /// Attaching `w` below `v` leads from a consistent structure to the
    /// pending state.
    proof fn lemma_grown(&self, s0: Self, v: int, w: int)
        requires
            s0.wf(),
            0 <= v < s0.n,
            w == s0.n,
            w < s0.capacity,
            self.n == s0.n + 1,
            self.capacity == s0.capacity,
            self.par@ == s0.par@.push(v as usize),
            self.node_info@ == s0.node_info@.update(
                w,
                NodeInfo {
                    micro: s0.node_info@[v].micro,
                    number: 0,
                    parent: v as u32,
                    level: (s0.node_info@[v].level + 1) as u32,
                },
            ),
            self.tree_children@.len() == s0.tree_children@.len(),
            forall|u: int| 0 <= u < s0.capacity && u != v ==> #[trigger] self.tree_children@[u] == s0.tree_children@[u],
            self.tree_children@[v]@ == s0.tree_children@[v]@.push(w as u32),
            self.microsets == s0.microsets,
            self.micro_child_counts == s0.micro_child_counts,
            self.answer_table == s0.answer_table,
            self.macroset == s0.macroset,
            self.in_macroset == s0.in_macroset,
        ensures
            self.pending_ok(w, s0.node_info@[v].micro as int),
            forall|u: int| 0 <= u < w ==> #[trigger] self.linked()[u] == s0.linked()[u],
    {
        reveal(IncrementalTreeSetUnion::shape_ok);
        reveal(IncrementalTreeSetUnion::layout_ok);
        let n = self.n as int;
        let par0 = s0.par@;
        let par = self.par@;
        let info0 = s0.node_info@;
        let info = self.node_info@;
        let m = info0[v].micro as int;
        let b = self.answer_table.b as nat;
        assert forall|i: int| 0 <= i < par0.len() implies #[trigger] par[i] == par0[i] by {
        }
        assert forall|i: int| 0 <= i < par0.len() implies #[trigger] info[i] == info0[i] by {
        }
        // The tree.
        assert(earlier_parents(par));
        assert(parents_recorded(info, par));
        let lv0 = levels_of(info0, w as nat);
        let lv = levels_of(info, n as nat);
        assert(tree_depths(par, lv)) by {
            assert forall|i: int| 0 <= i < par.len() implies #[trigger] par[i] < par.len() by {
            }
            assert forall|i: int| 0 <= i < par.len() implies (par[i] == i <==> #[trigger] lv[i] == 0) by {
                if i < w {
                    assert(lv[i] == lv0[i]);
                }
            }
            assert forall|i: int| 0 <= i < par.len() && par[i] != i implies #[trigger] lv[i] == lv[par[i] as int] + 1 by {
                if i < w {
                    assert(lv[i] == lv0[i]);
                    assert(lv[par[i] as int] == lv0[par0[i] as int]);
                }
            }
        }
        let tc0 = lists_view(s0.tree_children@);
        let tc = lists_view(self.tree_children@);
        assert(children_ok(tc, par)) by {
            assert forall|x: int, i: int| 0 <= x < tc.len() && 0 <= i < tc[x].len() implies {
                let c = #[trigger] tc[x][i] as int;
                &&& 0 < c < par.len()
                &&& par[c] == x
            } by {
                if x != v || i < tc0[x].len() {
                    assert(tc[x][i] == tc0[x][i]);
                }
            }
            assert forall|x: int, i: int, j: int| 0 <= x < tc.len() && 0 <= i < j < tc[x].len() implies #[trigger] tc[x][i]
                < #[trigger] tc[x][j] by {
                if x != v || j < tc0[x].len() {
                    assert(tc[x][i] == tc0[x][i]);
                    assert(tc[x][j] == tc0[x][j]);
                } else {
                    assert(tc[x][i] == tc0[x][i]);
                    assert(tc0[x][i] < par0.len());
                }
            }
            assert forall|c: int| 0 < c < par.len() implies #[trigger] tc[par[c] as int].contains(c as u32) by {
                if c < w {
                    let x = par[c] as int;
                    assert(tc0[x].contains(c as u32));
                    let i = choose|i: int| 0 <= i < tc0[x].len() && tc0[x][i] == c as u32;
                    assert(tc[x][i] == c as u32);
                } else {
                    assert(tc[v][tc0[v].len() as int] == w as u32);
                }
            }
        }
        assert forall|x: int| n <= x < self.capacity implies (#[trigger] self.tree_children@[x])@.len() == 0 by {
            assert(s0.tree_children@[x]@.len() == 0);
        }
        assert forall|x: int| 0 <= x < n implies #[trigger] info[x].level <= x by {
            if x < w {
                assert(info[x] == info0[x]);
            }
        }
        assert(self.shape_ok());
        // The microsets of the other nodes.
        assert forall|u: int| 0 <= u < n && u != w implies {
            let mv = (#[trigger] info[u]).micro as int;
            &&& 0 <= mv < self.microsets@.len()
            &&& info[u].number < self.microsets@[mv].nodes@.len()
            &&& self.microsets@[mv].nodes@[info[u].number as int] == u
            &&& self.microsets@[mv].ok(mv, info, par, b, b)
        } by {
            assert(info[u] == info0[u]);
            let mv = info0[u].micro as int;
            let ms = self.microsets@[mv];
            assert(ms.ok(mv, info0, par0, b, b));
            lemma_microset_extend(ms.nodes@, ms.forest, ms.mark, ms.root, mv, info0, info, par0, par, b);
        }
        assert(info[v] == info0[v]);
        assert(info[par[w] as int].micro == m);
        assert forall|j: int| 0 <= j < self.microsets@[m].nodes@.len() implies #[trigger] self.microsets@[m].nodes@[j]
            < w by {
            let ms = self.microsets@[m];
            assert(ms.ok(m, info0, par0, b, b));
            assert(forest_size(ms.forest) == ms.nodes@.len());
            assert(ms.nodes@[j] < par0.len());
        }
        // Linked flags below `w`.
        assert forall|u: int| 0 <= u < w implies #[trigger] self.linked()[u] == s0.linked()[u] by {
            assert(info[u] == info0[u]);
        }
        assert(!self.linked()[0]);
        // The macroset.
        let lk = self.linked();
        let lk0 = s0.linked();
        assert forall|u: int| #[trigger] self.macroset.members().contains(u) implies {
            let t = self.macroset.top_of(u);
            &&& 0 <= u < n
            &&& 0 <= t < n
            &&& self.macroset.level_of(u) == lv[u]
            &&& lv[u] >= lv[t]
            &&& linked_path(par, lk, u, t, (lv[u] - lv[t]) as nat)
        } by {
            let t = self.macroset.top_of(u);
            assert(s0.macroset.members().contains(u));
            assert(u < w);
            assert(lv[u] == lv0[u]);
            assert(lv[t] == lv0[t]);
            assert forall|i: int| 0 <= i <= u implies #[trigger] lk[i] == lk0[i] by {
                assert(info[i] == info0[i]);
            }
            lemma_path_below(par0, par, lk0, lk, u, t, (lv0[u] - lv0[t]) as nat);
        }
        assert forall|x: int|
            0 <= x < n && #[trigger] self.microsets@[info[x].micro as int].root != NO_PARENT implies self.macroset.members().contains(
            self.microsets@[info[x].micro as int].root as int,
        ) by {
            if x == w {
                assert(info[w].micro == info0[v].micro);
                assert(s0.microsets@[s0.node_info@[v].micro as int].root != NO_PARENT);
            } else {
                assert(info[x] == info0[x]);
                assert(s0.microsets@[s0.node_info@[x].micro as int].root != NO_PARENT);
            }
        }
        assert(self.macro_ok());
        assert(!self.macroset.members().contains(w));
        assert(self.microsets@.len() + 17 <= 9 * n);
    }

    /// Renumber microset `ms_idx` in preorder with `new_node` added to it.
    fn rebuild_microset_with_new_node(&mut self, ms_idx: usize, new_node: u32)
        requires
            old(self).pending_ok(new_node as int, ms_idx as int),
        ensures
            final(self).n == old(self).n,
            final(self).capacity == old(self).capacity,
            final(self).par == old(self).par,
            final(self).tree_children == old(self).tree_children,
            final(self).answer_table == old(self).answer_table,
            final(self).macroset == old(self).macroset,
            final(self).in_macroset == old(self).in_macroset,
            final(self).microsets@.len() == old(self).microsets@.len(),
            final(self).microsets@[ms_idx as int].nodes@.len() == old(self).microsets@[ms_idx as int].nodes@.len() + 1,
            old(self).microsets@[ms_idx as int].nodes@.len() + 1 < old(self).answer_table.b ==> final(self).wf(),
            old(self).microsets@[ms_idx as int].nodes@.len() + 1 == old(self).answer_table.b ==> final(self).big_ok(ms_idx as int),
            forall|u: int| 0 <= u < new_node ==> #[trigger] final(self).linked()[u] == old(self).linked()[u],
            !final(self).linked()[new_node as int],
            forall|j: int|
                0 <= j < old(self).microsets@.len() && j != ms_idx ==> #[trigger] final(self).microsets@[j]
                    == old(self).microsets@[j],
            final(self).microsets@[ms_idx as int].root == old(self).microsets@[ms_idx as int].root,
            forall|x: u32|
                #[trigger] final(self).microsets@[ms_idx as int].nodes@.contains(x) <==> old(
                    self,
                ).microsets@[ms_idx as int].nodes@.push(new_node).contains(x),
            forest_preorder(
                final(self).microsets@[ms_idx as int],
                old(self).par@,
                old(self).microsets@[ms_idx as int].nodes@.push(new_node),
            ),
            siblings_in_order(
                old(self).par@,
                old(self).microsets@[ms_idx as int].nodes@.push(new_node),
                final(self).microsets@[ms_idx as int].nodes@,
            ),
    {
        let ghost s0 = *self;
        let ghost w = new_node as int;
        let ghost m = ms_idx as int;
        let ghost b = self.answer_table.b as nat;
        proof {
            reveal(IncrementalTreeSetUnion::shape_ok);
            assert(self.microsets@[m].ok(m, self.node_info@, self.par@, b, b)) by {
                let x = self.par@[w] as int;
                assert(x < w);
                assert(self.node_info@[x] == self.node_info@[x]);
            }
        }
        let ms_root = self.microsets[ms_idx].root;
        let old_mark = self.microsets[ms_idx].mark;
        let old_nodes: Vec<u32> = self.microsets[ms_idx].nodes.clone();
        proof {
            assert(old_nodes@ =~= s0.microsets@[m].nodes@);
        }
        let mut members: Vec<u32> = old_nodes.clone();
        proof {
            assert(members@ =~= old_nodes@);
        }
        if !list_contains(&members, new_node) {
            members.push(new_node);
        }
        let ghost on = old_nodes@;
        let ghost info0 = s0.node_info@;
        let ghost par = s0.par@;
        let ghost ps0 = forest_parents(s0.microsets@[m].forest);
        proof {
            // The old nodes are distinct and precede `new_node`.
            assert(on.no_duplicates()) by {
                assert forall|a: int, c: int| 0 <= a < c < on.len() implies on[a] != on[c] by {
                    assert(info0[on[a] as int].number == a);
                    assert(info0[on[c] as int].number == c);
                }
            }
            assert(!on.contains(new_node)) by {
                if on.contains(new_node) {
                    let j = choose|j: int| 0 <= j < on.len() && on[j] == new_node;
                    assert(s0.microsets@[m].nodes@[j] < w);
                }
            }
            assert(members@ =~= on.push(new_node));
            assert(members@.no_duplicates()) by {
                assert forall|a: int, c: int| 0 <= a < c < members@.len() implies members@[a] != members@[c] by {
                    if c == on.len() {
                        assert(on.contains(on[a]));
                    }
                }
            }
            assert(on.len() <= b - 1);
        }
        let (new_nodes, new_child_counts, new_mark) = member_preorder(
            &members,
            &old_nodes,
            old_mark,
            &self.node_info,
            &self.tree_children,
            Ghost(self.par@),
        );
        let ghost nn = new_nodes@;
        let ghost cs = as_nats(new_child_counts@);
        proof {
            assert(siblings_in_order(par, on.push(new_node), nn));
            reveal(IncrementalTreeSetUnion::shape_ok);
            assert(self.par@.len() <= self.node_info@.len());
            assert(info0[w].micro == m);
            assert forall|x: int| 0 <= x < nn.len() implies #[trigger] nn[x] < self.node_info@.len() by {
                assert(nn[x] < self.par@.len());
            }
        }
        // Record each node's microset and position.
        let mut idx: usize = 0;
        while idx < new_nodes.len()
            invariant
                idx <= new_nodes.len(),
                nn == new_nodes@,
                nn.no_duplicates(),
                nn.len() <= 16,
                forall|x: int| 0 <= x < nn.len() ==> #[trigger] nn[x] < self.node_info@.len(),
                self.node_info@.len() == info0.len(),
                ms_idx < self.microsets@.len(),
                self.microsets == s0.microsets,
                self.micro_child_counts == s0.micro_child_counts,
                self.n == s0.n,
                self.capacity == s0.capacity,
                self.par == s0.par,
                self.tree_children == s0.tree_children,
                self.answer_table == s0.answer_table,
                self.macroset == s0.macroset,
                self.in_macroset == s0.in_macroset,
                forall|x: int| 0 <= x < idx ==> #[trigger] self.node_info@[nn[x] as int] == placed(info0[nn[x] as int], ms_idx as int, x),
                forall|u: int| 0 <= u < info0.len() && !nn.subrange(0, idx as int).contains(u as u32) ==> #[trigger] self.node_info@[u] == info0[u],
            decreases new_nodes.len() - idx,
        {
            let nid = new_nodes[idx];
            let mut ni = self.node_info[nid as usize];
            ni.micro = ms_idx;
            ni.number = idx as u16;
            self.node_info.set(nid as usize, ni);
            proof {
                assert(nn.subrange(0, idx + 1)[idx as int] == nid);
                assert forall|u: int| 0 <= u < info0.len() && !nn.subrange(0, idx + 1).contains(u as u32) implies #[trigger] self.node_info@[u] == info0[u] by {
                    assert(u != nid);
                    if nn.subrange(0, idx as int).contains(u as u32) {
                        let q = choose|q: int| 0 <= q < idx && nn.subrange(0, idx as int)[q] == u as u32;
                        assert(nn.subrange(0, idx + 1)[q] == u as u32);
                    }
                }
                assert forall|x: int| 0 <= x < idx + 1 implies #[trigger] self.node_info@[nn[x] as int] == placed(info0[nn[x] as int], ms_idx as int, x) by {
                    if x < idx {
                        assert(nn[x] != nid);
                    }
                }
            }
            idx += 1;
        }
        proof {
            assert(nn.subrange(0, idx as int) =~= nn);
            lemma_encode_bound(cs);
            assert(new_child_counts@.len() == nn.len());
            assert(as_nats(new_child_counts@).take(nn.len() as int) =~= cs);
        }
        let forest = encode_forest(new_child_counts.as_slice(), new_nodes.len());
        proof {
            lemma_encode_roundtrip(cs);
        }
        self.microsets.set(ms_idx, IncrMicroset { nodes: new_nodes, mark: new_mark, forest, root: ms_root });
        self.micro_child_counts.set(ms_idx, new_child_counts);
        proof {
            self.lemma_rebuilt(s0, w, m, on, nn, cs, forest, new_mark);
            self.lemma_rebuilt_preorder(s0, w, m, on, nn, cs, forest, new_mark);
            assert(on.push(w as u32) =~= s0.microsets@[m].nodes@.push(new_node));
        }
    }

    /// What renumbering microset `m` with the new node `w` leaves: the
    /// pending state `s0` with the microset's nodes `nn` in preorder, their
    /// records moved, and its counts, forest and mark rebuilt.
    spec fn rebuild_facts(&self, s0: Self, w: int, m: int, on: Seq<u32>, nn: Seq<u32>, cs: Seq<nat>, forest: u32, new_mark: u32) -> bool {
        &&& s0.pending_ok(w, m)
        &&& on == s0.microsets@[m].nodes@
        &&& on.no_duplicates()
        &&& !on.contains(w as u32)
        &&& nn.no_duplicates()
        &&& nn.len() == on.len() + 1
        &&& forall|x: u32| #[trigger] nn.contains(x) <==> on.push(w as u32).contains(x)
        &&& ({
                let ps = decode_counts(cs).0;
                &&& cs.len() == nn.len()
                &&& ps.len() == nn.len()
                &&& forall|k: int|
                    0 <= k < nn.len() ==> {
                        let x = #[trigger] nn[k] as int;
                        &&& 0 <= x < s0.par@.len()
                        &&& (ps[k] == -1 ==> is_top(s0.par@, on.push(w as u32), x))
                        &&& (ps[k] != -1 ==> 0 <= ps[k] < k && x != 0 && s0.par@[x] == nn[ps[k]])
                    }
                &&& counts_closed(cs)
                &&& count_sum(cs) + 1 <= nn.len()
            })
        &&& forest as nat == crate::answer_table::encode_counts(cs)
        &&& forest_counts(forest) == cs
        &&& new_mark < pow2(nn.len() as nat)
        &&& forall|j: int| 0 <= j < nn.len() ==> #[trigger] mark_bit(new_mark, j) == old_bit(on, s0.microsets@[m].mark, nn[j])
        &&& self.n == s0.n
        &&& self.capacity == s0.capacity
        &&& self.par == s0.par
        &&& self.tree_children == s0.tree_children
        &&& self.answer_table == s0.answer_table
        &&& self.macroset == s0.macroset
        &&& self.in_macroset == s0.in_macroset
        &&& self.microsets@.len() == s0.microsets@.len()
        &&& self.micro_child_counts@.len() == s0.micro_child_counts@.len()
        &&& forall|x: int| 0 <= x < self.microsets@.len() && x != m ==> #[trigger] self.microsets@[x] == s0.microsets@[x]
        &&& self.microsets@[m].nodes@ == nn
        &&& self.microsets@[m].mark == new_mark
        &&& self.microsets@[m].forest == forest
        &&& self.microsets@[m].root == s0.microsets@[m].root
        &&& self.node_info@.len() == s0.node_info@.len()
        &&& forall|x: int| 0 <= x < nn.len() ==> #[trigger] self.node_info@[nn[x] as int] == placed(s0.node_info@[nn[x] as int], m, x)
        &&& forall|u: int| 0 <= u < s0.node_info@.len() && !nn.contains(u as u32) ==> #[trigger] self.node_info@[u] == s0.node_info@[u]
    }

    /// The renumbered microset is laid out, with no more top nodes than before.
    #[verifier::spinoff_prover]
    #[verifier::rlimit(50)]
    proof fn lemma_rebuilt_ms(&self, s0: Self, w: int, m: int, on: Seq<u32>, nn: Seq<u32>, cs: Seq<nat>, forest: u32, new_mark: u32)
        requires
            self.rebuild_facts(s0, w, m, on, nn, cs, forest, new_mark),
        ensures
            self.microsets@[m].ok(m, self.node_info@, self.par@, (if on.len() + 1 == self.answer_table.b { self.answer_table.b + 1 } else { self.answer_table.b as int }) as nat, self.answer_table.b as nat),
    {
        reveal(IncrementalTreeSetUnion::shape_ok);
        reveal(IncrementalTreeSetUnion::layout_ok);
        let n = self.n as int;
        let par = self.par@;
        let info0 = s0.node_info@;
        let info = self.node_info@;
        let b = self.answer_table.b as nat;
        let mems = on.push(w as u32);
        let ms0 = s0.microsets@[m];
        let ps0 = forest_parents(ms0.forest);
        let ms = self.microsets@[m];
        let ps = forest_parents(forest);
        let cap = if on.len() + 1 == b { b + 1 } else { b };
        lemma_forest_parents_ordered(ms0.forest);
        assert(ms0.ok(m, info0, par, b, b)) by {
            let x = par[w] as int;
            assert(x < w);
            assert(info0[x] == info0[x]);
        }
        assert(ps == decode_counts(cs).0);
        assert(forest_size(forest) == nn.len());
        // Nodes of the old microset: their old positions.
        assert forall|j: int| 0 <= j < on.len() implies #[trigger] info0[on[j] as int].number == j && info0[on[j] as int].micro == m by {
        }
        // The new microset is laid out.
        assert(forest != 0) by {
            if forest == 0 {
                assert(forest_counts(0) =~= Seq::<nat>::empty());
            }
        }
        assert(forest_valid(forest));
        assert(forest < pow2((2 * cap - 3) as nat)) by {
            lemma_encode_bound(cs);
            if cs.len() + count_sum(cs) < 2 * cap - 3 {
                vstd::arithmetic::power2::lemma_pow2_strictly_increases(cs.len() + count_sum(cs), (2 * cap - 3) as nat);
            }
        }
        assert forall|j: int| 0 <= j < forest_size(forest) implies {
            let x = #[trigger] nn[j] as int;
            &&& 0 <= x < par.len()
            &&& info[x].micro == m
            &&& info[x].number == j
            &&& (ps[j] == -1 ==> if par[x] == x {
                ms.root == NO_PARENT
            } else {
                ms.root == par[x] && info[par[x] as int].micro != m
            })
            &&& (ps[j] != -1 ==> par[x] != x && par[x] == nn[ps[j]])
        } by {
            let x = nn[j] as int;
            assert(info[x] == placed(info0[x], m, j));
            if ps[j] == -1 {
                assert(is_top(par, mems, x));
                assert(nn.contains(nn[j]));
                assert(mems.contains(x as u32));
                if x == w {
                    assert(mems.contains(par[w] as u32)) by {
                        let px = par[w] as int;
                        assert(info0[px].micro == m);
                        assert(ms0.nodes@[info0[px].number as int] == px);
                        assert(on.contains(px as u32)) by {
                            assert(on[info0[px].number as int] == px as u32);
                        }
                        assert(mems[info0[px].number as int] == px as u32);
                    }
                } else {
                    let jx = choose|jx: int| 0 <= jx < mems.len() && mems[jx] == x as u32;
                    assert(jx < on.len());
                    assert(on[jx] == x);
                    assert(on[jx] as int == x);
                    if ps0[jx] != -1 {
                        assert(microset_ok(on, ms0.forest, ms0.mark, ms0.root, m, info0, par, b));
                        assert(0 <= jx < forest_size(ms0.forest));
                        assert(par[x] == on[ps0[jx]]);
                        assert(mems[ps0[jx]] == on[ps0[jx]]);
                        if x != 0 {
                            assert(mems.contains(par[x] as u32));
                        }
                    }
                    if x == 0 {
                        assert(par[0] == 0);
                    } else {
                        assert(par[x] < x);
                        assert(!nn.contains(par[x] as u32)) by {
                            assert(!mems.contains(par[x] as u32));
                        }
                        assert(info[par[x] as int] == info0[par[x] as int]);
                    }
                }
            } else {
                assert(par[x] == nn[ps[j]]);
            }
        }
        assert(microset_ok(nn, forest, new_mark, ms.root, m, info, par, cap));
        // The top nodes are the old ones.
        let tl0 = tops_list(on, ps0);
        let tl = tops_list(nn, ps);
        lemma_tops_list_distinct(nn, ps);
        assert forall|i: int| 0 <= i < tl.len() implies tl0.contains(#[trigger] tl[i]) by {
            assert(tl.contains(tl[i]));
            lemma_tops_list_sound(nn, ps, tl[i]);
            let j = choose|j: int| 0 <= j < nn.len() && ps[j] == -1 && #[trigger] nn[j] == tl[i];
            let x = nn[j] as int;
            assert(is_top(par, mems, x));
            assert(mems.contains(x as u32)) by {
                assert(nn.contains(nn[j]));
            }
            if x == w {
                let px = par[w] as int;
                assert(on[info0[px].number as int] == px as u32);
                assert(mems[info0[px].number as int] == px as u32);
            } else {
                let jx = choose|jx: int| 0 <= jx < mems.len() && mems[jx] == x as u32;
                assert(on[jx] == x);
                assert(on[jx] as int == x);
                if ps0[jx] != -1 {
                    assert(mems[ps0[jx]] == on[ps0[jx]]);
                    assert(x != 0);
                    assert(mems.contains(par[x] as u32));
                }
                lemma_tops_list_complete(on, ps0, jx);
            }
        }
        lemma_distinct_within(tl, tl0);
        assert(ms.ok(m, info, par, cap, b));
    }

    /// The renumbered microset lists its nodes parents first.
    proof fn lemma_rebuilt_preorder(&self, s0: Self, w: int, m: int, on: Seq<u32>, nn: Seq<u32>, cs: Seq<nat>, forest: u32, new_mark: u32)
        requires
            self.rebuild_facts(s0, w, m, on, nn, cs, forest, new_mark),
        ensures
            forest_preorder(self.microsets@[m], s0.par@, on.push(w as u32)),
    {
        let ms = self.microsets@[m];
        let ps = forest_parents(forest);
        assert(ps == decode_counts(cs).0);
        assert forall|k: int| 0 <= k < ms.nodes@.len() implies #[trigger] forest_preorder_at(
            ms,
            s0.par@,
            on.push(w as u32),
            k,
        ) by {
            assert(ms.nodes@[k] == nn[k]);
            let x = nn[k] as int;
            if ps[k] == -1 {
                assert(is_top(s0.par@, on.push(w as u32), x));
            } else {
                assert(0 <= ps[k] < k && x != 0 && s0.par@[x] == nn[ps[k]]);
            }
        }
    }

    /// Renumbering keeps each old node's linked bit; the new node is unlinked.
    #[verifier::spinoff_prover]
    #[verifier::rlimit(50)]
    proof fn lemma_rebuilt_linked(&self, s0: Self, w: int, m: int, on: Seq<u32>, nn: Seq<u32>, cs: Seq<nat>, forest: u32, new_mark: u32)
        requires
            self.rebuild_facts(s0, w, m, on, nn, cs, forest, new_mark),
        ensures
            forall|u: int| 0 <= u < w ==> #[trigger] self.linked()[u] == s0.linked()[u],
            !self.linked()[w],
    {
        reveal(IncrementalTreeSetUnion::shape_ok);
        reveal(IncrementalTreeSetUnion::layout_ok);
        let n = self.n as int;
        let par = self.par@;
        let info0 = s0.node_info@;
        let info = self.node_info@;
        let b = self.answer_table.b as nat;
        let mems = on.push(w as u32);
        let ms0 = s0.microsets@[m];
        let ps0 = forest_parents(ms0.forest);
        let ms = self.microsets@[m];
        let ps = forest_parents(forest);
        let cap = if on.len() + 1 == b { b + 1 } else { b };
        lemma_forest_parents_ordered(ms0.forest);
        assert(ms0.ok(m, info0, par, b, b)) by {
            let x = par[w] as int;
            assert(x < w);
            assert(info0[x] == info0[x]);
        }
        assert(ps == decode_counts(cs).0);
        assert(forest_size(forest) == nn.len());
        // Linked flags.
        assert forall|u: int| 0 <= u < w implies #[trigger] self.linked()[u] == s0.linked()[u] by {
            if nn.contains(u as u32) {
                let j = choose|j: int| 0 <= j < nn.len() && nn[j] == u as u32;
                assert(info[u].number == j);
                assert(mems.contains(u as u32));
                let jx = choose|jx: int| 0 <= jx < mems.len() && mems[jx] == u as u32;
                assert(jx < on.len());
                assert(on[jx] == u as u32);
                assert(info0[u].number == jx);
                assert(info0[u].micro == m);
                assert(mark_bit(new_mark, j) == old_bit(on, ms0.mark, u as u32));
                if old_bit(on, ms0.mark, u as u32) {
                    let t = choose|t: int| 0 <= t < on.len() && on[t] == u as u32 && #[trigger] mark_bit(ms0.mark, t);
                    assert(t == jx);
                } else {
                    assert(!mark_bit(ms0.mark, jx));
                }
            } else {
                assert(info[u] == info0[u]);
                let mu = info0[u].micro as int;
                if mu == m {
                    assert(ms0.nodes@[info0[u].number as int] == u);
                    assert(on.contains(u as u32));
                    assert(mems.contains(u as u32)) by {
                        let q = choose|q: int| 0 <= q < on.len() && on[q] == u as u32;
                        assert(mems[q] == u as u32);
                    }
                }
            }
        }
        assert(!self.linked()[w]) by {
            assert(nn.contains(w as u32)) by {
                assert(mems[on.len() as int] == w as u32);
            }
            let j = choose|j: int| 0 <= j < nn.len() && nn[j] == w as u32;
            assert(info[w].number == j);
            if old_bit(on, ms0.mark, w as u32) {
                let t = choose|t: int| 0 <= t < on.len() && on[t] == w as u32 && #[trigger] mark_bit(ms0.mark, t);
                assert(on.contains(w as u32));
            }
        }
    }

    /// After renumbering every node sits in its microset.
    #[verifier::spinoff_prover]
    #[verifier::rlimit(50)]
    proof fn lemma_rebuilt_layout(&self, s0: Self, w: int, m: int, on: Seq<u32>, nn: Seq<u32>, cs: Seq<nat>, forest: u32, new_mark: u32)
        requires
            self.rebuild_facts(s0, w, m, on, nn, cs, forest, new_mark),
            self.microsets@[m].ok(m, self.node_info@, self.par@, (if on.len() + 1 == self.answer_table.b { self.answer_table.b + 1 } else { self.answer_table.b as int }) as nat, self.answer_table.b as nat),
        ensures
            self.layout_ok(if on.len() + 1 == self.answer_table.b { m } else { -1 }),
    {
        reveal(IncrementalTreeSetUnion::shape_ok);
        reveal(IncrementalTreeSetUnion::layout_ok);
        let n = self.n as int;
        let par = self.par@;
        let info0 = s0.node_info@;
        let info = self.node_info@;
        let b = self.answer_table.b as nat;
        let mems = on.push(w as u32);
        let ms0 = s0.microsets@[m];
        let ps0 = forest_parents(ms0.forest);
        let ms = self.microsets@[m];
        let ps = forest_parents(forest);
        let cap = if on.len() + 1 == b { b + 1 } else { b };
        lemma_forest_parents_ordered(ms0.forest);
        assert(ms0.ok(m, info0, par, b, b)) by {
            let x = par[w] as int;
            assert(x < w);
            assert(info0[x] == info0[x]);
        }
        assert(ps == decode_counts(cs).0);
        assert(forest_size(forest) == nn.len());
        // Every node sits in its microset.
        let big = if on.len() + 1 == b { m } else { -1 };
        assert forall|v: int| 0 <= v < n implies {
            let mv = (#[trigger] info[v]).micro as int;
            &&& 0 <= mv < self.microsets@.len()
            &&& info[v].number < self.microsets@[mv].nodes@.len()
            &&& self.microsets@[mv].nodes@[info[v].number as int] == v
            &&& self.microsets@[mv].ok(mv, info, par, if mv == big { b + 1 } else { b }, b)
        } by {
            if nn.contains(v as u32) {
                let j = choose|j: int| 0 <= j < nn.len() && nn[j] == v as u32;
                assert(info[v].number == j);
            } else {
                assert(info[v] == info0[v]);
                let mv = info0[v].micro as int;
                assert(v != w) by {
                    assert(mems[on.len() as int] == w as u32);
                    assert(nn.contains(w as u32));
                }
                if mv == m {
                    assert(on.contains(v as u32)) by {
                        assert(on[info0[v].number as int] == v as u32);
                    }
                    assert(mems.contains(v as u32)) by {
                        let q = choose|q: int| 0 <= q < on.len() && on[q] == v as u32;
                        assert(mems[q] == v as u32);
                    }
                }
                let msv = self.microsets@[mv];
                assert(msv == s0.microsets@[mv]);
                assert(msv.ok(mv, info0, par, b, b));
                // Its nodes are not among the renumbered ones.
                assert forall|jj: int| 0 <= jj < forest_size(msv.forest) implies {
                    let y = #[trigger] msv.nodes@[jj] as int;
                    &&& 0 <= y < par.len()
                    &&& info[y].micro == mv
                    &&& info[y].number == jj
                    &&& (forest_parents(msv.forest)[jj] == -1 ==> if par[y] == y {
                        msv.root == NO_PARENT
                    } else {
                        msv.root == par[y] && info[par[y] as int].micro != mv
                    })
                    &&& (forest_parents(msv.forest)[jj] != -1 ==> par[y] != y && par[y] == msv.nodes@[forest_parents(msv.forest)[jj]])
                } by {
                    let y = msv.nodes@[jj] as int;
                    assert(info0[y].micro == mv);
                    if nn.contains(y as u32) {
                        assert(mems.contains(y as u32));
                        let q = choose|q: int| 0 <= q < mems.len() && mems[q] == y as u32;
                        if q < on.len() {
                            assert(info0[on[q] as int].micro == m);
                        } else {
                            assert(y == w);
                            assert(s0.microsets@[info0[y].micro as int].nodes@[info0[y].number as int] == y);
                        }
                    }
                    assert(info[y] == info0[y]);
                    if forest_parents(msv.forest)[jj] == -1 && par[y] != y {
                        let r = par[y] as int;
                        if nn.contains(r as u32) {
                            let j = choose|j: int| 0 <= j < nn.len() && nn[j] == r as u32;
                            assert(info[r].micro == m);
                        } else {
                            assert(info[r] == info0[r]);
                        }
                    }
                }
                assert(microset_ok(msv.nodes@, msv.forest, msv.mark, msv.root, mv, info, par, b));
            }
        }
        assert(self.layout_ok(big));
    }

    /// Renumbering keeps the tree bookkeeping and the macroset.
    #[verifier::spinoff_prover]
    #[verifier::rlimit(50)]
    proof fn lemma_rebuilt_rest(&self, s0: Self, w: int, m: int, on: Seq<u32>, nn: Seq<u32>, cs: Seq<nat>, forest: u32, new_mark: u32)
        requires
            self.rebuild_facts(s0, w, m, on, nn, cs, forest, new_mark),
            forall|u: int| 0 <= u < w ==> #[trigger] self.linked()[u] == s0.linked()[u],
            !self.linked()[w],
        ensures
            self.shape_ok(),
            self.macro_ok(),
            !self.linked()[0],
    {
        reveal(IncrementalTreeSetUnion::shape_ok);
        reveal(IncrementalTreeSetUnion::layout_ok);
        let n = self.n as int;
        let par = self.par@;
        let info0 = s0.node_info@;
        let info = self.node_info@;
        let b = self.answer_table.b as nat;
        let mems = on.push(w as u32);
        let ms0 = s0.microsets@[m];
        let ps0 = forest_parents(ms0.forest);
        let ms = self.microsets@[m];
        let ps = forest_parents(forest);
        let cap = if on.len() + 1 == b { b + 1 } else { b };
        lemma_forest_parents_ordered(ms0.forest);
        assert(ms0.ok(m, info0, par, b, b)) by {
            let x = par[w] as int;
            assert(x < w);
            assert(info0[x] == info0[x]);
        }
        assert(ps == decode_counts(cs).0);
        assert(forest_size(forest) == nn.len());
        // The tree bookkeeping is unchanged.
        assert forall|v: int| 0 <= v < n implies #[trigger] info[v].level <= v by {
            if nn.contains(v as u32) {
                let j = choose|j: int| 0 <= j < nn.len() && nn[j] == v as u32;
            } else {
                assert(info[v] == info0[v]);
            }
            assert(info[v].level == info0[v].level);
        }
        assert(levels_of(info, n as nat) =~= levels_of(info0, n as nat)) by {
            assert forall|v: int| 0 <= v < n implies info[v].level == info0[v].level by {
                if nn.contains(v as u32) {
                    let j = choose|j: int| 0 <= j < nn.len() && nn[j] == v as u32;
                } else {
                    assert(info[v] == info0[v]);
                }
            }
        }
        assert(parents_recorded(info, par)) by {
            assert forall|v: int| 0 <= v < par.len() implies #[trigger] info[v].parent == (if v == 0 {
                NO_PARENT
            } else {
                par[v] as u32
            }) by {
                if nn.contains(v as u32) {
                    let j = choose|j: int| 0 <= j < nn.len() && nn[j] == v as u32;
                } else {
                    assert(info[v] == info0[v]);
                }
            }
        }
        assert(self.shape_ok());
        // The macroset.
        let lk = self.linked();
        let lk0 = s0.linked();
        let lv = levels_of(info, n as nat);
        assert(!lk[0]);
        assert forall|u: int| #[trigger] self.macroset.members().contains(u) implies {
            let t = self.macroset.top_of(u);
            &&& 0 <= u < n
            &&& 0 <= t < n
            &&& self.macroset.level_of(u) == lv[u]
            &&& lv[t] <= lv[u]
            &&& linked_path(par, lk, u, t, (lv[u] - lv[t]) as nat)
        } by {
            let t = self.macroset.top_of(u);
            assert(0 <= u < w);
            assert forall|i: int| 0 <= i <= u implies #[trigger] lk[i] == lk0[i] by {
            }
            lemma_path_below(par, par, lk0, lk, u, t, (lv[u] - lv[t]) as nat);
        }
        assert forall|x: int|
            0 <= x < n && #[trigger] self.microsets@[info[x].micro as int].root != NO_PARENT implies self.macroset.members().contains(
            self.microsets@[info[x].micro as int].root as int,
        ) by {
            if nn.contains(x as u32) {
                let j = choose|j: int| 0 <= j < nn.len() && nn[j] == x as u32;
                assert(info[x].micro == m);
                let y = par[w] as int;
                assert(info0[y].micro == m);
                assert(y < w);
                assert(s0.microsets@[info0[y].micro as int].root != NO_PARENT);
            } else {
                assert(info[x] == info0[x]);
                if x == w {
                    assert(mems[on.len() as int] == w as u32);
                }
                assert(s0.microsets@[info0[x].micro as int].root != NO_PARENT);
            }
        }
        assert(self.macro_ok());
    }

    /// After the renumbering the microset holds its old nodes and the new
    /// one, laid out in preorder.
    proof fn lemma_rebuilt(&self, s0: Self, w: int, m: int, on: Seq<u32>, nn: Seq<u32>, cs: Seq<nat>, forest: u32, new_mark: u32)
        requires
            self.rebuild_facts(s0, w, m, on, nn, cs, forest, new_mark),
        ensures
            on.len() + 1 < self.answer_table.b ==> self.wf(),
            on.len() + 1 == self.answer_table.b ==> self.big_ok(m),
            forall|u: int| 0 <= u < w ==> #[trigger] self.linked()[u] == s0.linked()[u],
            !self.linked()[w],
    {
        self.lemma_rebuilt_ms(s0, w, m, on, nn, cs, forest, new_mark);
        self.lemma_rebuilt_linked(s0, w, m, on, nn, cs, forest, new_mark);
        self.lemma_rebuilt_layout(s0, w, m, on, nn, cs, forest, new_mark);
        self.lemma_rebuilt_rest(s0, w, m, on, nn, cs, forest, new_mark);
        assert(s0.pending_ok(w, m));
        assert(0 <= m < self.microsets@.len());
        assert(self.microsets@.len() + 17 <= 9 * self.n);
        assert(self.node_info@[w].micro == m) by {
            reveal(IncrementalTreeSetUnion::shape_ok);
            let mems = on.push(w as u32);
            assert(mems[on.len() as int] == w as u32);
            assert(nn.contains(w as u32));
            let j = choose|j: int| 0 <= j < nn.len() && nn[j] == w as u32;
            assert(self.node_info@[nn[j] as int] == placed(s0.node_info@[nn[j] as int], m, j));
        }
        if on.len() + 1 < self.answer_table.b {
            assert(self.wf());
        }
    }

    /// Make microset number `ms_id` of the old microset's nodes at positions
    /// `indices`, hanging from `ext_root`: number the nodes in preorder,
    /// carry over their linked bits, and record each node's microset and
    /// position. Returns the microset and its child counts.
    fn build_ms(
        &mut self,
        indices: &Vec<usize>,
        ext_root: u32,
        ms_id: usize,
        old_nodes: &Vec<u32>,
        old_mark: u32,
    ) -> (r: (IncrMicroset, Vec<u32>))
        requires
            earlier_parents(old(self).par@),
            old(self).par@.len() < NO_PARENT,
            parents_recorded(old(self).node_info@, old(self).par@),
            children_ok(lists_view(old(self).tree_children@), old(self).par@),
            old(self).node_info@.len() < NO_PARENT,
            1 <= indices.len() <= 16,
            indices@.no_duplicates(),
            forall|i: int| 0 <= i < indices.len() ==> #[trigger] indices@[i] < old_nodes.len(),
            old_nodes.len() <= 16,
            old_nodes@.no_duplicates(),
            forall|i: int| 0 <= i < old_nodes.len() ==> #[trigger] old_nodes@[i] < old(self).par@.len(),
        ensures
            final(self).microsets == old(self).microsets,
            final(self).micro_child_counts == old(self).micro_child_counts,
            final(self).n == old(self).n,
            final(self).capacity == old(self).capacity,
            final(self).par == old(self).par,
            final(self).tree_children == old(self).tree_children,
            final(self).answer_table == old(self).answer_table,
            final(self).macroset == old(self).macroset,
            final(self).in_macroset == old(self).in_macroset,
            final(self).node_info@.len() == old(self).node_info@.len(),
            built_ok(r.0, member_nodes(old_nodes@, indices@), old(self).par@, old_nodes@, old_mark),
            r.0.root == ext_root,
            forall|j: int|
                0 <= j < r.0.nodes@.len() ==> #[trigger] final(self).node_info@[r.0.nodes@[j] as int] == placed(
                    old(self).node_info@[r.0.nodes@[j] as int],
                    ms_id as int,
                    j,
                ),
            forall|u: int|
                0 <= u < old(self).node_info@.len() && !r.0.nodes@.contains(u as u32) ==> #[trigger] final(self).node_info@[u]
                    == old(self).node_info@[u],
    {
        let ghost info0 = self.node_info@;
        let ghost mems = member_nodes(old_nodes@, indices@);
        let mut members: Vec<u32> = Vec::new();
        let mut i: usize = 0;
        while i < indices.len()
            invariant
                i <= indices.len(),
                mems == member_nodes(old_nodes@, indices@),
                forall|j: int| 0 <= j < indices.len() ==> #[trigger] indices@[j] < old_nodes.len(),
                members@ =~= mems.take(i as int),
            decreases indices.len() - i,
        {
            members.push(old_nodes[indices[i]]);
            i += 1;
        }
        proof {
            assert(members@ =~= mems);
            assert(mems.no_duplicates()) by {
                assert forall|a: int, c: int| 0 <= a < c < mems.len() implies mems[a] != mems[c] by {
                    assert(indices@[a] != indices@[c]);
                }
            }
            assert forall|j: int| 0 <= j < members.len() implies #[trigger] members@[j] < self.par@.len() by {
                assert(old_nodes@[indices@[j] as int] < self.par@.len());
            }
        }
        let (nodes, cc, mark) = member_preorder(
            &members,
            old_nodes,
            old_mark,
            &self.node_info,
            &self.tree_children,
            Ghost(self.par@),
        );
        let ghost nn = nodes@;
        let ghost cs = as_nats(cc@);
        let mut idx: usize = 0;
        while idx < nodes.len()
            invariant
                idx <= nodes.len(),
                nn == nodes@,
                nn.no_duplicates(),
                nn.len() <= 16,
                forall|x: int| 0 <= x < nn.len() ==> #[trigger] nn[x] < self.node_info@.len(),
                self.node_info@.len() == info0.len(),
                forall|x: int| 0 <= x < idx ==> #[trigger] self.node_info@[nn[x] as int] == placed(info0[nn[x] as int], ms_id as int, x),
                forall|u: int| 0 <= u < info0.len() && !nn.subrange(0, idx as int).contains(u as u32) ==> #[trigger] self.node_info@[u] == info0[u],
                self.microsets == old(self).microsets,
                self.micro_child_counts == old(self).micro_child_counts,
                self.n == old(self).n,
                self.capacity == old(self).capacity,
                self.par == old(self).par,
                self.tree_children == old(self).tree_children,
                self.answer_table == old(self).answer_table,
                self.macroset == old(self).macroset,
                self.in_macroset == old(self).in_macroset,
            decreases nodes.len() - idx,
        {
            let nid = nodes[idx];
            let mut ni = self.node_info[nid as usize];
            ni.micro = ms_id;
            ni.number = idx as u16;
            self.node_info.set(nid as usize, ni);
            proof {
                assert(nn.subrange(0, idx + 1)[idx as int] == nid);
                assert forall|u: int| 0 <= u < info0.len() && !nn.subrange(0, idx + 1).contains(u as u32) implies #[trigger] self.node_info@[u] == info0[u] by {
                    assert(u != nid);
                    if nn.subrange(0, idx as int).contains(u as u32) {
                        let q = choose|q: int| 0 <= q < idx && nn.subrange(0, idx as int)[q] == u as u32;
                        assert(nn.subrange(0, idx + 1)[q] == u as u32);
                    }
                }
                assert forall|x: int| 0 <= x < idx + 1 implies #[trigger] self.node_info@[nn[x] as int] == placed(info0[nn[x] as int], ms_id as int, x) by {
                    if x < idx {
                        assert(nn[x] != nid);
                    }
                }
            }
            idx += 1;
        }
        proof {
            assert(nn.subrange(0, idx as int) =~= nn);
            lemma_encode_bound(cs);
            assert(as_nats(cc@).take(nn.len() as int) =~= cs);
        }
        let forest = encode_forest(cc.as_slice(), nodes.len());
        proof {
            lemma_encode_roundtrip(cs);
            assert(forest != 0) by {
                if forest == 0 {
                    assert(forest_counts(0) =~= Seq::<nat>::empty());
                }
            }
            if cs.len() + count_sum(cs) < 2 * cs.len() - 1 {
                vstd::arithmetic::power2::lemma_pow2_strictly_increases(cs.len() + count_sum(cs), (2 * cs.len() - 1) as nat);
            }
            assert forall|x: u32| #[trigger] nn.contains(x) <==> mems.contains(x) by {
                assert(nn.contains(x) <==> members@.contains(x));
            }
        }
        let ms = IncrMicroset { nodes, mark, forest, root: ext_root };
        (ms, cc)
    }

    /// The node records during a split: each node of the old microset is
    /// recorded in the last list built so far that holds its position, at its
    /// place there, or still as before; other nodes are untouched.
    spec fn split_info_ok(&self, s0: Self, on: Seq<u32>, ls: Seq<(Vec<usize>, u32)>, base: int, k: int) -> bool {
        let info = self.node_info@;
        let info0 = s0.node_info@;
        &&& info.len() == info0.len()
        &&& forall|x: int|
            0 <= x < on.len() ==> {
                let u = (#[trigger] on[x]) as int;
                let o = owner(ls, x, k);
                &&& (o >= 0 ==> {
                    &&& info[u] == placed(info0[u], base + o, info[u].number as int)
                    &&& info[u].number < self.microsets@[base + o].nodes@.len()
                    &&& self.microsets@[base + o].nodes@[info[u].number as int] == u
                })
                &&& (o < 0 ==> info[u] == info0[u])
            }
        &&& forall|u: int| 0 <= u < info0.len() && !on.contains(u as u32) ==> #[trigger] info[u] == info0[u]
    }

    /// The macroset during a split: the old members keep their tops and
    /// levels; the nodes the first `k` lists hang from have joined as
    /// singletons.
    spec fn split_macro_ok(&self, s0: Self, ls: Seq<(Vec<usize>, u32)>, k: int) -> bool {
        let ms = self.macroset;
        let ms0 = s0.macroset;
        &&& ms.wf()
        &&& ms.len() == self.capacity
        &&& self.in_macroset@.len() == self.capacity
        &&& forall|u: int| #[trigger]
            ms0.members().contains(u) ==> ms.members().contains(u) && ms.top_of(u) == ms0.top_of(u)
                && ms.level_of(u) == ms0.level_of(u)
        &&& forall|u: int|
            #[trigger] ms.members().contains(u) && !ms0.members().contains(u) ==> 0 <= u < s0.n
                && ms.top_of(u) == u && ms.level_of(u) == s0.node_info@[u].level
        &&& forall|j: int| 0 <= j < k ==> ms.members().contains((#[trigger] ls[j]).1 as int)
        &&& forall|u: int| 0 <= u < self.capacity ==> #[trigger] self.in_macroset@[u] == ms.members().contains(u)
        &&& forall|u: int| 0 <= u < self.capacity && !ms.members().contains(u) ==> #[trigger] ms.fresh(u)
    }

    /// What the state before a split gives about the microset to split.
    proof fn lemma_big_facts(&self, m: int)
        requires
            self.big_ok(m),
        ensures
            ({
                let ms = self.microsets@[m];
                let on = ms.nodes@;
                let ps0 = forest_parents(ms.forest);
                let b = self.answer_table.b;
                let info = self.node_info@;
                let par = self.par@;
                &&& on.len() == b
                &&& 2 <= b <= 10
                &&& on.no_duplicates()
                &&& microset_ok(on, ms.forest, ms.mark, ms.root, m, info, par, (b + 1) as nat)
                &&& tops_list(on, ps0).len() <= top_bound(b as nat)
                &&& parents_ordered(ps0)
                &&& ps0.len() == on.len()
                &&& forall|i: int| 0 <= i < on.len() ==> #[trigger] on[i] < par.len()
                &&& forall|i: int|
                    0 <= i < on.len() ==> {
                        let pr = info[(#[trigger] on[i]) as int].parent;
                        &&& (ps0[i] != -1 ==> pr == on[ps0[i]])
                        &&& (ps0[i] == -1 ==> pr == NO_PARENT || !on.contains(pr))
                    }
                &&& info.len() < NO_PARENT
                &&& sum_f(top_terms(ps0), b as int) <= top_bound(b as nat)
                &&& earlier_parents(par)
                &&& par.len() < NO_PARENT
                &&& parents_recorded(info, par)
                &&& children_ok(lists_view(self.tree_children@), par)
                &&& par.len() == self.n
                &&& self.n <= self.capacity <= MAX_CAPACITY
                &&& 9 * self.capacity <= usize::MAX
                &&& info.len() == self.capacity
                &&& self.in_macroset@.len() == self.capacity
                &&& self.micro_child_counts@.len() == self.microsets@.len()
            }),
    {
        reveal(IncrementalTreeSetUnion::shape_ok);
        reveal(IncrementalTreeSetUnion::layout_ok);
        let ms = self.microsets@[m];
        let on = ms.nodes@;
        let ps0 = forest_parents(ms.forest);
        let b = self.answer_table.b;
        let info = self.node_info@;
        let par = self.par@;
        let u0 = on[0] as int;
        assert(on.len() >= 1);
        assert(microset_ok(on, ms.forest, ms.mark, ms.root, m, info, par, (b + 1) as nat)) by {
            let v = self.n - 1;
            assert(info[v] == info[v]);
        }
        assert(on.no_duplicates()) by {
            assert forall|a: int, c: int| 0 <= a < c < on.len() implies on[a] != on[c] by {
                assert(info[on[a] as int].number == a);
                assert(info[on[c] as int].number == c);
            }
        }
        lemma_forest_parents_ordered(ms.forest);
        assert forall|i: int| 0 <= i < on.len() implies {
            let pr = info[(#[trigger] on[i]) as int].parent;
            &&& (ps0[i] != -1 ==> pr == on[ps0[i]])
            &&& (ps0[i] == -1 ==> pr == NO_PARENT || !on.contains(pr))
        } by {
            let w = on[i] as int;
            if ps0[i] == -1 && w != 0 {
                let r = par[w] as int;
                assert(info[w].parent == r as u32);
                if on.contains(r as u32) {
                    let j = choose|j: int| 0 <= j < on.len() && on[j] == r as u32;
                    assert(info[on[j] as int].micro == m);
                }
            }
        }
        lemma_tops_count(on, ps0);
    }

    /// A split opens at most b - 1 microsets: their lists start at distinct
    /// children.
    proof fn lemma_split_counts(
        &self,
        s0: Self,
        m: int,
        on: Seq<u32>,
        ps0: Seq<int>,
        ls: Seq<(Vec<usize>, u32)>,
        gv: Seq<int>,
        glo: Seq<int>,
        ghi: Seq<int>,
        carved: Seq<bool>,
        remaining: Seq<usize>,
    )
        requires
            s0.big_ok(m),
            *self == s0,
            on.len() == s0.answer_table.b,
            2 <= on.len() <= 13,
            parents_ordered(ps0),
            ps0.len() == on.len(),
            lists_ok(ps0, on.len() as int, on, top_bound(s0.answer_table.b as nat) as int, ls, gv, glo, ghi, 0),
        ensures
            s0.microsets@.len() + ls.len() + 8 <= 9 * s0.n,
            s0.microsets@.len() + ls.len() <= usize::MAX,
    {
        s0.lemma_big_facts(m);
        let bb = on.len() as int;
        let fc = Seq::new(ls.len(), |k: int| kids(ps0, gv[k], bb)[glo[k]]);
        let spots = Seq::new((bb - 1) as nat, |i: int| (i + 1) as usize);
        assert forall|k: int| 0 <= k < fc.len() implies spots.contains(#[trigger] fc[k]) by {
            assert(carved_list(ps0, bb, ls[k].0@, gv[k], glo[k], ghi[k]));
            lemma_kids(ps0, gv[k], bb);
            let c = fc[k];
            assert(ps0[c as int] == gv[k]);
            assert(0 <= gv[k] < c);
            assert(spots[c - 1] == c);
        }
        assert(fc.no_duplicates()) by {
            assert forall|k1: int, k2: int| 0 <= k1 < k2 < fc.len() implies fc[k1] != fc[k2] by {
                assert(carved_list(ps0, bb, ls[k1].0@, gv[k1], glo[k1], ghi[k1]));
                assert(carved_list(ps0, bb, ls[k2].0@, gv[k2], glo[k2], ghi[k2]));
                lemma_kids(ps0, gv[k1], bb);
                lemma_kids(ps0, gv[k2], bb);
                assert(gv[k1] > gv[k2] || (gv[k1] == gv[k2] && ghi[k1] <= glo[k2]));
                if gv[k1] == gv[k2] {
                    assert(kids(ps0, gv[k1], bb)[glo[k1]] < kids(ps0, gv[k1], bb)[glo[k2]]);
                } else {
                    assert(ps0[fc[k1] as int] == gv[k1]);
                    assert(ps0[fc[k2] as int] == gv[k2]);
                }
            }
        }
        lemma_distinct_within(fc, spots);
        assert(s0.microsets@.len() + 17 <= 9 * s0.n);
    }

    /// The facts fixed for the whole of a split of microset `m` of `s0`: its
    /// node list `on` and decoded parents `ps0`, and the carved lists.
    spec fn split_ctx(
        s0: Self,
        m: int,
        on: Seq<u32>,
        ps0: Seq<int>,
        ls: Seq<(Vec<usize>, u32)>,
        gv: Seq<int>,
        glo: Seq<int>,
        ghi: Seq<int>,
    ) -> bool {
        &&& s0.big_ok(m)
        &&& on == s0.microsets@[m].nodes@
        &&& ps0 == forest_parents(s0.microsets@[m].forest)
        &&& lists_ok(ps0, on.len() as int, on, top_bound(s0.answer_table.b as nat) as int, ls, gv, glo, ghi, 0)
        &&& ls.len() >= 1
        &&& s0.microsets@.len() + ls.len() + 8 <= 9 * s0.n
        &&& s0.microsets@.len() + ls.len() <= usize::MAX
    }

    /// What `build_ms` needs of the tree while the records change.
    spec fn tree_unchanged(&self, s0: Self, on: Seq<u32>, ls: Seq<(Vec<usize>, u32)>, base: int, k: int) -> bool {
        &&& self.split_info_ok(s0, on, ls, base, k)
        &&& self.n == s0.n
        &&& self.capacity == s0.capacity
        &&& self.par == s0.par
        &&& self.tree_children == s0.tree_children
        &&& self.answer_table == s0.answer_table
    }

    /// The records keep their parents, so the tree facts carry over.
    proof fn lemma_records_parents(&self, s0: Self, m: int, on: Seq<u32>, ls: Seq<(Vec<usize>, u32)>, base: int, k: int)
        requires
            s0.big_ok(m),
            on == s0.microsets@[m].nodes@,
            self.tree_unchanged(s0, on, ls, base, k),
        ensures
            parents_recorded(self.node_info@, self.par@),
            forall|u: int| 0 <= u < self.node_info@.len() ==> #[trigger] self.node_info@[u].parent == s0.node_info@[u].parent
                && self.node_info@[u].level == s0.node_info@[u].level,
    {
        s0.lemma_big_facts(m);
        let info = self.node_info@;
        let info0 = s0.node_info@;
        assert forall|u: int| 0 <= u < info.len() implies #[trigger] info[u].parent == info0[u].parent
            && info[u].level == info0[u].level by {
            if on.contains(u as u32) {
                let x = choose|x: int| 0 <= x < on.len() && on[x] == u as u32;
                assert(on[x] as int == u);
            }
        }
    }

    /// Before building list `k`: what `build_ms` and `make_set` need.
    proof fn lemma_build_pre(
        &self,
        s0: Self,
        m: int,
        on: Seq<u32>,
        ps0: Seq<int>,
        ls: Seq<(Vec<usize>, u32)>,
        gv: Seq<int>,
        glo: Seq<int>,
        ghi: Seq<int>,
        base: int,
        k: int,
    )
        requires
            Self::split_ctx(s0, m, on, ps0, ls, gv, glo, ghi),
            0 <= k < ls.len(),
            base == s0.microsets@.len(),
            self.microsets@.len() == base + k,
            self.tree_unchanged(s0, on, ls, base, k),
            self.split_macro_ok(s0, ls, k),
        ensures
            earlier_parents(self.par@),
            self.par@.len() < NO_PARENT,
            parents_recorded(self.node_info@, self.par@),
            children_ok(lists_view(self.tree_children@), self.par@),
            self.node_info@.len() < NO_PARENT,
            1 <= ls[k].0@.len() <= 16,
            ls[k].0@.no_duplicates(),
            forall|i: int| 0 <= i < ls[k].0@.len() ==> #[trigger] ls[k].0@[i] < on.len(),
            on.len() <= 16,
            on.no_duplicates(),
            forall|i: int| 0 <= i < on.len() ==> #[trigger] on[i] < self.par@.len(),
            ls[k].1 < self.in_macroset@.len(),
            ls[k].1 < self.node_info@.len(),
            ls[k].1 < self.macroset.len(),
            ls[k].1 == on[gv[k]],
            self.macroset.wf(),
            !self.in_macroset@[ls[k].1 as int] ==> self.macroset.fresh(ls[k].1 as int),
    {
        s0.lemma_big_facts(m);
        self.lemma_records_parents(s0, m, on, ls, base, k);
        let bb = on.len() as int;
        assert(carved_list(ps0, bb, ls[k].0@, gv[k], glo[k], ghi[k]));
        lemma_positions_bound(ls[k].0@, bb);
        assert(on[gv[k]] < self.par@.len());
    }

    /// After building list `k` as microset `base + k`: its nodes are
    /// recorded there.
    #[verifier::spinoff_prover]
    #[verifier::rlimit(40)]
    proof fn lemma_build_step(
        &self,
        s0: Self,
        s1: Self,
        m: int,
        on: Seq<u32>,
        ps0: Seq<int>,
        ls: Seq<(Vec<usize>, u32)>,
        gv: Seq<int>,
        glo: Seq<int>,
        ghi: Seq<int>,
        old_mark: u32,
        base: int,
        k: int,
    )
        requires
            Self::split_ctx(s0, m, on, ps0, ls, gv, glo, ghi),
            0 <= k < ls.len(),
            base == s0.microsets@.len(),
            s1.microsets@.len() == base + k,
            s1.tree_unchanged(s0, on, ls, base, k),
            forall|j: int| 0 <= j < base ==> #[trigger] s1.microsets@[j] == s0.microsets@[j],
            forall|j: int|
                0 <= j < k ==> built_ok(#[trigger] s1.microsets@[base + j], member_nodes(on, ls[j].0@), s0.par@, on, old_mark)
                    && s1.microsets@[base + j].root == ls[j].1,
            self.microsets@.len() == base + k + 1,
            forall|j: int| 0 <= j < base + k ==> #[trigger] self.microsets@[j] == s1.microsets@[j],
            built_ok(self.microsets@[base + k], member_nodes(on, ls[k].0@), s0.par@, on, old_mark),
            self.microsets@[base + k].root == ls[k].1,
            self.node_info@.len() == s1.node_info@.len(),
            forall|j: int|
                0 <= j < self.microsets@[base + k].nodes@.len() ==> #[trigger] self.node_info@[self.microsets@[base + k].nodes@[j] as int]
                    == placed(s1.node_info@[self.microsets@[base + k].nodes@[j] as int], base + k, j),
            forall|u: int|
                0 <= u < s1.node_info@.len() && !self.microsets@[base + k].nodes@.contains(u as u32) ==> #[trigger] self.node_info@[u]
                    == s1.node_info@[u],
            self.n == s1.n,
            self.capacity == s1.capacity,
            self.par == s1.par,
            self.tree_children == s1.tree_children,
            self.answer_table == s1.answer_table,
        ensures
            self.tree_unchanged(s0, on, ls, base, k + 1),
            forall|j: int| 0 <= j < base ==> #[trigger] self.microsets@[j] == s0.microsets@[j],
            forall|j: int|
                0 <= j < k + 1 ==> built_ok(#[trigger] self.microsets@[base + j], member_nodes(on, ls[j].0@), s0.par@, on, old_mark)
                    && self.microsets@[base + j].root == ls[j].1,
    {
        s0.lemma_big_facts(m);
        let info = self.node_info@;
        let info1 = s1.node_info@;
        let info0 = s0.node_info@;
        let nodes = self.microsets@[base + k].nodes@;
        let mem = member_nodes(on, ls[k].0@);
        assert forall|j: int| 0 <= j < k + 1 implies built_ok(#[trigger] self.microsets@[base + j], member_nodes(on, ls[j].0@), s0.par@, on, old_mark)
            && self.microsets@[base + j].root == ls[j].1 by {
            if j < k {
                assert(self.microsets@[base + j] == s1.microsets@[base + j]);
            }
        }
        assert forall|x: int| 0 <= x < on.len() implies {
            let u = (#[trigger] on[x]) as int;
            let o = owner(ls, x, k + 1);
            &&& (o >= 0 ==> {
                &&& info[u] == placed(info0[u], base + o, info[u].number as int)
                &&& info[u].number < self.microsets@[base + o].nodes@.len()
                &&& self.microsets@[base + o].nodes@[info[u].number as int] == u
            })
            &&& (o < 0 ==> info[u] == info0[u])
        } by {
            let u = on[x] as int;
            lemma_owner(ls, x, k);
            if ls[k].0@.contains(x as usize) {
                assert(owner(ls, x, k + 1) == k);
                let i = choose|i: int| 0 <= i < ls[k].0@.len() && ls[k].0@[i] == x as usize;
                assert(mem[i] == on[x]);
                assert(mem.contains(on[x]));
                assert(nodes.contains(on[x]));
                let j = choose|j: int| 0 <= j < nodes.len() && nodes[j] == on[x];
                assert(info[u] == placed(info1[u], base + k, j));
                let o1 = owner(ls, x, k);
                if o1 >= 0 {
                    assert(info1[u] == placed(info0[u], base + o1, info1[u].number as int));
                }
            } else {
                assert(owner(ls, x, k + 1) == owner(ls, x, k));
                assert(!nodes.contains(on[x])) by {
                    if nodes.contains(on[x]) {
                        assert(mem.contains(on[x]));
                        let i = choose|i: int| 0 <= i < mem.len() && mem[i] == on[x];
                        assert(on[ls[k].0@[i] as int] == on[x]);
                        assert(ls[k].0@[i] < on.len());
                        assert(ls[k].0@[i] == x as usize);
                    }
                }
                assert(info[u] == info1[u]);
                let o1 = owner(ls, x, k);
                if o1 >= 0 {
                    assert(self.microsets@[base + o1] == s1.microsets@[base + o1]);
                }
            }
        }
        assert forall|u: int| 0 <= u < info0.len() && !on.contains(u as u32) implies #[trigger] info[u] == info0[u] by {
            assert(!nodes.contains(u as u32)) by {
                if nodes.contains(u as u32) {
                    assert(mem.contains(u as u32));
                    let i = choose|i: int| 0 <= i < mem.len() && mem[i] == u as u32;
                    assert(on.contains(on[ls[k].0@[i] as int]));
                }
            }
        }
        assert(self.split_info_ok(s0, on, ls, base, k + 1));
    }

    /// Before renumbering what remains: it is no empty list (position 0 is a
    /// top and never carved), without repetitions, within the old list.
    proof fn lemma_remaining_pre(
        &self,
        s0: Self,
        m: int,
        on: Seq<u32>,
        ps0: Seq<int>,
        ls: Seq<(Vec<usize>, u32)>,
        gv: Seq<int>,
        glo: Seq<int>,
        ghi: Seq<int>,
        carved: Seq<bool>,
        remaining: Seq<usize>,
        base: int,
    )
        requires
            Self::split_ctx(s0, m, on, ps0, ls, gv, glo, ghi),
            carved.len() == on.len(),
            forall|x: int|
                0 <= x < on.len() ==> (#[trigger] carved[x] <==> exists|k: int|
                    0 <= k < ls.len() && #[trigger] ls[k].0@.contains(x as usize)),
            remaining.no_duplicates(),
            forall|j: int| 0 <= j < remaining.len() ==> #[trigger] remaining[j] < on.len(),
            forall|x: int| 0 <= x < on.len() ==> (#[trigger] remaining.contains(x as usize) <==> !carved[x]),
            self.tree_unchanged(s0, on, ls, base, ls.len() as int),
        ensures
            earlier_parents(self.par@),
            self.par@.len() < NO_PARENT,
            parents_recorded(self.node_info@, self.par@),
            children_ok(lists_view(self.tree_children@), self.par@),
            self.node_info@.len() < NO_PARENT,
            1 <= remaining.len() <= 16,
            on.len() <= 16,
            on.no_duplicates(),
            forall|i: int| 0 <= i < on.len() ==> #[trigger] on[i] < self.par@.len(),
            !carved[0],
    {
        s0.lemma_big_facts(m);
        self.lemma_records_parents(s0, m, on, ls, base, ls.len() as int);
        let bb = on.len() as int;
        lemma_positions_bound(remaining, bb);
        assert(!carved[0]) by {
            if carved[0] {
                let k = choose|k: int| 0 <= k < ls.len() && #[trigger] ls[k].0@.contains(0usize);
                assert(carved_list(ps0, bb, ls[k].0@, gv[k], glo[k], ghi[k]));
                let i = choose|i: int| 0 <= i < ls[k].0@.len() && ls[k].0@[i] == 0usize;
                assert(ls[k].0@[i] > gv[k]);
            }
        }
        assert(remaining.contains(0int as usize));
    }

    /// The state at the end of a split of microset `m` of `s0`: `s4` after
    /// building the carved lists, then what remains renumbered as microset
    /// `m`.
    spec fn split_final(
        &self,
        s0: Self,
        s4: Self,
        m: int,
        on: Seq<u32>,
        ps0: Seq<int>,
        ls: Seq<(Vec<usize>, u32)>,
        gv: Seq<int>,
        glo: Seq<int>,
        ghi: Seq<int>,
        old_mark: u32,
        carved: Seq<bool>,
        remaining: Seq<usize>,
        base: int,
    ) -> bool {
        let l = ls.len() as int;
        let ms = self.microsets@[m];
        &&& Self::split_ctx(s0, m, on, ps0, ls, gv, glo, ghi)
        &&& old_mark == s0.microsets@[m].mark
        &&& carved.len() == on.len()
        &&& forall|x: int|
            0 <= x < on.len() ==> (#[trigger] carved[x] <==> exists|k: int|
                0 <= k < ls.len() && #[trigger] ls[k].0@.contains(x as usize))
        &&& remaining.no_duplicates()
        &&& forall|j: int| 0 <= j < remaining.len() ==> #[trigger] remaining[j] < on.len()
        &&& forall|x: int| 0 <= x < on.len() ==> (#[trigger] remaining.contains(x as usize) <==> !carved[x])
        &&& base == s0.microsets@.len()
        &&& s4.microsets@.len() == base + l
        &&& forall|j: int| 0 <= j < base ==> #[trigger] s4.microsets@[j] == s0.microsets@[j]
        &&& forall|j: int|
            0 <= j < l ==> built_ok(#[trigger] s4.microsets@[base + j], member_nodes(on, ls[j].0@), s0.par@, on, old_mark)
                && s4.microsets@[base + j].root == ls[j].1
        &&& s4.tree_unchanged(s0, on, ls, base, l)
        &&& s4.split_macro_ok(s0, ls, l)
        &&& self.microsets@ == s4.microsets@.update(m, ms)
        &&& built_ok(ms, member_nodes(on, remaining), s0.par@, on, old_mark)
        &&& ms.root == s0.microsets@[m].root
        &&& self.node_info@.len() == s4.node_info@.len()
        &&& forall|j: int|
            0 <= j < ms.nodes@.len() ==> #[trigger] self.node_info@[ms.nodes@[j] as int] == placed(
                s4.node_info@[ms.nodes@[j] as int],
                m,
                j,
            )
        &&& forall|u: int|
            0 <= u < s4.node_info@.len() && !ms.nodes@.contains(u as u32) ==> #[trigger] self.node_info@[u]
                == s4.node_info@[u]
        &&& self.micro_child_counts@.len() == self.microsets@.len()
        &&& self.macroset == s4.macroset
        &&& self.in_macroset == s4.in_macroset
        &&& self.n == s0.n
        &&& self.capacity == s0.capacity
        &&& self.par == s0.par
        &&& self.tree_children == s0.tree_children
        &&& self.answer_table == s0.answer_table
    }

    /// Where each node of the old microset ends up: in the list owning its
    /// position, or in what remains.
    proof fn lemma_split_place(
        &self,
        s0: Self,
        s4: Self,
        m: int,
        on: Seq<u32>,
        ps0: Seq<int>,
        ls: Seq<(Vec<usize>, u32)>,
        gv: Seq<int>,
        glo: Seq<int>,
        ghi: Seq<int>,
        old_mark: u32,
        carved: Seq<bool>,
        remaining: Seq<usize>,
        base: int,
        x: int,
    )
        requires
            self.split_final(s0, s4, m, on, ps0, ls, gv, glo, ghi, old_mark, carved, remaining, base),
            0 <= x < on.len(),
        ensures
            ({
                let u = on[x] as int;
                let o = owner(ls, x, ls.len() as int);
                let info = self.node_info@;
                let mu = if carved[x] { base + o } else { m };
                &&& carved[x] <==> o >= 0
                &&& info[u] == placed(s0.node_info@[u], mu, info[u].number as int)
                &&& info[u].number < self.microsets@[mu].nodes@.len()
                &&& self.microsets@[mu].nodes@[info[u].number as int] == u
                &&& mu != m ==> base <= mu < base + ls.len()
            }),
    {
        s0.lemma_big_facts(m);
        let l = ls.len() as int;
        let u = on[x] as int;
        let o = owner(ls, x, l);
        lemma_owner(ls, x, l);
        let ms = self.microsets@[m];
        let mem = member_nodes(on, remaining);
        assert(carved[x] <==> o >= 0) by {
            if carved[x] {
                let k = choose|k: int| 0 <= k < ls.len() && #[trigger] ls[k].0@.contains(x as usize);
                assert(o >= k);
            }
        }
        if carved[x] {
            assert(!remaining.contains(x as usize));
            assert(!ms.nodes@.contains(u as u32)) by {
                if ms.nodes@.contains(u as u32) {
                    assert(mem.contains(u as u32));
                    let i = choose|i: int| 0 <= i < mem.len() && mem[i] == u as u32;
                    assert(on[remaining[i] as int] == on[x]);
                    assert(remaining[i] == x as usize);
                    assert(remaining.contains(remaining[i]));
                }
            }
            assert(base > m);
            assert(self.microsets@[base + o] == s4.microsets@[base + o]);
        } else {
            assert(remaining.contains(x as usize));
            let i = choose|i: int| 0 <= i < remaining.len() && remaining[i] == x as usize;
            assert(mem[i] == on[x]);
            assert(mem.contains(on[x]));
            assert(ms.nodes@.contains(on[x]));
            let j = choose|j: int| 0 <= j < ms.nodes@.len() && ms.nodes@[j] == on[x];
            assert(self.node_info@[u] == placed(s4.node_info@[u], m, j));
        }
    }

    /// After a split the microsets other than `m` and the new ones are as
    /// before, and the records of nodes outside the old microset too; every
    /// record keeps its parent and level.
    #[verifier::spinoff_prover]
    proof fn lemma_split_unchanged(
        &self,
        s0: Self,
        s4: Self,
        m: int,
        on: Seq<u32>,
        ps0: Seq<int>,
        ls: Seq<(Vec<usize>, u32)>,
        gv: Seq<int>,
        glo: Seq<int>,
        ghi: Seq<int>,
        old_mark: u32,
        carved: Seq<bool>,
        remaining: Seq<usize>,
        base: int,
    )
        requires
            self.split_final(s0, s4, m, on, ps0, ls, gv, glo, ghi, old_mark, carved, remaining, base),
        ensures
            self.microsets@.len() == base + ls.len(),
            0 <= m < base,
            forall|j: int| 0 <= j < base && j != m ==> #[trigger] self.microsets@[j] == s0.microsets@[j],
            forall|k: int| 0 <= k < ls.len() ==> #[trigger] self.microsets@[base + k] == s4.microsets@[base + k],
            self.node_info@.len() == s0.node_info@.len(),
            forall|u: int|
                0 <= u < s0.node_info@.len() && !on.contains(u as u32) ==> #[trigger] self.node_info@[u]
                    == s0.node_info@[u],
            forall|u: int|
                0 <= u < s0.node_info@.len() ==> #[trigger] self.node_info@[u].parent == s0.node_info@[u].parent
                    && self.node_info@[u].level == s0.node_info@[u].level,
    {
        let l = ls.len() as int;
        s0.lemma_big_facts(m);
        s4.lemma_records_parents(s0, m, on, ls, base, l);
        let ms = self.microsets@[m];
        let mem = member_nodes(on, remaining);
        let info = self.node_info@;
        let info4 = s4.node_info@;
        let info0 = s0.node_info@;
        assert forall|k: int| 0 <= k < ls.len() implies #[trigger] self.microsets@[base + k] == s4.microsets@[base + k] by {
        }
        assert forall|u: int| 0 <= u < info0.len() && !on.contains(u as u32) implies #[trigger] info[u] == info0[u] by {
            assert(!ms.nodes@.contains(u as u32)) by {
                if ms.nodes@.contains(u as u32) {
                    assert(mem.contains(u as u32));
                    let i = choose|i: int| 0 <= i < mem.len() && mem[i] == u as u32;
                    assert(on[remaining[i] as int] == u as u32);
                }
            }
        }
        assert forall|u: int| 0 <= u < info0.len() implies #[trigger] info[u].parent == info0[u].parent
            && info[u].level == info0[u].level by {
            if ms.nodes@.contains(u as u32) {
                let j = choose|j: int| 0 <= j < ms.nodes@.len() && ms.nodes@[j] == u as u32;
                assert(info[ms.nodes@[j] as int] == placed(info4[ms.nodes@[j] as int], m, j));
            }
            assert(info4[u].parent == info0[u].parent);
        }
    }

    /// After a split every node keeps its linked bit.
    #[verifier::spinoff_prover]
    #[verifier::rlimit(40)]
    proof fn lemma_split_linked(
        &self,
        s0: Self,
        s4: Self,
        m: int,
        on: Seq<u32>,
        ps0: Seq<int>,
        ls: Seq<(Vec<usize>, u32)>,
        gv: Seq<int>,
        glo: Seq<int>,
        ghi: Seq<int>,
        old_mark: u32,
        carved: Seq<bool>,
        remaining: Seq<usize>,
        base: int,
    )
        requires
            self.split_final(s0, s4, m, on, ps0, ls, gv, glo, ghi, old_mark, carved, remaining, base),
        ensures
            self.linked() == s0.linked(),
    {
        reveal(IncrementalTreeSetUnion::layout_ok);
        s0.lemma_big_facts(m);
        self.lemma_split_unchanged(s0, s4, m, on, ps0, ls, gv, glo, ghi, old_mark, carved, remaining, base);
        let n = s0.n as int;
        let info = self.node_info@;
        let info0 = s0.node_info@;
        let ms0 = s0.microsets@[m];
        assert forall|v: int| 0 <= v < n implies #[trigger] self.linked()[v] == s0.linked()[v] by {
            let m0 = info0[v].micro as int;
            assert(0 <= m0 < s0.microsets@.len());
            assert(s0.microsets@[m0].nodes@[info0[v].number as int] == v);
            if on.contains(v as u32) {
                let x = choose|x: int| 0 <= x < on.len() && on[x] == v as u32;
                assert(info0[on[x] as int].micro == m && info0[on[x] as int].number == x);
                self.lemma_split_place(s0, s4, m, on, ps0, ls, gv, glo, ghi, old_mark, carved, remaining, base, x);
                let o = owner(ls, x, ls.len() as int);
                let mu = if carved[x] { base + o } else { m };
                let mss = self.microsets@[mu];
                let jn = info[v].number as int;
                let mem = if carved[x] { member_nodes(on, ls[o].0@) } else { member_nodes(on, remaining) };
                assert(built_ok(mss, mem, s0.par@, on, old_mark));
                assert(mark_bit(mss.mark, jn) == old_bit(on, old_mark, mss.nodes@[jn]));
                assert(old_bit(on, old_mark, v as u32) == mark_bit(old_mark, x)) by {
                    if old_bit(on, old_mark, v as u32) {
                        let t = choose|t: int| 0 <= t < on.len() && on[t] == v as u32 && #[trigger] mark_bit(old_mark, t);
                        assert(t == x);
                    }
                }
            } else {
                assert(info[v] == info0[v]);
                assert(m0 != m) by {
                    if m0 == m {
                        assert(on[info0[v].number as int] == v as u32);
                    }
                }
            }
        }
        assert(self.linked() =~= s0.linked());
    }

    /// A top node of a carved list is at a child the list was carved at.
    proof fn lemma_carved_top(
        s0: Self,
        m: int,
        on: Seq<u32>,
        ps0: Seq<int>,
        ls: Seq<(Vec<usize>, u32)>,
        gv: Seq<int>,
        glo: Seq<int>,
        ghi: Seq<int>,
        k: int,
        xp: int,
    )
        requires
            Self::split_ctx(s0, m, on, ps0, ls, gv, glo, ghi),
            0 <= k < ls.len(),
            0 <= xp < on.len(),
            ls[k].0@.contains(xp as usize),
            is_top(s0.par@, member_nodes(on, ls[k].0@), on[xp] as int),
        ensures
            exists|t: int| glo[k] <= t < ghi[k] && kids(ps0, gv[k], on.len() as int)[t] == xp as usize,
            ps0[xp] == gv[k],
            on[xp] != 0,
            s0.par@[on[xp] as int] == on[gv[k]],
    {
        s0.lemma_big_facts(m);
        let bb = on.len() as int;
        let par = s0.par@;
        let mem = member_nodes(on, ls[k].0@);
        let kv = kids(ps0, gv[k], bb);
        assert(carved_list(ps0, bb, ls[k].0@, gv[k], glo[k], ghi[k]));
        lemma_kids(ps0, gv[k], bb);
        let t = choose|t: int| glo[k] <= t < ghi[k] && #[trigger] desc(ps0, xp, kv[t] as int);
        let w = on[xp] as int;
        assert(0 <= xp < forest_size(s0.microsets@[m].forest));
        if xp != kv[t] as int {
            lemma_desc_step(ps0, xp, kv[t] as int);
            let p = ps0[xp];
            assert(ls[k].0@.contains(p as usize));
            let i = choose|i: int| 0 <= i < ls[k].0@.len() && ls[k].0@[i] == p as usize;
            assert(mem[i] == on[p]);
            assert(par[w] != w && par[w] == on[p]);
            assert(w != 0);
            assert(mem.contains(par[w] as u32));
            assert(false);
        }
        assert(ps0[xp] == gv[k]);
        assert(par[w] != w);
    }

    /// A node of a microset made of a carved list that owns its positions
    /// is recorded there, and hangs inside it or from the node it was carved
    /// at.
    #[verifier::spinoff_prover]
    #[verifier::rlimit(60)]
    proof fn lemma_split_carved_node(
        &self,
        s0: Self,
        s4: Self,
        m: int,
        on: Seq<u32>,
        ps0: Seq<int>,
        ls: Seq<(Vec<usize>, u32)>,
        gv: Seq<int>,
        glo: Seq<int>,
        ghi: Seq<int>,
        old_mark: u32,
        carved: Seq<bool>,
        remaining: Seq<usize>,
        base: int,
        x: int,
        jj: int,
    )
        requires
            self.split_final(s0, s4, m, on, ps0, ls, gv, glo, ghi, old_mark, carved, remaining, base),
            0 <= x < on.len(),
            carved[x],
            0 <= jj < forest_size(self.microsets@[base + owner(ls, x, ls.len() as int)].forest),
        ensures
            ({
                let mu = base + owner(ls, x, ls.len() as int);
                let ms = self.microsets@[mu];
                let ps = forest_parents(ms.forest);
                let par = self.par@;
                let info = self.node_info@;
                let w = ms.nodes@[jj] as int;
                &&& 0 <= w < par.len()
                &&& info[w].micro == mu
                &&& info[w].number == jj
                &&& (ps[jj] == -1 ==> if par[w] == w {
                    ms.root == NO_PARENT
                } else {
                    ms.root == par[w] && info[par[w] as int].micro != mu
                })
                &&& (ps[jj] != -1 ==> par[w] != w && par[w] == ms.nodes@[ps[jj]])
            }),
    {
        s0.lemma_big_facts(m);
        self.lemma_split_unchanged(s0, s4, m, on, ps0, ls, gv, glo, ghi, old_mark, carved, remaining, base);
        let l = ls.len() as int;
        let bb = on.len() as int;
        let b = self.answer_table.b as nat;
        let q = top_bound(b) as int;
        let par = self.par@;
        let info = self.node_info@;
        let k = owner(ls, x, l);
        lemma_owner(ls, x, l);
        let mu = base + k;
        let ms = self.microsets@[mu];
        let nodes = ms.nodes@;
        let mem = member_nodes(on, ls[k].0@);
        let ps = forest_parents(ms.forest);
        assert(ms == s4.microsets@[base + k]);
        assert(built_ok(ms, mem, s0.par@, on, old_mark) && ms.root == ls[k].1);
        let w = nodes[jj] as int;
        assert(nodes.contains(nodes[jj]));
        assert(mem.contains(w as u32));
        let i = choose|i: int| 0 <= i < mem.len() && mem[i] == w as u32;
        let xp = ls[k].0@[i] as int;
        assert(carved_list(ps0, bb, ls[k].0@, gv[k], glo[k], ghi[k]));
        assert(on[xp] == w as u32);
        assert(ls[k].0@.contains(xp as usize));
        lemma_owner_shared(ps0, bb, on, q, ls, gv, glo, ghi, x, xp);
        lemma_owner(ls, xp, l);
        assert(carved[xp]);
        self.lemma_split_place(s0, s4, m, on, ps0, ls, gv, glo, ghi, old_mark, carved, remaining, base, xp);
        assert(nodes[info[w].number as int] == w);
        assert(info[w].number == jj);
        if ps[jj] == -1 {
            Self::lemma_carved_top(s0, m, on, ps0, ls, gv, glo, ghi, k, xp);
            assert(!ls[k].0@.contains(gv[k] as usize));
            self.lemma_split_place(s0, s4, m, on, ps0, ls, gv, glo, ghi, old_mark, carved, remaining, base, gv[k]);
            lemma_owner(ls, gv[k], l);
        } else {
            assert(par[w] < w);
        }
    }

    /// A microset made of a carved list has no more tops than the children
    /// it was carved at.
    #[verifier::spinoff_prover]
    #[verifier::rlimit(40)]
    proof fn lemma_split_carved_tops(
        &self,
        s0: Self,
        s4: Self,
        m: int,
        on: Seq<u32>,
        ps0: Seq<int>,
        ls: Seq<(Vec<usize>, u32)>,
        gv: Seq<int>,
        glo: Seq<int>,
        ghi: Seq<int>,
        old_mark: u32,
        carved: Seq<bool>,
        remaining: Seq<usize>,
        base: int,
        k: int,
    )
        requires
            self.split_final(s0, s4, m, on, ps0, ls, gv, glo, ghi, old_mark, carved, remaining, base),
            0 <= k < ls.len(),
        ensures
            tops_list(self.microsets@[base + k].nodes@, forest_parents(self.microsets@[base + k].forest)).len()
                <= top_bound(self.answer_table.b as nat),
    {
        s0.lemma_big_facts(m);
        self.lemma_split_unchanged(s0, s4, m, on, ps0, ls, gv, glo, ghi, old_mark, carved, remaining, base);
        let bb = on.len() as int;
        let ms = self.microsets@[base + k];
        let nodes = ms.nodes@;
        let mem = member_nodes(on, ls[k].0@);
        let ps = forest_parents(ms.forest);
        let kv = kids(ps0, gv[k], bb);
        assert(ms == s4.microsets@[base + k]);
        assert(built_ok(ms, mem, s0.par@, on, old_mark));
        assert(carved_list(ps0, bb, ls[k].0@, gv[k], glo[k], ghi[k]));
        let tl = tops_list(nodes, ps);
        let cands = Seq::new((ghi[k] - glo[k]) as nat, |i: int| on[kv[glo[k] + i] as int]);
        lemma_forest_parents_ordered(ms.forest);
        lemma_tops_list_distinct(nodes, ps);
        assert forall|i: int| 0 <= i < tl.len() implies cands.contains(#[trigger] tl[i]) by {
            assert(tl.contains(tl[i]));
            lemma_tops_list_sound(nodes, ps, tl[i]);
            let j = choose|j: int| 0 <= j < nodes.len() && ps[j] == -1 && #[trigger] nodes[j] == tl[i];
            let w = nodes[j] as int;
            assert(nodes.contains(nodes[j]));
            assert(mem.contains(w as u32));
            let i2 = choose|i2: int| 0 <= i2 < mem.len() && mem[i2] == w as u32;
            let xp = ls[k].0@[i2] as int;
            assert(ls[k].0@.contains(xp as usize));
            Self::lemma_carved_top(s0, m, on, ps0, ls, gv, glo, ghi, k, xp);
            let t = choose|t: int| glo[k] <= t < ghi[k] && kv[t] == xp as usize;
            assert(cands[t - glo[k]] == tl[i]);
        }
        lemma_distinct_within(tl, cands);
    }

    /// A microset made of a carved list that owns its positions is laid out
    /// after the split.
    #[verifier::spinoff_prover]
    #[verifier::rlimit(40)]
    proof fn lemma_split_carved_ok(
        &self,
        s0: Self,
        s4: Self,
        m: int,
        on: Seq<u32>,
        ps0: Seq<int>,
        ls: Seq<(Vec<usize>, u32)>,
        gv: Seq<int>,
        glo: Seq<int>,
        ghi: Seq<int>,
        old_mark: u32,
        carved: Seq<bool>,
        remaining: Seq<usize>,
        base: int,
        x: int,
    )
        requires
            self.split_final(s0, s4, m, on, ps0, ls, gv, glo, ghi, old_mark, carved, remaining, base),
            0 <= x < on.len(),
            carved[x],
        ensures
            ({
                let mu = base + owner(ls, x, ls.len() as int);
                self.microsets@[mu].ok(mu, self.node_info@, self.par@, self.answer_table.b as nat, self.answer_table.b as nat)
            }),
    {
        s0.lemma_big_facts(m);
        self.lemma_split_unchanged(s0, s4, m, on, ps0, ls, gv, glo, ghi, old_mark, carved, remaining, base);
        self.lemma_split_place(s0, s4, m, on, ps0, ls, gv, glo, ghi, old_mark, carved, remaining, base, x);
        let l = ls.len() as int;
        let bb = on.len() as int;
        let b = self.answer_table.b as nat;
        let k = owner(ls, x, l);
        lemma_owner(ls, x, l);
        let mu = base + k;
        let ms = self.microsets@[mu];
        let mem = member_nodes(on, ls[k].0@);
        let size = forest_size(ms.forest);
        assert(ms == s4.microsets@[base + k]);
        assert(built_ok(ms, mem, s0.par@, on, old_mark));
        assert(carved_list(ps0, bb, ls[k].0@, gv[k], glo[k], ghi[k]));
        lemma_positions_bound_except(ls[k].0@, bb, gv[k]);
        assert(1 <= size <= b - 1);
        assert(ms.forest < pow2((2 * b - 3) as nat)) by {
            if 2 * size - 1 < 2 * b - 3 {
                vstd::arithmetic::power2::lemma_pow2_strictly_increases((2 * size - 1) as nat, (2 * b - 3) as nat);
            }
        }
        assert forall|jj: int| 0 <= jj < size implies {
            let w = #[trigger] ms.nodes@[jj] as int;
            &&& 0 <= w < self.par@.len()
            &&& self.node_info@[w].micro == mu
            &&& self.node_info@[w].number == jj
            &&& (forest_parents(ms.forest)[jj] == -1 ==> if self.par@[w] == w {
                ms.root == NO_PARENT
            } else {
                ms.root == self.par@[w] && self.node_info@[self.par@[w] as int].micro != mu
            })
            &&& (forest_parents(ms.forest)[jj] != -1 ==> self.par@[w] != w && self.par@[w] == ms.nodes@[forest_parents(ms.forest)[jj]])
        } by {
            self.lemma_split_carved_node(s0, s4, m, on, ps0, ls, gv, glo, ghi, old_mark, carved, remaining, base, x, jj);
        }
        self.lemma_split_carved_tops(s0, s4, m, on, ps0, ls, gv, glo, ghi, old_mark, carved, remaining, base, k);
    }

    /// A top node of what remains was a top node before.
    proof fn lemma_remaining_top(
        &self,
        s0: Self,
        s4: Self,
        m: int,
        on: Seq<u32>,
        ps0: Seq<int>,
        ls: Seq<(Vec<usize>, u32)>,
        gv: Seq<int>,
        glo: Seq<int>,
        ghi: Seq<int>,
        old_mark: u32,
        carved: Seq<bool>,
        remaining: Seq<usize>,
        base: int,
        xp: int,
    )
        requires
            self.split_final(s0, s4, m, on, ps0, ls, gv, glo, ghi, old_mark, carved, remaining, base),
            0 <= xp < on.len(),
            !carved[xp],
            is_top(s0.par@, member_nodes(on, remaining), on[xp] as int),
        ensures
            ps0[xp] == -1,
    {
        s0.lemma_big_facts(m);
        let bb = on.len() as int;
        let par = s0.par@;
        let mem = member_nodes(on, remaining);
        let w = on[xp] as int;
        assert(0 <= xp < forest_size(s0.microsets@[m].forest));
        if ps0[xp] != -1 {
            let p = ps0[xp];
            assert(par[w] != w && par[w] == on[p]);
            assert(w != 0);
            if carved[p] {
                let k = choose|k: int| 0 <= k < ls.len() && #[trigger] ls[k].0@.contains(p as usize);
                assert(carved_list(ps0, bb, ls[k].0@, gv[k], glo[k], ghi[k]));
                let kv = kids(ps0, gv[k], bb);
                let t = choose|t: int| glo[k] <= t < ghi[k] && #[trigger] desc(ps0, p, kv[t] as int);
                lemma_desc_parent(ps0, xp);
                lemma_desc_trans(ps0, xp, p, kv[t] as int);
                assert(ls[k].0@.contains(xp as usize));
                assert(false);
            }
            assert(remaining.contains(p as usize));
            let i = choose|i: int| 0 <= i < remaining.len() && remaining[i] == p as usize;
            assert(mem[i] == on[p]);
            assert(mem.contains(par[w] as u32));
        }
    }

    /// A node of what remains is recorded in microset `m`, and hangs inside
    /// it or from the old microset's root.
    #[verifier::spinoff_prover]
    #[verifier::rlimit(60)]
    proof fn lemma_split_remaining_node(
        &self,
        s0: Self,
        s4: Self,
        m: int,
        on: Seq<u32>,
        ps0: Seq<int>,
        ls: Seq<(Vec<usize>, u32)>,
        gv: Seq<int>,
        glo: Seq<int>,
        ghi: Seq<int>,
        old_mark: u32,
        carved: Seq<bool>,
        remaining: Seq<usize>,
        base: int,
        jj: int,
    )
        requires
            self.split_final(s0, s4, m, on, ps0, ls, gv, glo, ghi, old_mark, carved, remaining, base),
            0 <= jj < forest_size(self.microsets@[m].forest),
        ensures
            ({
                let ms = self.microsets@[m];
                let ps = forest_parents(ms.forest);
                let par = self.par@;
                let info = self.node_info@;
                let w = ms.nodes@[jj] as int;
                &&& 0 <= w < par.len()
                &&& info[w].micro == m
                &&& info[w].number == jj
                &&& (ps[jj] == -1 ==> if par[w] == w {
                    ms.root == NO_PARENT
                } else {
                    ms.root == par[w] && info[par[w] as int].micro != m
                })
                &&& (ps[jj] != -1 ==> par[w] != w && par[w] == ms.nodes@[ps[jj]])
            }),
    {
        s0.lemma_big_facts(m);
        self.lemma_split_unchanged(s0, s4, m, on, ps0, ls, gv, glo, ghi, old_mark, carved, remaining, base);
        let par = self.par@;
        let info = self.node_info@;
        let info0 = s0.node_info@;
        let ms = self.microsets@[m];
        let nodes = ms.nodes@;
        let mem = member_nodes(on, remaining);
        let ps = forest_parents(ms.forest);
        let w = nodes[jj] as int;
        assert(nodes.contains(nodes[jj]));
        assert(mem.contains(w as u32));
        let i = choose|i: int| 0 <= i < mem.len() && mem[i] == w as u32;
        let xp = remaining[i] as int;
        assert(on[xp] == w as u32);
        assert(remaining.contains(xp as usize));
        assert(!carved[xp]);
        self.lemma_split_place(s0, s4, m, on, ps0, ls, gv, glo, ghi, old_mark, carved, remaining, base, xp);
        assert(nodes[info[w].number as int] == w);
        assert(info[w].number == jj);
        if ps[jj] == -1 {
            self.lemma_remaining_top(s0, s4, m, on, ps0, ls, gv, glo, ghi, old_mark, carved, remaining, base, xp);
            assert(0 <= xp < forest_size(s0.microsets@[m].forest));
            if par[w] != w {
                let r = par[w] as int;
                assert(!on.contains(r as u32)) by {
                    if on.contains(r as u32) {
                        let i3 = choose|i3: int| 0 <= i3 < on.len() && on[i3] == r as u32;
                        assert(info0[on[i3] as int].micro == m);
                    }
                }
                assert(info[r] == info0[r]);
            }
        } else {
            assert(par[w] < w);
        }
    }

    /// What remains of the old microset has no more tops than it had.
    #[verifier::spinoff_prover]
    #[verifier::rlimit(40)]
    proof fn lemma_split_remaining_tops(
        &self,
        s0: Self,
        s4: Self,
        m: int,
        on: Seq<u32>,
        ps0: Seq<int>,
        ls: Seq<(Vec<usize>, u32)>,
        gv: Seq<int>,
        glo: Seq<int>,
        ghi: Seq<int>,
        old_mark: u32,
        carved: Seq<bool>,
        remaining: Seq<usize>,
        base: int,
    )
        requires
            self.split_final(s0, s4, m, on, ps0, ls, gv, glo, ghi, old_mark, carved, remaining, base),
        ensures
            tops_list(self.microsets@[m].nodes@, forest_parents(self.microsets@[m].forest)).len()
                <= top_bound(self.answer_table.b as nat),
    {
        s0.lemma_big_facts(m);
        let ms = self.microsets@[m];
        let nodes = ms.nodes@;
        let mem = member_nodes(on, remaining);
        let ps = forest_parents(ms.forest);
        let tl = tops_list(nodes, ps);
        let tl0 = tops_list(on, ps0);
        lemma_forest_parents_ordered(ms.forest);
        lemma_tops_list_distinct(nodes, ps);
        assert forall|i: int| 0 <= i < tl.len() implies tl0.contains(#[trigger] tl[i]) by {
            assert(tl.contains(tl[i]));
            lemma_tops_list_sound(nodes, ps, tl[i]);
            let j = choose|j: int| 0 <= j < nodes.len() && ps[j] == -1 && #[trigger] nodes[j] == tl[i];
            let w = nodes[j] as int;
            assert(nodes.contains(nodes[j]));
            assert(mem.contains(w as u32));
            let i2 = choose|i2: int| 0 <= i2 < mem.len() && mem[i2] == w as u32;
            let xp = remaining[i2] as int;
            assert(remaining.contains(xp as usize));
            assert(is_top(s0.par@, mem, w));
            self.lemma_remaining_top(s0, s4, m, on, ps0, ls, gv, glo, ghi, old_mark, carved, remaining, base, xp);
            lemma_tops_list_complete(on, ps0, xp);
        }
        lemma_distinct_within(tl, tl0);
    }

    /// What remains of the old microset is laid out as microset `m`.
    #[verifier::spinoff_prover]
    #[verifier::rlimit(40)]
    proof fn lemma_split_remaining_ok(
        &self,
        s0: Self,
        s4: Self,
        m: int,
        on: Seq<u32>,
        ps0: Seq<int>,
        ls: Seq<(Vec<usize>, u32)>,
        gv: Seq<int>,
        glo: Seq<int>,
        ghi: Seq<int>,
        old_mark: u32,
        carved: Seq<bool>,
        remaining: Seq<usize>,
        base: int,
    )
        requires
            self.split_final(s0, s4, m, on, ps0, ls, gv, glo, ghi, old_mark, carved, remaining, base),
        ensures
            self.microsets@[m].ok(m, self.node_info@, self.par@, self.answer_table.b as nat, self.answer_table.b as nat),
    {
        s0.lemma_big_facts(m);
        s4.lemma_remaining_pre(s0, m, on, ps0, ls, gv, glo, ghi, carved, remaining, base);
        let bb = on.len() as int;
        let b = self.answer_table.b as nat;
        let ms = self.microsets@[m];
        let size = forest_size(ms.forest);
        assert(carved_list(ps0, bb, ls[0].0@, gv[0], glo[0], ghi[0]));
        let y0 = ls[0].0@[0] as int;
        assert(ls[0].0@.contains(y0 as usize));
        assert(carved[y0]);
        assert forall|i: int| 0 <= i < remaining.len() implies #[trigger] remaining[i] < bb && remaining[i] != y0 by {
            if remaining[i] == y0 {
                assert(remaining.contains(y0 as usize));
            }
        }
        lemma_positions_bound_except(remaining, bb, y0);
        assert(1 <= size <= b - 1);
        assert(ms.forest < pow2((2 * b - 3) as nat)) by {
            if 2 * size - 1 < 2 * b - 3 {
                vstd::arithmetic::power2::lemma_pow2_strictly_increases((2 * size - 1) as nat, (2 * b - 3) as nat);
            }
        }
        assert forall|jj: int| 0 <= jj < size implies {
            let w = #[trigger] ms.nodes@[jj] as int;
            &&& 0 <= w < self.par@.len()
            &&& self.node_info@[w].micro == m
            &&& self.node_info@[w].number == jj
            &&& (forest_parents(ms.forest)[jj] == -1 ==> if self.par@[w] == w {
                ms.root == NO_PARENT
            } else {
                ms.root == self.par@[w] && self.node_info@[self.par@[w] as int].micro != m
            })
            &&& (forest_parents(ms.forest)[jj] != -1 ==> self.par@[w] != w && self.par@[w] == ms.nodes@[forest_parents(ms.forest)[jj]])
        } by {
            self.lemma_split_remaining_node(s0, s4, m, on, ps0, ls, gv, glo, ghi, old_mark, carved, remaining, base, jj);
        }
        self.lemma_split_remaining_tops(s0, s4, m, on, ps0, ls, gv, glo, ghi, old_mark, carved, remaining, base);
    }

    /// A node outside the old microset stays in its microset, which is
    /// still laid out.
    #[verifier::spinoff_prover]
    #[verifier::rlimit(60)]
    proof fn lemma_split_other_ok(
        &self,
        s0: Self,
        s4: Self,
        m: int,
        on: Seq<u32>,
        ps0: Seq<int>,
        ls: Seq<(Vec<usize>, u32)>,
        gv: Seq<int>,
        glo: Seq<int>,
        ghi: Seq<int>,
        old_mark: u32,
        carved: Seq<bool>,
        remaining: Seq<usize>,
        base: int,
        v: int,
    )
        requires
            self.split_final(s0, s4, m, on, ps0, ls, gv, glo, ghi, old_mark, carved, remaining, base),
            0 <= v < s0.n,
            !on.contains(v as u32),
        ensures
            ({
                let mu = self.node_info@[v].micro as int;
                let ms = self.microsets@[mu];
                &&& self.node_info@[v] == s0.node_info@[v]
                &&& 0 <= mu < base
                &&& mu != m
                &&& ms == s0.microsets@[mu]
                &&& self.node_info@[v].number < ms.nodes@.len()
                &&& ms.nodes@[self.node_info@[v].number as int] == v
                &&& ms.ok(mu, self.node_info@, self.par@, self.answer_table.b as nat, self.answer_table.b as nat)
            }),
    {
        reveal(IncrementalTreeSetUnion::layout_ok);
        s0.lemma_big_facts(m);
        self.lemma_split_unchanged(s0, s4, m, on, ps0, ls, gv, glo, ghi, old_mark, carved, remaining, base);
        let par = self.par@;
        let info = self.node_info@;
        let info0 = s0.node_info@;
        let b = self.answer_table.b as nat;
        let mu = info0[v].micro as int;
        assert(info[v] == info0[v]);
        assert(mu != m) by {
            if mu == m {
                assert(on[info0[v].number as int] == v as u32);
            }
        }
        let ms = s0.microsets@[mu];
        assert(ms.ok(mu, info0, par, b, b));
        assert(self.microsets@[mu] == ms);
        assert forall|jj: int| 0 <= jj < forest_size(ms.forest) implies {
            let y = #[trigger] ms.nodes@[jj] as int;
            &&& 0 <= y < par.len()
            &&& info[y].micro == mu
            &&& info[y].number == jj
            &&& (forest_parents(ms.forest)[jj] == -1 ==> if par[y] == y {
                ms.root == NO_PARENT
            } else {
                ms.root == par[y] && info[par[y] as int].micro != mu
            })
            &&& (forest_parents(ms.forest)[jj] != -1 ==> par[y] != y && par[y] == ms.nodes@[forest_parents(ms.forest)[jj]])
        } by {
            let y = ms.nodes@[jj] as int;
            assert(info0[y].micro == mu);
            assert(!on.contains(y as u32)) by {
                if on.contains(y as u32) {
                    let i = choose|i: int| 0 <= i < on.len() && on[i] == y as u32;
                    assert(info0[on[i] as int].micro == m);
                }
            }
            assert(info[y] == info0[y]);
            if forest_parents(ms.forest)[jj] == -1 && par[y] != y {
                let r = par[y] as int;
                if on.contains(r as u32) {
                    let x3 = choose|x3: int| 0 <= x3 < on.len() && on[x3] == r as u32;
                    self.lemma_split_place(s0, s4, m, on, ps0, ls, gv, glo, ghi, old_mark, carved, remaining, base, x3);
                } else {
                    assert(info[r] == info0[r]);
                }
            }
        }
        assert(microset_ok(ms.nodes@, ms.forest, ms.mark, ms.root, mu, info, par, b));
    }

    /// After a split every node sits in its microset, laid out.
    #[verifier::spinoff_prover]
    #[verifier::rlimit(40)]
    proof fn lemma_split_layout(
        &self,
        s0: Self,
        s4: Self,
        m: int,
        on: Seq<u32>,
        ps0: Seq<int>,
        ls: Seq<(Vec<usize>, u32)>,
        gv: Seq<int>,
        glo: Seq<int>,
        ghi: Seq<int>,
        old_mark: u32,
        carved: Seq<bool>,
        remaining: Seq<usize>,
        base: int,
    )
        requires
            self.split_final(s0, s4, m, on, ps0, ls, gv, glo, ghi, old_mark, carved, remaining, base),
        ensures
            self.layout_ok(-1),
    {
        reveal(IncrementalTreeSetUnion::layout_ok);
        s0.lemma_big_facts(m);
        self.lemma_split_unchanged(s0, s4, m, on, ps0, ls, gv, glo, ghi, old_mark, carved, remaining, base);
        let n = self.n as int;
        let info = self.node_info@;
        let b = self.answer_table.b as nat;
        assert forall|v: int| 0 <= v < n implies {
            let mv = (#[trigger] info[v]).micro as int;
            &&& 0 <= mv < self.microsets@.len()
            &&& info[v].number < self.microsets@[mv].nodes@.len()
            &&& self.microsets@[mv].nodes@[info[v].number as int] == v
            &&& self.microsets@[mv].ok(mv, info, self.par@, if mv == -1 { b + 1 } else { b }, b)
        } by {
            if on.contains(v as u32) {
                let x = choose|x: int| 0 <= x < on.len() && on[x] == v as u32;
                self.lemma_split_place(s0, s4, m, on, ps0, ls, gv, glo, ghi, old_mark, carved, remaining, base, x);
                if carved[x] {
                    self.lemma_split_carved_ok(s0, s4, m, on, ps0, ls, gv, glo, ghi, old_mark, carved, remaining, base, x);
                } else {
                    self.lemma_split_remaining_ok(s0, s4, m, on, ps0, ls, gv, glo, ghi, old_mark, carved, remaining, base);
                }
            } else {
                self.lemma_split_other_ok(s0, s4, m, on, ps0, ls, gv, glo, ghi, old_mark, carved, remaining, base, v);
            }
        }
    }

    /// After a split the tree bookkeeping holds as before, with room for the
    /// new microsets.
    #[verifier::spinoff_prover]
    #[verifier::rlimit(40)]
    proof fn lemma_split_shape(
        &self,
        s0: Self,
        s4: Self,
        m: int,
        on: Seq<u32>,
        ps0: Seq<int>,
        ls: Seq<(Vec<usize>, u32)>,
        gv: Seq<int>,
        glo: Seq<int>,
        ghi: Seq<int>,
        old_mark: u32,
        carved: Seq<bool>,
        remaining: Seq<usize>,
        base: int,
    )
        requires
            self.split_final(s0, s4, m, on, ps0, ls, gv, glo, ghi, old_mark, carved, remaining, base),
        ensures
            self.shape_ok(),
            levels_of(self.node_info@, self.n as nat) == levels_of(s0.node_info@, s0.n as nat),
    {
        reveal(IncrementalTreeSetUnion::shape_ok);
        s0.lemma_big_facts(m);
        self.lemma_split_unchanged(s0, s4, m, on, ps0, ls, gv, glo, ghi, old_mark, carved, remaining, base);
        let n = self.n as int;
        let info = self.node_info@;
        let info0 = s0.node_info@;
        let par = self.par@;
        assert(levels_of(info, n as nat) =~= levels_of(info0, n as nat)) by {
            assert forall|v: int| 0 <= v < n implies info[v].level == info0[v].level by {
                assert(info[v].level == info0[v].level);
            }
        }
        assert forall|v: int| 0 <= v < n implies #[trigger] info[v].level <= v by {
            assert(info[v].level == info0[v].level);
        }
        assert(parents_recorded(info, par)) by {
            assert forall|v: int| 0 <= v < par.len() implies #[trigger] info[v].parent == (if v == 0 {
                NO_PARENT
            } else {
                par[v] as u32
            }) by {
                assert(info[v].parent == info0[v].parent);
            }
        }
        assert(self.in_macroset == s4.in_macroset);
    }

    /// After a split the macroset invariant holds: the old members keep
    /// their paths, the new ones are their own tops, and every microset in
    /// use hangs from a member.
    #[verifier::spinoff_prover]
    #[verifier::rlimit(60)]
    proof fn lemma_split_macro(
        &self,
        s0: Self,
        s4: Self,
        m: int,
        on: Seq<u32>,
        ps0: Seq<int>,
        ls: Seq<(Vec<usize>, u32)>,
        gv: Seq<int>,
        glo: Seq<int>,
        ghi: Seq<int>,
        old_mark: u32,
        carved: Seq<bool>,
        remaining: Seq<usize>,
        base: int,
    )
        requires
            self.split_final(s0, s4, m, on, ps0, ls, gv, glo, ghi, old_mark, carved, remaining, base),
            self.linked() == s0.linked(),
            levels_of(self.node_info@, self.n as nat) == levels_of(s0.node_info@, s0.n as nat),
        ensures
            self.macro_ok(),
    {
        s0.lemma_big_facts(m);
        self.lemma_split_unchanged(s0, s4, m, on, ps0, ls, gv, glo, ghi, old_mark, carved, remaining, base);
        let n = self.n as int;
        let info = self.node_info@;
        let info0 = s0.node_info@;
        let ms = self.macroset;
        let ms0 = s0.macroset;
        let mss = self.microsets@;
        let mss0 = s0.microsets@;
        assert(ms == s4.macroset);
        assert(s4.split_macro_ok(s0, ls, ls.len() as int));
        assert(s0.macro_ok());
        assert forall|v: int|
            0 <= v < n && #[trigger] mss[info[v].micro as int].root != NO_PARENT implies ms.members().contains(
            mss[info[v].micro as int].root as int,
        ) by {
            if on.contains(v as u32) {
                let x = choose|x: int| 0 <= x < on.len() && on[x] == v as u32;
                self.lemma_split_place(s0, s4, m, on, ps0, ls, gv, glo, ghi, old_mark, carved, remaining, base, x);
                let o = owner(ls, x, ls.len() as int);
                if carved[x] {
                    assert(mss[base + o] == s4.microsets@[base + o]);
                    assert(ms.members().contains(ls[o].1 as int));
                } else {
                    reveal(IncrementalTreeSetUnion::layout_ok);
                    assert(info0[on[x] as int].micro == m);
                    assert(mss0[info0[v].micro as int].root == mss[m].root);
                    assert(ms0.members().contains(mss0[info0[v].micro as int].root as int));
                }
            } else {
                self.lemma_split_other_ok(s0, s4, m, on, ps0, ls, gv, glo, ghi, old_mark, carved, remaining, base, v);
                assert(ms0.members().contains(mss0[info0[v].micro as int].root as int));
            }
        }
        let levels = levels_of(info, n as nat);
        let lk = self.linked();
        assert forall|u: int| #[trigger] ms.members().contains(u) implies {
            let t = ms.top_of(u);
            &&& 0 <= u < n
            &&& 0 <= t < n
            &&& ms.level_of(u) == levels[u]
            &&& levels[t] <= levels[u]
            &&& linked_path(self.par@, lk, u, t, (levels[u] - levels[t]) as nat)
        } by {
            if ms0.members().contains(u) {
            } else {
                assert(0 <= u < n);
                assert(levels[u] == info0[u].level);
                assert(linked_path(self.par@, lk, u, u, 0));
            }
        }
        assert(self.in_macroset == s4.in_macroset);
    }

    /// A node of the microset made of carved list `k` is an old node
    /// hanging from the node the list was carved at or from another node of
    /// the list.
    #[verifier::spinoff_prover]
    #[verifier::rlimit(40)]
    proof fn lemma_piece_hangs(
        &self,
        s0: Self,
        s4: Self,
        m: int,
        on: Seq<u32>,
        ps0: Seq<int>,
        ls: Seq<(Vec<usize>, u32)>,
        gv: Seq<int>,
        glo: Seq<int>,
        ghi: Seq<int>,
        old_mark: u32,
        carved: Seq<bool>,
        remaining: Seq<usize>,
        base: int,
        k: int,
        kk: int,
    )
        requires
            self.split_final(s0, s4, m, on, ps0, ls, gv, glo, ghi, old_mark, carved, remaining, base),
            0 <= k < ls.len(),
            0 <= kk < s4.microsets@[base + k].nodes@.len(),
        ensures
            ({
                let nodes = s4.microsets@[base + k].nodes@;
                let par = s0.par@;
                on.contains(nodes[kk]) && (par[nodes[kk] as int] == on[gv[k]] || nodes.contains(
                    par[nodes[kk] as int] as u32,
                ))
            }),
    {
        s0.lemma_big_facts(m);
        let bb = on.len() as int;
        let par = s0.par@;
        let ms = s4.microsets@[base + k];
        let nodes = ms.nodes@;
        let mem = member_nodes(on, ls[k].0@);
        let kv = kids(ps0, gv[k], bb);
        assert(built_ok(ms, mem, par, on, old_mark));
        assert(carved_list(ps0, bb, ls[k].0@, gv[k], glo[k], ghi[k]));
        lemma_kids(ps0, gv[k], bb);
        let w = nodes[kk] as int;
        assert(nodes.contains(nodes[kk]));
        assert(mem.contains(w as u32));
        let i = choose|i: int| 0 <= i < mem.len() && mem[i] == w as u32;
        let xp = ls[k].0@[i] as int;
        assert(on[xp] == w as u32);
        assert(ls[k].0@.contains(xp as usize));
        let t = choose|t: int| glo[k] <= t < ghi[k] && #[trigger] desc(ps0, xp, kv[t] as int);
        assert(0 <= xp < forest_size(s0.microsets@[m].forest));
        if xp == kv[t] as int {
            assert(ps0[xp] == gv[k]);
        } else {
            lemma_desc_step(ps0, xp, kv[t] as int);
            let p = ps0[xp];
            assert(ls[k].0@.contains(p as usize));
            let i2 = choose|i2: int| 0 <= i2 < ls[k].0@.len() && ls[k].0@[i2] == p as usize;
            assert(mem[i2] == on[p]);
            assert(nodes.contains(on[p]));
        }
    }

    /// An old node hanging from a node of the microset made of carved list
    /// `k` is in it too.
    #[verifier::spinoff_prover]
    #[verifier::rlimit(40)]
    proof fn lemma_piece_closed(
        &self,
        s0: Self,
        s4: Self,
        m: int,
        on: Seq<u32>,
        ps0: Seq<int>,
        ls: Seq<(Vec<usize>, u32)>,
        gv: Seq<int>,
        glo: Seq<int>,
        ghi: Seq<int>,
        old_mark: u32,
        carved: Seq<bool>,
        remaining: Seq<usize>,
        base: int,
        k: int,
        x: int,
    )
        requires
            self.split_final(s0, s4, m, on, ps0, ls, gv, glo, ghi, old_mark, carved, remaining, base),
            0 <= k < ls.len(),
            0 <= x < s0.par@.len(),
            on.contains(x as u32),
            x != 0,
            s4.microsets@[base + k].nodes@.contains(s0.par@[x] as u32),
        ensures
            s4.microsets@[base + k].nodes@.contains(x as u32),
    {
        s0.lemma_big_facts(m);
        let bb = on.len() as int;
        let par = s0.par@;
        let ms = s4.microsets@[base + k];
        let nodes = ms.nodes@;
        let mem = member_nodes(on, ls[k].0@);
        let kv = kids(ps0, gv[k], bb);
        let info0 = s0.node_info@;
        assert(built_ok(ms, mem, par, on, old_mark));
        assert(carved_list(ps0, bb, ls[k].0@, gv[k], glo[k], ghi[k]));
        let xq = choose|xq: int| 0 <= xq < on.len() && on[xq] == x as u32;
        assert(mem.contains(par[x] as u32));
        let i = choose|i: int| 0 <= i < mem.len() && mem[i] == par[x] as u32;
        let y = ls[k].0@[i] as int;
        assert(on[y] == par[x] as u32);
        assert(0 <= xq < forest_size(s0.microsets@[m].forest));
        assert(par[x] < x);
        if ps0[xq] == -1 {
            assert(info0[on[y] as int].micro == m);
            assert(false);
        }
        assert(on[ps0[xq]] == on[y]);
        assert(ps0[xq] == y);
        assert(ls[k].0@.contains(y as usize));
        assert(0 <= y < bb);
        let t = choose|t: int| glo[k] <= t < ghi[k] && #[trigger] desc(ps0, y, kv[t] as int);
        lemma_desc_parent(ps0, xq);
        lemma_desc_trans(ps0, xq, y, kv[t] as int);
        assert(ls[k].0@.contains(xq as usize));
        let i3 = choose|i3: int| 0 <= i3 < ls[k].0@.len() && ls[k].0@[i3] == xq as usize;
        assert(mem[i3] == on[xq]);
        assert(nodes.contains(mem[i3]));
    }

    /// A microset made of a carved list is whole subtrees of the old
    /// microset hanging from the node it was carved at, which is a member of
    /// the macroset.
    proof fn lemma_split_piece(
        &self,
        s0: Self,
        s4: Self,
        m: int,
        on: Seq<u32>,
        ps0: Seq<int>,
        ls: Seq<(Vec<usize>, u32)>,
        gv: Seq<int>,
        glo: Seq<int>,
        ghi: Seq<int>,
        old_mark: u32,
        carved: Seq<bool>,
        remaining: Seq<usize>,
        base: int,
        k: int,
    )
        requires
            self.split_final(s0, s4, m, on, ps0, ls, gv, glo, ghi, old_mark, carved, remaining, base),
            0 <= k < ls.len(),
        ensures
            carved_from(self.microsets@[base + k], on, s0.par@),
            self.macroset.members().contains(self.microsets@[base + k].root as int),
    {
        let ms = s4.microsets@[base + k];
        let nodes = ms.nodes@;
        let par = s0.par@;
        assert(self.microsets@[base + k] == ms);
        assert(built_ok(ms, member_nodes(on, ls[k].0@), par, on, old_mark) && ms.root == ls[k].1);
        assert(carved_list(ps0, on.len() as int, ls[k].0@, gv[k], glo[k], ghi[k]));
        assert(ls[k].1 == on[gv[k]]);
        assert(on.contains(ms.root));
        assert(s4.split_macro_ok(s0, ls, ls.len() as int));
        assert(self.macroset.members().contains(ls[k].1 as int));
        assert forall|kk: int| 0 <= kk < nodes.len() implies on.contains(#[trigger] nodes[kk]) && (par[nodes[kk] as int]
            == ms.root || nodes.contains(par[nodes[kk] as int] as u32)) by {
            self.lemma_piece_hangs(s0, s4, m, on, ps0, ls, gv, glo, ghi, old_mark, carved, remaining, base, k, kk);
        }
        assert forall|x: int|
            0 <= x < par.len() && on.contains(x as u32) && x != 0 && #[trigger] nodes.contains(par[x] as u32)
            implies nodes.contains(x as u32) by {
            self.lemma_piece_closed(s0, s4, m, on, ps0, ls, gv, glo, ghi, old_mark, carved, remaining, base, k, x);
        }
    }

    /// What remains of the old microset keeps its root and all its top
    /// nodes, and holds only old nodes.
    proof fn lemma_split_rest(
        &self,
        s0: Self,
        s4: Self,
        m: int,
        on: Seq<u32>,
        ps0: Seq<int>,
        ls: Seq<(Vec<usize>, u32)>,
        gv: Seq<int>,
        glo: Seq<int>,
        ghi: Seq<int>,
        old_mark: u32,
        carved: Seq<bool>,
        remaining: Seq<usize>,
        base: int,
    )
        requires
            self.split_final(s0, s4, m, on, ps0, ls, gv, glo, ghi, old_mark, carved, remaining, base),
        ensures
            self.microsets@[m].root == s0.microsets@[m].root,
            forall|x: u32| #[trigger] self.microsets@[m].nodes@.contains(x) ==> on.contains(x),
            forall|x: int|
                0 <= x < on.len() && ps0[x] == -1 ==> self.microsets@[m].nodes@.contains(#[trigger] on[x]),
    {
        s0.lemma_big_facts(m);
        let ms = self.microsets@[m];
        let mem = member_nodes(on, remaining);
        assert forall|x: u32| #[trigger] ms.nodes@.contains(x) implies on.contains(x) by {
            assert(mem.contains(x));
            let i = choose|i: int| 0 <= i < mem.len() && mem[i] == x;
            assert(on[remaining[i] as int] == x);
        }
        assert forall|x: int| 0 <= x < on.len() && ps0[x] == -1 implies ms.nodes@.contains(#[trigger] on[x]) by {
            assert(!carved[x]) by {
                if carved[x] {
                    let k = choose|k: int| 0 <= k < ls.len() && #[trigger] ls[k].0@.contains(x as usize);
                    let bb = on.len() as int;
                    assert(carved_list(ps0, bb, ls[k].0@, gv[k], glo[k], ghi[k]));
                    lemma_kids(ps0, gv[k], bb);
                    let kv = kids(ps0, gv[k], bb);
                    let t = choose|t: int| glo[k] <= t < ghi[k] && #[trigger] desc(ps0, x, kv[t] as int);
                    if x != kv[t] as int {
                        lemma_desc_step(ps0, x, kv[t] as int);
                    }
                }
            }
            assert(remaining.contains(x as usize));
            let i = choose|i: int| 0 <= i < remaining.len() && remaining[i] == x as usize;
            assert(mem[i] == on[x]);
            assert(mem.contains(on[x]));
        }
    }

    /// Where the nodes of the split microset are after the split.
    proof fn lemma_split_result(
        &self,
        s0: Self,
        s4: Self,
        m: int,
        on: Seq<u32>,
        ps0: Seq<int>,
        ls: Seq<(Vec<usize>, u32)>,
        gv: Seq<int>,
        glo: Seq<int>,
        ghi: Seq<int>,
        old_mark: u32,
        carved: Seq<bool>,
        remaining: Seq<usize>,
        base: int,
    )
        requires
            self.split_final(s0, s4, m, on, ps0, ls, gv, glo, ghi, old_mark, carved, remaining, base),
        ensures
            self.microsets@.len() >= s0.microsets@.len(),
            forall|j: int|
                0 <= j < s0.microsets@.len() && j != m ==> #[trigger] self.microsets@[j] == s0.microsets@[j],
            self.microsets@[m].root == s0.microsets@[m].root,
            forall|x: u32| #[trigger] self.microsets@[m].nodes@.contains(x) ==> on.contains(x),
            forall|x: int|
                0 <= x < on.len() && ps0[x] == -1 ==> self.microsets@[m].nodes@.contains(#[trigger] on[x]),
            forall|j: int|
                s0.microsets@.len() <= j < self.microsets@.len() ==> carved_from(
                    #[trigger] self.microsets@[j],
                    on,
                    s0.par@,
                ) && self.macroset.members().contains(self.microsets@[j].root as int),
    {
        self.lemma_split_unchanged(s0, s4, m, on, ps0, ls, gv, glo, ghi, old_mark, carved, remaining, base);
        self.lemma_split_rest(s0, s4, m, on, ps0, ls, gv, glo, ghi, old_mark, carved, remaining, base);
        assert forall|j: int| s0.microsets@.len() <= j < self.microsets@.len() implies carved_from(
            #[trigger] self.microsets@[j],
            on,
            s0.par@,
        ) && self.macroset.members().contains(self.microsets@[j].root as int) by {
            self.lemma_split_piece(s0, s4, m, on, ps0, ls, gv, glo, ghi, old_mark, carved, remaining, base, j - base);
        }
    }

    /// The end of a split: the structure is consistent again, with the same
    /// linked nodes.
    proof fn lemma_split_done(
        &self,
        s0: Self,
        s4: Self,
        m: int,
        on: Seq<u32>,
        ps0: Seq<int>,
        ls: Seq<(Vec<usize>, u32)>,
        gv: Seq<int>,
        glo: Seq<int>,
        ghi: Seq<int>,
        old_mark: u32,
        carved: Seq<bool>,
        remaining: Seq<usize>,
        base: int,
    )
        requires
            self.split_final(s0, s4, m, on, ps0, ls, gv, glo, ghi, old_mark, carved, remaining, base),
        ensures
            self.wf(),
            self.linked() == s0.linked(),
    {
        self.lemma_split_linked(s0, s4, m, on, ps0, ls, gv, glo, ghi, old_mark, carved, remaining, base);
        self.lemma_split_shape(s0, s4, m, on, ps0, ls, gv, glo, ghi, old_mark, carved, remaining, base);
        self.lemma_split_layout(s0, s4, m, on, ps0, ls, gv, glo, ghi, old_mark, carved, remaining, base);
        self.lemma_split_macro(s0, s4, m, on, ps0, ls, gv, glo, ghi, old_mark, carved, remaining, base);
        s0.lemma_big_facts(m);
    }

    /// Split microset `ms_idx`, which holds `b` nodes, into microsets of at
    /// most `b - 1` nodes: carve off subtrees (see `carve_subtrees`), make a
    /// microset of each carved list, in order, hanging from the node it was
    /// carved at (which joins the macroset), and renumber what remains as
    /// microset `ms_idx`.
    fn split_microset(&mut self, ms_idx: usize)
        requires
            old(self).big_ok(ms_idx as int),
        ensures
            final(self).wf(),
            final(self).n == old(self).n,
            final(self).capacity == old(self).capacity,
            final(self).par == old(self).par,
            final(self).linked() == old(self).linked(),
            final(self).microsets@.len() >= old(self).microsets@.len(),
            forall|j: int|
                0 <= j < old(self).microsets@.len() && j != ms_idx ==> #[trigger] final(self).microsets@[j]
                    == old(self).microsets@[j],
            final(self).microsets@[ms_idx as int].root == old(self).microsets@[ms_idx as int].root,
            forall|x: u32|
                #[trigger] final(self).microsets@[ms_idx as int].nodes@.contains(x) ==> old(
                    self,
                ).microsets@[ms_idx as int].nodes@.contains(x),
            forall|x: int|
                0 <= x < old(self).microsets@[ms_idx as int].nodes@.len() && forest_parents(
                    old(self).microsets@[ms_idx as int].forest,
                )[x] == -1 ==> final(self).microsets@[ms_idx as int].nodes@.contains(
                    #[trigger] old(self).microsets@[ms_idx as int].nodes@[x],
                ),
            forall|j: int|
                old(self).microsets@.len() <= j < final(self).microsets@.len() ==> carved_from(
                    #[trigger] final(self).microsets@[j],
                    old(self).microsets@[ms_idx as int].nodes@,
                    old(self).par@,
                ) && final(self).macroset.members().contains(final(self).microsets@[j].root as int),
    {
        let ghost s0 = *self;
        let ghost m = ms_idx as int;
        let ghost par = self.par@;
        let ghost info0 = self.node_info@;
        let ghost b0 = self.answer_table.b as nat;
        proof {
            self.lemma_big_facts(m);
        }
        let old_nodes: Vec<u32> = self.microsets[ms_idx].nodes.clone();
        let old_mark = self.microsets[ms_idx].mark;
        let old_root = self.microsets[ms_idx].root;
        let ghost forest0 = self.microsets@[m].forest;
        let ghost ps0 = forest_parents(forest0);
        let ghost on = old_nodes@;
        proof {
            assert(on =~= s0.microsets@[m].nodes@);
        }
        let bb = old_nodes.len();
        let local_children = local_children_of(&old_nodes, &self.node_info, Ghost(ps0));
        let b = self.answer_table.b;
        let (new_microsets, carved, Ghost(gv), Ghost(glo), Ghost(ghi)) = carve_subtrees(
            &local_children,
            &old_nodes,
            b,
            Ghost(ps0),
        );
        let ghost ls = new_microsets@;
        let mut remaining: Vec<usize> = Vec::new();
        let mut i: usize = 0;
        while i < bb
            invariant
                i <= bb,
                bb == carved.len(),
                remaining@.no_duplicates(),
                forall|j: int| 0 <= j < remaining.len() ==> #[trigger] remaining@[j] < i,
                forall|x: int| 0 <= x < i ==> (#[trigger] remaining@.contains(x as usize) <==> !carved@[x]),
            decreases bb - i,
        {
            let ghost r0 = remaining@;
            if !carved[i] {
                proof {
                    assert(!remaining@.contains(i)) by {
                        if remaining@.contains(i) {
                            let j = choose|j: int| 0 <= j < remaining.len() && remaining@[j] == i;
                        }
                    }
                }
                remaining.push(i);
            }
            proof {
                assert forall|x: int| 0 <= x < i + 1 implies (#[trigger] remaining@.contains(x as usize) <==> !carved@[x]) by {
                    if x < i {
                        if remaining@.contains(x as usize) {
                            let j = choose|j: int| 0 <= j < remaining.len() && remaining@[j] == x as usize;
                            if j < r0.len() {
                                assert(r0[j] == x as usize);
                                assert(r0.contains(x as usize));
                            }
                        }
                        if r0.contains(x as usize) {
                            let j = choose|j: int| 0 <= j < r0.len() && r0[j] == x as usize;
                            assert(remaining@[j] == x as usize);
                        }
                    } else {
                        if !carved@[x] {
                            assert(remaining@[remaining.len() - 1] == i);
                        } else {
                            assert(remaining@ == r0);
                            if r0.contains(x as usize) {
                                let j = choose|j: int| 0 <= j < r0.len() && r0[j] == x as usize;
                            }
                        }
                    }
                }
            }
            i += 1;
        }
        proof {
            self.lemma_split_counts(s0, m, on, ps0, ls, gv, glo, ghi, carved@, remaining@);
            assert(Self::split_ctx(s0, m, on, ps0, ls, gv, glo, ghi));
        }
        let base = self.microsets.len();
        let mut k: usize = 0;
        proof {
            assert forall|x: int| 0 <= x < on.len() implies owner(ls, x, 0) < 0 by {
            }
            assert(self.split_info_ok(s0, on, ls, base as int, 0));
            assert(self.split_macro_ok(s0, ls, 0)) by {
                assert(self.macro_ok());
            }
        }
        while k < new_microsets.len()
            invariant
                Self::split_ctx(s0, m, on, ps0, ls, gv, glo, ghi),
                old_nodes@ == on,
                par == s0.par@,
                old_mark == s0.microsets@[m].mark,
                k <= ls.len(),
                ls == new_microsets@,
                base == s0.microsets@.len(),
                self.microsets@.len() == base + k,
                self.micro_child_counts@.len() == self.microsets@.len(),
                forall|j: int| 0 <= j < base ==> #[trigger] self.microsets@[j] == s0.microsets@[j],
                forall|j: int|
                    0 <= j < k ==> built_ok(
                        #[trigger] self.microsets@[base + j],
                        member_nodes(on, ls[j].0@),
                        par,
                        on,
                        old_mark,
                    ) && self.microsets@[base + j].root == ls[j].1,
                self.tree_unchanged(s0, on, ls, base as int, k as int),
                self.split_macro_ok(s0, ls, k as int),
            decreases ls.len() - k,
        {
            let ext_root = new_microsets[k].1;
            proof {
                self.lemma_build_pre(s0, m, on, ps0, ls, gv, glo, ghi, base as int, k as int);
            }
            let new_ms_id = self.microsets.len();
            let ghost s1 = *self;
            let (ms, cc) = self.build_ms(&new_microsets[k].0, ext_root, new_ms_id, &old_nodes, old_mark);
            let ghost s2 = *self;
            self.microsets.push(ms);
            self.micro_child_counts.push(cc);
            proof {
                self.lemma_build_step(s0, s1, m, on, ps0, ls, gv, glo, ghi, old_mark, base as int, k as int);
            }
            let ghost s3 = *self;
            proof {
                assert(s3.split_macro_ok(s0, ls, k as int)) by {
                    assert(s3.macroset == s1.macroset);
                    assert(s3.in_macroset == s1.in_macroset);
                    assert(s3.capacity == s1.capacity);
                }
            }
            if !self.in_macroset[ext_root as usize] {
                let lvl = self.node_info[ext_root as usize].level;
                self.macroset.make_set(ext_root, lvl);
                self.in_macroset.set(ext_root as usize, true);
                proof {
                    let ms1 = self.macroset;
                    let ms0 = s0.macroset;
                    let msp = s3.macroset;
                    let e = ext_root as int;
                    self.lemma_records_parents(s0, m, on, ls, base as int, k + 1);
                    assert(!ms0.members().contains(e));
                    assert forall|u: int| #[trigger] ms0.members().contains(u) implies ms1.members().contains(u) && ms1.top_of(u) == ms0.top_of(u)
                        && ms1.level_of(u) == ms0.level_of(u) by {
                        assert(msp.members().contains(u));
                        assert(u != e);
                        assert(0 <= u < msp.len()) by {
                            msp.lemma_member_props(u);
                        }
                    }
                    assert forall|u: int| #[trigger] ms1.members().contains(u) && !ms0.members().contains(u) implies 0 <= u < s0.n
                        && ms1.top_of(u) == u && ms1.level_of(u) == s0.node_info@[u].level by {
                        if u != e {
                            assert(msp.members().contains(u));
                            assert(0 <= u < msp.len()) by {
                                msp.lemma_member_props(u);
                            }
                        } else {
                            assert(self.node_info@[e].level == s0.node_info@[e].level);
                            assert(e < s0.n) by {
                                s0.lemma_big_facts(m);
                                assert(on[gv[k as int]] < s0.par@.len());
                            }
                        }
                    }
                    assert forall|j: int| 0 <= j < k + 1 implies ms1.members().contains((#[trigger] ls[j]).1 as int) by {
                        if j < k {
                            assert(msp.members().contains(ls[j].1 as int));
                        }
                    }
                    assert forall|u: int| 0 <= u < self.capacity implies #[trigger] self.in_macroset@[u] == ms1.members().contains(u) by {
                        if u != e {
                            assert(s3.in_macroset@[u] == msp.members().contains(u));
                        }
                    }
                    assert forall|u: int| 0 <= u < self.capacity && !ms1.members().contains(u) implies #[trigger] ms1.fresh(u) by {
                        assert(msp.fresh(u));
                    }
                }
            } else {
                proof {
                    let msp = s3.macroset;
                    assert forall|j: int| 0 <= j < k + 1 implies msp.members().contains((#[trigger] ls[j]).1 as int) by {
                        if j == k {
                            assert(s3.in_macroset@[ext_root as int] == msp.members().contains(ext_root as int));
                        }
                    }
                }
            }
            k += 1;
        }
        proof {
            self.lemma_remaining_pre(s0, m, on, ps0, ls, gv, glo, ghi, carved@, remaining@, base as int);
        }
        let ghost s4 = *self;
        let (ms, cc) = self.build_ms(&remaining, old_root, ms_idx, &old_nodes, old_mark);
        let ghost s5 = *self;
        self.microsets.set(ms_idx, ms);
        self.micro_child_counts.set(ms_idx, cc);
        proof {
            assert(self.split_final(s0, s4, m, on, ps0, ls, gv, glo, ghi, old_mark, carved@, remaining@, base as int));
            self.lemma_split_done(s0, s4, m, on, ps0, ls, gv, glo, ghi, old_mark, carved@, remaining@, base as int);
            self.lemma_split_result(s0, s4, m, on, ps0, ls, gv, glo, ghi, old_mark, carved@, remaining@, base as int);
        }
    }

    /// Node count.
    #[must_use]
    pub fn len(&self) -> (r: usize)
        ensures
            r == self.spec_len(),
    {
        self.n
    }

    /// Whether no node has been grown; never, as the root is always there.
    #[must_use]
    pub fn is_empty(&self) -> (r: bool)
        ensures
            r == (self.spec_len() == 0),
    {
        self.n == 0
    }
}

} // verus!
