//! Microsets: small groups of tree nodes whose nearest-marked-ancestor
//! queries the answer table resolves in O(1).
use vstd::prelude::*;
use vstd::arithmetic::power2::{pow2, lemma_pow2_strictly_increases, lemma_pow2_adds};
use crate::answer_table::{
    AnswerTable, forest_valid, forest_size, forest_parents, nearest_marked, entry_valid,
    entry_index, packed_ok, field, parents_ordered,
};
use crate::tree::{tree_depths, linked_path, ancestor, lemma_ancestor_step, lemma_ancestor_depth};

verus! {

/// Sentinel value for "no parent" / "tree root".
pub const NO_PARENT: u32 = 0xFFFF_FFFFu32;

/// Per-node metadata: which microset contains this node, its index within
/// the microset, its parent in the tree, and its depth.
#[derive(Clone, Copy, Debug)]
pub struct NodeInfo {
    /// Index of the microset containing this node.
    pub micro: usize,
    /// Position of this node within its microset (0-indexed).
    pub number: u16,
    /// Parent node ID in the tree (u32::MAX if root).
    pub parent: u32,
    /// Depth from tree root (0 for root).
    pub level: u32,
}

impl Default for NodeInfo {
    fn default() -> (r: Self)
        ensures
            r.micro == 0,
            r.number == 0,
            r.parent == 0,
            r.level == 0,
    {
        NodeInfo { micro: 0, number: 0, parent: 0, level: 0 }
    }
}

/// A single microset containing up to `b - 1` nodes.
/// Node IDs are stored in a flat array (`all_nodes`) shared across all
/// microsets; this struct stores the offset into that array (the number of
/// nodes is the number its forest encodes).
#[derive(Clone, Copy, Debug)]
pub struct Microset {
    /// Start index into the flat `all_nodes` array.
    pub nodes_offset: u32,
    /// Mark bitmask. Bit `j` is 0 if node at position `j` is marked (a set name),
    /// 1 if linked (no longer a set name). Initially 0 (all marked).
    pub mark: u32,
    /// Forest encoding (unary child-count bitmask).
    pub forest: u32,
    /// Root of this microset: the parent node (external to the microset).
    /// `u32::MAX` if this microset contains the tree root.
    pub root: u32,
}

/// The microset of node `v` is decodable, fits the table of parameter `b`,
/// lists `v` among its nodes, and lies within `all_nodes`.
pub open spec fn layout_ok(
    info: Seq<NodeInfo>,
    mss: Seq<Microset>,
    all_len: nat,
    b: nat,
    v: int,
) -> bool {
    let m = info[v].micro as int;
    let ms = mss[m];
    let size = forest_size(ms.forest);
    &&& 0 <= m < mss.len()
    &&& forest_valid(ms.forest)
    &&& 1 <= size <= b - 1
    &&& ms.forest < pow2((2 * b - 3) as nat)
    &&& ms.mark < pow2(size)
    &&& info[v].number < size
    &&& ms.nodes_offset + size <= all_len
}

/// What `microfind` returns for `v`: the node at the answer's position in
/// `v`'s microset, or the microset's external root when the answer is 0.
pub open spec fn microfind_spec(
    info: Seq<NodeInfo>,
    mss: Seq<Microset>,
    all: Seq<u32>,
    v: int,
) -> u32 {
    let ms = mss[info[v].micro as int];
    let k = nearest_marked(forest_parents(ms.forest), ms.mark, info[v].number as int);
    if k == 0 {
        ms.root
    } else {
        all[ms.nodes_offset + k - 1]
    }
}

/// Bit `j` of a mark bitmask: the node at position `j` has been linked.
pub open spec fn mark_bit(mark: u32, j: int) -> bool {
    (mark >> (j as u32)) & 1u32 == 1u32
}

/// A microset of forest `forest`, node list `nodes` (position -> node) and
/// external root `root`, numbered `m`, is laid out consistently with the
/// node table `info` and the tree `par`, for table parameter `b`: its forest
/// decodes to between 1 and b-1 nodes and fits the table, its mark covers only
/// its nodes, every node records its microset and position, and the decoded
/// parents are the tree parents inside the microset, the top nodes hanging
/// from `root` (or being the tree root, when `root` is `NO_PARENT`).
pub open spec fn microset_ok(
    nodes: Seq<u32>,
    forest: u32,
    mark: u32,
    root: u32,
    m: int,
    info: Seq<NodeInfo>,
    par: Seq<usize>,
    b: nat,
) -> bool {
    let size = forest_size(forest);
    let ps = forest_parents(forest);
    &&& forest_valid(forest)
    &&& 1 <= size <= b - 1
    &&& nodes.len() == size
    &&& forest < pow2((2 * b - 3) as nat)
    &&& mark < pow2(size)
    &&& forall|j: int|
        0 <= j < size ==> {
            let w = #[trigger] nodes[j] as int;
            &&& 0 <= w < par.len()
            &&& info[w].micro == m
            &&& info[w].number == j
            &&& (ps[j] == -1 ==> if par[w] == w {
                root == NO_PARENT
            } else {
                root == par[w] && info[par[w] as int].micro != m
            })
            &&& (ps[j] != -1 ==> par[w] != w && par[w] == nodes[ps[j]])
        }
}

/// O(1) microfind: find the nearest marked (set-name) ancestor of node `v`
/// within its microset.
///
/// Returns the node ID of the answer, or the microset's external root
/// if no marked ancestor exists within the microset.
pub fn microfind(
    v: u32,
    node_info: &[NodeInfo],
    microsets: &[Microset],
    all_nodes: &[u32],
    answer_table: &AnswerTable,
) -> (r: u32)
    requires
        answer_table.wf(),
        v < node_info.len(),
        all_nodes.len() <= u32::MAX,
        layout_ok(node_info@, microsets@, all_nodes.len() as nat, answer_table.b as nat, v as int),
    ensures
        r == microfind_spec(node_info@, microsets@, all_nodes@, v as int),
{
    let info = node_info[v as usize];
    let ms = microsets[info.micro as usize];
    let ghost b = answer_table.b as nat;
    let ghost size = forest_size(ms.forest);
    let ghost ps = forest_parents(ms.forest);
    proof {
        lemma_table_entry_fits(ms.forest as nat, ms.mark as nat, b, size);
        answer_table.lemma_entry(ms.forest as nat, ms.mark as nat);
        crate::answer_table::lemma_forest_parents_ordered(ms.forest);
        crate::answer_table::lemma_nearest_le(ps, ms.mark, info.number as int);
        assert(info.number * answer_table.ceil_lg_b < 64) by (nonlinear_arith)
            requires
                info.number + 2 <= b,
                (b - 1) * answer_table.ceil_lg_b <= 63,
        ;
    }
    let packed = answer_table.lookup(ms.forest, ms.mark);
    let k = answer_table.extract(packed, info.number);
    proof {
        let j = info.number as int;
        assert(field(packed, (j * answer_table.ceil_lg_b) as u64, answer_table.ceil_lg_b as u64)
            == nearest_marked(ps, ms.mark, j));
    }
    if k == 0 {
        ms.root  // no marked ancestor in microset; return external root
    } else {
        all_nodes[(ms.nodes_offset + k - 1) as usize]  // return node(i, k-1)
    }
}

/// A forest below 2^(2b-3) with a mark below 2^(b-1) indexes inside the
/// table of 2^(3b-4) entries.
pub proof fn lemma_table_entry_fits(forest: nat, mark: nat, b: nat, size: nat)
    requires
        2 <= b <= 16,
        forest < pow2((2 * b - 3) as nat),
        1 <= size <= b - 1,
        mark < pow2(size),
    ensures
        mark < pow2((b - 1) as nat),
        forest < pow2((2 * (b - 1)) as nat),
        entry_index(forest, mark, b) < pow2((3 * b - 4) as nat),
{
    if size < b - 1 {
        lemma_pow2_strictly_increases(size, (b - 1) as nat);
    }
    lemma_pow2_strictly_increases((2 * b - 3) as nat, (2 * (b - 1)) as nat);
    lemma_pow2_adds((2 * b - 3) as nat, (b - 1) as nat);
    let pp = pow2((b - 1) as nat);
    let q = pow2((2 * b - 3) as nat);
    assert(forest * pp + mark < q * pp) by (nonlinear_arith)
        requires
            forest < q,
            mark < pp,
    ;
}

proof fn lemma_bit_cases(x: u32)
    by (bit_vector)
    ensures
        x & 1u32 == 0u32 || x & 1u32 == 1u32,
{
}

/// Walking up inside a microset: from position `j`, the answer `k` of the
/// table is the position + 1 of the nearest unlinked ancestor inside the
/// microset, with a linked path to it; or 0, and then every ancestor inside
/// is linked and the path leads to the external root.
pub proof fn lemma_local_walk(
    nodes: Seq<u32>,
    forest: u32,
    mark: u32,
    root: u32,
    m: int,
    info: Seq<NodeInfo>,
    par: Seq<usize>,
    d: Seq<nat>,
    linked: Seq<bool>,
    b: nat,
    j: int,
)
    requires
        microset_ok(nodes, forest, mark, root, m, info, par, b),
        tree_depths(par, d),
        par.len() < NO_PARENT,
        linked.len() == par.len(),
        forall|jj: int|
            0 <= jj < forest_size(forest) ==> linked[#[trigger] nodes[jj] as int] == mark_bit(
                mark,
                jj,
            ),
        forall|r: int| 0 <= r < par.len() && #[trigger] par[r] == r ==> !linked[r],
        0 <= j < forest_size(forest),
    ensures
        ({
            let k = nearest_marked(forest_parents(forest), mark, j);
            let w = nodes[j] as int;
            &&& k <= forest_size(forest)
            &&& k > 0 ==> {
                let t = nodes[k - 1] as int;
                &&& 0 <= t < par.len()
                &&& !linked[t]
                &&& d[t] <= d[w]
                &&& linked_path(par, linked, w, t, (d[w] - d[t]) as nat)
            }
            &&& k == 0 ==> {
                &&& root != NO_PARENT
                &&& 0 <= root < par.len()
                &&& d[root as int] < d[w]
                &&& linked_path(par, linked, w, root as int, (d[w] - d[root as int]) as nat)
                &&& info[root as int].micro != m
            }
        }),
    decreases j,
{
    let ps = forest_parents(forest);
    crate::answer_table::lemma_forest_parents_ordered(forest);
    let w = nodes[j] as int;
    assert(0 <= w < par.len());
    let k = nearest_marked(ps, mark, j);
    crate::answer_table::lemma_nearest_le(ps, mark, j);
    lemma_bit_cases(mark >> (j as u32));
    if !mark_bit(mark, j) {
        assert(k == j + 1);
        assert(nodes[k - 1] as int == w);
        assert(!linked[w]);
        assert(linked_path(par, linked, w, w, 0));
        assert((d[w] - d[w]) as nat == 0);
    } else {
        assert(linked[w]);
        assert(par[w] != w);
        let p = par[w] as int;
        assert(d[w] == d[p] + 1);
        lemma_ancestor_step(par, w, 0);
        assert(ancestor(par, w, 1) == p) by {
            assert(ancestor(par, w, 0) == w);
        }
        if ps[j] == -1 {
            assert(root == p);
            assert(linked_path(par, linked, w, p, 1)) by {
                assert forall|i: nat| i < 1 implies #[trigger] linked[ancestor(par, w, i)] by {
                    assert(ancestor(par, w, 0) == w);
                }
            }
        } else {
            let pj = ps[j];
            assert(0 <= pj < j);
            lemma_local_walk(nodes, forest, mark, root, m, info, par, d, linked, b, pj);
            assert(nodes[pj] as int == p);
            let k2 = nearest_marked(ps, mark, pj);
            assert(k == k2);
            if k2 > 0 {
                let t = nodes[k2 - 1] as int;
                let len = (d[p] - d[t]) as nat;
                crate::tree::lemma_ancestor_add(par, w, 1, len);
                assert forall|i: nat| i < len + 1 implies #[trigger] linked[ancestor(par, w, i)] by {
                    if i == 0 {
                        assert(ancestor(par, w, 0) == w);
                    } else {
                        crate::tree::lemma_ancestor_add(par, w, 1, (i - 1) as nat);
                        assert(linked[ancestor(par, p, (i - 1) as nat)]);
                    }
                }
                assert((d[w] - d[t]) as nat == len + 1);
                assert(linked_path(par, linked, w, t, (d[w] - d[t]) as nat));
            } else {
                let len = (d[p] - d[root as int]) as nat;
                crate::tree::lemma_ancestor_add(par, w, 1, len);
                assert forall|i: nat| i < len + 1 implies #[trigger] linked[ancestor(par, w, i)] by {
                    if i == 0 {
                        assert(ancestor(par, w, 0) == w);
                    } else {
                        crate::tree::lemma_ancestor_add(par, w, 1, (i - 1) as nat);
                        assert(linked[ancestor(par, p, (i - 1) as nat)]);
                    }
                }
                assert((d[w] - d[root as int]) as nat == len + 1);
                assert(linked_path(par, linked, w, root as int, (d[w] - d[root as int]) as nat));
            }
        }
    }
}

} // verus!
