//! Building the static structure from a parent array: children lists,
//! breadth-first levels, and the partition into microsets.
use vstd::prelude::*;
use crate::microset::NO_PARENT;
use crate::answer_table::{
    decode_counts, pop_done, count_sum, lemma_pop_done_prefix, forest_parents, forest_size, forest_valid,
    forest_counts, as_nats, encode_forest, lemma_encode_bound, lemma_encode_roundtrip,
};
use crate::microset::{NodeInfo, Microset};
use crate::static_tree::ms_nodes;
use vstd::arithmetic::power2::pow2;
use crate::tree::{tree_depths, is_rooted_tree};

verus! {

/// `children[offsets[v]..offsets[v+1]]` lists, without repetition, the
/// nodes other than `root` whose parent is `v`; `slot` tells where each
/// such node stands.
pub open spec fn csr_ok(
    par: Seq<usize>,
    root: int,
    offsets: Seq<u32>,
    children: Seq<u32>,
    slot: Seq<int>,
) -> bool {
    let n = par.len() as int;
    &&& offsets.len() == n + 1
    &&& offsets[0] == 0
    &&& offsets[n] == children.len()
    &&& children.len() + 1 == n
    &&& slot.len() == n
    &&& offsets_mono(offsets, n)
    &&& forall|k: int|
        0 <= k < children.len() ==> #[trigger] children[k] < n && children[k] != root && slot[children[k] as int] == k
    &&& forall|v: int, k: int|
        #![trigger offsets[v], children[k]]
        0 <= v < n && offsets[v] <= k < offsets[v + 1] ==> par[children[k] as int] == v
    &&& forall|c: int|
        0 <= c < n && c != root ==> {
            let k = #[trigger] slot[c];
            &&& offsets[par[c] as int] <= k < offsets[par[c] + 1]
            &&& children[k] == c
        }
}

/// The nodes other than `root` among the first `i`, whose parent is `p`.
spec fn child_count_upto(par: Seq<usize>, root: int, p: int, i: int) -> nat
    decreases i,
{
    if i <= 0 {
        0
    } else {
        child_count_upto(par, root, p, i - 1) + if i - 1 != root && par[i - 1] == p {
            1nat
        } else {
            0nat
        }
    }
}

proof fn lemma_child_count_mono(par: Seq<usize>, root: int, p: int, i: int, j: int)
    requires
        0 <= i <= j,
    ensures
        child_count_upto(par, root, p, i) <= child_count_upto(par, root, p, j),
        child_count_upto(par, root, p, j) <= child_count_upto(par, root, p, i) + (j - i),
    decreases j - i,
{
    if i < j {
        lemma_child_count_mono(par, root, p, i, j - 1);
    }
}

/// The nodes other than `root` among the first `i` whose parent is below `v`.
spec fn below_count(par: Seq<usize>, root: int, i: int, v: int) -> nat
    decreases i,
{
    if i <= 0 {
        0
    } else {
        below_count(par, root, i - 1, v) + if i - 1 != root && par[i - 1] < v {
            1nat
        } else {
            0nat
        }
    }
}

/// Sum of the child counts of the nodes below `v`.
spec fn count_prefix(par: Seq<usize>, root: int, i: int, v: int) -> nat
    decreases v,
{
    if v <= 0 {
        0
    } else {
        count_prefix(par, root, i, v - 1) + child_count_upto(par, root, v - 1, i)
    }
}

proof fn lemma_count_prefix(par: Seq<usize>, root: int, i: int, v: int)
    requires
        0 <= i,
        0 <= v,
    ensures
        count_prefix(par, root, i, v) == below_count(par, root, i, v),
        below_count(par, root, i, v) <= i,
    decreases i, v,
{
    if i > 0 {
        lemma_count_prefix(par, root, i - 1, v);
        lemma_count_prefix_step(par, root, i, v);
    } else {
        lemma_count_prefix_zero(par, root, v);
    }
}

proof fn lemma_count_prefix_zero(par: Seq<usize>, root: int, v: int)
    requires
        0 <= v,
    ensures
        count_prefix(par, root, 0, v) == 0,
    decreases v,
{
    if v > 0 {
        lemma_count_prefix_zero(par, root, v - 1);
    }
}

proof fn lemma_count_prefix_step(par: Seq<usize>, root: int, i: int, v: int)
    requires
        0 < i,
        0 <= v,
    ensures
        count_prefix(par, root, i, v) == count_prefix(par, root, i - 1, v) + if i - 1 != root
            && par[i - 1] < v {
            1nat
        } else {
            0nat
        },
    decreases v,
{
    if v > 0 {
        lemma_count_prefix_step(par, root, i, v - 1);
    }
}

/// The root: the first node that is its own parent.
pub(crate) fn find_root(parents: &[usize]) -> (root: usize)
    requires
        is_rooted_tree(parents@),
    ensures
        root < parents.len(),
        parents[root as int] == root,
{
    let n = parents.len();
    let ghost r = choose|r: int| 0 <= r < n && #[trigger] parents@[r] == r;
    proof {
        let d = choose|d: Seq<nat>| tree_depths(parents@, d);
        lemma_root_exists(parents@, d);
    }
    let mut i: usize = 0;
    while i < n
        invariant
            i <= n == parents.len(),
            0 <= r < n,
            parents@[r] == r,
            forall|j: int| 0 <= j < i ==> #[trigger] parents@[j] != j,
        decreases n - i,
    {
        if parents[i] == i {
            return i;
        }
        i += 1;
    }
    proof {
        assert(parents@[r] != r);
    }
    0
}

/// A tree with depths has a node of depth 0, which is its own parent.
proof fn lemma_root_exists(par: Seq<usize>, d: Seq<nat>)
    requires
        tree_depths(par, d),
        par.len() >= 1,
    ensures
        exists|r: int| 0 <= r < par.len() && #[trigger] par[r] == r,
{
    crate::tree::lemma_ancestor_depth(par, d, 0, d[0]);
    let r = crate::tree::ancestor(par, 0, d[0]);
    assert(par[r] == r);
}

/// Children lists of every node, in one flat array with offsets (CSR).
#[verifier::rlimit(30)]
pub(crate) fn build_children(parents: &[usize], root: usize) -> (r: (Vec<u32>, Vec<u32>, Ghost<Seq<int>>))
    requires
        root < parents.len() < NO_PARENT,
        forall|j: int| 0 <= j < parents.len() ==> #[trigger] parents@[j] < parents.len(),
    ensures
        csr_ok(parents@, root as int, r.0@, r.1@, r.2@),
{
    let n = parents.len();
    let ghost par = parents@;
    let ghost rt = root as int;
    // Pass 1: count children per node
    let mut degree = vec![0u32; n];
    proof {
        assert forall|v: int| 0 <= v < n implies #[trigger] degree@[v] == child_count_upto(par, rt, v, 0) by {
            assert(cloned(0u32, degree@[v]));
        }
    }
    let mut i: usize = 0;
    while i < n
        invariant
            i <= n == parents.len() < NO_PARENT,
            par == parents@,
            rt == root,
            root < n,
            degree@.len() == n,
            forall|j: int| 0 <= j < n ==> #[trigger] par[j] < n,
            forall|v: int| 0 <= v < n ==> #[trigger] degree@[v] == child_count_upto(par, rt, v, i as int),
        decreases n - i,
    {
        let p = parents[i];
        if i != root {
            proof {
                lemma_child_count_mono(par, rt, p as int, 0, i as int);
            }
            degree.set(p, degree[p] + 1);
        }
        proof {
            assert forall|v: int| 0 <= v < n implies #[trigger] degree@[v] == child_count_upto(par, rt, v, i + 1) by {
            }
        }
        i += 1;
    }
    // Pass 2: prefix sum for offsets
    let mut offsets = vec![0u32; n + 1];
    proof {
        assert(cloned(0u32, offsets@[0]));
    }
    let mut i: usize = 0;
    while i < n
        invariant
            i <= n == parents.len() < NO_PARENT,
            par == parents@,
            offsets@.len() == n + 1,
            degree@.len() == n,
            forall|v: int| 0 <= v < n ==> #[trigger] degree@[v] == child_count_upto(par, rt, v, n as int),
            forall|v: int| 0 <= v <= i ==> #[trigger] offsets@[v] == count_prefix(par, rt, n as int, v),
        decreases n - i,
    {
        proof {
            lemma_count_prefix(par, rt, n as int, i + 1);
        }
        offsets.set(i + 1, offsets[i] + degree[i]);
        i += 1;
    }
    proof {
        lemma_count_prefix(par, rt, n as int, n as int);
        assert(below_count(par, rt, n as int, n as int) == n - 1) by {
            lemma_below_all(par, rt, n as int, n as int);
        }
        assert forall|a: int, c: int| 0 <= a <= c <= n implies #[trigger] offsets@[a] <= #[trigger] offsets@[c] by {
            lemma_count_prefix_mono(par, rt, n as int, a, c);
        }
        assert forall|v: int| 0 <= v < n implies offsets@[v] + #[trigger] child_count_upto(par, rt, v, n as int)
            == offsets@[v + 1] by {
            assert(offsets@[v + 1] == count_prefix(par, rt, n as int, v + 1));
        }
    }
    // Pass 3: fill children array
    let num_edges = if n > 0 {
        n - 1
    } else {
        0
    };
    let mut children_flat = vec![0u32; num_edges];
    let mut pos = offsets.clone();
    let ghost mut slot: Seq<int> = Seq::new(n as nat, |c: int| 0int);
    proof {
        assert forall|v: int| 0 <= v <= n implies #[trigger] pos@[v] == offsets@[v] by {
            assert(cloned(offsets@[v], pos@[v]));
        }
    }
    proof {
        reveal(fill_inv);
        reveal(offsets_ok);
    }
    let mut i: usize = 0;
    while i < n
        invariant
            i <= n == parents.len() < NO_PARENT,
            par == parents@,
            rt == root,
            root < n,
            forall|j: int| 0 <= j < n ==> #[trigger] par[j] < n,
            offsets@.len() == n + 1,
            pos@.len() == n + 1,
            slot.len() == n,
            children_flat@.len() == n - 1,
            offsets@[0] == 0,
            offsets@[n as int] == n - 1,
            offsets_ok(par, rt, n as int, offsets@),
            fill_inv(par, rt, n as int, i as int, offsets@, pos@, children_flat@, slot),
        decreases n - i,
    {
        let p = parents[i];
        if i != root {
            let ghost c0 = children_flat@;
            let ghost p0 = pos@;
            let ghost s0 = slot;
            proof {
                reveal(offsets_ok);
                lemma_child_count_mono(par, rt, p as int, i + 1, n as int);
                lemma_fill_pos(par, rt, n as int, i as int, offsets@, pos@, children_flat@, slot);
            }
            let at = pos[p] as usize;
            children_flat.set(at, i as u32);
            proof {
                slot = slot.update(i as int, at as int);
            }
            pos.set(p, pos[p] + 1);
            proof {
                reveal(offsets_ok);
                lemma_fill_step(par, rt, n as int, i as int, offsets@, p0, c0, s0, pos@, children_flat@, slot);
            }
        } else {
            proof {
                lemma_fill_skip(par, rt, n as int, i as int, offsets@, pos@, children_flat@, slot);
            }
        }
        i += 1;
    }
    proof {
        lemma_fill_done(par, rt, n as int, offsets@, pos@, children_flat@, slot);
    }
    (offsets, children_flat, Ghost(slot))
}

/// Offsets never decrease over `0..=n`.
pub open spec fn offsets_mono(offsets: Seq<u32>, n: int) -> bool {
    forall|a: int, c: int| 0 <= a <= c <= n ==> #[trigger] offsets[a] <= #[trigger] offsets[c]
}

/// Sums of child counts grow with the node bound.
proof fn lemma_count_prefix_mono(par: Seq<usize>, root: int, i: int, a: int, c: int)
    requires
        0 <= a <= c,
    ensures
        count_prefix(par, root, i, a) <= count_prefix(par, root, i, c),
    decreases c - a,
{
    if a < c {
        lemma_count_prefix_mono(par, root, i, a, c - 1);
    }
}

/// The node whose offset range holds index `k`.
proof fn owner_of_slot(offsets: Seq<u32>, hi: int, k: int) -> (v: int)
    requires
        0 <= hi < offsets.len(),
        offsets[0] <= k < offsets[hi],
        offsets_mono(offsets, hi),
    ensures
        0 <= v < hi,
        offsets[v] <= k < offsets[v + 1],
    decreases hi,
{
    if offsets[hi - 1] <= k {
        hi - 1
    } else {
        owner_of_slot(offsets, hi - 1, k)
    }
}

/// All nodes but the root have their parent below n.
proof fn lemma_below_all(par: Seq<usize>, root: int, i: int, n: int)
    requires
        0 <= i <= n == par.len(),
        0 <= root < n,
        forall|j: int| 0 <= j < n ==> #[trigger] par[j] < n,
    ensures
        below_count(par, root, i, n) == if root < i {
            i - 1
        } else {
            i
        },
    decreases i,
{
    if i > 0 {
        lemma_below_all(par, root, i - 1, n);
    }
}

/// Offsets never decrease and leave room for each node's children.
#[verifier::opaque]
spec fn offsets_ok(par: Seq<usize>, rt: int, n: int, offsets: Seq<u32>) -> bool {
    &&& offsets_mono(offsets, n)
    &&& forall|v: int|
        0 <= v < n ==> offsets[v] + #[trigger] child_count_upto(par, rt, v, n) == offsets[v + 1]
}

/// The fill of the children array after the first `i` nodes: each node's
/// next free position, the entries written so far, and where each placed node
/// went.
#[verifier::opaque]
spec fn fill_inv(
    par: Seq<usize>,
    rt: int,
    n: int,
    i: int,
    offsets: Seq<u32>,
    pos: Seq<u32>,
    children: Seq<u32>,
    slot: Seq<int>,
) -> bool {
    &&& forall|v: int|
        0 <= v < n ==> #[trigger] pos[v] == offsets[v] + child_count_upto(par, rt, v, i)
    &&& forall|v: int| 0 <= v < n ==> #[trigger] pos[v] <= offsets[v + 1]
    &&& forall|v: int, k: int|
        #![trigger offsets[v], children[k]]
        0 <= v < n && offsets[v] <= k < pos[v] ==> par[children[k] as int] == v && children[k] < i
            && children[k] != rt && slot[children[k] as int] == k
    &&& forall|c: int|
        0 <= c < i && c != rt ==> {
            let k = #[trigger] slot[c];
            &&& offsets[par[c] as int] <= k < pos[par[c] as int]
            &&& children[k] == c
        }
}

proof fn lemma_fill_pos(
    par: Seq<usize>,
    rt: int,
    n: int,
    i: int,
    offsets: Seq<u32>,
    pos: Seq<u32>,
    children: Seq<u32>,
    slot: Seq<int>,
)
    requires
        fill_inv(par, rt, n, i, offsets, pos, children, slot),
        0 <= i < n,
        i != rt,
        0 <= par[i] < n,
        child_count_upto(par, rt, par[i] as int, i + 1) <= child_count_upto(par, rt, par[i] as int, n),
        offsets[par[i] as int] + child_count_upto(par, rt, par[i] as int, n) == offsets[par[i] + 1],
        offsets[par[i] + 1] <= n - 1,
    ensures
        pos[par[i] as int] < offsets[par[i] + 1],
        pos[par[i] as int] < n - 1,
{
    reveal(fill_inv);
}

proof fn lemma_fill_skip(
    par: Seq<usize>,
    rt: int,
    n: int,
    i: int,
    offsets: Seq<u32>,
    pos: Seq<u32>,
    children: Seq<u32>,
    slot: Seq<int>,
)
    requires
        fill_inv(par, rt, n, i, offsets, pos, children, slot),
        0 <= i < n,
        i == rt,
    ensures
        fill_inv(par, rt, n, i + 1, offsets, pos, children, slot),
{
    reveal(fill_inv);
    assert forall|v: int, k: int|
        #![trigger offsets[v], children[k]]
        0 <= v < n && offsets[v] <= k < pos[v] implies par[children[k] as int] == v && children[k] < i + 1
            && children[k] != rt && slot[children[k] as int] == k by {
        assert(offsets[v] == offsets[v] && children[k] == children[k]);
    }
}

/// Once every node is placed, the arrays list each node's children.
proof fn lemma_fill_done(
    par: Seq<usize>,
    rt: int,
    n: int,
    o: Seq<u32>,
    pos: Seq<u32>,
    ch: Seq<u32>,
    slot: Seq<int>,
)
    requires
        par.len() == n,
        forall|j: int| 0 <= j < n ==> #[trigger] par[j] < n,
        0 <= rt < n,
        o.len() == n + 1,
        o[0] == 0,
        o[n] == ch.len(),
        ch.len() + 1 == n,
        slot.len() == n,
        offsets_ok(par, rt, n, o),
        fill_inv(par, rt, n, n, o, pos, ch, slot),
    ensures
        csr_ok(par, rt, o, ch, slot),
{
    assert(offsets_mono(o, n)) by {
        reveal(offsets_ok);
    }
    assert forall|k: int| 0 <= k < ch.len() implies #[trigger] ch[k] < n && ch[k] != rt
        && slot[ch[k] as int] == k by {
        let v = owner_of_slot(o, n, k);
        lemma_fill_full(par, rt, n, o, pos, ch, slot, v);
        lemma_fill_entry(par, rt, n, n, o, pos, ch, slot, v, k);
    }
    assert forall|v: int, k: int|
        #![trigger o[v], ch[k]]
        0 <= v < n && o[v] <= k < o[v + 1] implies par[ch[k] as int] == v by {
        lemma_fill_full(par, rt, n, o, pos, ch, slot, v);
        lemma_fill_entry(par, rt, n, n, o, pos, ch, slot, v, k);
    }
    assert forall|c: int| 0 <= c < n && c != rt implies {
        let k = #[trigger] slot[c];
        &&& o[par[c] as int] <= k < o[par[c] + 1]
        &&& ch[k] == c
    } by {
        lemma_fill_slot(par, rt, n, n, o, pos, ch, slot, c);
        lemma_fill_full(par, rt, n, o, pos, ch, slot, par[c] as int);
    }
}

/// Once every node is placed, each node's range is full.
proof fn lemma_fill_full(
    par: Seq<usize>,
    rt: int,
    n: int,
    o: Seq<u32>,
    pos: Seq<u32>,
    ch: Seq<u32>,
    slot: Seq<int>,
    v: int,
)
    requires
        0 <= v < n,
        offsets_ok(par, rt, n, o),
        fill_inv(par, rt, n, n, o, pos, ch, slot),
    ensures
        pos[v] == o[v + 1],
{
    lemma_fill_next(par, rt, n, n, o, pos, ch, slot, v);
    reveal(offsets_ok);
    assert(o[v] + child_count_upto(par, rt, v, n) == o[v + 1]);
}

/// The entries placed in node `v`'s range so far.
proof fn lemma_fill_entry(
    par: Seq<usize>,
    rt: int,
    n: int,
    i: int,
    offsets: Seq<u32>,
    pos: Seq<u32>,
    children: Seq<u32>,
    slot: Seq<int>,
    v: int,
    k: int,
)
    requires
        fill_inv(par, rt, n, i, offsets, pos, children, slot),
        0 <= v < n,
        offsets[v] <= k < pos[v],
    ensures
        par[children[k] as int] == v,
        children[k] < i,
        children[k] != rt,
        slot[children[k] as int] == k,
{
    reveal(fill_inv);
    assert(offsets[v] == offsets[v] && children[k] == children[k]);
}

/// Node `v`'s next free position.
proof fn lemma_fill_next(
    par: Seq<usize>,
    rt: int,
    n: int,
    i: int,
    offsets: Seq<u32>,
    pos: Seq<u32>,
    children: Seq<u32>,
    slot: Seq<int>,
    v: int,
)
    requires
        fill_inv(par, rt, n, i, offsets, pos, children, slot),
        0 <= v < n,
    ensures
        pos[v] == offsets[v] + child_count_upto(par, rt, v, i),
        pos[v] <= offsets[v + 1],
{
    reveal(fill_inv);
}

/// Where placed node `c` stands.
proof fn lemma_fill_slot(
    par: Seq<usize>,
    rt: int,
    n: int,
    i: int,
    offsets: Seq<u32>,
    pos: Seq<u32>,
    children: Seq<u32>,
    slot: Seq<int>,
    c: int,
)
    requires
        fill_inv(par, rt, n, i, offsets, pos, children, slot),
        0 <= c < i,
        c != rt,
    ensures
        offsets[par[c] as int] <= slot[c] < pos[par[c] as int],
        children[slot[c]] == c,
{
    reveal(fill_inv);
}

/// Two distinct nodes' ranges do not meet.
proof fn lemma_ranges_apart(offsets: Seq<u32>, n: int, v: int, p: int, k: int, hv: int)
    requires
        offsets.len() == n + 1,
        offsets_mono(offsets, n),
        0 <= v < n,
        0 <= p < n,
        v != p,
        offsets[v] <= k < hv,
        hv <= offsets[v + 1],
    ensures
        !(offsets[p] <= k < offsets[p + 1]),
{
    if v < p {
        assert(offsets[v + 1] <= offsets[p]);
    } else {
        assert(offsets[p + 1] <= offsets[v]);
    }
}

proof fn lemma_fill_step(
    par: Seq<usize>,
    rt: int,
    n: int,
    i: int,
    offsets: Seq<u32>,
    p0: Seq<u32>,
    c0: Seq<u32>,
    s0: Seq<int>,
    pos: Seq<u32>,
    children: Seq<u32>,
    slot: Seq<int>,
)
    requires
        fill_inv(par, rt, n, i, offsets, p0, c0, s0),
        0 <= i < n,
        i != rt,
        n <= u32::MAX,
        s0.len() == n,
        offsets[n] <= c0.len(),
        par.len() == n,
        forall|j: int| 0 <= j < n ==> #[trigger] par[j] < n,
        offsets.len() == n + 1,
        p0.len() == n + 1,
        offsets_mono(offsets, n),
        p0[par[i] as int] < offsets[par[i] + 1],
        0 <= p0[par[i] as int] < c0.len(),
        children == c0.update(p0[par[i] as int] as int, i as u32),
        slot == s0.update(i, p0[par[i] as int] as int),
        pos == p0.update(par[i] as int, (p0[par[i] as int] + 1) as u32),
    ensures
        fill_inv(par, rt, n, i + 1, offsets, pos, children, slot),
{
    let p = par[i] as int;
    let at = p0[p] as int;
    lemma_fill_next(par, rt, n, i, offsets, p0, c0, s0, p);
    assert forall|v: int| 0 <= v < n implies #[trigger] pos[v] == offsets[v] + child_count_upto(
        par,
        rt,
        v,
        i + 1,
    ) && pos[v] <= offsets[v + 1] by {
        lemma_fill_next(par, rt, n, i, offsets, p0, c0, s0, v);
    }
    assert forall|v: int, k: int|
        #![trigger offsets[v], children[k]]
        0 <= v < n && offsets[v] <= k < pos[v] implies par[children[k] as int] == v && children[k]
        < i + 1 && children[k] != rt && slot[children[k] as int] == k by {
        lemma_fill_next(par, rt, n, i, offsets, p0, c0, s0, v);
        if k == at {
            if v != p {
                lemma_ranges_apart(offsets, n, v, p, k, p0[v] as int);
            }
        } else {
            assert(k < p0[v]);
            lemma_fill_entry(par, rt, n, i, offsets, p0, c0, s0, v, k);
        }
    }
    assert forall|c: int| 0 <= c < i + 1 && c != rt implies {
        let k = #[trigger] slot[c];
        &&& offsets[par[c] as int] <= k < pos[par[c] as int]
        &&& children[k] == c
    } by {
        if c != i {
            lemma_fill_slot(par, rt, n, i, offsets, p0, c0, s0, c);
            let k = s0[c];
            let q = par[c] as int;
            lemma_fill_next(par, rt, n, i, offsets, p0, c0, s0, q);
            if k == at && q != p {
                lemma_ranges_apart(offsets, n, q, p, k, p0[q] as int);
            }
        }
    }
    reveal(fill_inv);
}


// ---------------------------------------------------------------------------
// Counting
// ---------------------------------------------------------------------------

/// How many entries of `s` equal `g`.
pub open spec fn count_eq(s: Seq<int>, g: int) -> nat
    decreases s.len(),
{
    if s.len() == 0 {
        0
    } else {
        count_eq(s.drop_last(), g) + if s.last() == g {
            1nat
        } else {
            0nat
        }
    }
}

/// Changing one entry moves it from one count to another.
pub(crate) proof fn lemma_count_eq_update(s: Seq<int>, i: int, a: int, g: int)
    requires
        0 <= i < s.len(),
    ensures
        count_eq(s.update(i, a), g) + (if s[i] == g {
            1int
        } else {
            0int
        }) == count_eq(s, g) + (if a == g {
            1int
        } else {
            0int
        }),
    decreases s.len(),
{
    if i < s.len() - 1 {
        assert(s.update(i, a).drop_last() =~= s.drop_last().update(i, a));
        lemma_count_eq_update(s.drop_last(), i, a, g);
    } else {
        assert(s.update(i, a).drop_last() =~= s.drop_last());
    }
}

/// A count never exceeds the length.
pub(crate) proof fn lemma_count_eq_le(s: Seq<int>, g: int)
    ensures
        count_eq(s, g) <= s.len(),
    decreases s.len(),
{
    if s.len() > 0 {
        lemma_count_eq_le(s.drop_last(), g);
    }
}

/// No entry equal to `g`: the count is 0.
proof fn lemma_count_eq_none(s: Seq<int>, g: int)
    requires
        forall|i: int| 0 <= i < s.len() ==> #[trigger] s[i] != g,
    ensures
        count_eq(s, g) == 0,
    decreases s.len(),
{
    if s.len() > 0 {
        lemma_count_eq_none(s.drop_last(), g);
    }
}

/// Every entry equal to `g`: the count is the length.
pub(crate) proof fn lemma_count_eq_all(s: Seq<int>, g: int)
    requires
        forall|i: int| 0 <= i < s.len() ==> #[trigger] s[i] == g,
    ensures
        count_eq(s, g) == s.len(),
    decreases s.len(),
{
    if s.len() > 0 {
        lemma_count_eq_all(s.drop_last(), g);
    }
}

/// Exactly one entry equal to `g`: the count is 1.
proof fn lemma_count_eq_one(s: Seq<int>, g: int, x: int)
    requires
        0 <= x < s.len(),
        s[x] == g,
        forall|i: int| 0 <= i < s.len() && i != x ==> #[trigger] s[i] != g,
    ensures
        count_eq(s, g) == 1,
    decreases s.len(),
{
    if x == s.len() - 1 {
        lemma_count_eq_none(s.drop_last(), g);
    } else {
        lemma_count_eq_one(s.drop_last(), g, x);
    }
}

/// Two distinct entries equal to `g`: the count is at least 2; one: at least 1.
proof fn lemma_count_eq_two(s: Seq<int>, g: int, x: int, y: int)
    requires
        0 <= x < s.len(),
        0 <= y < s.len(),
        s[x] == g,
        s[y] == g,
    ensures
        count_eq(s, g) >= 1,
        x != y ==> count_eq(s, g) >= 2,
{
    lemma_count_eq_update(s, x, g - 1, g);
    let s1 = s.update(x, g - 1);
    if x != y {
        lemma_count_eq_update(s1, y, g - 1, g);
    }
}

/// Entries equal to `w` renamed `v`.
pub open spec fn relabel(s: Seq<int>, w: int, v: int) -> Seq<int> {
    Seq::new(s.len(), |i: int| if s[i] == w {
        v
    } else {
        s[i]
    })
}

/// Renaming `w` to `v` adds the count of `w` to that of `v` and leaves the
/// others.
pub(crate) proof fn lemma_count_relabel(s: Seq<int>, w: int, v: int, h: int)
    requires
        w != v,
    ensures
        count_eq(relabel(s, w, v), v) == count_eq(s, v) + count_eq(s, w),
        h != v && h != w ==> count_eq(relabel(s, w, v), h) == count_eq(s, h),
        count_eq(relabel(s, w, v), w) == 0,
    decreases s.len(),
{
    if s.len() > 0 {
        assert(relabel(s, w, v).drop_last() =~= relabel(s.drop_last(), w, v));
        lemma_count_relabel(s.drop_last(), w, v, h);
    }
}

// ---------------------------------------------------------------------------
// Breadth-first order and levels
// ---------------------------------------------------------------------------

/// `queue` lists every node once, parents before children, starting at the
/// root; `qpos` gives each node's place in it; `levels` gives each node its
/// distance to the root.
pub open spec fn bfs_ok(par: Seq<usize>, root: int, queue: Seq<usize>, levels: Seq<u32>, qpos: Seq<int>) -> bool {
    let n = par.len() as int;
    &&& queue.len() == n
    &&& levels.len() == n
    &&& qpos.len() == n
    &&& forall|j: int| 0 <= j < n ==> #[trigger] queue[j] < n && qpos[queue[j] as int] == j
    &&& forall|x: int| 0 <= x < n ==> 0 <= #[trigger] qpos[x] < n && queue[qpos[x]] == x
    &&& qpos[root] == 0
    &&& levels[root] == 0
    &&& forall|x: int|
        0 <= x < n && x != root ==> qpos[(#[trigger] par[x]) as int] < qpos[x] && levels[x] == levels[par[x] as int] + 1
}

/// Every node has been queued, by induction on its depth: its parent was
/// queued and processed, and processing a node queues its children.
proof fn lemma_all_queued(
    par: Seq<usize>,
    root: int,
    offsets: Seq<u32>,
    children: Seq<u32>,
    slot: Seq<int>,
    qpos: Seq<int>,
    qlen: int,
    d: Seq<nat>,
    x: int,
)
    requires
        csr_ok(par, root, offsets, children, slot),
        tree_depths(par, d),
        is_rooted_tree(par),
        0 <= root < par.len(),
        par[root] == root,
        qpos.len() == par.len(),
        qpos[root] >= 0,
        forall|y: int| 0 <= y < par.len() ==> #[trigger] qpos[y] < qlen,
        forall|p: int, k: int|
            #![trigger offsets[p], children[k]]
            0 <= p < par.len() && 0 <= qpos[p] < qlen && offsets[p] <= k < offsets[p + 1]
                ==> qpos[children[k] as int] >= 0,
        0 <= x < par.len(),
    ensures
        qpos[x] >= 0,
    decreases d[x],
{
    if par[x] == x {
        assert(x == root);
    } else {
        let p = par[x] as int;
        lemma_all_queued(par, root, offsets, children, slot, qpos, qlen, d, p);
        let k = slot[x];
        assert(offsets[p] <= k < offsets[p + 1] && children[k] == x);
    }
}

/// Breadth-first order of the nodes from the root, with each node's depth.
#[verifier::rlimit(80)]
#[verifier::spinoff_prover]
pub(crate) fn bfs_levels(
    root: usize,
    offsets: &Vec<u32>,
    children: &Vec<u32>,
    Ghost(par): Ghost<Seq<usize>>,
    Ghost(slot): Ghost<Seq<int>>,
) -> (r: (Vec<usize>, Vec<u32>, Ghost<Seq<int>>))
    requires
        csr_ok(par, root as int, offsets@, children@, slot),
        is_rooted_tree(par),
        par.len() < NO_PARENT,
        root < par.len(),
        par[root as int] == root,
    ensures
        bfs_ok(par, root as int, r.0@, r.1@, r.2@),
{
    let n = offsets.len() - 1;
    let ghost rt = root as int;
    let mut levels = vec![0u32; n];
    let mut queue: Vec<usize> = Vec::new();
    queue.push(root);
    let ghost mut qpos: Seq<int> = Seq::new(n as nat, |x: int| if x == rt {
        0int
    } else {
        -1int
    });
    proof {
        assert(levels@[rt] == 0) by {
            assert(cloned(0u32, levels@[rt]));
        }
        assert(qpos.drop_last().len() + 1 == n);
        let q0 = Seq::new(n as nat, |x: int| -1int);
        lemma_count_eq_all(q0, -1);
        assert(qpos =~= q0.update(rt, 0));
        lemma_count_eq_update(q0, rt, 0, -1);
    }
    let mut qi: usize = 0;
    while qi < queue.len()
        invariant
            n == par.len() < NO_PARENT,
            offsets@.len() == n + 1,
            csr_ok(par, rt, offsets@, children@, slot),
            is_rooted_tree(par),
            rt == root,
            root < n,
            par[rt] == rt,
            levels@.len() == n,
            qpos.len() == n,
            qi <= queue.len(),
            queue.len() + count_eq(qpos, -1) == n,
            forall|j: int| 0 <= j < queue.len() ==> #[trigger] queue@[j] < n && qpos[queue@[j] as int] == j,
            forall|x: int|
                0 <= x < n ==> -1 <= #[trigger] qpos[x] < queue.len() && (qpos[x] >= 0 ==> queue@[qpos[x]] == x
                    && levels@[x] <= qpos[x]),
            qpos[rt] == 0,
            levels@[rt] == 0,
            forall|x: int|
                0 <= x < n && x != rt && qpos[x] >= 0 ==> 0 <= qpos[(#[trigger] par[x]) as int] < qi && qpos[par[x] as int]
                    < qpos[x] && levels@[x] == levels@[par[x] as int] + 1,
            forall|p: int, k: int|
                #![trigger offsets@[p], children@[k]]
                0 <= p < n && 0 <= qpos[p] < qi && offsets@[p] <= k < offsets@[p + 1] ==> qpos[children@[k] as int]
                    >= 0,
        decreases n - qi,
    {
        proof {
            lemma_count_eq_le(qpos, -1);
        }
        let v = queue[qi];
        let ghost qv = qi as int;
        proof {
            assert(qpos[v as int] == qv);
            assert(levels@[v as int] <= qv);
        }
        qi += 1;
        let lo = offsets[v] as usize;
        let hi = offsets[v + 1] as usize;
        proof {
            assert(offsets@[v + 1] <= offsets@[n as int]);
        }
        let mut k = lo;
        while k < hi
            invariant
                n == par.len() < NO_PARENT,
                offsets@.len() == n + 1,
                csr_ok(par, rt, offsets@, children@, slot),
                rt == root,
                root < n,
                par[rt] == rt,
                is_rooted_tree(par),
                v < n,
                qpos[v as int] == qv,
                levels@[v as int] <= qv,
                qi == qv + 1,
                lo == offsets@[v as int],
                hi == offsets@[v + 1],
                hi <= children@.len(),
                lo <= k <= hi,
                levels@.len() == n,
                qpos.len() == n,
                qi <= queue.len(),
                queue.len() + count_eq(qpos, -1) == n,
                forall|j: int| 0 <= j < queue.len() ==> #[trigger] queue@[j] < n && qpos[queue@[j] as int] == j,
                forall|x: int|
                    0 <= x < n ==> -1 <= #[trigger] qpos[x] < queue.len() && (qpos[x] >= 0 ==> queue@[qpos[x]] == x
                        && levels@[x] <= qpos[x]),
                qpos[rt] == 0,
                levels@[rt] == 0,
                forall|x: int|
                    0 <= x < n && x != rt && qpos[x] >= 0 ==> 0 <= qpos[(#[trigger] par[x]) as int] < qi && qpos[par[x] as int]
                        < qpos[x] && levels@[x] == levels@[par[x] as int] + 1 && (par[x] == v ==> slot[x] < k),
                forall|p: int, kk: int|
                    #![trigger offsets@[p], children@[kk]]
                    0 <= p < n && 0 <= qpos[p] < qv && offsets@[p] <= kk < offsets@[p + 1] ==> qpos[children@[kk] as int]
                        >= 0,
                forall|kk: int| lo <= kk < k ==> qpos[(#[trigger] children@[kk]) as int] >= 0,
            decreases hi - k,
        {
            let c = children[k];
            let ghost ci = c as int;
            proof {
                assert(offsets@[v as int] <= k < offsets@[v + 1]);
                assert(par[ci] == v);
                assert(slot[ci] == k);
                assert(qpos[ci] == -1);
                assert(ci != v);
                lemma_count_eq_update(qpos, ci, queue.len() as int, -1);
                lemma_count_eq_le(qpos, -1);
            }
            levels.set(c as usize, levels[v] + 1);
            proof {
                qpos = qpos.update(ci, queue.len() as int);
            }
            queue.push(c as usize);
            k += 1;
        }
    }
    proof {
        let d = choose|d: Seq<nat>| tree_depths(par, d);
        assert forall|x: int| 0 <= x < n implies #[trigger] qpos[x] >= 0 by {
            lemma_all_queued(par, rt, offsets@, children@, slot, qpos, qi as int, d, x);
        }
        lemma_count_eq_none(qpos, -1);
    }
    (queue, levels, Ghost(qpos))
}


// ---------------------------------------------------------------------------
// Filling a microset
// ---------------------------------------------------------------------------

/// Push the unassigned ones among the first `upto` children of `x` onto
/// `stack`, last child first, and return how many were pushed (with the
/// pushed nodes, in push order).
fn push_unassigned_children(
    x: usize,
    upto: usize,
    offsets: &Vec<u32>,
    children: &Vec<u32>,
    assigned: &Vec<bool>,
    stack: &mut Vec<u32>,
    Ghost(par): Ghost<Seq<usize>>,
    Ghost(root): Ghost<int>,
    Ghost(slot): Ghost<Seq<int>>,
) -> (r: (u32, Ghost<Seq<u32>>))
    requires
        csr_ok(par, root, offsets@, children@, slot),
        par.len() < NO_PARENT,
        x < par.len(),
        offsets@[x as int] + upto <= offsets@[x + 1],
        assigned@.len() == par.len(),
    ensures
        final(stack)@ == old(stack)@ + r.1@,
        r.0 == r.1@.len(),
        r.0 <= par.len(),
        forall|i: int|
            0 <= i < r.1@.len() ==> {
                let c = (#[trigger] r.1@[i]) as int;
                &&& 0 <= c < par.len()
                &&& c != root
                &&& par[c] == x
                &&& !assigned@[c]
            },
        forall|i: int, j: int| 0 <= i < j < r.1@.len() ==> #[trigger] r.1@[i] != #[trigger] r.1@[j],
        forall|i: int, j: int|
            0 <= i < j < r.1@.len() ==> slot[(#[trigger] r.1@[i]) as int] > slot[(#[trigger] r.1@[j]) as int],
        forall|i: int| 0 <= i < r.1@.len() ==> slot[(#[trigger] r.1@[i]) as int] < offsets@[x as int] + upto,
        forall|c: int|
            0 <= c < par.len() && c != root && par[c] == x && !#[trigger] assigned@[c] && slot[c] < offsets@[x as int]
                + upto ==> r.1@.contains(c as u32),
{
    let ghost n = par.len() as int;
    let ghost s0 = stack@;
    let lo = offsets[x] as usize;
    proof {
        assert(offsets@[x + 1] <= offsets@[n]);
    }
    let hi = lo + upto;
    let ghost mut pushed: Seq<u32> = seq![];
    let mut cc: u32 = 0;
    let mut k = hi;
    while k > lo
        invariant
            csr_ok(par, root, offsets@, children@, slot),
            n == par.len(),
            x < n,
            assigned@.len() == n,
            lo == offsets@[x as int],
            hi == offsets@[x as int] + upto,
            hi <= offsets@[x + 1],
            hi <= children@.len(),
            lo <= k <= hi,
            stack@ == s0 + pushed,
            cc == pushed.len(),
            pushed.len() <= hi - k,
            forall|i: int|
                0 <= i < pushed.len() ==> {
                    let c = (#[trigger] pushed[i]) as int;
                    &&& 0 <= c < n
                    &&& c != root
                    &&& par[c] == x
                    &&& !assigned@[c]
                    &&& k <= slot[c] < hi
                },
            forall|i: int, j: int| 0 <= i < j < pushed.len() ==> slot[(#[trigger] pushed[i]) as int] > slot[(#[trigger] pushed[j]) as int],
            forall|c: int|
                0 <= c < n && c != root && par[c] == x && !#[trigger] assigned@[c] && k <= slot[c] < hi
                    ==> pushed.contains(c as u32),
        decreases k - lo,
    {
        k -= 1;
        let c = children[k];
        let ghost old_pushed = pushed;
        proof {
            assert(offsets@[x as int] <= k < offsets@[x + 1]);
            assert(slot[c as int] == k);
        }
        if !assigned[c as usize] {
            stack.push(c);
            proof {
                pushed = pushed.push(c);
            }
            cc += 1;
        }
        proof {
            assert forall|cx: int|
                0 <= cx < n && cx != root && par[cx] == x && !#[trigger] assigned@[cx] && k <= slot[cx] < hi implies pushed.contains(cx as u32) by {
                if slot[cx] == k {
                    assert(children@[k as int] == cx);
                    assert(pushed[pushed.len() - 1] == cx as u32);
                } else {
                    assert(old_pushed.contains(cx as u32));
                    let ii = choose|ii: int| 0 <= ii < old_pushed.len() && old_pushed[ii] == cx as u32;
                    assert(pushed[ii] == cx as u32);
                }
            }
        }
    }
    proof {
        assert forall|i: int, j: int| 0 <= i < j < pushed.len() implies #[trigger] pushed[i] != #[trigger] pushed[j] by {
            assert(slot[pushed[i] as int] > slot[pushed[j] as int]);
        }
    }
    (cc, Ghost(pushed))
}

/// The nodes still waiting on the stack for the open entries of the branch
/// stack `br`: of the children pushed at each open position, as many as its
/// remaining count says, the first pushed first.
pub open spec fn pending(br: Seq<(nat, nat)>, pushed: Seq<Seq<u32>>) -> Seq<u32>
    decreases br.len(),
{
    if br.len() == 0 {
        seq![]
    } else {
        pending(br.drop_last(), pushed) + pushed[br.last().0 as int].take(br.last().1 as int)
    }
}

/// Closed entries hold nothing back.
proof fn lemma_pending_pop_done(br: Seq<(nat, nat)>, pushed: Seq<Seq<u32>>)
    ensures
        pending(pop_done(br), pushed) == pending(br, pushed),
    decreases br.len(),
{
    if br.len() > 0 && br.last().1 == 0 {
        lemma_pending_pop_done(br.drop_last(), pushed);
        assert(pending(br, pushed) =~= pending(br.drop_last(), pushed));
    }
}

/// Recording another position's pushes leaves the earlier entries alone.
proof fn lemma_pending_extend(br: Seq<(nat, nat)>, pushed: Seq<Seq<u32>>, extra: Seq<u32>)
    requires
        forall|i: int| 0 <= i < br.len() ==> #[trigger] br[i].0 < pushed.len(),
    ensures
        pending(br, pushed.push(extra)) == pending(br, pushed),
    decreases br.len(),
{
    if br.len() > 0 {
        lemma_pending_extend(br.drop_last(), pushed, extra);
        assert(br.last() == br[br.len() - 1]);
    }
}

/// Nothing pending: every entry is closed.
pub(crate) proof fn lemma_pending_closed(br: Seq<(nat, nat)>, pushed: Seq<Seq<u32>>)
    requires
        pending(br, pushed).len() == 0,
        forall|i: int| 0 <= i < br.len() ==> #[trigger] br[i].1 <= pushed[br[i].0 as int].len(),
    ensures
        forall|i: int| 0 <= i < br.len() ==> #[trigger] br[i].1 == 0,
    decreases br.len(),
{
    if br.len() > 0 {
        assert(br.last() == br[br.len() - 1]);
        lemma_pending_closed(br.drop_last(), pushed);
        assert forall|i: int| 0 <= i < br.len() implies #[trigger] br[i].1 == 0 by {
            if i < br.len() - 1 {
                assert(br.drop_last()[i] == br[i]);
            }
        }
    }
}

/// The sum of counts grows by the count appended.
pub(crate) proof fn lemma_count_sum_push(cc: Seq<nat>, c: nat)
    ensures
        count_sum(cc.push(c)) == count_sum(cc) + c,
    decreases cc.len(),
{
    if cc.len() > 0 {
        assert(cc.push(c).drop_first() =~= cc.drop_first().push(c));
        assert(cc.push(c)[0] == cc[0]);
        lemma_count_sum_push(cc.drop_first(), c);
    } else {
        assert(cc.push(c).drop_first() =~= Seq::<nat>::empty());
        assert(cc.push(c)[0] == c);
        assert(count_sum(Seq::<nat>::empty()) == 0);
    }
}

/// One step of the depth-first fill, read through the forest decoder: the
/// node popped is the next child of the deepest open entry, or, when none is
/// open, the next of the first nodes; after its children are pushed the
/// stack again holds the first nodes left and the pending children.
/// Returns the decoded parent position (-1 for a first node) and the number
/// of first nodes left.
pub(crate) proof fn lemma_visit_step(
    cs: Seq<nat>,
    pushed: Seq<Seq<u32>>,
    firsts: Seq<u32>,
    rr: int,
    stack: Seq<u32>,
    pn: Seq<u32>,
) -> (res: (int, int))
    requires
        cs.len() == pushed.len(),
        0 <= rr <= firsts.len(),
        stack == firsts.take(rr) + pending(decode_counts(cs).1, pushed),
        stack.len() > 0,
        forall|i: int|
            0 <= i < decode_counts(cs).1.len() ==> #[trigger] decode_counts(cs).1[i].0 < cs.len()
                && decode_counts(cs).1[i].1 <= pushed[decode_counts(cs).1[i].0 as int].len(),
    ensures
        ({
            let (p, rr2) = res;
            let cs2 = cs.push(pn.len());
            let pushed2 = pushed.push(pn);
            let br2 = decode_counts(cs2).1;
            &&& decode_counts(cs2).0 == decode_counts(cs).0.push(p)
            &&& 0 <= rr2 <= rr
            &&& stack.drop_last() + pn == firsts.take(rr2) + pending(br2, pushed2)
            &&& forall|i: int|
                0 <= i < br2.len() ==> #[trigger] br2[i].0 < cs2.len() && br2[i].1 <= pushed2[br2[i].0 as int].len()
            &&& p == -1 ==> rr2 == rr - 1 && stack.last() == firsts[rr - 1]
            &&& p != -1 ==> rr2 == rr && 0 <= p < cs.len() && pushed[p].contains(stack.last())
        }),
{
    let br = decode_counts(cs).1;
    let bp = pop_done(br);
    lemma_pending_pop_done(br, pushed);
    lemma_pop_done_prefix(br);
    let cs2 = cs.push(pn.len());
    let pushed2 = pushed.push(pn);
    let k2 = cs.len();
    assert(cs2.drop_last() =~= cs);
    assert(cs2.last() == pn.len());
    if bp.len() > 0 {
        let (k, r) = bp.last();
        assert(bp.last() == bp[bp.len() - 1]);
        assert(bp[bp.len() - 1] == br[bp.len() - 1]);
        let head = pending(bp.drop_last(), pushed);
        assert(pending(bp, pushed) == head + pushed[k as int].take(r as int));
        assert(stack == firsts.take(rr) + head + pushed[k as int].take(r as int));
        assert(stack.last() == pushed[k as int][r - 1]);
        let mid = bp.drop_last().push((k, (r - 1) as nat));
        let br2 = mid.push((k2, pn.len()));
        assert(decode_counts(cs2).1 == br2);
        assert forall|i: int| 0 <= i < bp.drop_last().len() implies #[trigger] bp.drop_last()[i].0 < pushed.len() by {
            assert(bp.drop_last()[i] == br[i]);
        }
        lemma_pending_extend(bp.drop_last(), pushed, pn);
        assert(mid.drop_last() =~= bp.drop_last());
        assert(pending(mid, pushed2) =~= head + pushed[k as int].take(r - 1));
        assert(br2.drop_last() =~= mid);
        assert(pushed2[k2 as int] == pn);
        assert(pn.take(pn.len() as int) =~= pn);
        assert(pending(br2, pushed2) =~= pending(mid, pushed2) + pn);
        assert(stack.drop_last() =~= firsts.take(rr) + head + pushed[k as int].take(r - 1));
        assert(stack.drop_last() + pn =~= firsts.take(rr) + pending(br2, pushed2));
        assert forall|i: int| 0 <= i < br2.len() implies #[trigger] br2[i].0 < cs2.len() && br2[i].1
            <= pushed2[br2[i].0 as int].len() by {
            if i < bp.len() - 1 {
                assert(br2[i] == br[i]);
            }
        }
        assert(pushed[k as int][r - 1] == stack.last());
        (k as int, rr)
    } else {
        assert(pending(bp, pushed) =~= Seq::<u32>::empty());
        assert(stack =~= firsts.take(rr));
        assert(stack.last() == firsts[rr - 1]);
        assert(stack.drop_last() =~= firsts.take(rr - 1));
        let br2 = seq![(k2, pn.len())];
        assert(decode_counts(cs2).1 == br2);
        assert(br2.drop_last() =~= Seq::<(nat, nat)>::empty());
        assert(pushed2[k2 as int] == pn);
        assert(pn.take(pn.len() as int) =~= pn);
        assert(pending(br2.drop_last(), pushed2) =~= Seq::<u32>::empty());
        assert(br2.last() == (k2, pn.len()));
        assert(pending(br2, pushed2) =~= pn);
        (-1, rr - 1)
    }
}

/// The condition on a node placed at the top of a microset: the tree root
/// when the microset has no external root, else a child of that root.
pub open spec fn top_ok(par: Seq<usize>, root: int, ms_root: u32, s: int) -> bool {
    if ms_root == NO_PARENT {
        s == root
    } else {
        par[s] == ms_root && s != root
    }
}

/// With nothing left on the stack, no node of the group (but `excl`) is
/// left unvisited: each would have an unvisited parent in the group, up to
/// the root, which would be on the stack.
proof fn lemma_none_left(par: Seq<usize>, root: int, d: Seq<nat>, grpc: Seq<int>, g: int, excl: int, x: int)
    requires
        tree_depths(par, d),
        grpc.len() == par.len(),
        0 <= x < par.len(),
        forall|y: int|
            0 <= y < par.len() && grpc[y] == g && y != excl ==> y != root && grpc[(#[trigger] par[y]) as int] == g
                && par[y] != excl,
        par[root] == root,
        forall|y: int| 0 <= y < par.len() && #[trigger] par[y] == y ==> y == root,
    ensures
        !(grpc[x] == g && x != excl),
    decreases d[x],
{
    if grpc[x] == g && x != excl {
        let p = par[x] as int;
        if p != x {
            lemma_none_left(par, root, d, grpc, g, excl, p);
        }
    }
}

/// The nodes visited so far sit at positions `a..` of `all`, each recorded
/// in microset `m` at its position, with the parent the decoder gives it;
/// the children pushed at each position are that node's children.
#[verifier::opaque]
spec fn visited_ok(
    par: Seq<usize>,
    root: int,
    ms_root: u32,
    excl: int,
    g: int,
    a: int,
    m: int,
    grp0: Seq<int>,
    assigned: Seq<bool>,
    info: Seq<NodeInfo>,
    all: Seq<u32>,
    cs: Seq<nat>,
    pushed: Seq<Seq<u32>>,
) -> bool {
    let n = par.len() as int;
    let count = cs.len() as int;
    let ps = decode_counts(cs).0;
    &&& forall|j: int, i: int|
        0 <= j < count && 0 <= i < pushed[j].len() ==> par[(#[trigger] pushed[j][i]) as int] == all[a + j]
    &&& forall|j: int|
        0 <= j < count ==> {
            let w = (#[trigger] all[a + j]) as int;
            &&& 0 <= w < n
            &&& grp0[w] == g
            &&& w != excl
            &&& assigned[w]
            &&& info[w].micro == m
            &&& info[w].number == j
            &&& (ps[j] == -1 ==> top_ok(par, root, ms_root, w))
            &&& (ps[j] != -1 ==> 0 <= ps[j] < j && par[w] != w && par[w] == all[a + ps[j]])
        }
}

/// The stack holds distinct unvisited nodes of the group, each a first node
/// or the child of a node visited here.
#[verifier::opaque]
spec fn stack_ok(
    par: Seq<usize>,
    root: int,
    ms_root: u32,
    excl: int,
    g: int,
    grpc: Seq<int>,
    assigned: Seq<bool>,
    assigned0: Seq<bool>,
    stack: Seq<u32>,
) -> bool {
    let n = par.len() as int;
    &&& forall|i: int|
        0 <= i < stack.len() ==> {
            let s = (#[trigger] stack[i]) as int;
            &&& 0 <= s < n
            &&& grpc[s] == g
            &&& s != excl
            &&& (top_ok(par, root, ms_root, s) || (s != root && assigned[par[s] as int] && !assigned0[par[s] as int]))
        }
    &&& forall|i: int, j: int| 0 <= i < j < stack.len() ==> #[trigger] stack[i] != #[trigger] stack[j]
}

/// The group as visited so far: visited nodes are relabelled -2 and marked
/// assigned; nothing else changes.
#[verifier::opaque]
spec fn group_ok(g: int, excl: int, grp0: Seq<int>, grpc: Seq<int>, assigned: Seq<bool>, assigned0: Seq<bool>) -> bool {
    forall|x: int|
        #![trigger grpc[x]]
        0 <= x < grp0.len() ==> {
            &&& (grpc[x] == -2 <==> assigned[x])
            &&& (grp0[x] != g ==> grpc[x] == grp0[x])
            &&& (grp0[x] == g ==> grpc[x] == g || grpc[x] == -2)
            &&& (x == excl ==> grpc[x] == grp0[x])
            &&& assigned[x] == (assigned0[x] || (grp0[x] == g && grpc[x] == -2))
        }
}

/// Every unvisited node of the group (but `excl`) is on the stack, or its
/// parent is an unvisited node of the group.
spec fn complete_ok(par: Seq<usize>, rt: int, g: int, excl: int, grpc: Seq<int>, stack: Seq<u32>) -> bool {
    forall|x: int|
        #![trigger par[x]]
        0 <= x < par.len() && grpc[x] == g && x != excl ==> stack.contains(x as u32) || (x != rt
            && grpc[par[x] as int] == g && par[x] != excl)
}

/// Only visited nodes have new records, and those keep their parent and
/// level.
#[verifier::opaque]
spec fn info_ok(info0: Seq<NodeInfo>, info: Seq<NodeInfo>, assigned: Seq<bool>, assigned0: Seq<bool>) -> bool {
    &&& forall|x: int|
        0 <= x < info0.len() ==> #[trigger] info[x].parent == info0[x].parent && info[x].level == info0[x].level
    &&& forall|x: int| 0 <= x < info0.len() && (!assigned[x] || assigned0[x]) ==> #[trigger] info[x] == info0[x]
}

/// Each node placed here records where it stands in `all`.
#[verifier::opaque]
spec fn placed_ok(
    a: int,
    m: int,
    count: int,
    assigned0: Seq<bool>,
    assigned: Seq<bool>,
    info: Seq<NodeInfo>,
    all: Seq<u32>,
) -> bool {
    forall|x: int|
        0 <= x < assigned0.len() && #[trigger] assigned[x] && !assigned0[x] ==> info[x].micro == m
            && info[x].number < count && all[a + info[x].number] == x
}

/// Placing one more node keeps every placed node's record.
proof fn lemma_visit_placed(
    a: int,
    m: int,
    count: int,
    assigned0: Seq<bool>,
    assigned_pre: Seq<bool>,
    assigned: Seq<bool>,
    info_pre: Seq<NodeInfo>,
    info: Seq<NodeInfo>,
    all_pre: Seq<u32>,
    all: Seq<u32>,
    vi: int,
)
    requires
        placed_ok(a, m, count, assigned0, assigned_pre, info_pre, all_pre),
        a >= 0,
        all_pre.len() == a + count,
        0 <= vi < assigned0.len(),
        vi <= u32::MAX,
        assigned_pre.len() == assigned0.len(),
        info_pre.len() == assigned0.len(),
        assigned == assigned_pre.update(vi, true),
        all == all_pre.push(vi as u32),
        info.len() == info_pre.len(),
        info[vi].micro == m,
        info[vi].number == count,
        forall|x: int| 0 <= x < assigned0.len() && x != vi ==> #[trigger] info[x] == info_pre[x],
    ensures
        placed_ok(a, m, count + 1, assigned0, assigned, info, all),
{
    reveal(placed_ok);
    assert forall|x: int|
        0 <= x < assigned0.len() && #[trigger] assigned[x] && !assigned0[x] implies info[x].micro == m
            && info[x].number < count + 1 && all[a + info[x].number] == x by {
        if x != vi {
            assert(assigned_pre[x]);
            assert(info[x] == info_pre[x]);
            assert(all[a + info[x].number] == all_pre[a + info[x].number]);
        }
    }
}

/// The children pushed from a node of the group are unvisited nodes of the
/// group.
proof fn lemma_pushed_members(
    par: Seq<usize>,
    root: int,
    excl: int,
    g: int,
    grp0: Seq<int>,
    assigned0: Seq<bool>,
    grpc0: Seq<int>,
    assigned_pre: Seq<bool>,
    assigned: Seq<bool>,
    pn: Seq<u32>,
    vi: int,
)
    requires
        par.len() < NO_PARENT,
        0 <= root < par.len(),
        forall|y: int| 0 <= y < par.len() && #[trigger] par[y] == y ==> y == root,
        grp0.len() == par.len(),
        assigned_pre.len() == par.len(),
        forall|y: int|
            0 <= y < par.len() && y != root && grp0[par[y] as int] == g && par[y] != excl && !#[trigger] assigned0[y]
                ==> grp0[y] == g && y != excl,
        group_ok(g, excl, grp0, grpc0, assigned_pre, assigned0),
        0 <= vi < par.len(),
        grp0[vi] == g,
        vi != excl,
        assigned == assigned_pre.update(vi, true),
        forall|i: int|
            0 <= i < pn.len() ==> {
                let c = (#[trigger] pn[i]) as int;
                &&& 0 <= c < par.len()
                &&& c != root
                &&& par[c] == vi
                &&& !assigned[c]
            },
    ensures
        forall|i: int|
            0 <= i < pn.len() ==> grp0[(#[trigger] pn[i]) as int] == g && pn[i] != excl && !assigned0[pn[i] as int]
                && grpc0[pn[i] as int] == g && pn[i] != vi,
{
    reveal(group_ok);
    assert forall|i: int| 0 <= i < pn.len() implies grp0[(#[trigger] pn[i]) as int] == g && pn[i] != excl
        && !assigned0[pn[i] as int] && grpc0[pn[i] as int] == g && pn[i] != vi by {
        let c = pn[i] as int;
        assert(c != vi);
        assert(assigned[c] == assigned_pre[c]);
        assert(grpc0[c] == -2 <==> assigned_pre[c]);
        assert(assigned_pre[c] == (assigned0[c] || (grp0[c] == g && grpc0[c] == -2)));
    }
}

/// Visiting a node keeps the visited nodes' records.
proof fn lemma_visit_visited(
    par: Seq<usize>,
    root: int,
    ms_root: u32,
    excl: int,
    g: int,
    a: int,
    m: int,
    grp0: Seq<int>,
    assigned_pre: Seq<bool>,
    assigned: Seq<bool>,
    info_pre: Seq<NodeInfo>,
    info: Seq<NodeInfo>,
    all_pre: Seq<u32>,
    all: Seq<u32>,
    pn: Seq<u32>,
    cs0: Seq<nat>,
    cs: Seq<nat>,
    pushed0: Seq<Seq<u32>>,
    pushed: Seq<Seq<u32>>,
    vi: int,
    p: int,
)
    requires
        par.len() < NO_PARENT,
        a >= 0,
        visited_ok(par, root, ms_root, excl, g, a, m, grp0, assigned_pre, info_pre, all_pre, cs0, pushed0),
        0 <= vi < par.len(),
        grp0[vi] == g,
        vi != excl,
        !assigned_pre[vi],
        assigned_pre.len() == par.len(),
        all_pre.len() == a + cs0.len(),
        all == all_pre.push(vi as u32),
        assigned == assigned_pre.update(vi, true),
        info.len() == par.len(),
        info_pre.len() == par.len(),
        info[vi].micro == m,
        info[vi].number == cs0.len(),
        forall|x: int| 0 <= x < par.len() && x != vi ==> #[trigger] info[x] == info_pre[x],
        forall|i: int| 0 <= i < pn.len() ==> par[(#[trigger] pn[i]) as int] == vi,
        cs == cs0.push(pn.len()),
        pushed == pushed0.push(pn),
        cs0.len() == pushed0.len(),
        decode_counts(cs).0 == decode_counts(cs0).0.push(p),
        p == -1 ==> top_ok(par, root, ms_root, vi),
        p != -1 ==> 0 <= p < cs0.len() && pushed0[p].contains(vi as u32),
    ensures
        visited_ok(par, root, ms_root, excl, g, a, m, grp0, assigned, info, all, cs, pushed),
{
    reveal(visited_ok);
    let n = par.len() as int;
    let count = cs0.len() as int;
    let ps0 = decode_counts(cs0).0;
    let ps = decode_counts(cs).0;
    crate::answer_table::lemma_decode_shape(cs0);
    assert forall|j: int, i: int|
        0 <= j < count + 1 && 0 <= i < pushed[j].len() implies par[(#[trigger] pushed[j][i]) as int] == all[a + j] by {
        if j < count {
            assert(pushed[j] == pushed0[j]);
            assert(all[a + j] == all_pre[a + j]);
        } else {
            assert(pushed[j] == pn);
        }
    }
    if p != -1 {
        let i = choose|i: int| 0 <= i < pushed0[p].len() && pushed0[p][i] == vi as u32;
        assert(par[pushed0[p][i] as int] == all_pre[a + p]);
        assert(assigned_pre[all_pre[a + p] as int]);
    }
    assert forall|j: int| 0 <= j < count + 1 implies {
        let w = (#[trigger] all[a + j]) as int;
        &&& 0 <= w < n
        &&& grp0[w] == g
        &&& w != excl
        &&& assigned[w]
        &&& info[w].micro == m
        &&& info[w].number == j
        &&& (ps[j] == -1 ==> top_ok(par, root, ms_root, w))
        &&& (ps[j] != -1 ==> 0 <= ps[j] < j && par[w] != w && par[w] == all[a + ps[j]])
    } by {
        if j < count {
            let w = all_pre[a + j] as int;
            assert(all[a + j] == all_pre[a + j]);
            assert(ps[j] == ps0[j]);
            assert(assigned_pre[w]);
            assert(w != vi);
            if ps0[j] != -1 {
                assert(all[a + ps0[j]] == all_pre[a + ps0[j]]);
            }
        } else {
            assert(all[a + j] == vi as u32);
            assert(ps[j] == p);
            if p != -1 {
                assert(all[a + p] == all_pre[a + p]);
            }
        }
    }
}

/// Visiting a node keeps the stack's contents proper.
proof fn lemma_visit_stack(
    par: Seq<usize>,
    root: int,
    ms_root: u32,
    excl: int,
    g: int,
    assigned0: Seq<bool>,
    grpc0: Seq<int>,
    grpc: Seq<int>,
    assigned_pre: Seq<bool>,
    assigned: Seq<bool>,
    st: Seq<u32>,
    stack: Seq<u32>,
    pn: Seq<u32>,
    vi: int,
)
    requires
        par.len() < NO_PARENT,
        0 <= root < par.len(),
        ms_root != NO_PARENT ==> excl == ms_root,
        forall|y: int| 0 <= y < par.len() ==> #[trigger] par[y] < par.len(),
        stack_ok(par, root, ms_root, excl, g, grpc0, assigned_pre, assigned0, st),
        st.len() > 0,
        vi == st.last(),
        0 <= vi < par.len(),
        !assigned_pre[vi],
        !assigned0[vi],
        vi != excl,
        assigned_pre.len() == par.len(),
        grpc0.len() == par.len(),
        assigned == assigned_pre.update(vi, true),
        grpc == grpc0.update(vi, -2),
        stack == st.drop_last() + pn,
        forall|i: int|
            0 <= i < pn.len() ==> {
                let c = (#[trigger] pn[i]) as int;
                &&& 0 <= c < par.len()
                &&& c != root
                &&& par[c] == vi
                &&& grpc0[c] == g
                &&& c != excl
                &&& c != vi
            },
        forall|i: int, j: int| 0 <= i < j < pn.len() ==> #[trigger] pn[i] != #[trigger] pn[j],
    ensures
        stack_ok(par, root, ms_root, excl, g, grpc, assigned, assigned0, stack),
{
    reveal(stack_ok);
    let n = par.len() as int;
    assert(st[st.len() - 1] == vi as u32);
    assert forall|i: int| 0 <= i < stack.len() implies {
        let s = (#[trigger] stack[i]) as int;
        &&& 0 <= s < n
        &&& grpc[s] == g
        &&& s != excl
        &&& (top_ok(par, root, ms_root, s) || (s != root && assigned[par[s] as int] && !assigned0[par[s] as int]))
    } by {
        if i < st.len() - 1 {
            assert(stack[i] == st[i]);
            assert(st[i] != st[st.len() - 1]);
            let s = st[i] as int;
            if !top_ok(par, root, ms_root, s) {
                assert(assigned_pre[par[s] as int]);
            }
        } else {
            assert(stack[i] == pn[i - (st.len() - 1)]);
        }
    }
    assert forall|i: int, j: int| 0 <= i < j < stack.len() implies #[trigger] stack[i] != #[trigger] stack[j] by {
        if j < st.len() - 1 {
            assert(stack[i] == st[i] && stack[j] == st[j]);
        } else if i >= st.len() - 1 {
            assert(stack[i] == pn[i - (st.len() - 1)] && stack[j] == pn[j - (st.len() - 1)]);
        } else {
            let s = st[i] as int;
            let c = pn[j - (st.len() - 1)] as int;
            assert(stack[i] == st[i] && stack[j] == pn[j - (st.len() - 1)]);
            if s == c {
                if top_ok(par, root, ms_root, s) {
                    assert(ms_root != NO_PARENT);
                } else {
                    assert(assigned_pre[par[s] as int]);
                }
            }
        }
    }
}

/// Visiting a node keeps the group's labels and the records.
proof fn lemma_visit_group(
    excl: int,
    g: int,
    grp0: Seq<int>,
    assigned0: Seq<bool>,
    info0: Seq<NodeInfo>,
    grpc0: Seq<int>,
    grpc: Seq<int>,
    assigned_pre: Seq<bool>,
    assigned: Seq<bool>,
    info_pre: Seq<NodeInfo>,
    info: Seq<NodeInfo>,
    vi: int,
)
    requires
        group_ok(g, excl, grp0, grpc0, assigned_pre, assigned0),
        info_ok(info0, info_pre, assigned_pre, assigned0),
        g >= 0,
        0 <= vi < grp0.len(),
        grp0[vi] == g,
        grpc0[vi] == g,
        vi != excl,
        !assigned0[vi],
        grpc0.len() == grp0.len(),
        assigned_pre.len() == grp0.len(),
        info0.len() == grp0.len(),
        info_pre.len() == grp0.len(),
        info.len() == grp0.len(),
        assigned == assigned_pre.update(vi, true),
        grpc == grpc0.update(vi, -2),
        info[vi].parent == info_pre[vi].parent,
        info[vi].level == info_pre[vi].level,
        forall|x: int| 0 <= x < grp0.len() && x != vi ==> #[trigger] info[x] == info_pre[x],
    ensures
        group_ok(g, excl, grp0, grpc, assigned, assigned0),
        info_ok(info0, info, assigned, assigned0),
{
    reveal(group_ok);
    reveal(info_ok);
    assert forall|x: int| #![trigger grpc[x]] 0 <= x < grp0.len() implies {
        &&& (grpc[x] == -2 <==> assigned[x])
        &&& (grp0[x] != g ==> grpc[x] == grp0[x])
        &&& (grp0[x] == g ==> grpc[x] == g || grpc[x] == -2)
        &&& (x == excl ==> grpc[x] == grp0[x])
        &&& assigned[x] == (assigned0[x] || (grp0[x] == g && grpc[x] == -2))
    } by {
        assert(grpc0[x] == -2 <==> assigned_pre[x]);
    }
    assert forall|x: int| 0 <= x < info0.len() implies #[trigger] info[x].parent == info0[x].parent
        && info[x].level == info0[x].level by {
        assert(info_pre[x].parent == info0[x].parent);
    }
    assert forall|x: int| 0 <= x < info0.len() && (!assigned[x] || assigned0[x]) implies #[trigger] info[x]
        == info0[x] by {
        if x != vi {
            assert(info[x] == info_pre[x]);
            assert(info_pre[x] == info0[x]);
        }
    }
}

/// Visiting a node keeps every unvisited node of the group reachable from
/// the stack.
proof fn lemma_visit_complete(
    par: Seq<usize>,
    root: int,
    excl: int,
    g: int,
    grpc0: Seq<int>,
    grpc: Seq<int>,
    st: Seq<u32>,
    stack: Seq<u32>,
    pn: Seq<u32>,
    vi: int,
)
    requires
        par.len() < NO_PARENT,
        0 <= root < par.len(),
        par[root] == root,
        forall|y: int| 0 <= y < par.len() ==> #[trigger] par[y] < par.len(),
        complete_ok(par, root, g, excl, grpc0, st),
        g >= 0,
        st.len() > 0,
        vi == st.last(),
        0 <= vi < par.len(),
        grpc0.len() == par.len(),
        grpc == grpc0.update(vi, -2),
        stack == st.drop_last() + pn,
        forall|c: int|
            0 <= c < par.len() && c != root && par[c] == vi && #[trigger] grpc0[c] == g ==> pn.contains(c as u32),
    ensures
        complete_ok(par, root, g, excl, grpc, stack),
{
    assert(st[st.len() - 1] == vi as u32);
    assert forall|x: int|
        #![trigger par[x]]
        (0 <= x < par.len() && grpc[x] == g && x != excl) implies (stack.contains(x as u32) || (x != root
            && grpc[par[x] as int] == g && par[x] != excl)) by {
        assert(x != vi);
        assert(grpc0[x] == g);
        let px = par[x];
        assert(st.contains(x as u32) || (x != root && grpc0[px as int] == g && px != excl));
        if st.contains(x as u32) {
            let i = choose|i: int| 0 <= i < st.len() && st[i] == x as u32;
            assert(i != st.len() - 1);
            assert(stack[i] == x as u32);
            assert(stack.contains(x as u32));
        } else if par[x] == vi {
            assert(pn.contains(x as u32));
            let i = choose|i: int| 0 <= i < pn.len() && pn[i] == x as u32;
            assert(stack[st.len() - 1 + i] == x as u32);
            assert(stack.contains(x as u32));
        } else {
            assert(x != root);
        }
    }
}

/// Visit, depth first from the nodes on `stack`, the nodes of group `g`
/// (all but `excl`), and place them, in visiting order, in a new microset
/// with external root `ms_root`: each node's position and child count go
/// into the forest encoding.
#[verifier::rlimit(100)]
#[verifier::spinoff_prover]
/// `x` may come before `y` among the nodes of one microset: of two nodes
/// with the same parent (neither of them the tree root), the one earlier in
/// the children lists comes first.
pub open spec fn slot_before(par: Seq<usize>, root: int, slot: Seq<int>, x: u32, y: u32) -> bool {
    (x as int != root && y as int != root && par[x as int] == par[y as int]) ==> slot[x as int] < slot[
        y as int]
}

/// The list `nodes` takes siblings in the order of the children lists.
pub open spec fn siblings_by_slot(par: Seq<usize>, root: int, slot: Seq<int>, nodes: Seq<u32>) -> bool {
    forall|i: int, j: int| 0 <= i < j < nodes.len() ==> #[trigger] slot_before(par, root, slot, nodes[i], nodes[j])
}

/// Taking the top `v` of the stack and pushing its children, last child
/// first, keeps siblings in the order of the children lists.
proof fn lemma_slot_step(
    par: Seq<usize>,
    root: int,
    slot: Seq<int>,
    nodes0: Seq<u32>,
    st: Seq<u32>,
    pn: Seq<u32>,
    v: u32,
)
    requires
        st.len() > 0,
        st[st.len() - 1] == v,
        v as int != root ==> par[v as int] != v,
        siblings_by_slot(par, root, slot, nodes0),
        forall|a: int, j: int|
            0 <= a < nodes0.len() && 0 <= j < st.len() ==> #[trigger] slot_before(par, root, slot, nodes0[a], st[j]),
        forall|i: int, j: int| 0 <= i < j < st.len() ==> #[trigger] slot_before(par, root, slot, st[j], st[i]),
        forall|a: int| 0 <= a < nodes0.len() ==> (#[trigger] nodes0[a]) as int == root || par[nodes0[a] as int] != v,
        forall|j: int| 0 <= j < st.len() - 1 ==> (#[trigger] st[j]) as int == root || par[st[j] as int] != v,
        forall|j: int| 0 <= j < pn.len() ==> (#[trigger] pn[j]) as int != root && par[pn[j] as int] == v,
        forall|a: int, b: int| 0 <= a < b < pn.len() ==> slot[(#[trigger] pn[a]) as int] > slot[(#[trigger] pn[b]) as int],
    ensures
        siblings_by_slot(par, root, slot, nodes0.push(v)),
        forall|a: int, j: int|
            0 <= a < nodes0.push(v).len() && 0 <= j < (st.drop_last() + pn).len() ==> #[trigger] slot_before(
                par,
                root,
                slot,
                nodes0.push(v)[a],
                (st.drop_last() + pn)[j],
            ),
        forall|i: int, j: int|
            0 <= i < j < (st.drop_last() + pn).len() ==> #[trigger] slot_before(
                par,
                root,
                slot,
                (st.drop_last() + pn)[j],
                (st.drop_last() + pn)[i],
            ),
{
    let e1 = nodes0.push(v);
    let s1 = st.drop_last() + pn;
    let l = st.len() - 1;
    assert forall|a: int, b: int| 0 <= a < b < e1.len() implies #[trigger] slot_before(par, root, slot, e1[a], e1[b]) by {
        if b < nodes0.len() {
            assert(slot_before(par, root, slot, nodes0[a], nodes0[b]));
        } else {
            assert(slot_before(par, root, slot, nodes0[a], st[l]));
        }
    }
    assert forall|a: int, j: int| 0 <= a < e1.len() && 0 <= j < s1.len() implies #[trigger] slot_before(
        par,
        root,
        slot,
        e1[a],
        s1[j],
    ) by {
        if j < l {
            assert(s1[j] == st[j]);
            if a < nodes0.len() {
                assert(slot_before(par, root, slot, nodes0[a], st[j]));
            } else {
                assert(slot_before(par, root, slot, st[l], st[j]));
            }
        } else {
            let c = pn[j - l];
            assert(s1[j] == c);
            if a < nodes0.len() {
                assert(nodes0[a] as int == root || par[nodes0[a] as int] != v);
            }
        }
    }
    assert forall|i: int, j: int| 0 <= i < j < s1.len() implies #[trigger] slot_before(par, root, slot, s1[j], s1[i]) by {
        if j < l {
            assert(s1[j] == st[j] && s1[i] == st[i]);
            assert(slot_before(par, root, slot, st[j], st[i]));
        } else if i < l {
            let c = pn[j - l];
            assert(s1[j] == c);
            assert(s1[i] == st[i]);
            assert(st[i] as int == root || par[st[i] as int] != v);
        } else {
            assert(s1[j] == pn[j - l] && s1[i] == pn[i - l]);
            assert(slot[pn[i - l] as int] > slot[pn[j - l] as int]);
        }
    }
}

/// No node reached so far hangs from the node `v` taken from the stack: a
/// node reached here hangs from a node reached before it or from the
/// microset's external root, and one waiting on the stack from a node
/// reached here or from that root.
proof fn lemma_not_below(
    par: Seq<usize>,
    root: int,
    ms_root: u32,
    excl: int,
    g: int,
    a: int,
    m: int,
    grp0: Seq<int>,
    grpc: Seq<int>,
    assigned: Seq<bool>,
    assigned0: Seq<bool>,
    info: Seq<NodeInfo>,
    all: Seq<u32>,
    cs: Seq<nat>,
    pushed: Seq<Seq<u32>>,
    st: Seq<u32>,
    v: u32,
)
    requires
        visited_ok(par, root, ms_root, excl, g, a, m, grp0, assigned, info, all, cs, pushed),
        stack_ok(par, root, ms_root, excl, g, grpc, assigned, assigned0, st),
        all.len() == a + cs.len(),
        0 <= a,
        st.len() > 0,
        st[st.len() - 1] == v,
        0 <= v < assigned.len(),
        !assigned[v as int],
        v as int != excl,
        ms_root != NO_PARENT ==> excl == ms_root,
    ensures
        forall|i: int|
            0 <= i < all.subrange(a, all.len() as int).len() ==> (#[trigger] all.subrange(a, all.len() as int)[i]) as int
                == root || par[all.subrange(a, all.len() as int)[i] as int] != v,
        forall|j: int| 0 <= j < st.len() - 1 ==> (#[trigger] st[j]) as int == root || par[st[j] as int] != v,
{
    reveal(visited_ok);
    reveal(stack_ok);
    let ps = decode_counts(cs).0;
    let e = all.subrange(a, all.len() as int);
    assert forall|i: int| 0 <= i < e.len() implies (#[trigger] e[i]) as int == root || par[e[i] as int] != v by {
        let w = all[a + i] as int;
        assert(e[i] == all[a + i]);
        if ps[i] != -1 {
            let u = all[a + ps[i]] as int;
            assert(assigned[u]);
        }
    }
    assert forall|j: int| 0 <= j < st.len() - 1 implies (#[trigger] st[j]) as int == root || par[st[j] as int] != v by {
        let sj = st[j] as int;
        assert(0 <= sj < par.len());
    }
}

fn fill_microset(
    stack: Vec<u32>,
    ms_root: u32,
    offsets: &Vec<u32>,
    children: &Vec<u32>,
    assigned: &mut Vec<bool>,
    node_info: &mut Vec<NodeInfo>,
    microsets: &mut Vec<Microset>,
    all_nodes: &mut Vec<u32>,
    Ghost(par): Ghost<Seq<usize>>,
    Ghost(root): Ghost<int>,
    Ghost(slot): Ghost<Seq<int>>,
    Ghost(grp0): Ghost<Seq<int>>,
    Ghost(g): Ghost<int>,
    Ghost(excl): Ghost<int>,
)
    requires
        par.len() < NO_PARENT,
        is_rooted_tree(par),
        csr_ok(par, root, offsets@, children@, slot),
        0 <= root < par.len(),
        par[root] == root,
        old(assigned)@.len() == par.len(),
        old(node_info)@.len() == par.len(),
        grp0.len() == par.len(),
        forall|x: int| 0 <= x < par.len() ==> (#[trigger] grp0[x] == -2 <==> old(assigned)@[x]),
        old(microsets)@.len() <= old(all_nodes)@.len(),
        old(all_nodes)@.len() + count_eq(grp0, g) <= par.len(),
        count_eq(grp0, g) <= 16 + (if 0 <= excl < par.len() {
            1int
        } else {
            0int
        }),
        0 <= excl < par.len() ==> grp0[excl] == g,
        ms_root != NO_PARENT ==> excl == ms_root,
        g >= 0,
        forall|i: int|
            0 <= i < stack@.len() ==> {
                let s = (#[trigger] stack@[i]) as int;
                &&& 0 <= s < par.len()
                &&& grp0[s] == g
                &&& s != excl
                &&& top_ok(par, root, ms_root, s)
            },
        forall|i: int, j: int| 0 <= i < j < stack@.len() ==> #[trigger] stack@[i] != #[trigger] stack@[j],
        forall|i: int, j: int| 0 <= i < j < stack@.len() ==> #[trigger] slot_before(par, root, slot, stack@[j], stack@[i]),
        forall|y: int|
            0 <= y < par.len() && y != root && grp0[par[y] as int] == g && par[y] != excl && !#[trigger] old(
                assigned,
            )@[y] ==> grp0[y] == g && y != excl,
        forall|x: int|
            0 <= x < par.len() && grp0[x] == g && x != excl ==> stack@.contains(x as u32) || (x != root
                && grp0[(#[trigger] par[x]) as int] == g && par[x] != excl),
    ensures
        ({
            let n = par.len() as int;
            let m = old(microsets)@.len() as int;
            let a = old(all_nodes)@.len() as int;
            let cnt = final(all_nodes)@.len() - a;
            let ms = final(microsets)@[m];
            let ps = forest_parents(ms.forest);
            &&& cnt + (if 0 <= excl < n {
                1int
            } else {
                0int
            }) == count_eq(grp0, g)
            &&& final(all_nodes)@.subrange(0, a) == old(all_nodes)@
            &&& final(microsets)@.len() == m + 1
            &&& forall|i: int| 0 <= i < m ==> #[trigger] final(microsets)@[i] == old(microsets)@[i]
            &&& ms.nodes_offset == a
            &&& ms.mark == 0
            &&& ms.root == ms_root
            &&& forest_size(ms.forest) == cnt
            &&& cnt >= 1 ==> forest_valid(ms.forest) && ms.forest < pow2((2 * cnt - 1) as nat)
            &&& forall|j: int|
                0 <= j < cnt ==> {
                    let w = (#[trigger] final(all_nodes)@[a + j]) as int;
                    &&& 0 <= w < n
                    &&& grp0[w] == g
                    &&& w != excl
                    &&& final(node_info)@[w].micro == m
                    &&& final(node_info)@[w].number == j
                    &&& (ps[j] == -1 ==> top_ok(par, root, ms_root, w))
                    &&& (ps[j] != -1 ==> par[w] != w && par[w] == final(all_nodes)@[a + ps[j]])
                }
            &&& final(assigned)@.len() == n
            &&& final(node_info)@.len() == n
            &&& siblings_by_slot(par, root, slot, final(all_nodes)@.subrange(a, final(all_nodes)@.len() as int))
            &&& forall|x: int|
                0 <= x < n && #[trigger] final(assigned)@[x] && !old(assigned)@[x] ==> final(node_info)@[x].micro
                    == m && final(node_info)@[x].number < cnt && final(all_nodes)@[a + final(node_info)@[x].number]
                    == x
            &&& forall|x: int|
                0 <= x < n ==> #[trigger] final(assigned)@[x] == (old(assigned)@[x] || (grp0[x] == g && x
                    != excl))
            &&& forall|x: int|
                0 <= x < n ==> #[trigger] final(node_info)@[x].parent == old(node_info)@[x].parent
                    && final(node_info)@[x].level == old(node_info)@[x].level
            &&& forall|x: int|
                0 <= x < n && !(grp0[x] == g && x != excl) ==> #[trigger] final(node_info)@[x] == old(
                    node_info,
                )@[x]
        }),
{
    let ghost n = par.len() as int;
    let ghost m = microsets@.len() as int;
    let ghost a = all_nodes@.len() as int;
    let ghost assigned0 = assigned@;
    let ghost info0 = node_info@;
    let ghost all0 = all_nodes@;
    let ghost firsts = stack@;
    let ghost mss0 = microsets@;
    let ms_id = microsets.len();
    let nodes_offset = all_nodes.len() as u32;
    let mut child_counts = [0u32; 16];
    let mut count: usize = 0;
    let mut stack = stack;
    let ghost mut cs: Seq<nat> = seq![];
    let ghost mut pushed: Seq<Seq<u32>> = seq![];
    let ghost mut rr: int = firsts.len() as int;
    let ghost mut grpc: Seq<int> = grp0;
    proof {
        assert(firsts.take(rr) =~= firsts);
        assert(decode_counts(cs).1 =~= Seq::<(nat, nat)>::empty());
        assert(pending(decode_counts(cs).1, pushed) =~= Seq::<u32>::empty());
        assert(stack@ =~= firsts.take(rr) + pending(decode_counts(cs).1, pushed));
        assert(all_nodes@.subrange(0, a) =~= all0);
        reveal(visited_ok);
        reveal(stack_ok);
        reveal(group_ok);
        reveal(info_ok);
        reveal(placed_ok);
        assert(count_sum(cs) == 0);
        assert(all_nodes@.subrange(a, all_nodes@.len() as int) =~= Seq::<u32>::empty());
    }
    while stack.len() > 0
        invariant
            n == par.len() < NO_PARENT,
            is_rooted_tree(par),
            csr_ok(par, root, offsets@, children@, slot),
            0 <= root < n,
            par[root] == root,
            g >= 0,
            0 <= excl < n ==> grp0[excl] == g,
            ms_root != NO_PARENT ==> excl == ms_root,
            forall|y: int| 0 <= y < n && #[trigger] par[y] == y ==> y == root,
            grp0.len() == n,
            assigned0.len() == n,
            info0.len() == n,
            m == mss0.len(),
            microsets@ == mss0,
            m <= a,
            ms_id == m,
            nodes_offset == a,
            a + count_eq(grp0, g) <= n,
            count_eq(grp0, g) <= 16 + (if 0 <= excl < n {
                1int
            } else {
                0int
            }),
            forall|y: int|
                0 <= y < n && y != root && grp0[par[y] as int] == g && par[y] != excl && !#[trigger] assigned0[y]
                    ==> grp0[y] == g && y != excl,
            forall|i: int| 0 <= i < firsts.len() ==> top_ok(par, root, ms_root, (#[trigger] firsts[i]) as int),
            firsts.len() > 0 || count == 0,
            count == cs.len(),
            count == pushed.len(),
            count <= 16,
            forall|j: int| 0 <= j < count ==> #[trigger] child_counts@[j] == cs[j],
            0 <= rr <= firsts.len(),
            stack@ == firsts.take(rr) + pending(decode_counts(cs).1, pushed),
            forall|i: int|
                0 <= i < decode_counts(cs).1.len() ==> #[trigger] decode_counts(cs).1[i].0 < cs.len()
                    && decode_counts(cs).1[i].1 <= pushed[decode_counts(cs).1[i].0 as int].len(),
            count + stack@.len() == firsts.len() + count_sum(cs),
            all_nodes@.len() == a + count,
            all_nodes@.subrange(0, a) == all0,
            grpc.len() == n,
            assigned@.len() == n,
            node_info@.len() == n,
            count + count_eq(grpc, g) == count_eq(grp0, g),
            visited_ok(par, root, ms_root, excl, g, a, m, grp0, assigned@, node_info@, all_nodes@, cs, pushed),
            stack_ok(par, root, ms_root, excl, g, grpc, assigned@, assigned0, stack@),
            group_ok(g, excl, grp0, grpc, assigned@, assigned0),
            complete_ok(par, root, g, excl, grpc, stack@),
            info_ok(info0, node_info@, assigned@, assigned0),
            placed_ok(a, m, count as int, assigned0, assigned@, node_info@, all_nodes@),
            siblings_by_slot(par, root, slot, all_nodes@.subrange(a, all_nodes@.len() as int)),
            forall|i: int, j: int|
                0 <= i < all_nodes@.subrange(a, all_nodes@.len() as int).len() && 0 <= j < stack@.len()
                    ==> #[trigger] slot_before(par, root, slot, all_nodes@.subrange(a, all_nodes@.len() as int)[i], stack@[j]),
            forall|i: int, j: int| 0 <= i < j < stack@.len() ==> #[trigger] slot_before(par, root, slot, stack@[j], stack@[i]),
        decreases count_eq(grpc, g), stack@.len(),
    {
        let ghost st = stack@;
        let v = stack.pop().unwrap();
        let ghost vi = v as int;
        proof {
            reveal(stack_ok);
            reveal(group_ok);
            assert(st[st.len() - 1] == v);
            assert(grpc[vi] == g);
            assert(!assigned@[vi]);
            assert(!assigned0[vi]);
            assert(grp0[vi] == g);
            assert(0 <= vi < n && vi != excl);
            lemma_count_eq_update(grpc, vi, -2, g);
            lemma_count_eq_le(grp0, g);
            lemma_count_eq_le(grpc, g);
            if 0 <= excl < n {
                lemma_count_eq_two(grpc, g, vi, excl);
            } else {
                lemma_count_eq_two(grpc, g, vi, vi);
            }
            assert(count < 16);
        }
        let ghost grpc0 = grpc;
        let ghost assigned_pre = assigned@;
        let ghost info_pre = node_info@;
        let ghost all_pre = all_nodes@;
        let ghost cs0 = cs;
        let ghost pushed0 = pushed;
        let ghost rr0 = rr;
        let idx = count;
        all_nodes.push(v);
        assigned.set(v as usize, true);
        let mut ni = node_info[v as usize];
        ni.micro = ms_id;
        ni.number = idx as u16;
        node_info.set(v as usize, ni);
        proof {
            grpc = grpc.update(vi, -2);
        }
        let nc = (offsets[v as usize + 1] - offsets[v as usize]) as usize;
        let (cc, Ghost(pn)) = push_unassigned_children(
            v as usize,
            nc,
            offsets,
            children,
            assigned,
            &mut stack,
            Ghost(par),
            Ghost(root),
            Ghost(slot),
        );
        child_counts[idx] = cc;
        count += 1;
        proof {
            let (p, rr2) = lemma_visit_step(cs, pushed, firsts, rr, st, pn);
            lemma_count_sum_push(cs, pn.len());
            cs = cs.push(pn.len());
            pushed = pushed.push(pn);
            rr = rr2;
            assert(all_nodes@.subrange(0, a) =~= all0) by {
                assert(all_nodes@ == all_pre.push(v));
                assert forall|i: int| 0 <= i < a implies all_nodes@.subrange(0, a)[i] == all0[i] by {
                    assert(all_pre.subrange(0, a)[i] == all0[i]);
                }
            }
            if p == -1 {
                assert(top_ok(par, root, ms_root, firsts[rr0 - 1] as int));
            }
            lemma_pushed_members(par, root, excl, g, grp0, assigned0, grpc0, assigned_pre, assigned@, pn, vi);
            lemma_visit_visited(
                par, root, ms_root, excl, g, a, m, grp0, assigned_pre, assigned@, info_pre, node_info@,
                all_pre, all_nodes@, pn, cs0, cs, pushed0, pushed, vi, p,
            );
            lemma_visit_stack(
                par, root, ms_root, excl, g, assigned0, grpc0, grpc, assigned_pre, assigned@, st, stack@,
                pn, vi,
            );
            lemma_visit_group(
                excl, g, grp0, assigned0, info0, grpc0, grpc, assigned_pre, assigned@, info_pre, node_info@,
                vi,
            );
            lemma_visit_placed(
                a, m, count - 1, assigned0, assigned_pre, assigned@, info_pre, node_info@, all_pre, all_nodes@,
                vi,
            );
            assert forall|c: int|
                0 <= c < n && c != root && par[c] == vi && #[trigger] grpc0[c] == g implies pn.contains(c as u32) by {
                reveal(group_ok);
                assert(grpc0[c] == -2 <==> assigned_pre[c]);
                assert(c != vi);
                assert(!assigned@[c]);
            }
            lemma_visit_complete(par, root, excl, g, grpc0, grpc, st, stack@, pn, vi);

        }
        proof {
            let nodes0 = all_pre.subrange(a, all_pre.len() as int);
            lemma_not_below(
                par, root, ms_root, excl, g, a, m, grp0, grpc0, assigned_pre, assigned0, info_pre, all_pre, cs0,
                pushed0, st, v,
            );
            assert(par[vi] == vi ==> vi == root);
            lemma_slot_step(par, root, slot, nodes0, st, pn, v);
            assert(all_nodes@.subrange(a, all_nodes@.len() as int) =~= nodes0.push(v));
            assert(stack@ =~= st.drop_last() + pn);
        }
    }
    proof {
        reveal(visited_ok);
        reveal(group_ok);
        reveal(info_ok);
        assert(rr == 0);
        assert(pending(decode_counts(cs).1, pushed).len() == 0);
        lemma_pending_closed(decode_counts(cs).1, pushed);
        let d = choose|d: Seq<nat>| tree_depths(par, d);
        assert forall|x: int| 0 <= x < n && #[trigger] grpc[x] == g implies x == excl by {
            assert forall|y: int| 0 <= y < n && grpc[y] == g && y != excl implies y != root
                && grpc[(#[trigger] par[y]) as int] == g && par[y] != excl by {
                assert(!stack@.contains(y as u32));
            }
            lemma_none_left(par, root, d, grpc, g, excl, x);
        }
        if 0 <= excl < n {
            lemma_count_eq_one(grpc, g, excl);
        } else {
            lemma_count_eq_none(grpc, g);
        }
        assert(as_nats(child_counts@).take(count as int) =~= cs);
        lemma_encode_bound(cs);
        lemma_encode_roundtrip(cs);
    }
    let forest = encode_forest(&child_counts, count);
    proof {
        if count >= 1 {
            assert(forest_counts(forest) == cs);
            assert(forest != 0) by {
                if forest == 0 {
                    assert(forest_counts(0) =~= Seq::<nat>::empty());
                }
            }
            if firsts.len() > 1 {
                vstd::arithmetic::power2::lemma_pow2_strictly_increases(
                    (2 * count - firsts.len()) as nat,
                    (2 * count - 1) as nat,
                );
            }
        }
    }
    microsets.push(Microset { nodes_offset, mark: 0, forest, root: ms_root });
    proof {
        reveal(visited_ok);
        reveal(group_ok);
        reveal(info_ok);
        reveal(placed_ok);
        let ps = forest_parents(forest);
        assert(ps == decode_counts(cs).0);
        assert forall|j: int| 0 <= j < count implies {
            let w = (#[trigger] all_nodes@[a + j]) as int;
            &&& 0 <= w < n
            &&& grp0[w] == g
            &&& w != excl
            &&& node_info@[w].micro == m
            &&& node_info@[w].number == j
            &&& (ps[j] == -1 ==> top_ok(par, root, ms_root, w))
            &&& (ps[j] != -1 ==> par[w] != w && par[w] == all_nodes@[a + ps[j]])
        } by {
        }
        assert forall|x: int| 0 <= x < n implies #[trigger] assigned@[x] == (assigned0[x] || (grp0[x] == g
            && x != excl)) by {
            assert(grpc[x] == -2 <==> assigned@[x]);
            if grp0[x] == g && x != excl {
                assert(grpc[x] != g);
            }
        }
        assert forall|x: int| 0 <= x < n implies #[trigger] node_info@[x].parent == info0[x].parent
            && node_info@[x].level == info0[x].level by {
        }
        assert forall|x: int| 0 <= x < n && !(grp0[x] == g && x != excl) implies #[trigger] node_info@[x] == info0[x] by {
            if assigned@[x] && !assigned0[x] {
                assert(grpc[x] == -2);
            }
        }
    }
}

/// Make a microset of the nodes of group `v` below the first `upto`
/// children of `v`: those children that are unassigned start the search.
#[verifier::spinoff_prover]
fn add_microset(
    ms_root: u32,
    upto: usize,
    offsets: &Vec<u32>,
    children: &Vec<u32>,
    assigned: &mut Vec<bool>,
    node_info: &mut Vec<NodeInfo>,
    microsets: &mut Vec<Microset>,
    all_nodes: &mut Vec<u32>,
    Ghost(par): Ghost<Seq<usize>>,
    Ghost(root): Ghost<int>,
    Ghost(slot): Ghost<Seq<int>>,
    Ghost(grp0): Ghost<Seq<int>>,
)
    requires
        par.len() < NO_PARENT,
        is_rooted_tree(par),
        csr_ok(par, root, offsets@, children@, slot),
        0 <= root < par.len(),
        par[root] == root,
        old(assigned)@.len() == par.len(),
        old(node_info)@.len() == par.len(),
        grp0.len() == par.len(),
        forall|x: int| 0 <= x < par.len() ==> (#[trigger] grp0[x] == -2 <==> old(assigned)@[x]),
        old(microsets)@.len() <= old(all_nodes)@.len(),
        old(all_nodes)@.len() + count_eq(grp0, ms_root as int) <= par.len(),
        count_eq(grp0, ms_root as int) <= 17,
        ms_root < par.len(),
        grp0[ms_root as int] == ms_root,
        offsets@[ms_root as int] + upto <= offsets@[ms_root + 1],
        forall|y: int|
            0 <= y < par.len() && y != root && grp0[par[y] as int] == ms_root && par[y] != ms_root
                && !#[trigger] old(assigned)@[y] ==> grp0[y] == ms_root && y != ms_root,
        forall|c: int|
            0 <= c < par.len() && c != root && par[c] == ms_root && slot[c] < offsets@[ms_root as int] + upto
                && !#[trigger] old(assigned)@[c] ==> grp0[c] == ms_root,
        forall|x: int|
            0 <= x < par.len() && grp0[x] == ms_root && x != ms_root ==> x != root && ((par[x] == ms_root
                && slot[x] < offsets@[ms_root as int] + upto) || (grp0[(#[trigger] par[x]) as int] == ms_root
                && par[x] != ms_root)),
    ensures
        ({
            let n = par.len() as int;
            let m = old(microsets)@.len() as int;
            let a = old(all_nodes)@.len() as int;
            let cnt = final(all_nodes)@.len() - a;
            let ms = final(microsets)@[m];
            let ps = forest_parents(ms.forest);
            &&& cnt + 1 == count_eq(grp0, ms_root as int)
            &&& final(all_nodes)@.subrange(0, a) == old(all_nodes)@
            &&& final(microsets)@.len() == m + 1
            &&& forall|i: int| 0 <= i < m ==> #[trigger] final(microsets)@[i] == old(microsets)@[i]
            &&& ms.nodes_offset == a
            &&& ms.mark == 0
            &&& ms.root == ms_root
            &&& forest_size(ms.forest) == cnt
            &&& cnt >= 1 ==> forest_valid(ms.forest) && ms.forest < pow2((2 * cnt - 1) as nat)
            &&& forall|j: int|
                0 <= j < cnt ==> {
                    let w = (#[trigger] final(all_nodes)@[a + j]) as int;
                    &&& 0 <= w < n
                    &&& grp0[w] == ms_root
                    &&& w != ms_root
                    &&& final(node_info)@[w].micro == m
                    &&& final(node_info)@[w].number == j
                    &&& (ps[j] == -1 ==> top_ok(par, root, ms_root, w))
                    &&& (ps[j] != -1 ==> par[w] != w && par[w] == final(all_nodes)@[a + ps[j]])
                }
            &&& final(assigned)@.len() == n
            &&& final(node_info)@.len() == n
            &&& siblings_by_slot(par, root as int, slot, final(all_nodes)@.subrange(a, final(all_nodes)@.len() as int))
            &&& forall|x: int|
                0 <= x < n && #[trigger] final(assigned)@[x] && !old(assigned)@[x] ==> final(node_info)@[x].micro
                    == m && final(node_info)@[x].number < cnt && final(all_nodes)@[a + final(node_info)@[x].number]
                    == x
            &&& forall|x: int|
                0 <= x < n ==> #[trigger] final(assigned)@[x] == (old(assigned)@[x] || (grp0[x] == ms_root && x
                    != ms_root))
            &&& forall|x: int|
                0 <= x < n ==> #[trigger] final(node_info)@[x].parent == old(node_info)@[x].parent
                    && final(node_info)@[x].level == old(node_info)@[x].level
            &&& forall|x: int|
                0 <= x < n && !(grp0[x] == ms_root && x != ms_root) ==> #[trigger] final(node_info)@[x]
                    == old(node_info)@[x]
        }),
{
    let mut stack: Vec<u32> = Vec::new();
    let (_cc, Ghost(firsts)) = push_unassigned_children(
        ms_root as usize,
        upto,
        offsets,
        children,
        assigned,
        &mut stack,
        Ghost(par),
        Ghost(root),
        Ghost(slot),
    );
    proof {
        assert(stack@ =~= firsts);
        assert forall|x: int|
            #![trigger par[x]]
            (0 <= x < par.len() && grp0[x] == ms_root && x != ms_root) implies (stack@.contains(x as u32) || (x
                != root && grp0[par[x] as int] == ms_root && par[x] != ms_root)) by {
            if par[x] == ms_root && slot[x] < offsets@[ms_root as int] + upto {
                assert(!assigned@[x]);
                assert(firsts.contains(x as u32));
            }
        }
    }
    fill_microset(
        stack,
        ms_root,
        offsets,
        children,
        assigned,
        node_info,
        microsets,
        all_nodes,
        Ghost(par),
        Ghost(root),
        Ghost(slot),
        Ghost(grp0),
        Ghost(ms_root as int),
        Ghost(ms_root as int),
    );
}

/// Make the last microset: the nodes of the root's group, the root with
/// them.
#[verifier::spinoff_prover]
fn add_final_microset(
    root: usize,
    offsets: &Vec<u32>,
    children: &Vec<u32>,
    assigned: &mut Vec<bool>,
    node_info: &mut Vec<NodeInfo>,
    microsets: &mut Vec<Microset>,
    all_nodes: &mut Vec<u32>,
    Ghost(par): Ghost<Seq<usize>>,
    Ghost(slot): Ghost<Seq<int>>,
    Ghost(grp0): Ghost<Seq<int>>,
)
    requires
        par.len() < NO_PARENT,
        is_rooted_tree(par),
        csr_ok(par, root as int, offsets@, children@, slot),
        root < par.len(),
        par[root as int] == root,
        old(assigned)@.len() == par.len(),
        old(node_info)@.len() == par.len(),
        grp0.len() == par.len(),
        forall|x: int| 0 <= x < par.len() ==> (#[trigger] grp0[x] == -2 <==> old(assigned)@[x]),
        old(microsets)@.len() <= old(all_nodes)@.len(),
        old(all_nodes)@.len() + count_eq(grp0, root as int) <= par.len(),
        count_eq(grp0, root as int) <= 16,
        grp0[root as int] == root,
        forall|y: int|
            0 <= y < par.len() && y != root && grp0[par[y] as int] == root && !#[trigger] old(assigned)@[y]
                ==> grp0[y] == root,
        forall|x: int|
            0 <= x < par.len() && grp0[x] == root && x != root ==> grp0[(#[trigger] par[x]) as int] == root,
    ensures
        ({
            let n = par.len() as int;
            let m = old(microsets)@.len() as int;
            let a = old(all_nodes)@.len() as int;
            let cnt = final(all_nodes)@.len() - a;
            let ms = final(microsets)@[m];
            let ps = forest_parents(ms.forest);
            &&& cnt == count_eq(grp0, root as int)
            &&& final(all_nodes)@.subrange(0, a) == old(all_nodes)@
            &&& final(microsets)@.len() == m + 1
            &&& forall|i: int| 0 <= i < m ==> #[trigger] final(microsets)@[i] == old(microsets)@[i]
            &&& ms.nodes_offset == a
            &&& ms.mark == 0
            &&& ms.root == NO_PARENT
            &&& forest_size(ms.forest) == cnt
            &&& cnt >= 1 ==> forest_valid(ms.forest) && ms.forest < pow2((2 * cnt - 1) as nat)
            &&& forall|j: int|
                0 <= j < cnt ==> {
                    let w = (#[trigger] final(all_nodes)@[a + j]) as int;
                    &&& 0 <= w < n
                    &&& grp0[w] == root
                    &&& final(node_info)@[w].micro == m
                    &&& final(node_info)@[w].number == j
                    &&& (ps[j] == -1 ==> top_ok(par, root as int, NO_PARENT, w))
                    &&& (ps[j] != -1 ==> par[w] != w && par[w] == final(all_nodes)@[a + ps[j]])
                }
            &&& final(assigned)@.len() == n
            &&& final(node_info)@.len() == n
            &&& siblings_by_slot(par, root as int, slot, final(all_nodes)@.subrange(a, final(all_nodes)@.len() as int))
            &&& forall|x: int|
                0 <= x < n && #[trigger] final(assigned)@[x] && !old(assigned)@[x] ==> final(node_info)@[x].micro
                    == m && final(node_info)@[x].number < cnt && final(all_nodes)@[a + final(node_info)@[x].number]
                    == x
            &&& forall|x: int|
                0 <= x < n ==> #[trigger] final(assigned)@[x] == (old(assigned)@[x] || grp0[x] == root)
            &&& forall|x: int|
                0 <= x < n ==> #[trigger] final(node_info)@[x].parent == old(node_info)@[x].parent
                    && final(node_info)@[x].level == old(node_info)@[x].level
            &&& forall|x: int|
                0 <= x < n && grp0[x] != root ==> #[trigger] final(node_info)@[x] == old(
                    node_info,
                )@[x]
        }),
{
    let stack = vec![root as u32];
    proof {
        assert forall|x: int|
            #![trigger par[x]]
            (0 <= x < par.len() && grp0[x] == root && x != -1) implies (stack@.contains(x as u32) || (x
                != root && grp0[par[x] as int] == root && par[x] != -1)) by {
            if x == root {
                assert(stack@[0] == x as u32);
            }
        }
    }
    fill_microset(
        stack,
        NO_PARENT,
        offsets,
        children,
        assigned,
        node_info,
        microsets,
        all_nodes,
        Ghost(par),
        Ghost(root as int),
        Ghost(slot),
        Ghost(grp0),
        Ghost(root as int),
        Ghost(-1),
    );
}

// ---------------------------------------------------------------------------
// The microsets made so far
// ---------------------------------------------------------------------------

/// A microset's nodes and forest agree with the tree, but for the condition
/// on its external root's own microset, which holds once that root is placed.
pub open spec fn pre_microset_ok(
    nodes: Seq<u32>,
    forest: u32,
    root: u32,
    m: int,
    info: Seq<NodeInfo>,
    par: Seq<usize>,
    b: nat,
) -> bool {
    let size = forest_size(forest);
    let ps = forest_parents(forest);
    &&& forest_valid(forest)
    &&& 1 <= size <= b - 1
    &&& nodes.len() == size
    &&& forest < pow2((2 * b - 3) as nat)
    &&& forall|j: int|
        0 <= j < size ==> {
            let w = (#[trigger] nodes[j]) as int;
            &&& 0 <= w < par.len()
            &&& info[w].micro == m
            &&& info[w].number == j
            &&& (ps[j] == -1 ==> if par[w] == w {
                root == NO_PARENT
            } else {
                root == par[w]
            })
            &&& (ps[j] != -1 ==> par[w] != w && par[w] == nodes[ps[j]])
        }
}

/// The microsets made so far, with their nodes laid out in `all`, and the
/// record of every placed node.
#[verifier::opaque]
pub open spec fn table_ok(
    par: Seq<usize>,
    b: nat,
    assigned: Seq<bool>,
    info: Seq<NodeInfo>,
    mss: Seq<Microset>,
    all: Seq<u32>,
) -> bool {
    let n = par.len() as int;
    &&& mss.len() <= all.len()
    &&& forall|m: int|
        0 <= m < mss.len() ==> {
            let ms = #[trigger] mss[m];
            &&& ms.nodes_offset + forest_size(ms.forest) <= all.len()
            &&& ms.mark == 0
            &&& pre_microset_ok(ms_nodes(all, ms), ms.forest, ms.root, m, info, par, b)
            &&& (ms.root == NO_PARENT || (ms.root < n && (assigned[ms.root as int] ==> info[ms.root as int].micro
                > m)))
            &&& forall|j: int| 0 <= j < forest_size(ms.forest) ==> assigned[(#[trigger] ms_nodes(all, ms)[j]) as int]
        }
    &&& forall|x: int|
        0 <= x < n && #[trigger] assigned[x] ==> {
            let m = info[x].micro as int;
            &&& 0 <= m < mss.len()
            &&& info[x].number < forest_size(mss[m].forest)
            &&& all[mss[m].nodes_offset + info[x].number] == x
        }
}

/// Adding a microset of freshly placed nodes keeps the table.
proof fn lemma_table_add(
    par: Seq<usize>,
    root: int,
    b: nat,
    assigned0: Seq<bool>,
    info0: Seq<NodeInfo>,
    mss0: Seq<Microset>,
    all0: Seq<u32>,
    assigned1: Seq<bool>,
    info1: Seq<NodeInfo>,
    mss1: Seq<Microset>,
    all1: Seq<u32>,
)
    requires
        table_ok(par, b, assigned0, info0, mss0, all0),
        0 <= root < par.len(),
        par[root] == root,
        forall|y: int| 0 <= y < par.len() && #[trigger] par[y] == y ==> y == root,
        2 <= b,
        assigned0.len() == par.len(),
        assigned1.len() == par.len(),
        info0.len() == par.len(),
        info1.len() == par.len(),
        ({
            let n = par.len() as int;
            let m = mss0.len() as int;
            let a = all0.len() as int;
            let cnt = all1.len() - a;
            let ms = mss1[m];
            let ps = forest_parents(ms.forest);
            &&& all1.subrange(0, a) == all0
            &&& mss1.len() == m + 1
            &&& forall|i: int| 0 <= i < m ==> #[trigger] mss1[i] == mss0[i]
            &&& ms.nodes_offset == a
            &&& ms.mark == 0
            &&& 1 <= cnt <= b - 1
            &&& forest_size(ms.forest) == cnt
            &&& forest_valid(ms.forest)
            &&& ms.forest < pow2((2 * cnt - 1) as nat)
            &&& (ms.root == NO_PARENT || (ms.root < n && !assigned1[ms.root as int]))
            &&& forall|j: int|
                0 <= j < cnt ==> {
                    let w = (#[trigger] all1[a + j]) as int;
                    &&& 0 <= w < n
                    &&& assigned1[w]
                    &&& info1[w].micro == m
                    &&& info1[w].number == j
                    &&& (ps[j] == -1 ==> top_ok(par, root, ms.root, w))
                    &&& (ps[j] != -1 ==> par[w] != w && par[w] == all1[a + ps[j]])
                }
            &&& forall|x: int|
                0 <= x < n && #[trigger] assigned1[x] && !assigned0[x] ==> info1[x].micro == m
                    && info1[x].number < cnt && all1[a + info1[x].number] == x
            &&& forall|x: int| 0 <= x < n && #[trigger] assigned0[x] ==> assigned1[x] && info1[x] == info0[x]
        }),
    ensures
        table_ok(par, b, assigned1, info1, mss1, all1),
{
    reveal(table_ok);
    let n = par.len() as int;
    let m = mss0.len() as int;
    let a = all0.len() as int;
    let cnt = all1.len() - a;
    let ms = mss1[m];
    let ps = forest_parents(ms.forest);
    assert(pow2((2 * cnt - 1) as nat) <= pow2((2 * b - 3) as nat)) by {
        if 2 * cnt - 1 < 2 * b - 3 {
            vstd::arithmetic::power2::lemma_pow2_strictly_increases((2 * cnt - 1) as nat, (2 * b - 3) as nat);
        }
    }
    assert forall|i: int| 0 <= i < m + 1 implies {
        let msi = #[trigger] mss1[i];
        &&& msi.nodes_offset + forest_size(msi.forest) <= all1.len()
        &&& msi.mark == 0
        &&& pre_microset_ok(ms_nodes(all1, msi), msi.forest, msi.root, i, info1, par, b)
        &&& (msi.root == NO_PARENT || (msi.root < n && (assigned1[msi.root as int] ==> info1[msi.root as int].micro
            > i)))
        &&& forall|j: int| 0 <= j < forest_size(msi.forest) ==> assigned1[(#[trigger] ms_nodes(all1, msi)[j]) as int]
    } by {
        if i < m {
            let msi = mss0[i];
            assert(mss1[i] == msi);
            let nodes0 = ms_nodes(all0, msi);
            let nodes1 = ms_nodes(all1, msi);
            assert(nodes1 =~= nodes0) by {
                assert forall|j: int| 0 <= j < nodes0.len() implies nodes1[j] == nodes0[j] by {
                    assert(all1.subrange(0, a)[msi.nodes_offset + j] == all0[msi.nodes_offset + j]);
                }
            }
            assert forall|j: int| 0 <= j < forest_size(msi.forest) implies info1[(#[trigger] nodes1[j]) as int]
                == info0[nodes1[j] as int] by {
                let w = nodes0[j] as int;
                assert(info0[w].micro == i && info0[w].number == j);
                assert(assigned0[w]);
            }
            if msi.root != NO_PARENT && assigned1[msi.root as int] && !assigned0[msi.root as int] {
                assert(info1[msi.root as int].micro == m);
            }
        } else {
            let nodes = ms_nodes(all1, ms);
            assert forall|j: int| 0 <= j < cnt implies nodes[j] == all1[a + j] by {
            }
            assert forall|j: int| 0 <= j < cnt implies {
                let w = (#[trigger] nodes[j]) as int;
                &&& 0 <= w < n
                &&& info1[w].micro == i
                &&& info1[w].number == j
                &&& (ps[j] == -1 ==> if par[w] == w {
                    ms.root == NO_PARENT
                } else {
                    ms.root == par[w]
                })
                &&& (ps[j] != -1 ==> par[w] != w && par[w] == nodes[ps[j]])
            } by {
                assert(nodes[j] == all1[a + j]);
                let w = all1[a + j] as int;
                if ps[j] != -1 {
                    crate::answer_table::lemma_forest_parents_ordered(ms.forest);
                    assert(nodes[ps[j]] == all1[a + ps[j]]);
                }
            }
        }
    }
    assert forall|x: int| 0 <= x < n && #[trigger] assigned1[x] implies {
        let mi = info1[x].micro as int;
        &&& 0 <= mi < mss1.len()
        &&& info1[x].number < forest_size(mss1[mi].forest)
        &&& all1[mss1[mi].nodes_offset + info1[x].number] == x
    } by {
        if assigned0[x] {
            let mi = info0[x].micro as int;
            assert(mss1[mi] == mss0[mi]);
            assert(all1.subrange(0, a)[mss0[mi].nodes_offset + info0[x].number] == all0[mss0[mi].nodes_offset
                + info0[x].number]);
        }
    }
}

// ---------------------------------------------------------------------------
// Groups of unplaced nodes
// ---------------------------------------------------------------------------

/// The identity sequence has one entry equal to each index.
pub(crate) proof fn lemma_count_eq_one_at(s: Seq<int>, u: int)
    requires
        0 <= u < s.len(),
        forall|i: int| 0 <= i < s.len() ==> #[trigger] s[i] == i,
    ensures
        count_eq(s, u) == 1,
{
    lemma_count_eq_one(s, u, u);
}

/// Entries of group `g` but `excl` relabelled -2: the nodes a microset takes.
pub open spec fn take_group(s: Seq<int>, g: int, excl: int) -> Seq<int> {
    Seq::new(s.len(), |x: int| if s[x] == g && x != excl {
        -2
    } else {
        s[x]
    })
}

/// Taking a group moves its members (but `excl`) to the placed count.
proof fn lemma_count_take(s: Seq<int>, g: int, excl: int, h: int)
    requires
        g != -2,
    ensures
        count_eq(take_group(s, g, excl), -2) + (if 0 <= excl < s.len() && s[excl] == g {
            1int
        } else {
            0int
        }) == count_eq(s, -2) + count_eq(s, g),
        h != g && h != -2 ==> count_eq(take_group(s, g, excl), h) == count_eq(s, h),
        count_eq(take_group(s, g, excl), g) == (if 0 <= excl < s.len() && s[excl] == g {
            1int
        } else {
            0int
        }),
    decreases s.len(),
{
    if s.len() > 0 {
        assert(take_group(s, g, excl).drop_last() =~= take_group(s.drop_last(), g, excl));
        lemma_count_take(s.drop_last(), g, excl, h);
    }
}

/// Two labels count at most the length together.
pub(crate) proof fn lemma_count_two_labels(s: Seq<int>, a: int, b: int)
    requires
        a != b,
    ensures
        count_eq(s, a) + count_eq(s, b) <= s.len(),
    decreases s.len(),
{
    if s.len() > 0 {
        lemma_count_two_labels(s.drop_last(), a, b);
    }
}

/// An order of the nodes, each node after its children.
pub open spec fn order_ok(par: Seq<usize>, root: int, order: Seq<usize>, opos: Seq<int>) -> bool {
    let n = par.len() as int;
    &&& order.len() == n
    &&& opos.len() == n
    &&& forall|i: int| 0 <= i < n ==> #[trigger] order[i] < n && opos[order[i] as int] == i
    &&& forall|x: int| 0 <= x < n ==> 0 <= #[trigger] opos[x] < n && order[opos[x]] == x
    &&& forall|x: int| 0 <= x < n && x != root ==> opos[x] < opos[(#[trigger] par[x]) as int]
}

/// The unplaced nodes of the first `k` nodes in order (and `cur`, the node
/// being processed) fall into groups, each labelled by its head, an
/// ancestor of all its members reached through them: placed nodes are -2,
/// nodes not reached yet -1. A head other than `cur` has an unprocessed
/// parent, and `d` holds its group's size, under half of `b + 1`.
#[verifier::opaque]
spec fn groups_ok(
    par: Seq<usize>,
    root: int,
    opos: Seq<int>,
    k: int,
    cur: int,
    b: nat,
    grp: Seq<int>,
    d: Seq<u32>,
    assigned: Seq<bool>,
) -> bool {
    let n = par.len() as int;
    &&& grp.len() == n
    &&& d.len() == n
    &&& assigned.len() == n
    &&& grp[root] >= -1
    &&& forall|x: int|
        #![trigger grp[x]]
        0 <= x < n ==> {
            &&& -2 <= grp[x] < n
            &&& (grp[x] == -2 <==> assigned[x])
            &&& (grp[x] == -1 <==> !(opos[x] < k || x == cur))
            &&& (grp[x] >= 0 ==> grp[grp[x]] == grp[x])
            &&& (grp[x] == x && x != cur ==> opos[x] < k && (x != root ==> opos[par[x] as int] >= k) && d[x]
                == count_eq(grp, x) && 1 <= d[x] && 2 * d[x] < b + 1)
        }
    &&& forall|y: int|
        #![trigger par[y]]
        0 <= y < n && grp[y] >= 0 && grp[y] != y ==> y != root && grp[par[y] as int] == grp[y]
    &&& forall|c: int|
        #![trigger par[c]]
        0 <= c < n && c != root && opos[c] < k && opos[par[c] as int] >= k && par[c] != cur ==> grp[c] == c
}

/// While node `v` takes in its children: its group has `d[v]` members, at
/// most `b`; the first `ci` children are merged in or placed, the others are
/// heads of their own groups.
#[verifier::opaque]
spec fn accum_ok(
    par: Seq<usize>,
    root: int,
    slot: Seq<int>,
    v: int,
    lo: int,
    ci: int,
    b: nat,
    grp: Seq<int>,
    d: Seq<u32>,
) -> bool {
    &&& grp[v] == v
    &&& d[v] == count_eq(grp, v)
    &&& 1 <= d[v] <= b
    &&& forall|c: int|
        #![trigger par[c]]
        0 <= c < par.len() && c != root && par[c] == v ==> (slot[c] < lo + ci ==> grp[c] != c) && (slot[c]
            >= lo + ci ==> grp[c] == c)
}

/// Starting node `v`, the `k`-th in order: it heads a group of its own, and
/// its children head theirs.
proof fn lemma_group_start(
    par: Seq<usize>,
    root: int,
    offsets: Seq<u32>,
    children: Seq<u32>,
    slot: Seq<int>,
    order: Seq<usize>,
    opos: Seq<int>,
    k: int,
    b: nat,
    grp: Seq<int>,
    d: Seq<u32>,
    assigned: Seq<bool>,
    v: int,
)
    requires
        forall|y: int| 0 <= y < par.len() ==> #[trigger] par[y] < par.len(),
        0 <= root < par.len(),
        par[root] == root,
        forall|y: int| 0 <= y < par.len() && #[trigger] par[y] == y ==> y == root,
        csr_ok(par, root, offsets, children, slot),
        order_ok(par, root, order, opos),
        groups_ok(par, root, opos, k, -1, b, grp, d, assigned),
        0 <= k < par.len(),
        v == order[k],
        1 <= b,
    ensures
        groups_ok(par, root, opos, k, v, b, grp.update(v, v), d.update(v, 1), assigned),
        accum_ok(par, root, slot, v, offsets[v] as int, 0, b, grp.update(v, v), d.update(v, 1)),
        count_eq(grp.update(v, v), -2) == count_eq(grp, -2),
{
    reveal(groups_ok);
    reveal(accum_ok);
    let n = par.len() as int;
    let grp2 = grp.update(v, v);
    let d2 = d.update(v, 1);
    assert(opos[v] == k);
    assert(grp[v] == -1);
    assert forall|x: int| 0 <= x < n implies #[trigger] grp[x] != v by {
        if grp[x] == v {
            assert(grp[grp[x]] == grp[x]);
        }
    }
    lemma_count_eq_none(grp, v);
    lemma_count_eq_update(grp, v, v, v);
    lemma_count_eq_update(grp, v, v, -2);
    assert forall|h: int| 0 <= h < n && h != v implies count_eq(grp2, h) == #[trigger] count_eq(grp, h) by {
        lemma_count_eq_update(grp, v, v, h);
    }
    assert forall|x: int|
        #![trigger grp2[x]]
        0 <= x < n implies {
            &&& -2 <= grp2[x] < n
            &&& (grp2[x] == -2 <==> assigned[x])
            &&& (grp2[x] == -1 <==> !(opos[x] < k || x == v))
            &&& (grp2[x] >= 0 ==> grp2[grp2[x]] == grp2[x])
            &&& (grp2[x] == x && x != v ==> opos[x] < k && (x != root ==> opos[par[x] as int] >= k) && d2[x]
                == count_eq(grp2, x) && 1 <= d2[x] && 2 * d2[x] < b + 1)
        } by {
        if x != v {
            assert(grp2[x] == grp[x]);
            if grp[x] >= 0 {
                assert(grp[grp[x]] == grp[x]);
                assert(grp[x] != v);
            }
            if grp[x] == x {
                assert(count_eq(grp2, x) == count_eq(grp, x));
            }
        }
    }
    assert forall|y: int|
        #![trigger par[y]]
        0 <= y < n && grp2[y] >= 0 && grp2[y] != y implies y != root && grp2[par[y] as int] == grp2[y] by {
        assert(y != v);
        assert(grp[y] >= 0 && grp[y] != y);
        assert(grp[par[y] as int] == grp[y]);
        assert(par[y] != v);
    }
    assert forall|c: int|
        #![trigger par[c]]
        0 <= c < n && c != root && par[c] == v implies (slot[c] < offsets[v] + 0 ==> grp2[c] != c) && (slot[c]
            >= offsets[v] + 0 ==> grp2[c] == c) by {
        assert(opos[c] < opos[par[c] as int]);
        assert(grp[c] == c);
        assert(c != v);
        assert(offsets[par[c] as int] <= slot[c]);
    }
}

/// Merging the next child `w` (a head) into `v`'s group.
#[verifier::rlimit(60)]
#[verifier::spinoff_prover]
proof fn lemma_group_merge(
    par: Seq<usize>,
    root: int,
    offsets: Seq<u32>,
    children: Seq<u32>,
    slot: Seq<int>,
    order: Seq<usize>,
    opos: Seq<int>,
    k: int,
    b: nat,
    grp: Seq<int>,
    d: Seq<u32>,
    assigned: Seq<bool>,
    v: int,
    ci: int,
)
    requires
        forall|y: int| 0 <= y < par.len() ==> #[trigger] par[y] < par.len(),
        0 <= root < par.len(),
        par[root] == root,
        forall|y: int| 0 <= y < par.len() && #[trigger] par[y] == y ==> y == root,
        csr_ok(par, root, offsets, children, slot),
        order_ok(par, root, order, opos),
        groups_ok(par, root, opos, k, v, b, grp, d, assigned),
        accum_ok(par, root, slot, v, offsets[v] as int, ci, b, grp, d),
        0 <= v < par.len(),
        0 <= k < par.len(),
        v == order[k],
        0 <= ci,
        offsets[v] + ci < offsets[v + 1],
        b <= 16,
        2 * d[v] < b + 1,
    ensures
        ({
            let w = children[offsets[v] + ci] as int;
            let grp2 = relabel(grp, w, v);
            let d2 = d.update(v, (d[v] + d[w]) as u32);
            &&& 0 <= w < par.len()
            &&& d[v] + d[w] <= b
            &&& groups_ok(par, root, opos, k, v, b, grp2, d2, assigned)
            &&& accum_ok(par, root, slot, v, offsets[v] as int, ci + 1, b, grp2, d2)
        }),
{
    reveal(groups_ok);
    reveal(accum_ok);
    let n = par.len() as int;
    let lo = offsets[v] as int;
    let w = children[lo + ci] as int;
    assert(offsets[v] <= lo + ci < offsets[v + 1]);
    assert(par[w] == v && w != root && slot[w] == lo + ci);
    assert(grp[w] == w);
    assert(w != v);
    assert(opos[v] == k);
    assert(d[w] == count_eq(grp, w) && 1 <= d[w] && 2 * d[w] < b + 1);
    let grp2 = relabel(grp, w, v);
    assert(d[v] + d[w] <= b);
    let d2 = d.update(v, (d[v] + d[w]) as u32);
    assert forall|h: int| #![trigger count_eq(grp, h)] 0 <= h < n && h != v && h != w implies count_eq(grp2, h)
        == count_eq(grp, h) by {
        lemma_count_relabel(grp, w, v, h);
    }
    lemma_count_relabel(grp, w, v, v);
    assert forall|x: int|
        #![trigger grp2[x]]
        0 <= x < n implies {
            &&& -2 <= grp2[x] < n
            &&& (grp2[x] == -2 <==> assigned[x])
            &&& (grp2[x] == -1 <==> !(opos[x] < k || x == v))
            &&& (grp2[x] >= 0 ==> grp2[grp2[x]] == grp2[x])
            &&& (grp2[x] == x && x != v ==> opos[x] < k && (x != root ==> opos[par[x] as int] >= k) && d2[x]
                == count_eq(grp2, x) && 1 <= d2[x] && 2 * d2[x] < b + 1)
        } by {
        assert(grp[v] == v);
        if grp[x] >= 0 {
            assert(grp[grp[x]] == grp[x]);
        }
        if grp2[x] == x && x != v {
            assert(grp[x] == x && x != w);
            assert(count_eq(grp2, x) == count_eq(grp, x));
        }
    }
    assert forall|y: int|
        #![trigger par[y]]
        0 <= y < n && grp2[y] >= 0 && grp2[y] != y implies y != root && grp2[par[y] as int] == grp2[y] by {
        if y == w {
            assert(grp2[v] == v);
        } else if grp[y] == y {
            assert(grp2[y] == y);
        } else {
            assert(grp[y] >= 0);
            assert(grp[par[y] as int] == grp[y]);
        }
    }
    assert forall|c: int|
        #![trigger par[c]]
        0 <= c < n && c != root && opos[c] < k && opos[par[c] as int] >= k && par[c] != v implies grp2[c] == c by {
        assert(grp[c] == c);
        assert(c != w);
    }
    assert forall|c: int|
        #![trigger par[c]]
        0 <= c < n && c != root && par[c] == v implies (slot[c] < lo + ci + 1 ==> grp2[c] != c) && (slot[c] >= lo
            + ci + 1 ==> grp2[c] == c) by {
        if c != w {
            assert(slot[c] != lo + ci);
        }
    }
}

/// Before a split at `v`: what the microset search needs of the groups.
proof fn lemma_group_split_pre(
    par: Seq<usize>,
    root: int,
    offsets: Seq<u32>,
    children: Seq<u32>,
    slot: Seq<int>,
    order: Seq<usize>,
    opos: Seq<int>,
    k: int,
    b: nat,
    grp: Seq<int>,
    d: Seq<u32>,
    assigned: Seq<bool>,
    v: int,
    ci: int,
)
    requires
        forall|y: int| 0 <= y < par.len() ==> #[trigger] par[y] < par.len(),
        0 <= root < par.len(),
        par[root] == root,
        forall|y: int| 0 <= y < par.len() && #[trigger] par[y] == y ==> y == root,
        csr_ok(par, root, offsets, children, slot),
        order_ok(par, root, order, opos),
        groups_ok(par, root, opos, k, v, b, grp, d, assigned),
        accum_ok(par, root, slot, v, offsets[v] as int, ci, b, grp, d),
        0 <= v < par.len(),
        0 <= k < par.len(),
        v == order[k],
    ensures
        grp[v] == v,
        count_eq(grp, v) == d[v],
        count_eq(grp, -2) + count_eq(grp, v) <= par.len(),
        forall|x: int| 0 <= x < par.len() ==> (#[trigger] grp[x] == -2 <==> assigned[x]),
        forall|y: int|
            0 <= y < par.len() && y != root && grp[par[y] as int] == v && par[y] != v && !#[trigger] assigned[y]
                ==> grp[y] == v && y != v,
        forall|c: int|
            0 <= c < par.len() && c != root && par[c] == v && slot[c] < offsets[v] + ci && !#[trigger] assigned[c]
                ==> grp[c] == v,
        forall|x: int|
            0 <= x < par.len() && grp[x] == v && x != v ==> x != root && ((par[x] == v && slot[x] < offsets[v] + ci)
                || (grp[(#[trigger] par[x]) as int] == v && par[x] != v)),
{
    reveal(groups_ok);
    reveal(accum_ok);
    let n = par.len() as int;
    assert(opos[v] == k);
    lemma_count_two_labels(grp, -2, v);
    assert forall|x: int| 0 <= x < n implies (#[trigger] grp[x] == -2 <==> assigned[x]) by {
    }
    assert forall|y: int|
        0 <= y < n && y != root && grp[par[y] as int] == v && par[y] != v && !#[trigger] assigned[y] implies grp[y]
            == v && y != v by {
        let p = par[y] as int;
        assert(grp[p] == v);
        assert(opos[p] < k);
        assert(opos[y] < opos[p]);
        assert(grp[y] >= 0);
        if grp[y] == y {
            assert(y != v);
        }
    }
    assert forall|c: int|
        0 <= c < n && c != root && par[c] == v && slot[c] < offsets[v] + ci && !#[trigger] assigned[c] implies grp[c]
            == v by {
        assert(grp[c] != c);
        assert(opos[c] < opos[par[c] as int]);
        assert(grp[c] >= 0);
    }
    assert forall|x: int|
        0 <= x < n && grp[x] == v && x != v implies x != root && ((par[x] == v && slot[x] < offsets[v] + ci) || (grp[(
            #[trigger] par[x]) as int] == v && par[x] != v)) by {
        assert(grp[par[x] as int] == v);
    }
}

/// After a split at `v`: `v`'s group is `v` alone again.
proof fn lemma_group_split_post(
    par: Seq<usize>,
    root: int,
    slot: Seq<int>,
    opos: Seq<int>,
    k: int,
    b: nat,
    grp: Seq<int>,
    d: Seq<u32>,
    assigned: Seq<bool>,
    assigned2: Seq<bool>,
    v: int,
    lo: int,
    ci: int,
)
    requires
        forall|y: int| 0 <= y < par.len() ==> #[trigger] par[y] < par.len(),
        0 <= root < par.len(),
        par[root] == root,
        forall|y: int| 0 <= y < par.len() && #[trigger] par[y] == y ==> y == root,
        groups_ok(par, root, opos, k, v, b, grp, d, assigned),
        accum_ok(par, root, slot, v, lo, ci, b, grp, d),
        0 <= v < par.len(),
        1 <= b,
        assigned2.len() == par.len(),
        forall|x: int| 0 <= x < par.len() ==> #[trigger] assigned2[x] == (assigned[x] || (grp[x] == v && x != v)),
    ensures
        groups_ok(par, root, opos, k, v, b, take_group(grp, v, v), d.update(v, 1), assigned2),
        accum_ok(par, root, slot, v, lo, ci, b, take_group(grp, v, v), d.update(v, 1)),
        count_eq(take_group(grp, v, v), -2) + 1 == count_eq(grp, -2) + count_eq(grp, v),
{
    reveal(groups_ok);
    reveal(accum_ok);
    let n = par.len() as int;
    let grp2 = take_group(grp, v, v);
    let d2 = d.update(v, 1);
    lemma_count_take(grp, v, v, v);
    assert forall|h: int| #![trigger count_eq(grp, h)] 0 <= h < n && h != v implies count_eq(grp2, h) == count_eq(
        grp,
        h,
    ) by {
        lemma_count_take(grp, v, v, h);
    }
    assert(grp[root] != v || root == v) by {
        if grp[root] >= 0 && grp[root] != root {
            assert(par[root] == par[root]);
        }
    }
    assert forall|x: int|
        #![trigger grp2[x]]
        0 <= x < n implies {
            &&& -2 <= grp2[x] < n
            &&& (grp2[x] == -2 <==> assigned2[x])
            &&& (grp2[x] == -1 <==> !(opos[x] < k || x == v))
            &&& (grp2[x] >= 0 ==> grp2[grp2[x]] == grp2[x])
            &&& (grp2[x] == x && x != v ==> opos[x] < k && (x != root ==> opos[par[x] as int] >= k) && d2[x]
                == count_eq(grp2, x) && 1 <= d2[x] && 2 * d2[x] < b + 1)
        } by {
        assert(grp[x] == -2 <==> assigned[x]);
        if grp[x] >= 0 {
            assert(grp[grp[x]] == grp[x]);
        }
        if grp2[x] == x && x != v {
            assert(grp[x] == x);
            assert(count_eq(grp2, x) == count_eq(grp, x));
        }
    }
    assert forall|y: int|
        #![trigger par[y]]
        0 <= y < n && grp2[y] >= 0 && grp2[y] != y implies y != root && grp2[par[y] as int] == grp2[y] by {
        assert(grp[y] == grp2[y]);
        assert(grp[par[y] as int] == grp[y]);
    }
    assert forall|c: int|
        #![trigger par[c]]
        0 <= c < n && c != root && opos[c] < k && opos[par[c] as int] >= k && par[c] != v implies grp2[c] == c by {
        assert(grp[c] == c);
    }
    assert forall|c: int|
        #![trigger par[c]]
        0 <= c < n && c != root && par[c] == v implies (slot[c] < lo + ci ==> grp2[c] != c) && (slot[c] >= lo + ci
            ==> grp2[c] == c) by {
        assert(c != v) by {
            if c == v {
                assert(par[v] == v);
            }
        }
    }
}

/// Done with `v`: it heads its group, now among the processed.
proof fn lemma_group_finish(
    par: Seq<usize>,
    root: int,
    offsets: Seq<u32>,
    children: Seq<u32>,
    slot: Seq<int>,
    order: Seq<usize>,
    opos: Seq<int>,
    k: int,
    b: nat,
    grp: Seq<int>,
    d: Seq<u32>,
    assigned: Seq<bool>,
    v: int,
)
    requires
        forall|y: int| 0 <= y < par.len() ==> #[trigger] par[y] < par.len(),
        0 <= root < par.len(),
        par[root] == root,
        forall|y: int| 0 <= y < par.len() && #[trigger] par[y] == y ==> y == root,
        csr_ok(par, root, offsets, children, slot),
        order_ok(par, root, order, opos),
        groups_ok(par, root, opos, k, v, b, grp, d, assigned),
        accum_ok(par, root, slot, v, offsets[v] as int, offsets[v + 1] - offsets[v], b, grp, d),
        0 <= v < par.len(),
        0 <= k < par.len(),
        v == order[k],
        2 * d[v] < b + 1,
    ensures
        groups_ok(par, root, opos, k + 1, -1, b, grp, d, assigned),
{
    reveal(groups_ok);
    reveal(accum_ok);
    let n = par.len() as int;
    assert(opos[v] == k);
    assert forall|x: int|
        #![trigger grp[x]]
        0 <= x < n implies {
            &&& -2 <= grp[x] < n
            &&& (grp[x] == -2 <==> assigned[x])
            &&& (grp[x] == -1 <==> !(opos[x] < k + 1 || x == -1))
            &&& (grp[x] >= 0 ==> grp[grp[x]] == grp[x])
            &&& (grp[x] == x && x != -1 ==> opos[x] < k + 1 && (x != root ==> opos[par[x] as int] >= k + 1) && d[x]
                == count_eq(grp, x) && 1 <= d[x] && 2 * d[x] < b + 1)
        } by {
        if x == v {
            if v != root {
                assert(opos[v] < opos[par[v] as int]);
            }
        } else if grp[x] == x && x != root {
            assert(opos[par[x] as int] >= k);
            if opos[par[x] as int] == k {
                assert(par[x] == v);
                assert(offsets[par[x] as int] <= slot[x] < offsets[par[x] + 1]);
            }
        }
    }
    assert forall|c: int|
        #![trigger par[c]]
        0 <= c < n && c != root && opos[c] < k + 1 && opos[par[c] as int] >= k + 1 && par[c] != -1 implies grp[c]
            == c by {
        if c != v {
            assert(opos[c] != k);
            assert(par[c] != v);
        }
    }
}

/// With every node processed, the unplaced nodes form the root's group.
proof fn lemma_group_final(
    par: Seq<usize>,
    root: int,
    order: Seq<usize>,
    opos: Seq<int>,
    b: nat,
    grp: Seq<int>,
    d: Seq<u32>,
    assigned: Seq<bool>,
)
    requires
        forall|y: int| 0 <= y < par.len() ==> #[trigger] par[y] < par.len(),
        0 <= root < par.len(),
        par[root] == root,
        forall|y: int| 0 <= y < par.len() && #[trigger] par[y] == y ==> y == root,
        order_ok(par, root, order, opos),
        groups_ok(par, root, opos, par.len() as int, -1, b, grp, d, assigned),
        0 <= root < par.len(),
        par[root] == root,
    ensures
        grp[root] == root,
        d[root] == count_eq(grp, root),
        1 <= d[root],
        2 * d[root] < b + 1,
        count_eq(grp, -2) + count_eq(grp, root) <= par.len(),
        forall|x: int| 0 <= x < par.len() ==> (#[trigger] grp[x] == -2 <==> assigned[x]),
        forall|x: int| 0 <= x < par.len() ==> #[trigger] grp[x] == -2 || grp[x] == root,
        forall|y: int|
            0 <= y < par.len() && y != root && grp[par[y] as int] == root && !#[trigger] assigned[y] ==> grp[y] == root,
        forall|x: int|
            0 <= x < par.len() && grp[x] == root && x != root ==> grp[(#[trigger] par[x]) as int] == root,
{
    reveal(groups_ok);
    let n = par.len() as int;
    lemma_count_two_labels(grp, -2, root);
    assert(grp[root] == root) by {
        assert(opos[root] < n);
        if grp[root] != root {
            assert(par[root] == par[root]);
        }
    }
    assert forall|x: int| 0 <= x < n implies #[trigger] grp[x] == -2 || grp[x] == root by {
        assert(opos[x] < n);
        if grp[x] >= 0 {
            let h = grp[x];
            assert(grp[h] == h);
            if h != root {
                assert(opos[par[h] as int] < n);
            }
        }
    }
    assert forall|x: int| 0 <= x < n implies (#[trigger] grp[x] == -2 <==> assigned[x]) by {
    }
    assert forall|x: int|
        0 <= x < n && grp[x] == root && x != root implies grp[(#[trigger] par[x]) as int] == root by {
    }
}

/// Labels drawn from two values count up to the length.
proof fn lemma_count_two_labels_all(s: Seq<int>, a: int, b: int)
    requires
        a != b,
        forall|x: int| 0 <= x < s.len() ==> #[trigger] s[x] == a || s[x] == b,
    ensures
        count_eq(s, a) + count_eq(s, b) == s.len(),
    decreases s.len(),
{
    if s.len() > 0 {
        lemma_count_two_labels_all(s.drop_last(), a, b);
    }
}

/// The fixed facts of the partition: the tree, its children lists and the
/// order nodes are taken in.
#[verifier::opaque]
pub open spec fn tree_facts(
    par: Seq<usize>,
    root: int,
    offsets: Seq<u32>,
    children: Seq<u32>,
    slot: Seq<int>,
    order: Seq<usize>,
    opos: Seq<int>,
) -> bool {
    &&& par.len() < NO_PARENT
    &&& is_rooted_tree(par)
    &&& forall|y: int| 0 <= y < par.len() ==> #[trigger] par[y] < par.len()
    &&& forall|y: int| 0 <= y < par.len() && #[trigger] par[y] == y ==> y == root
    &&& 0 <= root < par.len()
    &&& par[root] == root
    &&& csr_ok(par, root, offsets, children, slot)
    &&& order_ok(par, root, order, opos)
}

/// The lengths the group invariant fixes.
proof fn lemma_groups_lens(
    par: Seq<usize>,
    root: int,
    opos: Seq<int>,
    k: int,
    cur: int,
    b: nat,
    grp: Seq<int>,
    d: Seq<u32>,
    assigned: Seq<bool>,
)
    requires
        groups_ok(par, root, opos, k, cur, b, grp, d, assigned),
    ensures
        grp.len() == par.len(),
        d.len() == par.len(),
        assigned.len() == par.len(),
{
    reveal(groups_ok);
}

/// What the gathering invariant says of `v` itself.
proof fn lemma_accum_facts(
    par: Seq<usize>,
    root: int,
    slot: Seq<int>,
    v: int,
    lo: int,
    ci: int,
    b: nat,
    grp: Seq<int>,
    d: Seq<u32>,
)
    requires
        accum_ok(par, root, slot, v, lo, ci, b, grp, d),
    ensures
        grp[v] == v,
        d[v] == count_eq(grp, v),
        1 <= d[v] <= b,
{
    reveal(accum_ok);
}

/// The table has no more microsets than placed nodes.
proof fn lemma_table_lens(
    par: Seq<usize>,
    b: nat,
    assigned: Seq<bool>,
    info: Seq<NodeInfo>,
    mss: Seq<Microset>,
    all: Seq<u32>,
)
    requires
        table_ok(par, b, assigned, info, mss, all),
    ensures
        mss.len() <= all.len(),
{
    reveal(table_ok);
}

/// Take children of `v` into its group, from the `ci`-th on, while the
/// group stays under half of `b + 1`; returns how many children are taken
/// in all.
fn take_children(
    v: usize,
    lo: usize,
    len: usize,
    ci: usize,
    threshold_2x: u32,
    d: &mut Vec<u32>,
    children: &Vec<u32>,
    Ghost(par): Ghost<Seq<usize>>,
    Ghost(root): Ghost<int>,
    Ghost(offsets): Ghost<Seq<u32>>,
    Ghost(slot): Ghost<Seq<int>>,
    Ghost(order): Ghost<Seq<usize>>,
    Ghost(opos): Ghost<Seq<int>>,
    Ghost(k): Ghost<int>,
    Ghost(b): Ghost<nat>,
    Ghost(grp): Ghost<Seq<int>>,
    Ghost(assigned): Ghost<Seq<bool>>,
) -> (r: (usize, Ghost<Seq<int>>))
    requires
        tree_facts(par, root, offsets, children@, slot, order, opos),
        0 <= k < par.len(),
        v == order[k],
        lo == offsets[v as int],
        lo + len == offsets[v + 1],
        ci <= len,
        2 <= b <= 16,
        threshold_2x == b + 1,
        groups_ok(par, root, opos, k, v as int, b, grp, old(d)@, assigned),
        accum_ok(par, root, slot, v as int, lo as int, ci as int, b, grp, old(d)@),
        2 * old(d)@[v as int] < b + 1,
    ensures
        ci <= r.0 <= len,
        ci < len ==> ci < r.0,
        r.0 == len || 2 * final(d)@[v as int] >= b + 1,
        groups_ok(par, root, opos, k, v as int, b, r.1@, final(d)@, assigned),
        accum_ok(par, root, slot, v as int, lo as int, r.0 as int, b, r.1@, final(d)@),
        count_eq(r.1@, -2) == count_eq(grp, -2),
{
    let ghost vi = v as int;
    let ghost mut g = grp;
    let mut child_idx = ci;
    proof {
        reveal(groups_ok);
        reveal(accum_ok);
        reveal(tree_facts);
    }
    while 2 * d[v] < threshold_2x && child_idx < len
        invariant
            tree_facts(par, root, offsets, children@, slot, order, opos),
            0 <= k < par.len(),
            v == order[k],
            vi == v,
            lo == offsets[vi],
            lo + len == offsets[vi + 1],
            2 <= b <= 16,
            threshold_2x == b + 1,
            ci <= child_idx <= len,
            child_idx == ci ==> 2 * d@[vi] < b + 1,
            d@[vi] <= b,
            d@.len() == par.len(),
            v < par.len(),
            groups_ok(par, root, opos, k, vi, b, g, d@, assigned),
            accum_ok(par, root, slot, vi, lo as int, child_idx as int, b, g, d@),
            count_eq(g, -2) == count_eq(grp, -2),
        decreases len - child_idx,
    {
        proof {
            reveal(tree_facts);
            lemma_group_merge(par, root, offsets, children@, slot, order, opos, k, b, g, d@, assigned, vi, child_idx as int);
            assert(offsets[vi + 1] <= offsets[par.len() as int]);
            reveal(groups_ok);
        }
        let w = children[lo + child_idx] as usize;
        let dv = d[v] + d[w];
        d.set(v, dv);
        proof {
            lemma_count_relabel(g, w as int, vi, -2);
            g = relabel(g, w as int, vi);
            reveal(accum_ok);
        }
        child_idx += 1;
    }
    (child_idx, Ghost(g))
}

/// Split at `v`: the nodes its group gathered below its first `upto`
/// children become a microset hanging from `v`, and `v` starts afresh.
fn split_at(
    v: usize,
    upto: usize,
    offsets: &Vec<u32>,
    children: &Vec<u32>,
    d: &mut Vec<u32>,
    assigned: &mut Vec<bool>,
    node_info: &mut Vec<NodeInfo>,
    microsets: &mut Vec<Microset>,
    all_nodes: &mut Vec<u32>,
    Ghost(par): Ghost<Seq<usize>>,
    Ghost(root): Ghost<int>,
    Ghost(slot): Ghost<Seq<int>>,
    Ghost(order): Ghost<Seq<usize>>,
    Ghost(opos): Ghost<Seq<int>>,
    Ghost(k): Ghost<int>,
    Ghost(b): Ghost<nat>,
    Ghost(grp): Ghost<Seq<int>>,
) -> (r: Ghost<Seq<int>>)
    requires
        tree_facts(par, root, offsets@, children@, slot, order, opos),
        0 <= k < par.len(),
        v == order[k],
        offsets@[v as int] + upto <= offsets@[v + 1],
        2 <= b <= 16,
        groups_ok(par, root, opos, k, v as int, b, grp, old(d)@, old(assigned)@),
        accum_ok(par, root, slot, v as int, offsets@[v as int] as int, upto as int, b, grp, old(d)@),
        2 * old(d)@[v as int] >= b + 1,
        table_ok(par, b, old(assigned)@, old(node_info)@, old(microsets)@, old(all_nodes)@),
        old(all_nodes)@.len() == count_eq(grp, -2),
        old(node_info)@.len() == par.len(),
    ensures
        groups_ok(par, root, opos, k, v as int, b, r@, final(d)@, final(assigned)@),
        accum_ok(par, root, slot, v as int, offsets@[v as int] as int, upto as int, b, r@, final(d)@),
        final(d)@[v as int] == 1,
        table_ok(par, b, final(assigned)@, final(node_info)@, final(microsets)@, final(all_nodes)@),
        final(all_nodes)@.len() == count_eq(r@, -2),
        final(node_info)@.len() == par.len(),
        forall|x: int|
            0 <= x < par.len() ==> #[trigger] final(node_info)@[x].parent == old(node_info)@[x].parent
                && final(node_info)@[x].level == old(node_info)@[x].level,
{
    let ghost vi = v as int;
    proof {
        reveal(tree_facts);
        lemma_group_split_pre(par, root, offsets@, children@, slot, order, opos, k, b, grp, d@, assigned@, vi, upto as int);
        lemma_groups_lens(par, root, opos, k, vi, b, grp, d@, assigned@);
        lemma_accum_facts(par, root, slot, vi, offsets@[vi] as int, upto as int, b, grp, d@);
        lemma_table_lens(par, b, assigned@, node_info@, microsets@, all_nodes@);
    }
    let ghost assigned_pre = assigned@;
    let ghost info_pre = node_info@;
    let ghost mss_pre = microsets@;
    let ghost all_pre = all_nodes@;
    add_microset(
        v as u32,
        upto,
        offsets,
        children,
        assigned,
        node_info,
        microsets,
        all_nodes,
        Ghost(par),
        Ghost(root),
        Ghost(slot),
        Ghost(grp),
    );
    proof {
        lemma_group_split_post(par, root, slot, opos, k, b, grp, d@, assigned_pre, assigned@, vi, offsets@[vi] as int, upto as int);
        lemma_table_add(par, root, b, assigned_pre, info_pre, mss_pre, all_pre, assigned@, node_info@, microsets@, all_nodes@);
    }
    d.set(v, 1);
    Ghost(take_group(grp, vi, vi))
}

/// Every node keeps its parent and level.
pub open spec fn records_kept(a: Seq<NodeInfo>, b: Seq<NodeInfo>) -> bool {
    &&& a.len() == b.len()
    &&& forall|x: int|
        0 <= x < a.len() ==> #[trigger] b[x].parent == a[x].parent && b[x].level == a[x].level
}

/// Process node `v`, the `k`-th in order: it gathers its children's groups
/// one by one, splitting off a microset whenever the group it gathers
/// reaches half of `b + 1`.
#[verifier::rlimit(60)]
#[verifier::spinoff_prover]
fn process_node(
    v: usize,
    threshold_2x: u32,
    offsets: &Vec<u32>,
    children: &Vec<u32>,
    d: &mut Vec<u32>,
    assigned: &mut Vec<bool>,
    node_info: &mut Vec<NodeInfo>,
    microsets: &mut Vec<Microset>,
    all_nodes: &mut Vec<u32>,
    Ghost(par): Ghost<Seq<usize>>,
    Ghost(root): Ghost<int>,
    Ghost(slot): Ghost<Seq<int>>,
    Ghost(order): Ghost<Seq<usize>>,
    Ghost(opos): Ghost<Seq<int>>,
    Ghost(k): Ghost<int>,
    Ghost(b): Ghost<nat>,
    Ghost(grp): Ghost<Seq<int>>,
) -> (r: Ghost<Seq<int>>)
    requires
        tree_facts(par, root, offsets@, children@, slot, order, opos),
        0 <= k < par.len(),
        v == order[k],
        2 <= b <= 16,
        threshold_2x == b + 1,
        groups_ok(par, root, opos, k, -1, b, grp, old(d)@, old(assigned)@),
        table_ok(par, b, old(assigned)@, old(node_info)@, old(microsets)@, old(all_nodes)@),
        old(all_nodes)@.len() == count_eq(grp, -2),
        old(node_info)@.len() == par.len(),
    ensures
        groups_ok(par, root, opos, k + 1, -1, b, r@, final(d)@, final(assigned)@),
        table_ok(par, b, final(assigned)@, final(node_info)@, final(microsets)@, final(all_nodes)@),
        final(all_nodes)@.len() == count_eq(r@, -2),
        final(node_info)@.len() == par.len(),
        records_kept(old(node_info)@, final(node_info)@),
{
    let ghost vi = v as int;
    let ghost info0 = node_info@;
    proof {
        assert(v < par.len() && par.len() < NO_PARENT && offsets@.len() == par.len() + 1 && offsets@[vi]
            <= offsets@[vi + 1]) by {
            reveal(tree_facts);
        }
        assert(groups_ok(par, root, opos, k, vi, b, grp.update(vi, vi), d@.update(vi, 1), assigned@) && accum_ok(
            par,
            root,
            slot,
            vi,
            offsets@[vi] as int,
            0,
            b,
            grp.update(vi, vi),
            d@.update(vi, 1),
        ) && count_eq(grp.update(vi, vi), -2) == count_eq(grp, -2) && offsets@[vi] <= offsets@[vi + 1]) by {
            reveal(tree_facts);
            lemma_group_start(par, root, offsets@, children@, slot, order, opos, k, b, grp, d@, assigned@, vi);
        }
        lemma_groups_lens(par, root, opos, k, -1, b, grp, d@, assigned@);
    }
    d.set(v, 1);
    let ghost mut g = grp.update(vi, vi);
    let lo = offsets[v] as usize;
    let len = (offsets[v + 1] - offsets[v]) as usize;
    let mut child_idx: usize = 0;
    let mut done = false;
    while !done
        invariant
            2 * d@[vi] < b + 1,
            done ==> child_idx == len,
            tree_facts(par, root, offsets@, children@, slot, order, opos),
            0 <= k < par.len(),
            v == order[k],
            vi == v,
            v < par.len(),
            d@.len() == par.len(),
            2 <= b <= 16,
            threshold_2x == b + 1,
            lo == offsets@[vi],
            lo + len == offsets@[vi + 1],
            child_idx <= len,
            groups_ok(par, root, opos, k, vi, b, g, d@, assigned@),
            accum_ok(par, root, slot, vi, lo as int, child_idx as int, b, g, d@),
            table_ok(par, b, assigned@, node_info@, microsets@, all_nodes@),
            all_nodes@.len() == count_eq(g, -2),
            node_info@.len() == par.len(),
            forall|x: int|
                0 <= x < par.len() ==> #[trigger] node_info@[x].parent == info0[x].parent && node_info@[x].level
                    == info0[x].level,
        decreases len - child_idx + if done {
            0int
        } else {
            1int
        },
    {
        let (ci2, Ghost(g2)) = take_children(
            v,
            lo,
            len,
            child_idx,
            threshold_2x,
            d,
            children,
            Ghost(par),
            Ghost(root),
            Ghost(offsets@),
            Ghost(slot),
            Ghost(order),
            Ghost(opos),
            Ghost(k),
            Ghost(b),
            Ghost(g),
            Ghost(assigned@),
        );
        child_idx = ci2;
        proof {
            g = g2;
            lemma_accum_facts(par, root, slot, vi, lo as int, child_idx as int, b, g, d@);
            lemma_groups_lens(par, root, opos, k, vi, b, g, d@, assigned@);
        }
        if 2 * d[v] < threshold_2x {
            done = true;
        } else {
            let ghost info_s = node_info@;
            let Ghost(g3) = split_at(
                v,
                child_idx,
                offsets,
                children,
                d,
                assigned,
                node_info,
                microsets,
                all_nodes,
                Ghost(par),
                Ghost(root),
                Ghost(slot),
                Ghost(order),
                Ghost(opos),
                Ghost(k),
                Ghost(b),
                Ghost(g),
            );
            proof {
                g = g3;
                lemma_groups_lens(par, root, opos, k, vi, b, g, d@, assigned@);
                assert forall|x: int| 0 <= x < par.len() implies (#[trigger] node_info@[x].parent
                    == info0[x].parent && node_info@[x].level == info0[x].level) by {
                    assert(node_info@[x].parent == info_s[x].parent && node_info@[x].level == info_s[x].level);
                    assert(info_s[x].parent == info0[x].parent && info_s[x].level == info0[x].level);
                }
            }
            if child_idx >= len {
                done = true;
            }
        }
    }
    proof {
        assert(groups_ok(par, root, opos, k + 1, -1, b, g, d@, assigned@)) by {
            reveal(tree_facts);
            lemma_group_finish(par, root, offsets@, children@, slot, order, opos, k, b, g, d@, assigned@, vi);
        }
        assert(info0 == old(node_info)@);
        assert(records_kept(old(node_info)@, node_info@));
    }
    Ghost(g)
}

/// Partition the nodes into microsets, taking them in `order` (each node
/// after its children); the root's leftovers make the last microset.
pub(crate) fn make_microsets(
    order: &Vec<usize>,
    root: usize,
    b: u32,
    offsets: &Vec<u32>,
    children: &Vec<u32>,
    node_info: &mut Vec<NodeInfo>,
    Ghost(par): Ghost<Seq<usize>>,
    Ghost(slot): Ghost<Seq<int>>,
    Ghost(opos): Ghost<Seq<int>>,
) -> (r: (Vec<Microset>, Vec<u32>))
    requires
        tree_facts(par, root as int, offsets@, children@, slot, order@, opos),
        2 <= b <= 16,
        old(node_info)@.len() == par.len(),
    ensures
        final(node_info)@.len() == par.len(),
        r.1@.len() == par.len(),
        table_ok(par, b as nat, Seq::new(par.len(), |x: int| true), final(node_info)@, r.0@, r.1@),
        forall|x: int|
            0 <= x < par.len() ==> #[trigger] final(node_info)@[x].parent == old(node_info)@[x].parent
                && final(node_info)@[x].level == old(node_info)@[x].level,
{
    let n = order.len();
    let ghost rt = root as int;
    let ghost bb = b as nat;
    let ghost info0 = node_info@;
    let mut d = vec![1u32; n];
    let mut assigned = vec![false; n];
    let mut microsets_list: Vec<Microset> = Vec::new();
    let mut all_nodes: Vec<u32> = Vec::new();
    let threshold_2x = b + 1;
    let ghost mut grp: Seq<int> = Seq::new(n as nat, |x: int| -1int);
    proof {
        assert forall|x: int| 0 <= x < n implies !#[trigger] assigned@[x] && d@[x] == 1 by {
            assert(cloned(false, assigned@[x]));
            assert(cloned(1u32, d@[x]));
        }
        lemma_count_eq_none(grp, -2);
        reveal(groups_ok);
        reveal(table_ok);
        reveal(tree_facts);
    }
    let mut k: usize = 0;
    while k < n
        invariant
            tree_facts(par, rt, offsets@, children@, slot, order@, opos),
            n == par.len(),
            order@.len() == n,
            rt == root,
            2 <= b <= 16,
            bb == b,
            threshold_2x == b + 1,
            k <= n,
            groups_ok(par, rt, opos, k as int, -1, bb, grp, d@, assigned@),
            table_ok(par, bb, assigned@, node_info@, microsets_list@, all_nodes@),
            all_nodes@.len() == count_eq(grp, -2),
            node_info@.len() == n,
            records_kept(info0, node_info@),
        decreases n - k,
    {
        let v = order[k];
        let Ghost(g2) = process_node(
            v,
            threshold_2x,
            offsets,
            children,
            &mut d,
            &mut assigned,
            node_info,
            &mut microsets_list,
            &mut all_nodes,
            Ghost(par),
            Ghost(rt),
            Ghost(slot),
            Ghost(order@),
            Ghost(opos),
            Ghost(k as int),
            Ghost(bb),
            Ghost(grp),
        );
        proof {
            grp = g2;
        }
        k += 1;
    }
    proof {
        reveal(tree_facts);
        lemma_group_final(par, rt, order@, opos, bb, grp, d@, assigned@);
        lemma_groups_lens(par, rt, opos, n as int, -1, bb, grp, d@, assigned@);
        lemma_table_lens(par, bb, assigned@, node_info@, microsets_list@, all_nodes@);
    }
    let ghost assigned_pre = assigned@;
    let ghost info_pre = node_info@;
    let ghost mss_pre = microsets_list@;
    let ghost all_pre = all_nodes@;
    add_final_microset(
        root,
        offsets,
        children,
        &mut assigned,
        node_info,
        &mut microsets_list,
        &mut all_nodes,
        Ghost(par),
        Ghost(slot),
        Ghost(grp),
    );
    proof {
        lemma_table_add(
            par, rt, bb, assigned_pre, info_pre, mss_pre, all_pre, assigned@, node_info@, microsets_list@,
            all_nodes@,
        );
        lemma_count_two_labels_all(grp, -2, rt);
        assert(assigned@ =~= Seq::new(n as nat, |x: int| true));
        assert forall|x: int| 0 <= x < par.len() implies #[trigger] node_info@[x].parent == info0[x].parent
            && node_info@[x].level == info0[x].level by {
            assert(info_pre[x].parent == info0[x].parent && info_pre[x].level == info0[x].level);
            assert(node_info@[x].parent == info_pre[x].parent && node_info@[x].level == info_pre[x].level);
        }
    }
    (microsets_list, all_nodes)
}

/// The breadth-first order reversed: each node comes after its children.
pub(crate) fn reverse_order(
    queue: &Vec<usize>,
    Ghost(par): Ghost<Seq<usize>>,
    Ghost(root): Ghost<int>,
    Ghost(levels): Ghost<Seq<u32>>,
    Ghost(qpos): Ghost<Seq<int>>,
) -> (r: (Vec<usize>, Ghost<Seq<int>>))
    requires
        bfs_ok(par, root, queue@, levels, qpos),
        forall|y: int| 0 <= y < par.len() ==> #[trigger] par[y] < par.len(),
    ensures
        order_ok(par, root, r.0@, r.1@),
{
    let n = queue.len();
    let ghost opos = Seq::new(n as nat, |x: int| n - 1 - qpos[x]);
    let mut order: Vec<usize> = Vec::new();
    let mut i: usize = 0;
    while i < n
        invariant
            n == queue@.len() == par.len(),
            bfs_ok(par, root, queue@, levels, qpos),
            opos == Seq::new(n as nat, |x: int| n - 1 - qpos[x]),
            i <= n,
            order@.len() == i,
            forall|j: int| 0 <= j < i ==> #[trigger] order@[j] == queue@[n - 1 - j],
        decreases n - i,
    {
        order.push(queue[n - 1 - i]);
        i += 1;
    }
    proof {
        assert forall|j: int| 0 <= j < n implies #[trigger] order@[j] < n && opos[order@[j] as int] == j by {
            assert(order@[j] == queue@[n - 1 - j]);
        }
        assert forall|x: int| 0 <= x < n implies 0 <= #[trigger] opos[x] < n && order@[opos[x]] == x by {
            assert(order@[opos[x]] == queue@[qpos[x]]);
        }
        assert forall|x: int| 0 <= x < n && x != root implies opos[x] < opos[(#[trigger] par[x]) as int] by {
            assert(qpos[par[x] as int] < qpos[x]);
        }
    }
    (order, Ghost(opos))
}

} // verus!
