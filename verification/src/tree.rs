//! Rooted trees given by parent arrays, and the set names that tree set
//! union maintains on them.
use vstd::prelude::*;
use vstd::set_lib::{lemma_int_range, set_int_range, lemma_map_size, lemma_len_subset};

verus! {

/// `depth` gives each node of the parent array `par` its distance to the
/// root: the root is its own parent and has depth 0, every other node is one
/// deeper than its parent.
pub open spec fn tree_depths(par: Seq<usize>, depth: Seq<nat>) -> bool {
    &&& depth.len() == par.len()
    &&& forall|i: int| 0 <= i < par.len() ==> #[trigger] par[i] < par.len()
    &&& forall|i: int| 0 <= i < par.len() ==> (par[i] == i <==> #[trigger] depth[i] == 0)
    &&& forall|i: int|
        0 <= i < par.len() && par[i] != i ==> #[trigger] depth[i] == depth[par[i] as int] + 1
}

/// A parent array of a rooted tree: at least one node, a single root (the
/// one node that is its own parent), and every node at a finite depth.
pub open spec fn is_rooted_tree(par: Seq<usize>) -> bool {
    &&& par.len() >= 1
    &&& exists|d: Seq<nat>| tree_depths(par, d)
    &&& forall|i: int, j: int|
        0 <= i < par.len() && 0 <= j < par.len() && #[trigger] par[i] == i && #[trigger] par[j]
            == j ==> i == j
}

/// Walk up from `v` while the current node is linked and not the root, for
/// at most `fuel` steps.
pub open spec fn walk_up(par: Seq<usize>, linked: Seq<bool>, v: int, fuel: nat) -> int
    decreases fuel,
{
    if fuel == 0 || !linked[v] || par[v] == v {
        v
    } else {
        walk_up(par, linked, par[v] as int, (fuel - 1) as nat)
    }
}

/// The set name of `v`: its nearest ancestor (itself included) that has not
/// been linked, or the root.
pub open spec fn set_name(par: Seq<usize>, linked: Seq<bool>, v: int) -> int {
    walk_up(par, linked, v, par.len())
}

/// The `k`-th ancestor of `v`.
pub open spec fn ancestor(par: Seq<usize>, v: int, k: nat) -> int
    decreases k,
{
    if k == 0 {
        v
    } else {
        ancestor(par, par[v] as int, (k - 1) as nat)
    }
}

/// Every node strictly below `t` on the way up from `v` (so `k` steps, with
/// `t` the `k`-th ancestor) is linked.
pub open spec fn linked_path(par: Seq<usize>, linked: Seq<bool>, v: int, t: int, k: nat) -> bool {
    &&& ancestor(par, v, k) == t
    &&& forall|i: nat| i < k ==> #[trigger] linked[ancestor(par, v, i)]
}

/// The ancestors of `v` lie in the tree, at decreasing depths.
pub proof fn lemma_ancestor_depth(par: Seq<usize>, d: Seq<nat>, v: int, k: nat)
    requires
        tree_depths(par, d),
        0 <= v < par.len(),
        k <= d[v],
    ensures
        0 <= ancestor(par, v, k) < par.len(),
        d[ancestor(par, v, k)] == d[v] - k,
    decreases k,
{
    if k > 0 {
        assert(par[v] != v);
        lemma_ancestor_depth(par, d, par[v] as int, (k - 1) as nat);
    }
}

/// Going up `a` then `b` steps is going up `a + b` steps.
pub proof fn lemma_ancestor_add(par: Seq<usize>, v: int, a: nat, b: nat)
    ensures
        ancestor(par, ancestor(par, v, a), b) == ancestor(par, v, a + b),
    decreases a,
{
    if a > 0 {
        lemma_ancestor_add(par, par[v] as int, (a - 1) as nat, b);
    }
}

/// One step up is the parent.
pub proof fn lemma_ancestor_step(par: Seq<usize>, v: int, k: nat)
    ensures
        ancestor(par, v, k + 1) == par[ancestor(par, v, k)] as int,
{
    lemma_ancestor_add(par, v, k, 1);
    let a = ancestor(par, v, k);
    assert(ancestor(par, a, 1) == ancestor(par, par[a] as int, 0));
}

/// No node is deeper than the number of nodes allows.
pub proof fn lemma_depth_bound(par: Seq<usize>, d: Seq<nat>, v: int)
    requires
        tree_depths(par, d),
        0 <= v < par.len(),
    ensures
        d[v] < par.len(),
{
    let k = d[v];
    let x = set_int_range(0, k as int + 1);
    let f = |j: int| ancestor(par, v, j as nat);
    lemma_int_range(0, k as int + 1);
    assert forall|i: int, j: int| x.contains(i) && x.contains(j) && f(i) == f(j) implies i == j by {
        lemma_ancestor_depth(par, d, v, i as nat);
        lemma_ancestor_depth(par, d, v, j as nat);
    }
    let y = x.map(f);
    lemma_map_size(x, y, f);
    lemma_int_range(0, par.len() as int);
    assert forall|a: int| y.contains(a) implies set_int_range(0, par.len() as int).contains(a) by {
        let j = choose|j: int| x.contains(j) && f(j) == a;
        lemma_ancestor_depth(par, d, v, j as nat);
    }
    lemma_len_subset(y, set_int_range(0, par.len() as int));
}

/// Extra fuel does not change the walk once it has enough to reach the root.
pub proof fn lemma_walk_stable(
    par: Seq<usize>,
    linked: Seq<bool>,
    d: Seq<nat>,
    v: int,
    fuel: nat,
)
    requires
        tree_depths(par, d),
        0 <= v < par.len(),
        fuel >= d[v],
    ensures
        walk_up(par, linked, v, fuel) == walk_up(par, linked, v, d[v]),
    decreases d[v],
{
    if d[v] > 0 && linked[v] {
        assert(par[v] != v);
        lemma_walk_stable(par, linked, d, par[v] as int, (fuel - 1) as nat);
        lemma_walk_stable(par, linked, d, par[v] as int, (d[v] - 1) as nat);
    }
}

/// The set name is reached within `depth(v)` steps.
pub proof fn lemma_set_name_depth(par: Seq<usize>, linked: Seq<bool>, d: Seq<nat>, v: int)
    requires
        tree_depths(par, d),
        0 <= v < par.len(),
    ensures
        set_name(par, linked, v) == walk_up(par, linked, v, d[v]),
{
    lemma_depth_bound(par, d, v);
    lemma_walk_stable(par, linked, d, v, par.len());
}

/// The walk up from `v` stops at a node of the tree that is unlinked or is
/// the root.
proof fn lemma_walk_end(par: Seq<usize>, linked: Seq<bool>, d: Seq<nat>, v: int, fuel: nat)
    requires
        tree_depths(par, d),
        0 <= v < par.len(),
        fuel >= d[v],
    ensures
        0 <= walk_up(par, linked, v, fuel) < par.len(),
        !linked[walk_up(par, linked, v, fuel)] || par[walk_up(par, linked, v, fuel)] == walk_up(par, linked, v, fuel),
    decreases fuel,
{
    if fuel > 0 && linked[v] && par[v] != v {
        lemma_walk_end(par, linked, d, par[v] as int, (fuel - 1) as nat);
    }
}

/// A set name is a node of the tree, unlinked or the root.
pub proof fn lemma_set_name_end(par: Seq<usize>, linked: Seq<bool>, v: int)
    requires
        is_rooted_tree(par),
        0 <= v < par.len(),
    ensures
        0 <= set_name(par, linked, v) < par.len(),
        !linked[set_name(par, linked, v)] || par[set_name(par, linked, v)] == set_name(par, linked, v),
{
    let d = choose|d: Seq<nat>| tree_depths(par, d);
    lemma_depth_bound(par, d, v);
    lemma_walk_end(par, linked, d, v, par.len());
}

/// An unlinked node is its own set name.
pub proof fn lemma_set_name_unlinked(par: Seq<usize>, linked: Seq<bool>, d: Seq<nat>, v: int)
    requires
        tree_depths(par, d),
        0 <= v < par.len(),
        !linked[v],
    ensures
        set_name(par, linked, v) == v,
{
    lemma_set_name_depth(par, linked, d, v);
}

/// Two linked paths, one after the other, make a linked path.
pub proof fn lemma_path_concat(
    par: Seq<usize>,
    linked: Seq<bool>,
    u: int,
    a: int,
    k1: nat,
    b: int,
    k2: nat,
)
    requires
        linked_path(par, linked, u, a, k1),
        linked_path(par, linked, a, b, k2),
    ensures
        linked_path(par, linked, u, b, k1 + k2),
{
    lemma_ancestor_add(par, u, k1, k2);
    assert forall|i: nat| i < k1 + k2 implies #[trigger] linked[ancestor(par, u, i)] by {
        if i >= k1 {
            lemma_ancestor_add(par, u, k1, (i - k1) as nat);
            assert(linked[ancestor(par, a, (i - k1) as nat)]);
        }
    }
}

/// Linking more nodes keeps a linked path linked.
pub proof fn lemma_path_mono(
    par: Seq<usize>,
    d: Seq<nat>,
    linked: Seq<bool>,
    linked2: Seq<bool>,
    u: int,
    t: int,
    k: nat,
)
    requires
        tree_depths(par, d),
        0 <= u < par.len(),
        k <= d[u],
        linked_path(par, linked, u, t, k),
        forall|x: int| 0 <= x < par.len() && #[trigger] linked[x] ==> linked2[x],
    ensures
        linked_path(par, linked2, u, t, k),
{
    assert forall|i: nat| i < k implies #[trigger] linked2[ancestor(par, u, i)] by {
        assert(linked[ancestor(par, u, i)]);
        lemma_ancestor_depth(par, d, u, i);
    }
}

/// Along a linked path, the set name does not change.
pub proof fn lemma_set_name_path(
    par: Seq<usize>,
    linked: Seq<bool>,
    d: Seq<nat>,
    v: int,
    t: int,
    k: nat,
)
    requires
        tree_depths(par, d),
        linked.len() == par.len(),
        0 <= v < par.len(),
        k <= d[v],
        linked_path(par, linked, v, t, k),
    ensures
        set_name(par, linked, v) == set_name(par, linked, t),
    decreases k,
{
    if k > 0 {
        assert(linked[ancestor(par, v, 0)]);
        assert(par[v] != v);
        let p = par[v] as int;
        assert forall|i: nat| i < (k - 1) as nat implies #[trigger] linked[ancestor(par, p, i)] by {
            assert(linked[ancestor(par, v, i + 1)]);
        }
        lemma_set_name_path(par, linked, d, p, t, (k - 1) as nat);
        lemma_set_name_depth(par, linked, d, v);
        lemma_set_name_depth(par, linked, d, p);
    }
}

/// The walk up from a node of `par` is the same in a tree that extends
/// `par` with more nodes, whatever their linked flags.
proof fn lemma_walk_extend(
    par: Seq<usize>,
    linked: Seq<bool>,
    par2: Seq<usize>,
    linked2: Seq<bool>,
    d: Seq<nat>,
    x: int,
)
    requires
        tree_depths(par, d),
        linked.len() == par.len(),
        par2.len() >= par.len(),
        linked2.len() >= par.len(),
        forall|i: int| 0 <= i < par.len() ==> #[trigger] par2[i] == par[i] && linked2[i] == linked[i],
        0 <= x < par.len(),
    ensures
        walk_up(par2, linked2, x, d[x]) == walk_up(par, linked, x, d[x]),
    decreases d[x],
{
    assert(par2[x] == par[x] && linked2[x] == linked[x]);
    if d[x] > 0 && linked[x] && par[x] != x {
        assert(d[par[x] as int] + 1 == d[x]);
        lemma_walk_extend(par, linked, par2, linked2, d, par[x] as int);
    }
}

/// Growing a leaf below `v` changes no set name of the nodes already in the
/// tree: the new node starts unlinked and lies below all of them.
pub proof fn lemma_grow_keeps_set_names(par: Seq<usize>, linked: Seq<bool>, v: usize, u: int)
    requires
        is_rooted_tree(par),
        linked.len() == par.len(),
        0 <= v < par.len(),
        0 <= u < par.len(),
    ensures
        set_name(par.push(v), linked.push(false), u) == set_name(par, linked, u),
{
    let d = choose|d: Seq<nat>| tree_depths(par, d);
    assert(tree_depths(par, d));
    let n = par.len() as int;
    let par2 = par.push(v);
    let lk2 = linked.push(false);
    let d2 = d.push(d[v as int] + 1);
    assert(tree_depths(par2, d2)) by {
        assert forall|i: int| 0 <= i < par2.len() implies #[trigger] par2[i] < par2.len() by {
            if i < n {
                assert(par2[i] == par[i]);
            }
        }
        assert forall|i: int| 0 <= i < par2.len() implies (par2[i] == i <==> #[trigger] d2[i] == 0) by {
            if i < n {
                assert(par2[i] == par[i] && d2[i] == d[i]);
            }
        }
        assert forall|i: int| 0 <= i < par2.len() && par2[i] != i implies #[trigger] d2[i] == d2[par2[i] as int] + 1 by {
            if i < n {
                assert(par2[i] == par[i] && d2[i] == d[i]);
                assert(d2[par[i] as int] == d[par[i] as int]);
            } else {
                assert(par2[i] == v);
                assert(d2[v as int] == d[v as int]);
            }
        }
    }
    lemma_set_name_depth(par, linked, d, u);
    lemma_set_name_depth(par2, lk2, d2, u);
    assert(d2[u] == d[u]);
    lemma_walk_extend(par, linked, par2, lk2, d, u);
}

/// The walk up from a node ends no deeper than it starts.
proof fn lemma_walk_depth(par: Seq<usize>, linked: Seq<bool>, d: Seq<nat>, x: int)
    requires
        tree_depths(par, d),
        0 <= x < par.len(),
    ensures
        0 <= walk_up(par, linked, x, d[x]) < par.len(),
        d[walk_up(par, linked, x, d[x])] <= d[x],
    decreases d[x],
{
    if d[x] > 0 && linked[x] && par[x] != x {
        lemma_walk_depth(par, linked, d, par[x] as int);
    }
}

/// Linking an unlinked node `v` other than the root changes exactly the set
/// names that were `v`: they become the set name of `v`'s parent.
pub proof fn lemma_link_set_names(par: Seq<usize>, linked: Seq<bool>, v: int, u: int)
    requires
        is_rooted_tree(par),
        linked.len() == par.len(),
        0 <= v < par.len(),
        par[v] != v,
        !linked[v],
        0 <= u < par.len(),
    ensures
        set_name(par, linked.update(v, true), u) == if set_name(par, linked, u) == v {
            set_name(par, linked, par[v] as int)
        } else {
            set_name(par, linked, u)
        },
{
    let d = choose|d: Seq<nat>| tree_depths(par, d);
    assert(tree_depths(par, d));
    lemma_link_set_names_depth(par, linked, d, v, u);
}

/// `lemma_link_set_names`, by induction on the depth of `u`.
proof fn lemma_link_set_names_depth(par: Seq<usize>, linked: Seq<bool>, d: Seq<nat>, v: int, u: int)
    requires
        tree_depths(par, d),
        linked.len() == par.len(),
        0 <= v < par.len(),
        par[v] != v,
        !linked[v],
        0 <= u < par.len(),
    ensures
        set_name(par, linked.update(v, true), u) == if set_name(par, linked, u) == v {
            set_name(par, linked, par[v] as int)
        } else {
            set_name(par, linked, u)
        },
    decreases d[u],
{
    let lk2 = linked.update(v, true);
    lemma_set_name_depth(par, linked, d, u);
    lemma_set_name_depth(par, lk2, d, u);
    if par[u] != u {
        let p = par[u] as int;
        lemma_set_name_depth(par, linked, d, p);
        lemma_set_name_depth(par, lk2, d, p);
        lemma_link_set_names_depth(par, linked, d, v, p);
        if u == v {
            lemma_walk_depth(par, linked, d, p);
            assert(set_name(par, linked, p) != v);
        }
    }
}

/// Linking a node twice marks it as linking it once does: the second link
/// changes nothing.
pub proof fn lemma_link_idempotent(linked: Seq<bool>, v: int)
    requires
        0 <= v < linked.len(),
    ensures
        linked.update(v, true).update(v, true) == linked.update(v, true),
{
    assert(linked.update(v, true).update(v, true) =~= linked.update(v, true));
}

} // verus!
