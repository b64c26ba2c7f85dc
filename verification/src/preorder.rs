//! Depth-first numbering of a small set of tree nodes, as the microsets of
//! the growing tree need it: the preorder of the nodes, the number of
//! children each has inside the set, and the linked bits carried over from
//! an earlier numbering.
use vstd::prelude::*;
use vstd::arithmetic::power2::pow2;
use crate::answer_table::{
    decode_counts, count_sum, as_nats, counts_closed, lemma_decode_shape,
};
use crate::construct::{pending, lemma_visit_step, lemma_pending_closed, lemma_count_sum_push};
use crate::microset::{NodeInfo, NO_PARENT, mark_bit};

verus! {

/// Node 0 is the root and every other node hangs from an earlier one.
pub open spec fn earlier_parents(par: Seq<usize>) -> bool {
    &&& par.len() >= 1
    &&& par[0] == 0
    &&& forall|i: int| 0 < i < par.len() ==> #[trigger] par[i] < i
}

/// The children lists `tc`: each lists, in increasing order, exactly the
/// nodes other than the root whose parent is its owner.
pub open spec fn children_ok(tc: Seq<Seq<u32>>, par: Seq<usize>) -> bool {
    &&& tc.len() >= par.len()
    &&& forall|v: int, i: int|
        0 <= v < tc.len() && 0 <= i < tc[v].len() ==> {
            let c = #[trigger] tc[v][i] as int;
            &&& 0 < c < par.len()
            &&& par[c] == v
        }
    &&& forall|v: int, i: int, j: int|
        0 <= v < tc.len() && 0 <= i < j < tc[v].len() ==> #[trigger] tc[v][i] < #[trigger] tc[v][j]
    &&& forall|c: int| 0 < c < par.len() ==> #[trigger] tc[par[c] as int].contains(c as u32)
}

/// The children lists held in nested vectors.
pub open spec fn lists_view(tc: Seq<Vec<u32>>) -> Seq<Seq<u32>> {
    Seq::new(tc.len(), |i: int| tc[i]@)
}

/// Each node's recorded parent: `NO_PARENT` for the root, else its parent.
pub open spec fn parents_recorded(info: Seq<NodeInfo>, par: Seq<usize>) -> bool {
    &&& info.len() >= par.len()
    &&& forall|v: int|
        0 <= v < par.len() ==> #[trigger] info[v].parent == (if v == 0 {
            NO_PARENT
        } else {
            par[v] as u32
        })
}

/// A node at the top of the set `members`: the root, or a node whose parent
/// lies outside the set.
pub open spec fn is_top(par: Seq<usize>, members: Seq<u32>, x: int) -> bool {
    x == 0 || !members.contains(par[x] as u32)
}

/// The linked bit a node had in an earlier numbering `old_nodes` with mark
/// `old_mark`; a node absent from it has none.
pub open spec fn old_bit(old_nodes: Seq<u32>, old_mark: u32, x: u32) -> bool {
    exists|i: int| 0 <= i < old_nodes.len() && old_nodes[i] == x && #[trigger] mark_bit(old_mark, i)
}

/// `x` comes before `y` in the list `mem`.
pub open spec fn before_in(mem: Seq<u32>, x: u32, y: u32) -> bool {
    exists|i: int, j: int| 0 <= i < j < mem.len() && mem[i] == x && mem[j] == y
}

/// `x` may come before `y` in a preorder of the set `mem`: two nodes below
/// one parent in the set in increasing order (the order of the children
/// lists), two top nodes in the order of `mem`.
pub open spec fn sib_before(par: Seq<usize>, mem: Seq<u32>, x: u32, y: u32) -> bool {
    &&& (!is_top(par, mem, x as int) && !is_top(par, mem, y as int) && par[x as int] == par[y as int]
        ==> x < y)
    &&& (is_top(par, mem, x as int) && is_top(par, mem, y as int) ==> before_in(mem, x, y))
}

/// The list `nodes` takes siblings in the order of the children lists and
/// top nodes in the order of `mem`.
pub open spec fn siblings_in_order(par: Seq<usize>, mem: Seq<u32>, nodes: Seq<u32>) -> bool {
    forall|a: int, b: int| 0 <= a < b < nodes.len() ==> #[trigger] sib_before(par, mem, nodes[a], nodes[b])
}

/// Taking the top of the stack and pushing its children in the set, last
/// first, keeps siblings in order.
proof fn lemma_sib_step(par: Seq<usize>, mem: Seq<u32>, nodes0: Seq<u32>, st: Seq<u32>, pn: Seq<u32>, v: u32)
    requires
        earlier_parents(par),
        st.len() > 0,
        st[st.len() - 1] == v,
        0 <= v < par.len(),
        mem.contains(v),
        !nodes0.contains(v),
        siblings_in_order(par, mem, nodes0),
        forall|a: int, j: int|
            0 <= a < nodes0.len() && 0 <= j < st.len() ==> #[trigger] sib_before(par, mem, nodes0[a], st[j]),
        forall|i: int, j: int| 0 <= i < j < st.len() ==> #[trigger] sib_before(par, mem, st[j], st[i]),
        reach_ok(par, mem, nodes0, st),
        forall|j: int| 0 <= j < pn.len() ==> 0 < #[trigger] pn[j] < par.len() && par[pn[j] as int] == v,
        forall|a: int, b: int| 0 <= a < b < pn.len() ==> #[trigger] pn[a] > #[trigger] pn[b],
    ensures
        siblings_in_order(par, mem, nodes0.push(v)),
        forall|a: int, j: int|
            0 <= a < nodes0.push(v).len() && 0 <= j < (st.drop_last() + pn).len() ==> #[trigger] sib_before(
                par,
                mem,
                nodes0.push(v)[a],
                (st.drop_last() + pn)[j],
            ),
        forall|i: int, j: int|
            0 <= i < j < (st.drop_last() + pn).len() ==> #[trigger] sib_before(
                par,
                mem,
                (st.drop_last() + pn)[j],
                (st.drop_last() + pn)[i],
            ),
{
    let e1 = nodes0.push(v);
    let s1 = st.drop_last() + pn;
    let l = st.len() - 1;
    assert forall|a: int|
        0 <= a < nodes0.len() && !is_top(par, mem, (#[trigger] nodes0[a]) as int) implies nodes0.contains(
        par[nodes0[a] as int] as u32,
    ) by {
        assert(nodes0.contains(nodes0[a]));
    }
    assert forall|j: int|
        0 <= j < st.len() && !is_top(par, mem, (#[trigger] st[j]) as int) implies nodes0.contains(
        par[st[j] as int] as u32,
    ) by {
        assert(st.contains(st[j]));
    }
    assert forall|j: int| 0 <= j < pn.len() implies !is_top(par, mem, (#[trigger] pn[j]) as int) by {
        assert(par[pn[j] as int] as u32 == v);
    }
    assert(!is_top(par, mem, v as int) ==> par[v as int] != v) by {
        if !is_top(par, mem, v as int) {
            assert(v != 0);
            assert(par[v as int] < v);
        }
    }
    assert forall|a: int, b: int| 0 <= a < b < e1.len() implies #[trigger] sib_before(par, mem, e1[a], e1[b]) by {
        if b < nodes0.len() {
            assert(sib_before(par, mem, nodes0[a], nodes0[b]));
        } else {
            assert(sib_before(par, mem, nodes0[a], st[l]));
        }
    }
    assert forall|a: int, j: int| 0 <= a < e1.len() && 0 <= j < s1.len() implies #[trigger] sib_before(
        par,
        mem,
        e1[a],
        s1[j],
    ) by {
        if j < l {
            assert(s1[j] == st[j]);
            if a < nodes0.len() {
                assert(sib_before(par, mem, nodes0[a], st[j]));
            } else {
                assert(sib_before(par, mem, st[l], st[j]));
            }
        } else {
            let c = pn[j - l];
            assert(s1[j] == c);
            assert(!is_top(par, mem, c as int));
            if a < nodes0.len() {
                let x = nodes0[a];
                if !is_top(par, mem, x as int) && par[x as int] == par[c as int] {
                    assert(nodes0.contains(par[x as int] as u32));
                    assert(par[x as int] as u32 == v);
                }
            }
        }
    }
    assert forall|i: int, j: int| 0 <= i < j < s1.len() implies #[trigger] sib_before(par, mem, s1[j], s1[i]) by {
        if j < l {
            assert(s1[j] == st[j] && s1[i] == st[i]);
            assert(sib_before(par, mem, st[j], st[i]));
        } else if i < l {
            let c = pn[j - l];
            assert(s1[j] == c);
            assert(s1[i] == st[i]);
            assert(!is_top(par, mem, c as int));
            let y = st[i];
            if !is_top(par, mem, y as int) && par[y as int] == par[c as int] {
                assert(nodes0.contains(par[y as int] as u32));
                assert(par[y as int] as u32 == v);
            }
        } else {
            assert(s1[j] == pn[j - l] && s1[i] == pn[i - l]);
            assert(pn[i - l] > pn[j - l]);
            assert(!is_top(par, mem, pn[j - l] as int));
            assert(!is_top(par, mem, pn[i - l] as int));
        }
    }
}

/// Whether `x` occurs in `s`.
pub(crate) fn list_contains(s: &Vec<u32>, x: u32) -> (r: bool)
    ensures
        r == s@.contains(x),
{
    let mut i: usize = 0;
    while i < s.len()
        invariant
            i <= s.len(),
            forall|j: int| 0 <= j < i ==> s@[j] != x,
        decreases s.len() - i,
    {
        if s[i] == x {
            return true;
        }
        i += 1;
    }
    false
}

/// The first position of `x` in `s`, or `s.len()` when it does not occur.
pub(crate) fn list_position(s: &Vec<u32>, x: u32) -> (r: usize)
    ensures
        r <= s.len(),
        r < s.len() ==> s@[r as int] == x,
        forall|j: int| 0 <= j < r ==> s@[j] != x,
{
    let mut i: usize = 0;
    while i < s.len()
        invariant
            i <= s.len(),
            forall|j: int| 0 <= j < i ==> s@[j] != x,
        decreases s.len() - i,
    {
        if s[i] == x {
            return i;
        }
        i += 1;
    }
    i
}

/// A sequence without repetitions, all of whose elements lie in `b`, is no
/// longer than `b`.
pub proof fn lemma_distinct_within<A>(a: Seq<A>, b: Seq<A>)
    requires
        a.no_duplicates(),
        forall|i: int| 0 <= i < a.len() ==> b.contains(#[trigger] a[i]),
    ensures
        a.len() <= b.len(),
{
    a.unique_seq_to_set();
    b.lemma_cardinality_of_set();
    assert(a.to_set().subset_of(b.to_set())) by {
        assert forall|x: A| a.to_set().contains(x) implies b.to_set().contains(x) by {
            let i = choose|i: int| 0 <= i < a.len() && a[i] == x;
            assert(b.contains(a[i]));
        }
    }
    vstd::set_lib::lemma_len_subset(a.to_set(), b.to_set());
}

proof fn lemma_mark_step(mark: u32, idx: u32, jj: u32)
    by (bit_vector)
    requires
        idx < 16,
        jj < 32,
        mark < (1u32 << idx),
    ensures
        (mark | (1u32 << idx)) < (1u32 << (idx + 1)),
        mark < (1u32 << (idx + 1)),
        jj != idx ==> ((mark | (1u32 << idx)) >> jj) & 1u32 == (mark >> jj) & 1u32,
        ((mark | (1u32 << idx)) >> idx) & 1u32 == 1u32,
        (mark >> idx) & 1u32 == 0u32,
{
}

proof fn lemma_shl_pow2(k: u32)
    requires
        k <= 16,
    ensures
        (1u32 << k) == pow2(k as nat),
{
    vstd::bits::lemma_u32_pow2_no_overflow(k as nat);
    vstd::bits::lemma_u32_shl_is_mul(1, k);
}

/// Every node still to be reached from the stack, or reached already, is in
/// the set and either at its top or below a node reached already.
spec fn reach_ok(par: Seq<usize>, members: Seq<u32>, nodes: Seq<u32>, stack: Seq<u32>) -> bool {
    forall|x: u32|
        #![trigger nodes.contains(x)]
        #![trigger stack.contains(x)]
        nodes.contains(x) || stack.contains(x) ==> {
            &&& members.contains(x)
            &&& 0 <= x < par.len()
            &&& (is_top(par, members, x as int) || nodes.contains(par[x as int] as u32))
        }
}

/// The children pushed for each reached node are set members hanging from
/// it; all of its children in the set were pushed; and each pushed node has
/// been reached or still waits on the stack.
spec fn pushed_ok(
    par: Seq<usize>,
    members: Seq<u32>,
    nodes: Seq<u32>,
    pushed: Seq<Seq<u32>>,
    stack: Seq<u32>,
) -> bool {
    &&& pushed.len() == nodes.len()
    &&& forall|k: int, j: int|
        0 <= k < pushed.len() && 0 <= j < pushed[k].len() ==> {
            let c = #[trigger] pushed[k][j];
            &&& members.contains(c)
            &&& 0 < c < par.len()
            &&& par[c as int] == nodes[k]
            &&& (nodes.contains(c) || stack.contains(c))
        }
    &&& forall|k: int, c: int|
        0 <= k < nodes.len() && 0 < c < par.len() && #[trigger] par[c] == nodes[k] && members.contains(
            c as u32,
        ) ==> #[trigger] pushed[k].contains(c as u32)
}

/// Every set member is reached, once the stack is empty and all first nodes
/// have been taken.
proof fn lemma_all_reached(
    par: Seq<usize>,
    members: Seq<u32>,
    nodes: Seq<u32>,
    pushed: Seq<Seq<u32>>,
    firsts: Seq<u32>,
    x: int,
)
    requires
        earlier_parents(par),
        par.len() < NO_PARENT,
        pushed_ok(par, members, nodes, pushed, seq![]),
        forall|y: int|
            0 <= y < par.len() && members.contains(y as u32) && is_top(par, members, y) ==> firsts.contains(
                y as u32,
            ),
        forall|i: int| 0 <= i < firsts.len() ==> nodes.contains(#[trigger] firsts[i]),
        0 <= x < par.len(),
        members.contains(x as u32),
    ensures
        nodes.contains(x as u32),
    decreases x,
{
    if is_top(par, members, x) {
        let i = choose|i: int| 0 <= i < firsts.len() && firsts[i] == x as u32;
        assert(nodes.contains(firsts[i]));
    } else {
        let p = par[x] as int;
        assert(x != 0);
        assert(p < x);
        lemma_all_reached(par, members, nodes, pushed, firsts, p);
        let k = choose|k: int| 0 <= k < nodes.len() && nodes[k] == p as u32;
        assert(par[x] == nodes[k]);
        assert(0 <= k < nodes.len() && 0 < x < par.len() && members.contains(x as u32));
        assert(pushed[k].contains(x as u32));
        let j = choose|j: int| 0 <= j < pushed[k].len() && pushed[k][j] == x as u32;
        assert(nodes.contains(pushed[k][j]) || seq![].contains(pushed[k][j]));
    }
}

/// Number the set `members` in depth-first preorder: the top nodes in the
/// order of `members`, each followed by the subtrees of its children in the
/// set, in the order of the children lists. Returns the nodes in preorder,
/// each node's number of children inside the set, and a mark whose bit at
/// each position is the node's linked bit under `old_nodes` / `old_mark`.
pub(crate) fn member_preorder(
    members: &Vec<u32>,
    old_nodes: &Vec<u32>,
    old_mark: u32,
    node_info: &Vec<NodeInfo>,
    tree_children: &Vec<Vec<u32>>,
    Ghost(par): Ghost<Seq<usize>>,
) -> (r: (Vec<u32>, Vec<u32>, u32))
    requires
        earlier_parents(par),
        par.len() < NO_PARENT,
        parents_recorded(node_info@, par),
        children_ok(lists_view(tree_children@), par),
        1 <= members.len() <= 16,
        members@.no_duplicates(),
        forall|i: int| 0 <= i < members.len() ==> #[trigger] members@[i] < par.len(),
        old_nodes@.no_duplicates(),
        old_nodes.len() <= 32,
    ensures
        ({
            let (nodes, counts, mark) = r;
            let cs = as_nats(counts@);
            let ps = decode_counts(cs).0;
            &&& nodes.len() == members.len()
            &&& counts.len() == nodes.len()
            &&& nodes@.no_duplicates()
            &&& forall|x: u32| #[trigger] nodes@.contains(x) <==> members@.contains(x)
            &&& ps.len() == nodes.len()
            &&& forall|k: int|
                0 <= k < nodes.len() ==> {
                    let w = (#[trigger] nodes@[k]) as int;
                    &&& 0 <= w < par.len()
                    &&& (ps[k] == -1 ==> is_top(par, members@, w))
                    &&& (ps[k] != -1 ==> 0 <= ps[k] < k && w != 0 && par[w] == nodes@[ps[k]])
                }
            &&& counts_closed(cs)
            &&& count_sum(cs) + 1 <= nodes.len()
            &&& mark < pow2(nodes.len() as nat)
            &&& forall|j: int|
                0 <= j < nodes.len() ==> #[trigger] mark_bit(mark, j) == old_bit(
                    old_nodes@,
                    old_mark,
                    nodes@[j],
                )
            &&& siblings_in_order(par, members@, nodes@)
        }),
{
    let ghost mem = members@;
    let ghost tc = lists_view(tree_children@);
    // The top nodes, in the order of `members`.
    let mut roots: Vec<u32> = Vec::new();
    let mut i: usize = 0;
    while i < members.len()
        invariant
            i <= members.len(),
            mem == members@,
            earlier_parents(par),
            parents_recorded(node_info@, par),
            forall|j: int| 0 <= j < members.len() ==> #[trigger] members@[j] < par.len(),
            members@.no_duplicates(),
            roots@.no_duplicates(),
            forall|j: int|
                0 <= j < roots.len() ==> mem.contains(#[trigger] roots@[j]) && is_top(
                    par,
                    mem,
                    roots@[j] as int,
                ),
            forall|j: int|
                0 <= j < i && is_top(par, mem, (#[trigger] mem[j]) as int) ==> roots@.contains(mem[j]),
            forall|j: int| 0 <= j < roots.len() ==> mem.subrange(0, i as int).contains(#[trigger] roots@[j]),
            forall|a: int, b: int| 0 <= a < b < roots.len() ==> before_in(mem, #[trigger] roots@[a], #[trigger] roots@[b]),
        decreases members.len() - i,
    {
        let nid = members[i];
        let p = node_info[nid as usize].parent;
        let top = if p == NO_PARENT {
            true
        } else {
            !list_contains(members, p)
        };
        proof {
            let x = nid as int;
            assert(mem[i as int] == nid);
            if x == 0 {
                assert(p == NO_PARENT);
            } else {
                assert(p == par[x] as u32);
                assert(par[x] < x);
                assert(p != NO_PARENT);
            }
            assert(top == is_top(par, mem, x));
        }
        if top {
            proof {
                assert forall|j: int| 0 <= j < roots.len() implies #[trigger] roots@[j] != nid by {
                    let t = choose|t: int| 0 <= t < i && mem.subrange(0, i as int)[t] == roots@[j];
                    assert(mem[t] == roots@[j]);
                    assert(mem[t] != mem[i as int]);
                }
            }
            let ghost r0 = roots@;
            roots.push(nid);
            proof {
                assert(roots@[roots.len() - 1] == nid);
                assert(mem[i as int] == nid);
                assert forall|j: int| 0 <= j < roots.len() implies mem.subrange(0, i + 1).contains(
                    #[trigger] roots@[j],
                ) by {
                    if j < r0.len() {
                        let t = choose|t: int| 0 <= t < i && mem.subrange(0, i as int)[t] == roots@[j];
                        assert(mem.subrange(0, i + 1)[t] == roots@[j]);
                    } else {
                        assert(mem.subrange(0, i + 1)[i as int] == roots@[j]);
                    }
                }
                assert(roots@.contains(nid));
                assert forall|a: int, b: int| 0 <= a < b < roots.len() implies before_in(
                    mem,
                    #[trigger] roots@[a],
                    #[trigger] roots@[b],
                ) by {
                    assert(roots@[a] == r0[a]);
                    if b < r0.len() {
                        assert(roots@[b] == r0[b]);
                        assert(before_in(mem, r0[a], r0[b]));
                    } else {
                        let t = choose|t: int| 0 <= t < i && mem.subrange(0, i as int)[t] == r0[a];
                        assert(mem[t] == r0[a]);
                        assert(mem[i as int] == roots@[b]);
                    }
                }
                assert forall|j: int| 0 <= j < i && is_top(par, mem, (#[trigger] mem[j]) as int) implies roots@.contains(
                    mem[j],
                ) by {
                    assert(r0.contains(mem[j]));
                    let t = choose|t: int| 0 <= t < r0.len() && r0[t] == mem[j];
                    assert(roots@[t] == mem[j]);
                }
            }
        }
        i += 1;
    }
    // Push them so that the first top node is taken first.
    let mut stack: Vec<u32> = Vec::new();
    let mut k = roots.len();
    while k > 0
        invariant
            k <= roots.len(),
            stack.len() == roots.len() - k,
            forall|j: int| 0 <= j < stack.len() ==> #[trigger] stack@[j] == roots@[roots.len() - 1 - j],
        decreases k,
    {
        k -= 1;
        stack.push(roots[k]);
    }
    let ghost firsts = stack@;
    proof {
        assert forall|a: int, b: int| 0 <= a < b < firsts.len() implies firsts[a] != firsts[b] by {
            assert(firsts[a] == roots@[roots.len() - 1 - a]);
            assert(firsts[b] == roots@[roots.len() - 1 - b]);
        }
        assert forall|y: int|
            0 <= y < par.len() && mem.contains(y as u32) && is_top(par, mem, y) implies firsts.contains(
            y as u32,
        ) by {
            let t = choose|t: int| 0 <= t < mem.len() && mem[t] == y as u32;
            assert(is_top(par, mem, mem[t] as int));
            assert(roots@.contains(mem[t]));
            let j = choose|j: int| 0 <= j < roots.len() && roots@[j] == mem[t];
            assert(firsts[roots.len() - 1 - j] == roots@[j]);
        }
        assert forall|j: int| 0 <= j < firsts.len() implies mem.contains(#[trigger] firsts[j]) && is_top(
            par,
            mem,
            firsts[j] as int,
        ) by {
            assert(firsts[j] == roots@[roots.len() - 1 - j]);
        }
        assert forall|a: int, j: int| 0 <= a < j < firsts.len() implies #[trigger] sib_before(
            par,
            mem,
            firsts[j],
            firsts[a],
        ) by {
            let l = roots.len() as int;
            assert(firsts[j] == roots@[l - 1 - j]);
            assert(firsts[a] == roots@[l - 1 - a]);
            assert(before_in(mem, roots@[l - 1 - j], roots@[l - 1 - a]));
        }
    }
    let mut nodes: Vec<u32> = Vec::new();
    let mut counts: Vec<u32> = Vec::new();
    let mut new_mark: u32 = 0;
    let ghost mut pushed: Seq<Seq<u32>> = seq![];
    let ghost mut rr: int = firsts.len() as int;
    proof {
        assert(firsts.take(rr) =~= firsts);
        assert(decode_counts(as_nats(counts@)).1 =~= Seq::<(nat, nat)>::empty());
        assert(pending(decode_counts(as_nats(counts@)).1, pushed) =~= Seq::<u32>::empty());
        assert(stack@ =~= firsts.take(rr) + pending(decode_counts(as_nats(counts@)).1, pushed));
        assert(nodes@ + stack@ =~= stack@);
        assert(count_sum(as_nats(counts@)) == 0);
        assert(0u32 < (1u32 << 0u32)) by (bit_vector);
    }
    while stack.len() > 0
        invariant
            mem == members@,
            tc == lists_view(tree_children@),
            earlier_parents(par),
            par.len() < NO_PARENT,
            children_ok(tc, par),
            1 <= members.len() <= 16,
            members@.no_duplicates(),
            forall|j: int| 0 <= j < members.len() ==> #[trigger] members@[j] < par.len(),
            old_nodes@.no_duplicates(),
            old_nodes.len() <= 32,
            firsts.no_duplicates(),
            forall|y: int|
                0 <= y < par.len() && mem.contains(y as u32) && is_top(par, mem, y) ==> firsts.contains(
                    y as u32,
                ),
            forall|j: int| 0 <= j < firsts.len() ==> mem.contains(#[trigger] firsts[j]) && is_top(
                par,
                mem,
                firsts[j] as int,
            ),
            0 <= rr <= firsts.len(),
            forall|j: int| rr <= j < firsts.len() ==> nodes@.contains(#[trigger] firsts[j]),
            counts.len() == nodes.len(),
            pushed.len() == nodes.len(),
            forall|j: int| 0 <= j < counts.len() ==> #[trigger] counts@[j] == pushed[j].len(),
            stack@ == firsts.take(rr) + pending(decode_counts(as_nats(counts@)).1, pushed),
            forall|j: int|
                0 <= j < decode_counts(as_nats(counts@)).1.len() ==> #[trigger] decode_counts(
                    as_nats(counts@),
                ).1[j].0 < counts.len() && decode_counts(as_nats(counts@)).1[j].1 <= pushed[decode_counts(
                    as_nats(counts@),
                ).1[j].0 as int].len(),
            nodes.len() + stack.len() == firsts.len() + count_sum(as_nats(counts@)),
            decode_counts(as_nats(counts@)).0.len() == nodes.len(),
            forall|j: int|
                0 <= j < nodes.len() ==> {
                    let w = (#[trigger] nodes@[j]) as int;
                    let p = decode_counts(as_nats(counts@)).0[j];
                    &&& 0 <= w < par.len()
                    &&& (p == -1 ==> is_top(par, mem, w))
                    &&& (p != -1 ==> 0 <= p < j && w != 0 && par[w] == nodes@[p])
                },
            (nodes@ + stack@).no_duplicates(),
            reach_ok(par, mem, nodes@, stack@),
            pushed_ok(par, mem, nodes@, pushed, stack@),
            nodes.len() <= members.len(),
            new_mark < (1u32 << nodes.len() as u32),
            forall|j: int|
                0 <= j < nodes.len() ==> #[trigger] mark_bit(new_mark, j) == old_bit(
                    old_nodes@,
                    old_mark,
                    nodes@[j],
                ),
            siblings_in_order(par, mem, nodes@),
            forall|a: int, j: int|
                0 <= a < nodes.len() && 0 <= j < stack.len() ==> #[trigger] sib_before(par, mem, nodes@[a], stack@[j]),
            forall|a: int, j: int| 0 <= a < j < stack.len() ==> #[trigger] sib_before(par, mem, stack@[j], stack@[a]),
        decreases members.len() - nodes.len(),
    {
        let ghost st = stack@;
        let ghost nodes0 = nodes@;
        let ghost cs0 = as_nats(counts@);
        let v = stack.pop().unwrap();
        proof {
            assert(st[st.len() - 1] == v);
            assert(st.contains(v));
            assert((nodes0 + st)[nodes0.len() + st.len() - 1] == v);
            assert(!nodes0.contains(v)) by {
                if nodes0.contains(v) {
                    let a = choose|a: int| 0 <= a < nodes0.len() && nodes0[a] == v;
                    assert((nodes0 + st)[a] == v);
                }
            }
            assert forall|a: int, b: int| 0 <= a < b < nodes0.push(v).len() implies nodes0.push(v)[a]
                != nodes0.push(v)[b] by {
                if b < nodes0.len() {
                    assert((nodes0 + st)[a] == nodes0[a]);
                    assert((nodes0 + st)[b] == nodes0[b]);
                } else {
                    assert(nodes0.contains(nodes0[a]));
                }
            }
            assert forall|a: int| 0 <= a < nodes0.push(v).len() implies mem.contains(
                #[trigger] nodes0.push(v)[a],
            ) by {
                if a < nodes0.len() {
                    assert(nodes0.contains(nodes0[a]));
                }
            }
            lemma_distinct_within(nodes0.push(v), mem);
        }
        let idx = nodes.len();
        nodes.push(v);
        // Carry over the linked bit.
        let pos = list_position(old_nodes, v);
        let ghost mark0 = new_mark;
        if pos < old_nodes.len() && (old_mark >> pos as u32) & 1 == 1 {
            new_mark = new_mark | (1u32 << idx as u32);
        }
        proof {
            assert forall|jj: int| 0 <= jj < 32 implies #[trigger] mark_bit(new_mark, jj) == (if jj == idx {
                old_bit(old_nodes@, old_mark, v)
            } else {
                mark_bit(mark0, jj)
            }) by {
                lemma_mark_step(mark0, idx as u32, jj as u32);
                if jj == idx {
                    if pos < old_nodes.len() && mark_bit(old_mark, pos as int) {
                        assert(old_bit(old_nodes@, old_mark, v));
                    } else {
                        if old_bit(old_nodes@, old_mark, v) {
                            let t = choose|t: int|
                                0 <= t < old_nodes.len() && old_nodes@[t] == v && #[trigger] mark_bit(old_mark, t);
                            assert(t == pos as int) by {
                                if t < pos {
                                } else if t > pos {
                                    assert(pos < old_nodes.len());
                                }
                            }
                        }
                    }
                }
            }
            lemma_mark_step(mark0, idx as u32, 0);
        }
        // Push the children inside the set, last first.
        let ch = &tree_children[v as usize];
        let ghost chs = ch@;
        let ghost st1 = stack@;
        let mut cc: u32 = 0;
        let mut t = ch.len();
        proof {
            assert(chs == tc[v as int]);
            assert(stack@ =~= st1 + Seq::<u32>::empty());
        }
        while t > 0
            invariant
                mem == members@,
                tc == lists_view(tree_children@),
                children_ok(tc, par),
                1 <= members.len() <= 16,
                chs == tc[v as int],
                chs == ch@,
                0 <= v < par.len(),
                t <= chs.len(),
                cc <= chs.len() - t,
                stack@.len() == st1.len() + cc,
                stack@.subrange(0, st1.len() as int) == st1,
                forall|j: int|
                    st1.len() <= j < stack@.len() ==> {
                        let c = #[trigger] stack@[j];
                        &&& mem.contains(c)
                        &&& 0 < c < par.len()
                        &&& par[c as int] == v
                        &&& t < chs.len()
                        &&& c >= chs[t as int]
                    },
                forall|a: int, b: int| st1.len() <= a < b < stack@.len() ==> #[trigger] stack@[a] > #[trigger] stack@[b],
                forall|j: int|
                    t <= j < chs.len() && mem.contains(#[trigger] chs[j]) ==> stack@.subrange(
                        st1.len() as int,
                        stack@.len() as int,
                    ).contains(chs[j]),
            decreases t,
        {
            t -= 1;
            let c = ch[t];
            proof {
                assert(tc[v as int][t as int] == c);
            }
            if list_contains(members, c) {
                let ghost sb = stack@;
                stack.push(c);
                proof {
                    assert(stack@.subrange(0, st1.len() as int) =~= sb.subrange(0, st1.len() as int));
                    assert forall|j: int|
                        t <= j < chs.len() && mem.contains(#[trigger] chs[j]) implies stack@.subrange(
                        st1.len() as int,
                        stack@.len() as int,
                    ).contains(chs[j]) by {
                        if j == t {
                            assert(stack@.subrange(st1.len() as int, stack@.len() as int)[stack@.len() - 1
                                - st1.len()] == c);
                        } else {
                            let q = choose|q: int|
                                0 <= q < sb.subrange(st1.len() as int, sb.len() as int).len() && sb.subrange(
                                    st1.len() as int,
                                    sb.len() as int,
                                )[q] == chs[j];
                            assert(stack@.subrange(st1.len() as int, stack@.len() as int)[q] == chs[j]);
                        }
                    }
                    assert forall|j: int| st1.len() <= j < stack@.len() implies #[trigger] stack@[j]
                        >= chs[t as int] by {
                        if j < stack@.len() - 1 {
                            assert(sb[j] >= chs[t + 1]);
                            assert(chs[t as int] < chs[t + 1]);
                        }
                    }
                    assert forall|a: int, b: int| st1.len() <= a < b < stack@.len() implies #[trigger] stack@[a]
                        > #[trigger] stack@[b] by {
                        if b == stack@.len() - 1 {
                            assert(sb[a] >= chs[t + 1]);
                            assert(chs[t as int] < chs[t + 1]);
                        }
                    }
                    let pn = stack@.subrange(st1.len() as int, stack@.len() as int);
                    assert forall|a: int, b: int| 0 <= a < b < pn.len() implies pn[a] != pn[b] by {
                        assert(stack@[st1.len() + a] > stack@[st1.len() + b]);
                    }
                    assert forall|a: int| 0 <= a < pn.len() implies mem.contains(#[trigger] pn[a]) by {
                        assert(stack@[st1.len() + a] == pn[a]);
                    }
                    lemma_distinct_within(pn, mem);
                }
                cc += 1;
            } else {
                proof {
                    assert forall|j: int| st1.len() <= j < stack@.len() implies #[trigger] stack@[j]
                        >= chs[t as int] by {
                        assert(stack@[j] >= chs[t + 1]);
                        assert(chs[t as int] < chs[t + 1]);
                    }
                }
            }
        }
        counts.push(cc);
        proof {
            let pn = stack@.subrange(st1.len() as int, stack@.len() as int);
            assert(stack@ =~= st1 + pn);
            assert(st1 =~= st.drop_last());
            let cs = cs0;
            assert(as_nats(counts@) =~= cs.push(pn.len()));
            let (p, rr2) = lemma_visit_step(cs, pushed, firsts, rr, st, pn);
            lemma_count_sum_push(cs, pn.len());
            let pushed0 = pushed;
            pushed = pushed.push(pn);
            let rr0 = rr;
            rr = rr2;
            let nodes1 = nodes@;
            assert(nodes1 == nodes0.push(v));
            // The popped node and its parent.
            if p == -1 {
                assert(v == firsts[rr0 - 1]);
            } else {
                let q = choose|q: int| 0 <= q < pushed0[p].len() && pushed0[p][q] == v;
                assert(pushed0[p][q] == v);
            }
            // The children pushed: set members below `v`, new to the search.
            assert forall|j: int| 0 <= j < pn.len() implies {
                let c = #[trigger] pn[j];
                &&& mem.contains(c)
                &&& 0 < c < par.len()
                &&& par[c as int] == v
                &&& !nodes1.contains(c)
                &&& !st1.contains(c)
            } by {
                let c = pn[j];
                assert(stack@[st1.len() + j] == c);
                assert(c != v);
                if nodes0.contains(c) || st.contains(c) {
                    assert(is_top(par, mem, c as int) || nodes0.contains(par[c as int] as u32));
                    assert(!is_top(par, mem, c as int));
                }
                if st1.contains(c) {
                    let q = choose|q: int| 0 <= q < st1.len() && st1[q] == c;
                    assert(st[q] == c);
                }
            }
            assert(pn.no_duplicates()) by {
                assert forall|a: int, b: int| 0 <= a < b < pn.len() implies pn[a] != pn[b] by {
                    assert(stack@[st1.len() + a] > stack@[st1.len() + b]);
                }
            }
            assert((nodes1 + stack@).no_duplicates()) by {
                assert(nodes1 + stack@ =~= nodes0.push(v) + st1 + pn);
                assert forall|a: int, b: int| 0 <= a < b < (nodes1 + stack@).len() implies (nodes1
                    + stack@)[a] != (nodes1 + stack@)[b] by {
                    let s = nodes1 + stack@;
                    let l0 = nodes0.len() as int;
                    let l1 = l0 + 1 + st1.len();
                    if b < l0 {
                        assert(s[a] == (nodes0 + st)[a]);
                        assert(s[b] == (nodes0 + st)[b]);
                    } else if b == l0 {
                        assert(s[b] == v);
                        assert(s[a] == nodes0[a]);
                        assert(nodes0.contains(nodes0[a]));
                    } else if b < l1 {
                        assert(s[b] == st1[b - l0 - 1]);
                        assert(st[b - l0 - 1] == s[b]);
                        assert((nodes0 + st)[b - 1] == s[b]);
                        if a < l0 {
                            assert((nodes0 + st)[a] == s[a]);
                        } else if a == l0 {
                            assert((nodes0 + st)[l0 + st.len() - 1] == v);
                            assert(b - 1 != l0 + st.len() - 1);
                        } else {
                            assert(st[a - l0 - 1] == s[a]);
                            assert((nodes0 + st)[a - 1] == s[a]);
                        }
                    } else {
                        let c = s[b];
                        assert(c == pn[b - l1]);
                        if a < l0 {
                            assert(nodes1.contains(s[a]));
                            assert(s[a] == nodes1[a]);
                        } else if a == l0 {
                            assert(nodes1[a] == s[a]);
                        } else if a < l1 {
                            assert(st1[a - l0 - 1] == s[a]);
                            assert(st1.contains(s[a]));
                        } else {
                            assert(pn[a - l1] == s[a]);
                        }
                    }
                }
            }
            // The search state.
            assert forall|x: u32|
                #![trigger nodes1.contains(x)]
                #![trigger stack@.contains(x)]
                nodes1.contains(x) || stack@.contains(x) implies {
                &&& mem.contains(x)
                &&& 0 <= x < par.len()
                &&& (is_top(par, mem, x as int) || nodes1.contains(par[x as int] as u32))
            } by {
                if x == v {
                    assert(st.contains(x));
                } else if nodes1.contains(x) {
                    let a = choose|a: int| 0 <= a < nodes1.len() && nodes1[a] == x;
                    assert(nodes0[a] == x);
                    assert(nodes0.contains(x));
                } else {
                    let a = choose|a: int| 0 <= a < stack@.len() && stack@[a] == x;
                    if a < st1.len() {
                        assert(st1[a] == x);
                        assert(st[a] == x);
                        assert(st.contains(x));
                    } else {
                        assert(pn[a - st1.len()] == x);
                        assert(nodes1[nodes1.len() - 1] == v);
                    }
                }
                if nodes0.contains(par[x as int] as u32) {
                    let a = choose|a: int| 0 <= a < nodes0.len() && nodes0[a] == par[x as int] as u32;
                    assert(nodes1[a] == par[x as int] as u32);
                }
            }
            assert forall|kk: int, j: int| 0 <= kk < pushed.len() && 0 <= j < pushed[kk].len() implies {
                let c = #[trigger] pushed[kk][j];
                &&& mem.contains(c)
                &&& 0 < c < par.len()
                &&& par[c as int] == nodes1[kk]
                &&& (nodes1.contains(c) || stack@.contains(c))
            } by {
                let c = pushed[kk][j];
                if kk < pushed0.len() {
                    assert(pushed0[kk][j] == c);
                    assert(nodes1[kk] == nodes0[kk]);
                    if c == v {
                        assert(nodes1[nodes1.len() - 1] == v);
                    } else if nodes0.contains(c) {
                        let a = choose|a: int| 0 <= a < nodes0.len() && nodes0[a] == c;
                        assert(nodes1[a] == c);
                    } else {
                        assert(st.contains(c));
                        let a = choose|a: int| 0 <= a < st.len() && st[a] == c;
                        assert(a != st.len() - 1);
                        assert(stack@[a] == st1[a]);
                    }
                } else {
                    assert(pn[j] == c);
                    assert(stack@[st1.len() + j] == c);
                }
            }
            assert forall|kk: int, c: int|
                0 <= kk < nodes1.len() && 0 < c < par.len() && #[trigger] par[c] == nodes1[kk]
                    && mem.contains(c as u32) implies #[trigger] pushed[kk].contains(c as u32) by {
                if kk < nodes0.len() {
                    assert(nodes1[kk] == nodes0[kk]);
                    assert(pushed0[kk].contains(c as u32));
                } else {
                    assert(tc[par[c] as int].contains(c as u32));
                    let q = choose|q: int| 0 <= q < chs.len() && chs[q] == c as u32;
                    assert(mem.contains(chs[q]));
                }
            }
            assert forall|j: int| rr <= j < firsts.len() implies nodes1.contains(#[trigger] firsts[j]) by {
                if j == rr0 - 1 && p == -1 {
                    assert(nodes1[nodes1.len() - 1] == v);
                } else {
                    assert(nodes0.contains(firsts[j]));
                    let a = choose|a: int| 0 <= a < nodes0.len() && nodes0[a] == firsts[j];
                    assert(nodes1[a] == firsts[j]);
                }
            }
            assert forall|j: int| 0 <= j < counts.len() implies #[trigger] counts@[j] == pushed[j].len() by {
            }
            assert forall|j: int| 0 <= j < nodes1.len() implies #[trigger] mark_bit(new_mark, j) == old_bit(
                old_nodes@,
                old_mark,
                nodes1[j],
            ) by {
                if j < nodes0.len() {
                    assert(nodes1[j] == nodes0[j]);
                }
            }
            lemma_decode_shape(as_nats(counts@));
        }
        proof {
            let pn = stack@.subrange(st1.len() as int, stack@.len() as int);
            assert(stack@ =~= st.drop_last() + pn);
            assert forall|j: int| 0 <= j < pn.len() implies 0 < #[trigger] pn[j] < par.len() && par[pn[j] as int] == v by {
                assert(stack@[st1.len() + j] == pn[j]);
            }
            assert forall|a: int, b: int| 0 <= a < b < pn.len() implies #[trigger] pn[a] > #[trigger] pn[b] by {
                assert(stack@[st1.len() + a] == pn[a]);
                assert(stack@[st1.len() + b] == pn[b]);
            }
            lemma_sib_step(par, mem, nodes0, st, pn, v);
        }
    }
    proof {
        let cs = as_nats(counts@);
        let br = decode_counts(cs).1;
        assert(rr == 0) by {
            if rr > 0 {
                assert(stack@.len() >= rr);
            }
        }
        assert(pending(br, pushed).len() == 0);
        lemma_pending_closed(br, pushed);
        assert(stack@ =~= Seq::<u32>::empty());
        assert(nodes@ + stack@ =~= nodes@);
        assert forall|x: u32| #[trigger] nodes@.contains(x) <==> mem.contains(x) by {
            if mem.contains(x) {
                let t = choose|t: int| 0 <= t < mem.len() && mem[t] == x;
                assert(mem[t] < par.len());
                assert(pushed_ok(par, mem, nodes@, pushed, seq![])) by {
                    assert(stack@ =~= seq![]);
                }
                lemma_all_reached(par, mem, nodes@, pushed, firsts, x as int);
            }
        }
        assert forall|a: int| 0 <= a < mem.len() implies nodes@.contains(#[trigger] mem[a]) by {
            assert(mem.contains(mem[a]));
        }
        lemma_distinct_within(mem, nodes@);
        lemma_decode_shape(cs);
        assert(nodes@.contains(mem[0])) by {
            assert(mem.contains(mem[0]));
        }
        assert(firsts.len() > 0) by {
            let w = nodes@[0];
            assert(decode_counts(cs).0[0] == -1);
            assert(is_top(par, mem, w as int));
            assert(nodes@.contains(w));
            assert(mem.contains(w));
            assert(firsts.contains(w));
        }
        lemma_shl_pow2(nodes.len() as u32);
        lemma_decode_shape(cs);
    }
    (nodes, counts, new_mark)
}

} // verus!
