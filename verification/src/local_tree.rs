//! A forest on positions `0..len` given by parent positions that come
//! before their children (-1 for a top position): subtrees, children lists,
//! and sums over positions.
use vstd::prelude::*;
use crate::answer_table::parents_ordered;

verus! {

/// Position `x` lies in the subtree of position `a` (a position is in its
/// own subtree).
pub open spec fn desc(ps: Seq<int>, x: int, a: int) -> bool
    decreases x,
{
    if x <= a {
        x == a
    } else if 0 <= x < ps.len() && 0 <= ps[x] < x {
        desc(ps, ps[x], a)
    } else {
        false
    }
}

/// A subtree of a subtree is inside it.
pub proof fn lemma_desc_trans(ps: Seq<int>, x: int, a: int, c: int)
    requires
        desc(ps, x, a),
        desc(ps, a, c),
    ensures
        desc(ps, x, c),
    decreases x,
{
    if x > a {
        lemma_desc_trans(ps, ps[x], a, c);
        assert(c <= a) by {
            lemma_desc_le(ps, a, c);
        }
    }
}

/// A position is no earlier than the positions whose subtrees hold it.
pub proof fn lemma_desc_le(ps: Seq<int>, x: int, a: int)
    requires
        desc(ps, x, a),
    ensures
        a <= x,
    decreases x,
{
    if x > a {
        lemma_desc_le(ps, ps[x], a);
    }
}

/// Leaving a subtree's top goes to the parent, which is still inside.
pub proof fn lemma_desc_step(ps: Seq<int>, x: int, a: int)
    requires
        parents_ordered(ps),
        desc(ps, x, a),
        x != a,
    ensures
        0 <= x < ps.len(),
        0 <= ps[x] < x,
        desc(ps, ps[x], a),
{
}

/// A position's parent's subtree holds it.
pub proof fn lemma_desc_parent(ps: Seq<int>, x: int)
    requires
        parents_ordered(ps),
        0 <= x < ps.len(),
        ps[x] >= 0,
    ensures
        desc(ps, x, ps[x]),
{
    assert(desc(ps, ps[x], ps[x]));
}

/// Two subtrees holding one position are nested.
pub proof fn lemma_desc_nested(ps: Seq<int>, x: int, a: int, c: int)
    requires
        parents_ordered(ps),
        desc(ps, x, a),
        desc(ps, x, c),
        a <= c,
    ensures
        desc(ps, c, a),
    decreases x,
{
    if x != c {
        lemma_desc_le(ps, x, c);
        lemma_desc_step(ps, x, c);
        if x == a {
            lemma_desc_le(ps, x, c);
        } else {
            lemma_desc_step(ps, x, a);
            lemma_desc_nested(ps, ps[x], a, c);
        }
    } else {
    }
}

/// Inside a subtree, a position other than the top lies in the subtree of a
/// child of the top.
pub proof fn lemma_desc_child(ps: Seq<int>, x: int, a: int) -> (g: int)
    requires
        parents_ordered(ps),
        desc(ps, x, a),
        x != a,
    ensures
        0 <= g < ps.len(),
        ps[g] == a,
        desc(ps, x, g),
    decreases x,
{
    lemma_desc_step(ps, x, a);
    let p = ps[x];
    if p == a {
        assert(desc(ps, x, x));
        x
    } else {
        let g = lemma_desc_child(ps, p, a);
        lemma_desc_parent(ps, x);
        lemma_desc_trans(ps, x, p, g);
        g
    }
}

/// The positions below `k` whose parent is `p`, in increasing order.
pub open spec fn kids(ps: Seq<int>, p: int, k: int) -> Seq<usize>
    decreases k,
{
    if k <= 0 {
        seq![]
    } else {
        let r = kids(ps, p, k - 1);
        if ps[k - 1] == p {
            r.push((k - 1) as usize)
        } else {
            r
        }
    }
}

/// The children list holds exactly the positions below `k` with parent `p`,
/// in increasing order.
pub proof fn lemma_kids(ps: Seq<int>, p: int, k: int)
    requires
        0 <= k <= 0x10000,
    ensures
        forall|i: int| 0 <= i < kids(ps, p, k).len() ==> #[trigger] kids(ps, p, k)[i] < k && ps[kids(ps, p, k)[i] as int] == p,
        forall|i: int, j: int| 0 <= i < j < kids(ps, p, k).len() ==> #[trigger] kids(ps, p, k)[i] < #[trigger] kids(ps, p, k)[j],
        forall|x: int| 0 <= x < k && ps[x] == p ==> #[trigger] kids(ps, p, k).contains(x as usize),
        kids(ps, p, k).len() <= k,
    decreases k,
{
    if k > 0 {
        lemma_kids(ps, p, k - 1);
        let r = kids(ps, p, k - 1);
        if ps[k - 1] == p {
            let t = r.push((k - 1) as usize);
            assert forall|i: int| 0 <= i < t.len() implies #[trigger] t[i] < k && ps[t[i] as int] == p by {
                if i < r.len() {
                    assert(t[i] == r[i]);
                }
            }
            assert forall|i: int, j: int| 0 <= i < j < t.len() implies #[trigger] t[i] < #[trigger] t[j] by {
                if j < r.len() {
                    assert(t[i] == r[i]);
                    assert(t[j] == r[j]);
                } else {
                    assert(t[i] == r[i]);
                }
            }
            assert forall|x: int| 0 <= x < k && ps[x] == p implies #[trigger] t.contains(x as usize) by {
                if x < k - 1 {
                    assert(r.contains(x as usize));
                    let i = choose|i: int| 0 <= i < r.len() && r[i] == x as usize;
                    assert(t[i] == x as usize);
                } else {
                    assert(t[r.len() as int] == x as usize);
                }
            }
        } else {
            assert forall|x: int| 0 <= x < k && ps[x] == p implies #[trigger] r.contains(x as usize) by {
                assert(x < k - 1);
            }
        }
    }
}

/// The sum of `f` over `0..k`.
pub open spec fn sum_f(f: spec_fn(int) -> int, k: int) -> int
    decreases k,
{
    if k <= 0 {
        0
    } else {
        sum_f(f, k - 1) + f(k - 1)
    }
}

/// Sums of functions that agree on `0..k` agree.
pub proof fn lemma_sum_ext(f: spec_fn(int) -> int, g: spec_fn(int) -> int, k: int)
    requires
        forall|j: int| 0 <= j < k ==> #[trigger] f(j) == g(j),
    ensures
        sum_f(f, k) == sum_f(g, k),
    decreases k,
{
    if k > 0 {
        lemma_sum_ext(f, g, k - 1);
    }
}

/// Sums add up term by term.
pub proof fn lemma_sum_linear(
    f: spec_fn(int) -> int,
    g: spec_fn(int) -> int,
    h: spec_fn(int) -> int,
    e: spec_fn(int) -> int,
    k: int,
)
    requires
        forall|j: int| 0 <= j < k ==> #[trigger] f(j) == g(j) + h(j) - e(j),
    ensures
        sum_f(f, k) == sum_f(g, k) + sum_f(h, k) - sum_f(e, k),
    decreases k,
{
    if k > 0 {
        lemma_sum_linear(f, g, h, e, k - 1);
    }
}

/// A sum of terms each at most `c` times an indicator is at most `c` times
/// the count.
pub proof fn lemma_sum_bound(f: spec_fn(int) -> int, g: spec_fn(int) -> int, c: int, k: int)
    requires
        c >= 0,
        forall|j: int| 0 <= j < k ==> #[trigger] f(j) <= c * g(j),
    ensures
        sum_f(f, k) <= c * sum_f(g, k),
    decreases k,
{
    if k > 0 {
        lemma_sum_bound(f, g, c, k - 1);
        assert(c * sum_f(g, k) == c * sum_f(g, k - 1) + c * g(k - 1)) by (nonlinear_arith)
            requires
                sum_f(g, k) == sum_f(g, k - 1) + g(k - 1),
        ;
    }
}

/// A sum with only the term at `x` nonzero is that term.
pub proof fn lemma_sum_single(f: spec_fn(int) -> int, x: int, k: int)
    requires
        forall|j: int| 0 <= j < k && j != x ==> #[trigger] f(j) == 0,
    ensures
        sum_f(f, k) == if 0 <= x < k {
            f(x)
        } else {
            0
        },
    decreases k,
{
    if k > 0 {
        lemma_sum_single(f, x, k - 1);
    }
}

/// The sum of `d` over a list of positions.
pub open spec fn list_sum(d: Seq<u32>, l: Seq<usize>) -> int
    decreases l.len(),
{
    if l.len() == 0 {
        0
    } else {
        list_sum(d, l.drop_last()) + d[l.last() as int]
    }
}

/// The terms `d[j]` at the positions `j` whose parent is `p`, 0 elsewhere.
pub open spec fn kid_terms(ps: Seq<int>, d: Seq<u32>, p: int) -> spec_fn(int) -> int {
    |j: int|
        if ps[j] == p {
            d[j] as int
        } else {
            0
        }
}

/// The sum of `d` over the children list of `p` is the sum over the
/// positions with parent `p`.
pub proof fn lemma_kids_sum(ps: Seq<int>, d: Seq<u32>, p: int, k: int)
    requires
        0 <= k <= 0x10000,
    ensures
        list_sum(d, kids(ps, p, k)) == sum_f(kid_terms(ps, d, p), k),
    decreases k,
{
    if k > 0 {
        lemma_kids_sum(ps, d, p, k - 1);
        let r = kids(ps, p, k - 1);
        let f = kid_terms(ps, d, p);
        assert(sum_f(f, k) == sum_f(f, k - 1) + f(k - 1));
        if ps[k - 1] == p {
            assert(r.push((k - 1) as usize).drop_last() =~= r);
            assert(list_sum(d, r.push((k - 1) as usize)) == list_sum(d, r) + d[k - 1]);
        }
    }
}

/// A prefix sum extended by one more list element.
pub proof fn lemma_list_sum_take(d: Seq<u32>, l: Seq<usize>, i: int)
    requires
        0 <= i < l.len(),
    ensures
        list_sum(d, l.take(i + 1)) == list_sum(d, l.take(i)) + d[l[i] as int],
{
    assert(l.take(i + 1).drop_last() =~= l.take(i));
}

/// Changing `d` away from the listed positions keeps the list's sum.
pub proof fn lemma_list_sum_frame(d: Seq<u32>, d2: Seq<u32>, l: Seq<usize>)
    requires
        forall|i: int| 0 <= i < l.len() ==> d2[#[trigger] l[i] as int] == d[l[i] as int],
    ensures
        list_sum(d2, l) == list_sum(d, l),
    decreases l.len(),
{
    if l.len() > 0 {
        assert forall|i: int| 0 <= i < l.drop_last().len() implies d2[#[trigger] l.drop_last()[i] as int]
            == d[l.drop_last()[i] as int] by {
            assert(l.drop_last()[i] == l[i]);
        }
        lemma_list_sum_frame(d, d2, l.drop_last());
        assert(l.last() == l[l.len() - 1]);
    }
}

/// The terms of the open-subtree sum at `c`: `d[j]` for positions `j` at
/// or after `c` whose parent comes before `c` (or is -1).
pub open spec fn open_terms(ps: Seq<int>, d: Seq<u32>, c: int) -> spec_fn(int) -> int {
    |j: int|
        if j >= c && ps[j] < c {
            d[j] as int
        } else {
            0
        }
}

/// The indicator of top positions.
pub open spec fn top_terms(ps: Seq<int>) -> spec_fn(int) -> int {
    |j: int|
        if ps[j] < 0 {
            1
        } else {
            0
        }
}

/// Visiting `v` moves its children's terms into its own: the open sum at
/// `v` is the one at `v + 1`, plus `d[v]`, less the children's terms.
pub proof fn lemma_open_step(ps: Seq<int>, d: Seq<u32>, v: int, k: int)
    requires
        parents_ordered(ps),
        0 <= v < k <= ps.len(),
    ensures
        sum_f(open_terms(ps, d, v), k) == d[v] + sum_f(open_terms(ps, d, v + 1), k) - sum_f(kid_terms(ps, d, v), k),
{
    let f = open_terms(ps, d, v);
    let g = |j: int| if j == v { d[v] as int } else { 0 };
    let h = open_terms(ps, d, v + 1);
    let e = kid_terms(ps, d, v);
    assert forall|j: int| 0 <= j < k implies #[trigger] f(j) == g(j) + h(j) - e(j) by {
        assert(-1 <= ps[j] < j);
    }
    lemma_sum_linear(f, g, h, e, k);
    lemma_sum_single(g, v, k);
}

/// Open sums at `c` ignore the terms before `c`.
pub proof fn lemma_open_frame(ps: Seq<int>, d: Seq<u32>, d2: Seq<u32>, c: int, k: int)
    requires
        forall|j: int| c <= j < k ==> #[trigger] d2[j] == d[j],
    ensures
        sum_f(open_terms(ps, d2, c), k) == sum_f(open_terms(ps, d, c), k),
{
    let f = open_terms(ps, d2, c);
    let g = open_terms(ps, d, c);
    assert forall|j: int| 0 <= j < k implies #[trigger] f(j) == g(j) by {
    }
    lemma_sum_ext(f, g, k);
}

/// With every term at most `q`, the open sum at 0 is at most `q` times the
/// number of top positions.
pub proof fn lemma_open_tops(ps: Seq<int>, d: Seq<u32>, q: int, k: int)
    requires
        q >= 0,
        forall|j: int| 0 <= j < k ==> #[trigger] d[j] <= q,
    ensures
        sum_f(open_terms(ps, d, 0), k) <= q * sum_f(top_terms(ps), k),
{
    let f = open_terms(ps, d, 0);
    let g = top_terms(ps);
    assert forall|j: int| 0 <= j < k implies #[trigger] f(j) <= q * g(j) by {
        if j >= 0 && ps[j] < 0 {
            assert(q * g(j) == q);
        } else {
            assert(f(j) == 0);
            assert(q * g(j) >= 0) by (nonlinear_arith)
                requires
                    q >= 0,
                    g(j) >= 0,
            ;
        }
    }
    lemma_sum_bound(f, g, q, k);
}

} // verus!
