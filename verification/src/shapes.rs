//! Tree shapes for exercising the structures: random, path, star and
//! caterpillar parent arrays.
use vstd::prelude::*;
use crate::tree::{tree_depths, is_rooted_tree};

verus! {

/// Large enough for b=4 (needs n >= 768). b=4 means max_nodes=3,
/// which exercises multi-node forests and non-trivial answer table indexing.
pub const MAX_N: usize = 1200;

/// The shape of a tree to build.
pub enum TreeShape {
    /// Random tree from parent choices. Uses u16 for unbiased selection.
    Random(Vec<u16>),
    /// Path: parents[i] = i-1. Maximizes depth and microset chain length.
    Path(u16),
    /// Star: parents[i] = 0. Maximizes width, few microsets.
    Star(u16),
    /// Caterpillar: spine of depth d, each spine node has w leaves.
    Caterpillar { depth: u8, width: u8 },
}

/// `x` kept within `lo..=hi`.
pub open spec fn clamp(x: int, lo: int, hi: int) -> int {
    if x > hi {
        hi
    } else if x < lo {
        lo
    } else {
        x
    }
}

/// The spine length of a caterpillar.
pub open spec fn spine_len(depth: u8) -> int {
    clamp(depth as int, 1, 200)
}

/// The number of leaves on each spine node of a caterpillar.
pub open spec fn leaf_count(width: u8) -> int {
    if width > 20 {
        20
    } else {
        width as int
    }
}

/// The parent array a shape describes: node 0 is the root; in a random
/// tree node `i` hangs from its choice modulo `i`; a path links each node to
/// the one before; a star hangs every node from the root; a caterpillar
/// hangs the leaves, `w` by `w` in order, from its spine.
pub open spec fn shape_parents(tree: TreeShape) -> Seq<usize> {
    match tree {
        TreeShape::Random(choices) => {
            let n = clamp(choices@.len() as int + 1, 1, MAX_N as int);
            Seq::new(n as nat, |i: int| if i == 0 {
                0usize
            } else {
                (choices@[i - 1] as int % i) as usize
            })
        },
        TreeShape::Path(len) => {
            let n = clamp(len as int + 2, 2, MAX_N as int);
            Seq::new(n as nat, |i: int| if i == 0 {
                0usize
            } else {
                (i - 1) as usize
            })
        },
        TreeShape::Star(size) => {
            let n = clamp(size as int + 2, 2, MAX_N as int);
            Seq::new(n as nat, |i: int| 0usize)
        },
        TreeShape::Caterpillar { depth, width } => {
            let d = spine_len(depth);
            let w = leaf_count(width);
            let n = clamp(d + d * w, 2, MAX_N as int);
            Seq::new(n as nat, |i: int| if i == 0 {
                0usize
            } else if i < d {
                (i - 1) as usize
            } else if w > 0 {
                ((i - d) / w) as usize
            } else {
                0usize
            })
        },
    }
}

/// Depth of each node of a parent array whose nodes hang from earlier ones.
spec fn depth_below(par: Seq<usize>, i: int) -> nat
    decreases i,
{
    if i <= 0 || par[i] >= i {
        0
    } else {
        depth_below(par, par[i] as int) + 1
    }
}

/// A parent array in which node 0 is the root and every other node hangs
/// from an earlier one is a rooted tree.
pub proof fn lemma_earlier_parents(par: Seq<usize>)
    requires
        par.len() >= 1,
        par[0] == 0,
        forall|i: int| 0 < i < par.len() ==> #[trigger] par[i] < i,
    ensures
        is_rooted_tree(par),
{
    let d = Seq::new(par.len(), |i: int| depth_below(par, i));
    assert(tree_depths(par, d));
}

/// Build the parent array of a tree shape.
pub fn build_parents(tree: &TreeShape) -> (parents: Vec<usize>)
    ensures
        parents@ == shape_parents(*tree),
        is_rooted_tree(parents@),
        1 <= parents.len() <= MAX_N,
{
    let parents = match tree {
        TreeShape::Random(choices) => {
            let n = if choices.len() >= MAX_N {
                MAX_N
            } else {
                choices.len() + 1
            };
            let mut parents = vec![0usize; n];
            let mut i: usize = 1;
            while i < n
                invariant
                    1 <= i <= n,
                    n == clamp(choices@.len() as int + 1, 1, MAX_N as int),
                    parents@.len() == n,
                    parents@[0] == 0,
                    forall|j: int| 0 < j < i ==> #[trigger] parents@[j] == (choices@[j - 1] as int % j) as usize,
                decreases n - i,
            {
                parents.set(i, choices[i - 1] as usize % i);
                i += 1;
            }
            proof {
                assert(parents@ =~= shape_parents(*tree));
            }
            parents
        },
        TreeShape::Path(len) => {
            let n = if *len as usize + 2 > MAX_N {
                MAX_N
            } else {
                *len as usize + 2
            };
            let mut parents = vec![0usize; n];
            let mut i: usize = 1;
            while i < n
                invariant
                    1 <= i <= n,
                    n == clamp(*len as int + 2, 2, MAX_N as int),
                    parents@.len() == n,
                    parents@[0] == 0,
                    forall|j: int| 0 < j < i ==> #[trigger] parents@[j] == (j - 1) as usize,
                decreases n - i,
            {
                parents.set(i, i - 1);
                i += 1;
            }
            proof {
                assert(parents@ =~= shape_parents(*tree));
            }
            parents
        },
        TreeShape::Star(size) => {
            let n = if *size as usize + 2 > MAX_N {
                MAX_N
            } else {
                *size as usize + 2
            };
            let parents = vec![0; n];  // all parent to root; parents[0]=0 is root
            proof {
                assert forall|j: int| 0 <= j < n implies #[trigger] parents@[j] == 0 by {
                    assert(cloned(0usize, parents@[j]));
                }
                assert(parents@ =~= shape_parents(*tree));
            }
            parents
        },
        TreeShape::Caterpillar { depth, width } => {
            let d: usize = if *depth as usize > 200 {
                200
            } else if (*depth as usize) < 1 {
                1
            } else {
                *depth as usize
            };
            let w: usize = if *width as usize > 20 {
                20
            } else {
                *width as usize
            };
            assert(d * w <= 4000) by (nonlinear_arith)
                requires
                    d <= 200,
                    w <= 20,
            ;
            let total = d + d * w;
            let n: usize = if total > MAX_N {
                MAX_N
            } else if total < 2 {
                2
            } else {
                total
            };
            let ghost dd = d as int;
            let ghost ww = w as int;
            let mut parents = vec![0usize; n];
            proof {
                assert forall|j: int| 0 <= j < n implies #[trigger] parents@[j] == 0 by {
                    assert(cloned(0usize, parents@[j]));
                }
            }
            let spine_end = if d < n {
                d
            } else {
                n
            };
            // Spine: 0 -> 1 -> 2 -> ... -> d-1
            let mut i: usize = 1;
            while i < spine_end
                invariant
                    1 <= i,
                    spine_end <= n,
                    spine_end <= d,
                    parents@.len() == n,
                    forall|j: int| 0 <= j < n ==> #[trigger] parents@[j] == if 0 < j < i && j < spine_end {
                        (j - 1) as usize
                    } else {
                        0usize
                    },
                decreases spine_end - i,
            {
                parents.set(i, i - 1);
                i += 1;
            }
            // Leaves: each spine node i gets w children
            let mut next = d;
            let mut i: usize = 0;
            while i < spine_end
                invariant
                    dd == d,
                    ww == w,
                    1 <= d <= 200,
                    w <= 20,
                    n == clamp(d + d * w, 2, MAX_N as int),
                    spine_end == if d < n {
                        d
                    } else {
                        n
                    },
                    i <= spine_end,
                    next == d + i * w || (next >= n && next >= d),
                    next >= d,
                    parents@.len() == n,
                    forall|j: int|
                        0 <= j < n ==> #[trigger] parents@[j] == if j == 0 {
                            0usize
                        } else if j < d {
                            (j - 1) as usize
                        } else if j < next && w > 0 {
                            ((j - d) / (w as int)) as usize
                        } else {
                            0usize
                        },
                decreases spine_end - i,
            {
                let mut k: usize = 0;
                while k < w && next < n
                    invariant
                        dd == d,
                        ww == w,
                        1 <= d <= 200,
                        w <= 20,
                        i < spine_end,
                        spine_end <= d,
                        k <= w,
                        next == d + i * w + k || (next >= n && next >= d),
                        next >= d,
                        parents@.len() == n,
                        forall|j: int|
                            0 <= j < n ==> #[trigger] parents@[j] == if j == 0 {
                                0usize
                            } else if j < d {
                                (j - 1) as usize
                            } else if j < next && w > 0 {
                                ((j - d) / (w as int)) as usize
                            } else {
                                0usize
                            },
                    decreases w - k,
                {
                    proof {
                        assert((next - d) / (w as int) == i) by (nonlinear_arith)
                            requires
                                next == d + i * w + k,
                                k < w,
                                w > 0,
                        ;
                    }
                    parents.set(next, i);
                    next += 1;
                    k += 1;
                }
                proof {
                    if next < n {
                        assert(next == d + i * w + w);
                        assert(next == d + (i + 1) * w) by (nonlinear_arith)
                            requires
                                next == d + i * w + w,
                        ;
                    }
                }
                i += 1;
            }
            proof {
                assert forall|j: int| 0 <= j < n implies #[trigger] parents@[j] == shape_parents(*tree)[j] by {
                    if j >= d && w > 0 {
                        if next < n {
                            assert(spine_end == d);
                            assert(next == d + d * w) by (nonlinear_arith)
                                requires
                                    next == d + i * w,
                                    i == spine_end,
                                    spine_end == d,
                            ;
                        }
                    }
                }
                assert(parents@ =~= shape_parents(*tree));
            }
            parents
        },
    };
    proof {
        let par = parents@;
        assert forall|i: int| 0 < i < par.len() implies #[trigger] par[i] < i by {
            match *tree {
                TreeShape::Caterpillar { depth, width } => {
                    let d = spine_len(depth);
                    let w = leaf_count(width);
                    if i >= d && w > 0 {
                        assert((i - d) / w < i) by (nonlinear_arith)
                            requires
                                i >= d,
                                d >= 1,
                                w > 0,
                        ;
                    }
                },
                _ => {},
            }
        }
        lemma_earlier_parents(par);
    }
    parents
}

} // verus!
