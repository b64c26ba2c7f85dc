//! Logarithm helpers, the choice of the microset parameter `b`, and the
//! answer table that resolves nearest-marked-ancestor queries inside one
//! microset.
use vstd::prelude::*;
use vstd::arithmetic::power2::{
    pow2, lemma_pow2_pos, lemma_pow2_unfold, lemma_pow2_adds, lemma_pow2_strictly_increases,
    lemma2_to64,
};
use vstd::bits::{lemma_usize_shl_is_mul, lemma_usize_pow2_no_overflow};

verus! {

// ---------------------------------------------------------------------------
// Logarithms
// ---------------------------------------------------------------------------

/// floor(log2(x)), with 0 for x <= 1.
pub open spec fn log2_floor(x: nat) -> nat
    decreases x,
{
    if x <= 1 {
        0
    } else {
        1 + log2_floor(x / 2)
    }
}

/// ceil(log2(x)), with 0 for x <= 1.
pub open spec fn log2_ceil(x: nat) -> nat {
    if x <= 1 {
        0
    } else {
        log2_floor((x - 1) as nat) + 1
    }
}

/// 2^floor(log2 x) <= x < 2^(floor(log2 x) + 1) for x >= 1.
pub proof fn lemma_log2_floor_bounds(x: nat)
    requires
        x >= 1,
    ensures
        pow2(log2_floor(x)) <= x < pow2(log2_floor(x) + 1),
    decreases x,
{
    lemma_pow2_unfold(log2_floor(x) + 1);
    if x <= 1 {
        lemma2_to64();
    } else {
        lemma_log2_floor_bounds(x / 2);
        lemma_pow2_unfold(log2_floor(x));
        lemma_pow2_unfold(log2_floor(x / 2) + 1);
    }
}

/// The exponent f with 2^f <= x < 2^(f+1) is floor(log2 x).
pub proof fn lemma_log2_floor_unique(x: nat, f: nat)
    requires
        pow2(f) <= x < pow2(f + 1),
    ensures
        log2_floor(x) == f,
{
    lemma_pow2_pos(f);
    lemma_log2_floor_bounds(x);
    let g = log2_floor(x);
    if g < f {
        lemma_pow2_strictly_increases(g, f);
        if g + 1 < f {
            lemma_pow2_strictly_increases(g + 1, f);
        }
    } else if g > f {
        if f + 1 < g {
            lemma_pow2_strictly_increases(f + 1, g);
        }
    }
}

/// floor(log2 x) < x for x >= 1.
pub proof fn lemma_log2_floor_lt(x: nat)
    requires
        x >= 1,
    ensures
        log2_floor(x) < x,
        x >= 2 ==> log2_floor(x) >= 1,
    decreases x,
{
    if x > 1 {
        lemma_log2_floor_lt(x / 2);
    }
}

/// 2^(ceil(log2 x) - 1) < x <= 2^ceil(log2 x) for x >= 2.
pub proof fn lemma_log2_ceil_bounds(x: nat)
    requires
        x >= 2,
    ensures
        log2_ceil(x) >= 1,
        x <= pow2(log2_ceil(x)),
        pow2((log2_ceil(x) - 1) as nat) < x,
{
    lemma_log2_floor_bounds((x - 1) as nat);
}

/// The iterated logarithm log*(x).
pub open spec fn log_star_spec(x: nat) -> nat
    decreases x,
{
    if x <= 1 {
        0
    } else {
        proof {
            lemma_log2_floor_lt(x);
        }
        1 + log_star_spec(log2_floor(x))
    }
}

proof fn lemma_log_star_le(x: nat)
    ensures
        log_star_spec(x) <= x,
        x >= 1 ==> log_star_spec(x) <= log2_floor(x) + 1,
    decreases x,
{
    if x > 1 {
        lemma_log2_floor_lt(x);
        lemma_log_star_le(log2_floor(x));
    }
}

/// Compute floor(log2(x)) for x >= 1. Returns 0 for x <= 1.
pub fn floor_log2(x: usize) -> (r: u32)
    ensures
        r == log2_floor(x as nat),
        r < usize::BITS,
{
    proof {
        if x >= 1 {
            lemma_log2_floor_bounds(x as nat);
            lemma2_to64();
            let f = log2_floor(x as nat);
            if f >= usize::BITS {
                if f > usize::BITS {
                    lemma_pow2_strictly_increases(usize::BITS as nat, f);
                }
                assert(false);
            }
        }
    }
    let mut y = x;
    let mut r: u32 = 0;
    while y > 1
        invariant
            1 <= y || x == 0,
            x == 0 ==> y == 0 && r == 0,
            log2_floor(x as nat) == r + log2_floor(y as nat),
            log2_floor(x as nat) < usize::BITS,
        decreases y,
    {
        y = y / 2;
        r += 1;
    }
    r
}

/// Compute ceil(log2(x)) for x >= 1. Returns 0 for x <= 1.
pub fn ceil_log2(x: usize) -> (r: u32)
    ensures
        r == log2_ceil(x as nat),
        r <= usize::BITS,
{
    let fl = floor_log2(x);
    proof {
        lemma_usize_pow2_no_overflow(fl as nat);
        lemma_usize_shl_is_mul(1, fl as usize);
    }
    let p: usize = 1usize << fl;
    if x > p {
        proof {
            lemma_log2_floor_bounds(x as nat);
            lemma_log2_floor_unique((x - 1) as nat, fl as nat);
        }
        fl + 1
    } else {
        proof {
            if x >= 2 {
                lemma_log2_floor_bounds(x as nat);
                lemma_log2_floor_lt(x as nat);
                lemma_pow2_unfold(fl as nat);
                lemma_log2_floor_unique((x - 1) as nat, (fl - 1) as nat);
            }
        }
        fl
    }
}

/// Compute the iterated logarithm (log* n).
pub fn log_star(n: usize) -> (r: u32)
    ensures
        r == log_star_spec(n as nat),
{
    let mut n = n;
    let mut count = 0u32;
    proof {
        lemma_log_star_le(n as nat);
        if n >= 1 {
            lemma_log2_floor_bounds(n as nat);
            lemma2_to64();
            if log2_floor(n as nat) > usize::BITS {
                lemma_pow2_strictly_increases(usize::BITS as nat, log2_floor(n as nat));
            }
        }
    }
    let ghost total = log_star_spec(n as nat);
    while n > 1
        invariant
            count + log_star_spec(n as nat) == total,
            total <= usize::BITS,
        decreases n,
    {
        proof {
            lemma_log2_floor_lt(n as nat);
        }
        n = floor_log2(n) as usize;
        count += 1;
    }
    count
}


// ---------------------------------------------------------------------------
// The microset parameter b
// ---------------------------------------------------------------------------

/// The least number of nodes for which parameter `b` is used. Up to about
/// 25 million nodes the documented table: below 64 nodes b = 2; from 64
/// b = 3, from 768 b = 4, from 16,384 b = 5, from 524,288 b = 6. A b of 7
/// or more needs at least 25,165,824 nodes and an answer table of 2^(3b-4)
/// entries that, b - 1 times over, still fits the nodes:
/// (b - 1) * 2^(3b - 4) <= n.
#[verifier::opaque]
pub open spec fn b_threshold(b: nat) -> nat {
    if b <= 2 {
        0
    } else if b == 3 {
        64
    } else if b == 4 {
        768
    } else if b == 5 {
        16384
    } else if b == 6 {
        524288
    } else if (b - 1) * pow2((3 * b - 4) as nat) < 25165824 {
        25165824
    } else {
        ((b - 1) * pow2((3 * b - 4) as nat)) as nat
    }
}

/// The largest b in 2..=k whose threshold `n` reaches.
pub open spec fn largest_b(n: nat, k: nat) -> nat
    decreases k,
{
    if k <= 2 {
        2
    } else if b_threshold(k) <= n {
        k
    } else {
        largest_b(n, (k - 1) as nat)
    }
}

/// `(b, ceil(log2 b))` for a tree of n nodes: the largest b up to 16 whose
/// threshold n reaches (up to b = 16 the b - 1 answers of ceil(log2 b) bits
/// fit one 64-bit word).
pub open spec fn compute_b_spec(n: nat) -> (nat, nat) {
    let b = largest_b(n, 16);
    (b, log2_ceil(b))
}

/// The chosen b reaches its threshold, and no larger b up to `k` does.
proof fn lemma_largest_b(n: nat, k: nat)
    ensures
        2 <= largest_b(n, k),
        k >= 2 ==> largest_b(n, k) <= k,
        b_threshold(largest_b(n, k)) <= n,
        forall|c: nat| largest_b(n, k) < c <= k ==> n < #[trigger] b_threshold(c),
    decreases k,
{
    reveal(b_threshold);
    if k > 2 && b_threshold(k) > n {
        lemma_largest_b(n, (k - 1) as nat);
    }
}

/// The answer table of a chosen b >= 6 is no larger than its threshold.
proof fn lemma_threshold_table(b: nat)
    requires
        6 <= b <= 16,
    ensures
        pow2((3 * b - 4) as nat) * (b - 1) <= b_threshold(b),
{
    reveal(b_threshold);
    lemma2_to64();
    let e = (3 * b - 4) as nat;
    let p = pow2(e);
    assert(p * (b - 1) == (b - 1) * p) by (nonlinear_arith);
    if b == 6 {
        assert(e == 14);
        assert(pow2(14) == 16384);
        assert(p == pow2(14));
        assert(p * (b - 1) == 16384 * 5);
    } else {
        lemma_pow2_pos(e);
        assert((b - 1) * p >= 0) by (nonlinear_arith)
            requires
                b >= 7,
                p > 0,
        ;
    }
}

/// Fewer than 2^32 nodes choose b at most 10.
pub proof fn lemma_b_for_u32(n: nat)
    requires
        n < 0x1_0000_0000,
    ensures
        compute_b_spec(n).0 <= 10,
{
    reveal(b_threshold);
    lemma_largest_b(n, 16);
    let b = largest_b(n, 16);
    lemma2_to64();
    if b > 10 {
        let e = (3 * b - 4) as nat;
        if e > 29 {
            lemma_pow2_strictly_increases(29, e);
        }
        let p = pow2(e);
        assert((b - 1) * p >= 10 * 536870912) by (nonlinear_arith)
            requires
                b >= 11,
                p >= 536870912,
        ;
        assert(b_threshold(b) >= 10 * 536870912);
    }
}

/// The chosen b lies in 2..=16, its answers fit in a word, and the answer
/// table of 2^(3b-4) entries is no larger than n (or tiny).
pub proof fn lemma_compute_b_props(n: nat)
    requires
        n <= usize::MAX,
    ensures
        2 <= compute_b_spec(n).0 <= 16,
        compute_b_spec(n).1 == log2_ceil(compute_b_spec(n).0),
        1 <= compute_b_spec(n).1 <= 4,
        (compute_b_spec(n).0 - 1) * compute_b_spec(n).1 <= 63,
        compute_b_spec(n).0 <= pow2(compute_b_spec(n).1),
        compute_b_spec(n).0 <= 5 || pow2((3 * compute_b_spec(n).0 - 4) as nat) * (
        compute_b_spec(n).0 - 1) <= n,
        pow2((3 * compute_b_spec(n).0 - 4) as nat) <= usize::MAX,
        2 * pow2((3 * compute_b_spec(n).0 - 4) as nat) <= usize::MAX,
{
    lemma2_to64();
    lemma_largest_b(n, 16);
    let b = compute_b_spec(n).0;
    let c = compute_b_spec(n).1;
    let e = (3 * b - 4) as nat;
    lemma_log2_ceil_bounds(b);
    if c > 4 {
        if c - 1 > 4 {
            lemma_pow2_strictly_increases(4, (c - 1) as nat);
        }
    }
    assert((b - 1) * c <= 63) by (nonlinear_arith)
        requires
            2 <= b <= 16,
            1 <= c <= 4,
    ;
    if b >= 6 {
        lemma_threshold_table(b);
        assert(2 * pow2(e) <= pow2(e) * (b - 1)) by (nonlinear_arith)
            requires
                b >= 3,
        ;
    } else {
        if e < 11 {
            lemma_pow2_strictly_increases(e, 11);
        }
    }
}

/// The threshold of `b`, as a 64-bit number.
fn b_threshold_of(b: u32) -> (r: u64)
    requires
        3 <= b <= 16,
    ensures
        r == b_threshold(b as nat),
{
    reveal(b_threshold);
    if b == 3 {
        64
    } else if b == 4 {
        768
    } else if b == 5 {
        16384
    } else if b == 6 {
        524288
    } else {
        let k = 3 * b - 4;
        let c = (b - 1) as u64;
        proof {
            lemma2_to64();
            vstd::arithmetic::power2::lemma2_to64_rest();
            if k < 44 {
                lemma_pow2_strictly_increases(k as nat, 44);
            }
            assert(c * pow2(k as nat) <= 15 * pow2(44)) by (nonlinear_arith)
                requires
                    c <= 15,
                    pow2(k as nat) <= pow2(44),
            ;
            vstd::bits::lemma_u64_shl_is_mul(c, k as u64);
        }
        let t = c << (k as u64);
        if t < 25165824 {
            25165824
        } else {
            t
        }
    }
}

/// Compute the microset size parameter `b` given `n` (number of nodes).
///
/// Returns `(b, ceil_lg_b)` where:
/// - `b`: maximum microset size is `b - 1` nodes
/// - `ceil_lg_b`: `ceil(log2(b))`, bits per answer entry
///
/// b = 2 below 64 nodes, 3 for 64..=767, 4 for 768..=16,383, 5 for
/// 16,384..=524,287, 6 from 524,288 to 25,165,823; from 25,165,824 nodes on,
/// the largest b whose answer table of 2^(3b-4) entries, b - 1 times over,
/// fits the nodes, up to 16 (whose 15 answers of 4 bits still pack into a
/// single `u64`).
pub fn compute_b(n: usize) -> (r: (u32, u32))
    ensures
        r.0 == compute_b_spec(n as nat).0,
        r.1 == compute_b_spec(n as nat).1,
{
    let mut b: u32 = 16;
    while b > 2 && (n as u64) < b_threshold_of(b)
        invariant
            2 <= b <= 16,
            largest_b(n as nat, 16) == largest_b(n as nat, b as nat),
        decreases b,
    {
        b -= 1;
    }
    let clb = ceil_log2(b as usize);
    (b, clb)
}

// ---------------------------------------------------------------------------
// Forest encoding
// ---------------------------------------------------------------------------

/// Child counts read off a forest bitmask, least significant bit first: each
/// node (in preorder) contributes a run of `0` bits, its number of children,
/// closed by a `1` bit. `zeros` counts the zero bits already read.
pub open spec fn forest_counts_from(f: u32, zeros: nat) -> Seq<nat>
    decreases f,
{
    if f == 0 {
        seq![]
    } else if f % 2 == 0 {
        forest_counts_from(f / 2, zeros + 1)
    } else {
        seq![zeros] + forest_counts_from(f / 2, 0)
    }
}

/// The preorder child counts that a forest bitmask encodes.
pub open spec fn forest_counts(f: u32) -> Seq<nat> {
    forest_counts_from(f, 0)
}

/// Pop the branch entries that have no children left to receive.
pub open spec fn pop_done(br: Seq<(nat, nat)>) -> Seq<(nat, nat)>
    decreases br.len(),
{
    if br.len() > 0 && br.last().1 == 0 {
        pop_done(br.drop_last())
    } else {
        br
    }
}

/// Decode preorder child counts with a branch stack of `(node, children
/// still to come)`: each node's parent is the deepest open node that still
/// expects a child, or -1 (outside the forest) when none does.
/// Returns the parents and the branch left open at the end.
pub open spec fn decode_counts(counts: Seq<nat>) -> (Seq<int>, Seq<(nat, nat)>)
    decreases counts.len(),
{
    if counts.len() == 0 {
        (seq![], seq![])
    } else {
        let prev = decode_counts(counts.drop_last());
        let k = (counts.len() - 1) as nat;
        let br = pop_done(prev.1);
        if br.len() == 0 {
            (prev.0.push(-1), seq![(k, counts.last())])
        } else {
            (
                prev.0.push(br.last().0 as int),
                br.drop_last().push((br.last().0, (br.last().1 - 1) as nat)).push(
                    (k, counts.last()),
                ),
            )
        }
    }
}

/// Every node of the decoded forest received all the children it announced.
pub open spec fn counts_closed(counts: Seq<nat>) -> bool {
    forall|i: int| 0 <= i < decode_counts(counts).1.len() ==> #[trigger] decode_counts(counts).1[i].1 == 0
}

/// A forest bitmask that decodes to between 1 and 16 nodes, every one of
/// which received all its children.
pub open spec fn forest_valid(f: u32) -> bool {
    f != 0 && forest_counts(f).len() <= 16 && counts_closed(forest_counts(f))
}

/// Number of nodes a forest bitmask encodes.
pub open spec fn forest_size(f: u32) -> nat {
    forest_counts(f).len()
}

/// The parent (preorder index, or -1) of each node a forest bitmask encodes.
pub open spec fn forest_parents(f: u32) -> Seq<int> {
    decode_counts(forest_counts(f)).0
}

/// An array of `i32` read as integers.
pub open spec fn as_ints(a: Seq<i32>) -> Seq<int> {
    Seq::new(a.len(), |i: int| a[i] as int)
}

proof fn lemma_tz_run_step(f: u32, t: u32, s: u32)
    by (bit_vector)
    requires
        1 <= t <= 30,
        s + 1 == t,
        f == (f >> t) << t,
        (f >> t) & 1 == 1,
    ensures
        f % 2 == 0,
        f / 2 == f >> 1,
        (f >> 1) == ((f >> 1) >> s) << s,
        ((f >> 1) >> s) & 1 == 1,
        (f >> 1) >> (s + 1) == f >> (t + 1),
{
}

proof fn lemma_tz_run_base(f: u32, t: u32)
    by (bit_vector)
    requires
        t == 0,
        (f >> t) & 1 == 1,
    ensures
        f % 2 == 1,
        f / 2 == f >> 1,
        f >> 0 == f,
{
}

/// Reading a run of t zeros and a one.
proof fn lemma_counts_run(f: u32, z: nat, t: u32)
    requires
        t <= 30,
        f == (f >> t) << t,
        (f >> t) & 1 == 1,
    ensures
        f != 0,
        forest_counts_from(f, z) == seq![(z + t) as nat] + forest_counts_from(f >> (t + 1), 0),
    decreases t,
{
    if t == 0 {
        lemma_tz_run_base(f, t);
    } else {
        lemma_tz_run_step(f, t, (t - 1) as u32);
        lemma_counts_run(f / 2, z + 1, (t - 1) as u32);
    }
}

proof fn lemma_low_zero_step(f: u32, t: u32)
    by (bit_vector)
    requires
        t < 31,
        f == (f >> t) << t,
        (f >> t) & 1 == 0,
    ensures
        f == (f >> (t + 1)) << (t + 1),
{
}

proof fn lemma_low_zeros(f: u32, t: u32)
    requires
        t < 32,
        forall|j: u32| 0 <= j < t ==> #[trigger] (f >> j) & 1u32 == 0u32,
    ensures
        f == (f >> t) << t,
    decreases t,
{
    if t == 0 {
        assert(f == (f >> 0u32) << 0u32) by (bit_vector);
    } else {
        lemma_low_zeros(f, (t - 1) as u32);
        assert((f >> ((t - 1) as u32)) & 1u32 == 0u32);
        lemma_low_zero_step(f, (t - 1) as u32);
    }
}

proof fn lemma_tz_bounds(f: u32, t: u32)
    by (bit_vector)
    requires
        t < 32,
        f != 0x8000_0000,
        f == (f >> t) << t,
        (f >> t) & 1 == 1,
    ensures
        t <= 30,
        f >> (t + 1) < 0x8000_0000,
        f >> (t + 1) < f,
{
}

/// One step of the decoder: the lowest run of zeros gives the next count.
proof fn lemma_counts_trailing(f: u32)
    requires
        0 < f,
        f != 0x8000_0000,
    ensures
        ({
            let t = f.trailing_zeros();
            &&& t <= 30
            &&& forest_counts(f) == seq![t as nat] + forest_counts(f >> (t + 1))
            &&& f >> (t + 1) < 0x8000_0000
            &&& f >> (t + 1) < f
        }),
{
    let t = f.trailing_zeros();
    vstd::std_specs::bits::axiom_u32_trailing_zeros(f);
    lemma_low_zeros(f, t);
    lemma_tz_bounds(f, t);
    lemma_counts_run(f, 0, t);
}

pub open spec fn branch_view(branch: Seq<usize>, remaining: Seq<u32>, len: int) -> Seq<(nat, nat)> {
    Seq::new(len as nat, |i: int| (branch[i] as nat, remaining[i] as nat))
}

pub(crate) proof fn lemma_decode_shape(counts: Seq<nat>)
    ensures
        decode_counts(counts).0.len() == counts.len(),
        decode_counts(counts).1.len() <= counts.len(),
        forall|i: int| 0 <= i < decode_counts(counts).1.len() ==> #[trigger] decode_counts(counts).1[i].0 < counts.len(),
        forall|k: int| 0 <= k < counts.len() ==> -1 <= #[trigger] decode_counts(counts).0[k] < k,
    decreases counts.len(),
{
    if counts.len() > 0 {
        lemma_decode_shape(counts.drop_last());
        lemma_pop_done_prefix(decode_counts(counts.drop_last()).1);
    }
}

pub(crate) proof fn lemma_pop_done_prefix(br: Seq<(nat, nat)>)
    ensures
        pop_done(br).len() <= br.len(),
        forall|i: int| 0 <= i < pop_done(br).len() ==> #[trigger] pop_done(br)[i] == br[i],
        pop_done(br).len() > 0 ==> pop_done(br).last().1 > 0,
    decreases br.len(),
{
    if br.len() > 0 && br.last().1 == 0 {
        lemma_pop_done_prefix(br.drop_last());
    }
}

/// Decoding a prefix of the counts gives a prefix of the parents.
proof fn lemma_decode_prefix(counts: Seq<nat>, m: int)
    requires
        0 <= m <= counts.len(),
    ensures
        forall|k: int| 0 <= k < m ==> #[trigger] decode_counts(counts.take(m)).0[k] == decode_counts(counts).0[k],
    decreases counts.len(),
{
    lemma_decode_shape(counts);
    lemma_decode_shape(counts.take(m));
    if m == counts.len() {
        assert(counts.take(m) =~= counts);
    } else {
        assert(counts.drop_last().take(m) =~= counts.take(m));
        lemma_decode_prefix(counts.drop_last(), m);
        lemma_decode_shape(counts.drop_last());
    }
}

/// Precomputed answer table for O(1) microfind queries.
///
/// Indexed by `(forest << (b-1)) | mark`. Each entry packs `b-1`
/// answer values, each `ceil_lg_b` bits wide.
///
/// Answer value 0 means "no marked ancestor in this microset" (go to root).
/// Answer value `k` (1-indexed) means "nearest marked ancestor is
/// node `k-1` (0-indexed) in the microset".
///
/// Mark convention: bit = 0 means node IS a set name (marked);
/// bit = 1 means node has been linked (unmarked). Initially all bits are 0.
#[derive(Clone, Debug)]
pub struct AnswerTable {
    /// The packed answers, indexed by `(forest << (b-1)) | mark`.
    pub table: Vec<u64>,
    pub b: u32,
    pub ceil_lg_b: u32,
}

impl AnswerTable {
    /// Decode a forest bitstring into a parent array.
    /// Returns the number of nodes decoded, or 0 when the bitstring is 0,
    /// encodes more than 16 nodes, or leaves a node short of children.
    ///
    /// Forest encoding: read bits LSB to MSB.
    /// For each node: count trailing zeros = number of children,
    /// then consume the '1' bit. The one bitstring refused is 0x8000_0000,
    /// whose single node would be consumed by a shift of 32 bits.
    pub fn decode_forest(forest: u32, parent: &mut [i32; 16], child_count: &mut [u32; 16]) -> (r:
        usize)
        requires
            forest != 0x8000_0000,
        ensures
            r == (if forest_valid(forest) {
                forest_size(forest)
            } else {
                0
            }),
            ({
                let counts = forest_counts(forest);
                let m = if counts.len() < 16 {
                    counts.len() as int
                } else {
                    16
                };
                &&& forall|j: int|
                    0 <= j < m ==> #[trigger] final(parent)@[j] == decode_counts(counts.take(m)).0[j]
                &&& forall|j: int| 0 <= j < m ==> #[trigger] final(child_count)@[j] == counts[j]
                &&& forall|j: int| m <= j < 16 ==> #[trigger] final(parent)@[j] == old(parent)@[j]
                &&& forall|j: int|
                    m <= j < 16 ==> #[trigger] final(child_count)@[j] == old(child_count)@[j]
            }),
    {
        let ghost counts = forest_counts(forest);
        let ghost f0 = forest;
        if forest == 0 {
            return 0;
        }
        let mut bits = forest;
        let mut node_count = 0usize;
        let mut branch: [usize; 16] = [0; 16];
        let mut branch_len = 0usize;
        let mut remaining: [u32; 16] = [0; 16];

        while bits > 0
            invariant
                bits != 0x8000_0000,
                node_count <= 16,
                branch_len <= node_count,
                counts == forest_counts(f0),
                f0 == forest,
                f0 != 0,
                node_count + forest_counts(bits).len() == counts.len(),
                counts =~= counts.take(node_count as int) + forest_counts(bits),
                decode_counts(counts.take(node_count as int)).0 =~= as_ints(parent@).take(
                    node_count as int,
                ),
                decode_counts(counts.take(node_count as int)).1 =~= branch_view(
                    branch@,
                    remaining@,
                    branch_len as int,
                ),
                forall|j: int|
                    0 <= j < node_count ==> #[trigger] child_count@[j] == counts[j],
                forall|j: int| node_count <= j < 16 ==> #[trigger] parent@[j] == old(parent)@[j],
                forall|j: int|
                    node_count <= j < 16 ==> #[trigger] child_count@[j] == old(child_count)@[j],
            decreases bits,
        {
            if node_count >= 16 {
                proof {
                    lemma_counts_trailing(bits);
                    assert(counts.len() > 16);
                    assert(counts.take(16) =~= counts.take(node_count as int));
                    assert forall|j: int| 0 <= j < 16 implies #[trigger] parent@[j]
                        == decode_counts(counts.take(16)).0[j] by {
                        assert(as_ints(parent@).take(16)[j] == parent@[j] as int);
                    }
                }
                assert(!forest_valid(f0));
                return 0;  // overflow
            }
            let ghost nc = node_count as int;
            let ghost pre = counts.take(nc);
            proof {
                lemma_counts_trailing(bits);
                lemma_decode_shape(pre);
            }
            // Count trailing zeros = number of children for this node
            let num_children = bits.trailing_zeros();
            // Consume the zeros and the '1' bit
            bits = bits >> (num_children + 1);
            proof {
                assert(counts.take(nc + 1) =~= pre.push(num_children as nat)) by {
                    assert(counts[nc] == num_children as nat);
                }
                assert(counts =~= counts.take(nc + 1) + forest_counts(bits));
                assert(counts.take(nc + 1).drop_last() =~= pre);
            }

            child_count[node_count] = num_children;

            let ghost br0 = branch_view(branch@, remaining@, branch_len as int);
            // Pop completed nodes from the branch stack
            while branch_len > 0 && remaining[branch_len - 1] == 0
                invariant
                    branch_len <= node_count,
                    node_count < 16,
                    pop_done(br0) == pop_done(branch_view(branch@, remaining@, branch_len as int)),
                decreases branch_len,
            {
                assert(branch_view(branch@, remaining@, branch_len - 1) =~= branch_view(
                    branch@,
                    remaining@,
                    branch_len as int,
                ).drop_last());
                branch_len -= 1;
            }
            proof {
                let bv = branch_view(branch@, remaining@, branch_len as int);
                assert(pop_done(bv) == bv);
            }
            let ghost popped = branch_view(branch@, remaining@, branch_len as int);
            proof {
                lemma_pop_done_prefix(br0);
            }

            // Set parent
            if branch_len == 0 {
                parent[node_count] = -1;  // root of this subtree (parent is external)
            } else {
                let p = branch[branch_len - 1];
                proof {
                    assert(popped[branch_len - 1] == br0[branch_len - 1]);
                    assert(br0[branch_len - 1].0 < pre.len());
                }
                parent[node_count] = p as i32;
                remaining[branch_len - 1] -= 1;
            }

            // Push this node onto the branch stack
            branch[branch_len] = node_count;
            remaining[branch_len] = num_children;
            branch_len += 1;

            node_count += 1;
            proof {
                let c1 = counts.take(nc + 1);
                assert(decode_counts(c1).0 =~= as_ints(parent@).take(node_count as int));
                assert(decode_counts(c1).1 =~= branch_view(branch@, remaining@, branch_len as int));
            }
        }
        proof {
            assert(counts.take(node_count as int) =~= counts);
        }

        // Validate: all remaining child counts should be 0
        let mut i: usize = 0;
        while i < branch_len
            invariant
                i <= branch_len <= node_count <= 16,
                forall|k: int| 0 <= k < i ==> #[trigger] remaining@[k] == 0,
                counts == forest_counts(f0),
                f0 == forest,
                f0 != 0,
                node_count == counts.len(),
                decode_counts(counts).0 =~= as_ints(parent@).take(node_count as int),
                decode_counts(counts).1 =~= branch_view(branch@, remaining@, branch_len as int),
                forall|j: int|
                    0 <= j < node_count ==> #[trigger] child_count@[j] == counts[j],
                forall|j: int| node_count <= j < 16 ==> #[trigger] parent@[j] == old(parent)@[j],
                forall|j: int|
                    node_count <= j < 16 ==> #[trigger] child_count@[j] == old(child_count)@[j],
            decreases branch_len - i,
        {
            if remaining[i] != 0 {
                proof {
                    assert(branch_view(branch@, remaining@, branch_len as int)[i as int].1 != 0);
                    assert(!counts_closed(counts));
                    assert(counts.take(node_count as int) =~= counts);
                    assert forall|j: int| 0 <= j < node_count implies #[trigger] parent@[j]
                        == decode_counts(counts.take(node_count as int)).0[j] by {
                        assert(as_ints(parent@).take(node_count as int)[j] == parent@[j] as int);
                    }
                }
                return 0;  // invalid forest
            }
            i += 1;
        }
        proof {
            assert forall|k: int| 0 <= k < decode_counts(counts).1.len() implies #[trigger] decode_counts(
                counts,
            ).1[k].1 == 0 by {
                assert(branch_view(branch@, remaining@, branch_len as int)[k].1 == remaining@[k]);
            }
            assert forall|j: int| 0 <= j < node_count implies #[trigger] parent@[j]
                == decode_counts(counts.take(node_count as int)).0[j] by {
                assert(as_ints(parent@).take(node_count as int)[j] == parent@[j] as int);
            }
        }
        node_count
    }
}

/// The forest bitmask of preorder child counts: the first node's count in
/// zero bits, then its `1`, then the rest above it.
pub open spec fn encode_counts(cc: Seq<nat>) -> nat
    decreases cc.len(),
{
    if cc.len() == 0 {
        0
    } else {
        (2 * encode_counts(cc.drop_first()) + 1) * pow2(cc[0])
    }
}

/// Sum of a sequence of counts.
pub open spec fn count_sum(cc: Seq<nat>) -> nat
    decreases cc.len(),
{
    if cc.len() == 0 {
        0
    } else {
        cc[0] + count_sum(cc.drop_first())
    }
}

/// Child counts held in an array of `u32`, as naturals.
pub open spec fn as_nats(a: Seq<u32>) -> Seq<nat> {
    Seq::new(a.len(), |i: int| a[i] as nat)
}

/// The encoding takes one bit per node and one per child.
pub proof fn lemma_encode_bound(cc: Seq<nat>)
    ensures
        encode_counts(cc) < pow2(cc.len() + count_sum(cc)),
    decreases cc.len(),
{
    if cc.len() == 0 {
        lemma2_to64();
    } else {
        let rest = cc.drop_first();
        lemma_encode_bound(rest);
        let g = encode_counts(rest);
        let e = rest.len() + count_sum(rest);
        lemma_pow2_unfold(e + 1);
        lemma_pow2_adds(e + 1, cc[0]);
        lemma_pow2_pos(cc[0]);
        assert((2 * g + 1) * pow2(cc[0]) < pow2(e + 1) * pow2(cc[0])) by (nonlinear_arith)
            requires
                2 * g + 1 < pow2(e + 1),
                pow2(cc[0]) > 0,
        ;
    }
}

proof fn lemma_counts_of_run(g: nat, z: nat, t: nat)
    requires
        (2 * g + 1) * pow2(t) <= u32::MAX,
    ensures
        forest_counts_from(((2 * g + 1) * pow2(t)) as u32, z) == seq![z + t] + forest_counts_from(
            g as u32,
            0,
        ),
    decreases t,
{
    let f = (2 * g + 1) * pow2(t);
    lemma_pow2_pos(t);
    assert(f >= 1) by (nonlinear_arith)
        requires
            f == (2 * g + 1) * pow2(t),
            pow2(t) >= 1,
    ;
    if t == 0 {
        lemma2_to64();
        assert(f == 2 * g + 1);
    } else {
        lemma_pow2_unfold(t);
        let h = (2 * g + 1) * pow2((t - 1) as nat);
        assert(f == 2 * h) by (nonlinear_arith)
            requires
                f == (2 * g + 1) * pow2(t),
                pow2(t) == 2 * pow2((t - 1) as nat),
                h == (2 * g + 1) * pow2((t - 1) as nat),
        ;
        lemma_counts_of_run(g, z + 1, (t - 1) as nat);
    }
}

/// Decoding an encoding gives back the counts.
pub proof fn lemma_encode_roundtrip(cc: Seq<nat>)
    requires
        cc.len() + count_sum(cc) <= 32,
    ensures
        encode_counts(cc) <= u32::MAX,
        forest_counts(encode_counts(cc) as u32) == cc,
    decreases cc.len(),
{
    lemma_encode_bound(cc);
    lemma2_to64();
    if cc.len() + count_sum(cc) < 32 {
        lemma_pow2_strictly_increases(cc.len() + count_sum(cc), 32);
    }
    if cc.len() > 0 {
        let rest = cc.drop_first();
        lemma_encode_roundtrip(rest);
        lemma_counts_of_run(encode_counts(rest), 0, cc[0]);
        assert(seq![cc[0]] + rest =~= cc);
    }
}

/// Build a forest encoding from a child-count array.
///
/// `child_counts[i]` = number of children of node `i` within the microset.
/// Nodes are numbered in preorder. Returns the packed forest integer.
pub fn encode_forest(child_counts: &[u32], count: usize) -> (forest: u32)
    requires
        count <= child_counts.len(),
        count + count_sum(as_nats(child_counts@).take(count as int)) <= 32,
    ensures
        forest == encode_counts(as_nats(child_counts@).take(count as int)),
{
    let ghost cc = as_nats(child_counts@).take(count as int);
    let mut forest: u32 = 0;
    let mut i = count;
    proof {
        assert(cc.subrange(count as int, count as int) =~= Seq::<nat>::empty());
    }
    while i > 0
        invariant
            i <= count <= child_counts.len(),
            cc == as_nats(child_counts@).take(count as int),
            count + count_sum(cc) <= 32,
            forest == encode_counts(cc.subrange(i as int, count as int)),
        decreases i,
    {
        i -= 1;
        let ghost tail = cc.subrange(i as int + 1, count as int);
        let ghost cur = cc.subrange(i as int, count as int);
        proof {
            assert(cur.drop_first() =~= tail);
            lemma_count_sum_split(cc, i as int);
            lemma_encode_bound(cur);
            lemma_encode_bound(tail);
            lemma_pow2_pos(cc[i as int]);
            lemma2_to64();
            let e = cur.len() + count_sum(cur);
            if e < 32 {
                lemma_pow2_strictly_increases(e, 32);
            }
            let et = tail.len() + count_sum(tail);
            if et < 31 {
                lemma_pow2_strictly_increases(et, 31);
            }
            assert(2 * forest + 1 <= u32::MAX);
            vstd::bits::lemma_u32_shl_is_mul(forest, 1);
            assert(pow2(1) == 2);
            assert(((2 * forest + 1) as u32) * pow2(cc[i as int]) <= u32::MAX);
            vstd::bits::lemma_u32_shl_is_mul(((2 * forest + 1) as u32), child_counts[i as int]);
            assert((forest << 1u32) | 1u32 == ((2 * forest + 1) as u32)) by (bit_vector)
                requires
                    forest < 0x8000_0000,
            ;
        }
        forest = ((forest << 1) | 1) << child_counts[i];
    }
    assert(cc.subrange(0, count as int) =~= cc);
    forest
}

proof fn lemma_count_sum_split(cc: Seq<nat>, i: int)
    requires
        0 <= i <= cc.len(),
    ensures
        count_sum(cc) == count_sum(cc.take(i)) + count_sum(cc.subrange(i, cc.len() as int)),
    decreases i,
{
    if i > 0 {
        lemma_count_sum_split(cc.drop_first(), i - 1);
        assert(cc.drop_first().take(i - 1) =~= cc.take(i).drop_first());
        assert(cc.drop_first().subrange(i - 1, cc.len() - 1) =~= cc.subrange(i, cc.len() as int));
    } else {
        assert(cc.subrange(0, cc.len() as int) =~= cc);
    }
}

// ---------------------------------------------------------------------------
// Answers
// ---------------------------------------------------------------------------

/// 1 + the index of the nearest ancestor of local node `j` (itself
/// included) whose mark bit is 0 (a set name), or 0 when every ancestor up
/// to the top of its tree in the forest has its bit set (linked).
pub open spec fn nearest_marked(parents: Seq<int>, mark: u32, j: int) -> nat
    decreases j + 1,
{
    if j < 0 || j >= parents.len() {
        0
    } else if (mark >> (j as u32)) & 1 == 0 {
        (j + 1) as nat
    } else if -1 <= parents[j] < j {
        nearest_marked(parents, mark, parents[j])
    } else {
        0
    }
}

/// Every node's parent comes before it (or is -1).
pub open spec fn parents_ordered(parents: Seq<int>) -> bool {
    forall|k: int| 0 <= k < parents.len() ==> -1 <= #[trigger] parents[k] < k
}

pub proof fn lemma_nearest_le(parents: Seq<int>, mark: u32, j: int)
    requires
        parents_ordered(parents),
        -1 <= j < parents.len(),
    ensures
        nearest_marked(parents, mark, j) <= j + 1,
    decreases j + 1,
{
    if 0 <= j && (mark >> (j as u32)) & 1 != 0 {
        lemma_nearest_le(parents, mark, parents[j]);
    }
}

/// A decoded forest lists its nodes so that parents come first.
pub proof fn lemma_forest_parents_ordered(forest: u32)
    ensures
        forest_parents(forest).len() == forest_size(forest),
        parents_ordered(forest_parents(forest)),
{
    lemma_decode_shape(forest_counts(forest));
}

/// The `c`-bit field at bit `s` of a word.
pub open spec fn field(word: u64, s: u64, c: u64) -> u64 {
    (word >> s) & (((1u64 << c) - 1) as u64)
}

/// `word` holds, in consecutive `clb`-bit fields, the answers of the
/// `count` nodes of a forest for a mark bitmask, and nothing above them.
pub open spec fn packed_ok(word: u64, parents: Seq<int>, mark: u32, count: nat, clb: nat) -> bool {
    &&& forall|j: int|
        0 <= j < count ==> #[trigger] field(word, (j * clb) as u64, clb as u64) == nearest_marked(
            parents,
            mark,
            j,
        )
    &&& word >> ((count * clb) as u64) == 0
}

proof fn lemma_pack_low(p: u64, a: u64, s: u64, c: u64, t: u64)
    by (bit_vector)
    requires
        1 <= c <= 8,
        s + c <= 63,
        t + c <= s,
        p >> s == 0,
        a >> c == 0,
    ensures
        ((p | (a << s)) >> t) & (((1u64 << c) - 1) as u64) == (p >> t) & (((1u64 << c) - 1) as u64),
{
}

proof fn lemma_pack_top(p: u64, a: u64, s: u64, c: u64)
    by (bit_vector)
    requires
        1 <= c <= 8,
        s + c <= 63,
        p >> s == 0,
        a >> c == 0,
    ensures
        ((p | (a << s)) >> s) & (((1u64 << c) - 1) as u64) == a,
        (p | (a << s)) >> (s + c) == 0,
{
}

proof fn lemma_small_shr(a: u64, c: u64)
    by (bit_vector)
    requires
        c <= 8,
        a < (1u64 << c),
    ensures
        a >> c == 0,
{
}

/// Index of the answer-table entry of a forest and a mark bitmask.
pub open spec fn entry_index(forest: nat, mark: nat, b: nat) -> nat {
    forest * pow2((b - 1) as nat) + mark
}

/// The entries that the table fills: forests below 2^(2(b-1)) that decode to
/// between 1 and b-1 nodes, with a mark bitmask over those nodes, whose
/// index falls inside the table.
pub open spec fn entry_valid(forest: nat, mark: nat, b: nat) -> bool {
    &&& forest < pow2((2 * (b - 1)) as nat)
    &&& forest_valid(forest as u32)
    &&& 1 <= forest_size(forest as u32) <= b - 1
    &&& mark < pow2(forest_size(forest as u32))
    &&& entry_index(forest, mark, b) < pow2((3 * b - 4) as nat)
}

/// What entry `i` of the table of parameter `b` holds.
pub open spec fn entry_ok(word: u64, i: nat, b: nat, clb: nat) -> bool {
    let f = i / pow2((b - 1) as nat);
    let m = i % pow2((b - 1) as nat);
    if entry_valid(f, m, b) {
        packed_ok(word, forest_parents(f as u32), m as u32, forest_size(f as u32), clb)
    } else {
        word == u64::MAX
    }
}

impl View for AnswerTable {
    type V = Seq<u64>;

    open spec fn view(&self) -> Seq<u64> {
        self.table@
    }
}

impl AnswerTable {
    /// The table is built for its parameter b: 2^(3b-4) entries, each entry
    /// of a valid forest and mark packing the answers of every node, and every
    /// other entry holding `u64::MAX`.
    pub open spec fn wf(&self) -> bool {
        &&& 2 <= self.b <= 16
        &&& self.ceil_lg_b == log2_ceil(self.b as nat)
        &&& 1 <= self.ceil_lg_b <= 4
        &&& (self.b - 1) * self.ceil_lg_b <= 63
        &&& self.b <= pow2(self.ceil_lg_b as nat)
        &&& self@.len() == pow2((3 * self.b - 4) as nat)
        &&& self@.len() <= usize::MAX
        &&& forall|i: int|
            0 <= i < self@.len() ==> entry_ok(
                #[trigger] self@[i],
                i as nat,
                self.b as nat,
                self.ceil_lg_b as nat,
            )
    }

    /// The entry of a valid forest and mark packs the answers of its nodes.
    pub proof fn lemma_entry(&self, forest: nat, mark: nat)
        requires
            self.wf(),
            entry_valid(forest, mark, self.b as nat),
        ensures
            entry_index(forest, mark, self.b as nat) < self@.len(),
            packed_ok(
                self@[entry_index(forest, mark, self.b as nat) as int],
                forest_parents(forest as u32),
                mark as u32,
                forest_size(forest as u32),
                self.ceil_lg_b as nat,
            ),
    {
        let pp = pow2((self.b - 1) as nat);
        let i = entry_index(forest, mark, self.b as nat);
        lemma_pow2_pos((self.b - 1) as nat);
        if forest_size(forest as u32) < self.b - 1 {
            lemma_pow2_strictly_increases(forest_size(forest as u32), (self.b - 1) as nat);
        }
        lemma_index_split(forest, mark, pp);
        assert(entry_ok(self@[i as int], i, self.b as nat, self.ceil_lg_b as nat));
    }

    /// Compute the answer for node `j` given a mark bitmask and parent array.
    /// Mark bit 0 = marked (set name), bit 1 = linked (not a set name).
    /// Returns 0 if no marked ancestor in microset, or k (1-indexed) if
    /// node k-1 is the nearest marked ancestor.
    pub fn compute_answer(j: usize, mark: u32, parent: &[i32; 16], node_count: usize) -> (r: u32)
        requires
            j < node_count <= 16,
            parents_ordered(as_ints(parent@).take(node_count as int)),
        ensures
            r == nearest_marked(as_ints(parent@).take(node_count as int), mark, j as int),
    {
        let ghost ps = as_ints(parent@).take(node_count as int);
        let mut cur = j as i32;
        while cur >= 0
            invariant
                -1 <= cur <= j < node_count <= 16,
                ps == as_ints(parent@).take(node_count as int),
                parents_ordered(ps),
                nearest_marked(ps, mark, cur as int) == nearest_marked(ps, mark, j as int),
            decreases cur + 1,
        {
            // Check if current node is marked (bit = 0)
            if (mark >> cur as u32) & 1 == 0 {
                return (cur + 1) as u32;  // 1-indexed
            }
            assert(ps[cur as int] == parent@[cur as int] as int);
            cur = parent[cur as usize];
        }
        0  // no marked ancestor in microset
    }

    /// Look up the packed answers for a given forest and mark.
    pub fn lookup(&self, forest: u32, mark: u32) -> (r: u64)
        requires
            self.wf(),
            mark < pow2((self.b - 1) as nat),
            entry_index(forest as nat, mark as nat, self.b as nat) < self@.len(),
        ensures
            r == self@[entry_index(forest as nat, mark as nat, self.b as nat) as int],
    {
        let s = self.b - 1;
        proof {
            lemma_shift_index(forest as nat, mark as nat, s as nat);
        }
        let index = ((forest as usize) << s) | (mark as usize);
        self.table[index]
    }

    /// Extract the answer for node `j` from a packed answer entry.
    pub fn extract(&self, packed: u64, j: u16) -> (r: u32)
        requires
            self.wf(),
            j * self.ceil_lg_b < 64,
        ensures
            r == field(packed, (j * self.ceil_lg_b) as u64, self.ceil_lg_b as u64),
    {
        let shift = j as u32 * self.ceil_lg_b;
        let c = self.ceil_lg_b;
        proof {
            lemma_extract_bits(packed, shift, c);
        }
        let mask = (1u64 << c) - 1;
        ((packed >> shift) & mask) as u32
    }
}

proof fn lemma_extract_bits(packed: u64, shift: u32, c: u32)
    by (bit_vector)
    requires
        1 <= c <= 4,
        shift < 64,
    ensures
        (1u64 << c) >= 1,
        (packed >> shift) & (((1u64 << c) - 1) as u64) <= 255,
        (packed >> shift) & (((1u64 << c) - 1) as u64) == (packed >> (shift as u64)) & (((1u64 << (
        c as u64)) - 1) as u64),
{
}

proof fn lemma_index_split(forest: nat, mark: nat, pp: nat)
    requires
        pp > 0,
        mark < pp,
    ensures
        (forest * pp + mark) / pp == forest,
        (forest * pp + mark) % pp == mark,
{
    vstd::arithmetic::div_mod::lemma_fundamental_div_mod_converse(
        (forest * pp + mark) as int,
        pp as int,
        forest as int,
        mark as int,
    );
}

proof fn lemma_or_low(x: usize, m: usize, s: usize)
    by (bit_vector)
    requires
        s < 32,
        m < (1usize << s),
    ensures
        (x << s) | m == (x << s) + m,
{
}

/// `(forest << s) | mark` is the entry index when it fits.
proof fn lemma_shift_index(forest: nat, mark: nat, s: nat)
    requires
        s < 16,
        mark < pow2(s),
        forest * pow2(s) + mark <= usize::MAX,
        forest <= usize::MAX,
        mark <= usize::MAX,
    ensures
        ((forest as usize) << (s as usize)) | (mark as usize) == forest * pow2(s) + mark,
{
    lemma_usize_pow2_no_overflow(s);
    lemma_usize_shl_is_mul(forest as usize, s as usize);
    lemma_usize_shl_is_mul(1, s as usize);
    lemma_or_low(forest as usize, mark as usize, s as usize);
}

/// The table holds its final value for every entry whose forest is below
/// `f`, or equal to `f` with a mark below `m`; every later entry still holds
/// `u64::MAX`.
pub open spec fn filled_upto(t: Seq<u64>, b: nat, clb: nat, f: nat, m: nat) -> bool {
    forall|i: int|
        0 <= i < t.len() ==> {
            let fi = (i as nat) / pow2((b - 1) as nat);
            let mi = (i as nat) % pow2((b - 1) as nat);
            if fi < f || (fi == f && mi < m) {
                entry_ok(#[trigger] t[i], i as nat, b, clb)
            } else {
                t[i] == u64::MAX
            }
        }
}

proof fn lemma_pow2_fits_usize(e: nat)
    requires
        pow2(e) <= usize::MAX,
    ensures
        e < usize::BITS,
{
    lemma2_to64();
    if e > usize::BITS {
        lemma_pow2_strictly_increases(usize::BITS as nat, e);
    }
}

proof fn lemma_table_index_range(i: nat, b: nat)
    requires
        2 <= b <= 16,
        i < pow2((3 * b - 4) as nat),
    ensures
        (i as nat) / pow2((b - 1) as nat) < pow2((2 * (b - 1)) as nat),
{
    let pp = pow2((b - 1) as nat);
    let q = pow2((2 * b - 3) as nat);
    lemma_pow2_adds((2 * b - 3) as nat, (b - 1) as nat);
    lemma_pow2_pos((b - 1) as nat);
    lemma_pow2_strictly_increases((2 * b - 3) as nat, (2 * (b - 1)) as nat);
    vstd::arithmetic::div_mod::lemma_fundamental_div_mod(i as int, pp as int);
    vstd::arithmetic::div_mod::lemma_mod_pos_bound(i as int, pp as int);
    assert(i / pp < q) by (nonlinear_arith)
        requires
            i < q * pp,
            i == pp * ((i as nat) / pp) + (i as nat) % pp,
            (i as nat) % pp >= 0,
            pp > 0,
    ;
}

/// Facts about the packing of answers for one forest and mark.
proof fn lemma_pack_next(
    packed: u64,
    a: u64,
    j: nat,
    clb: nat,
    ps: Seq<int>,
    mark: u32,
)
    requires
        1 <= clb <= 4,
        (j + 1) * clb <= 63,
        a < pow2(clb),
        a == nearest_marked(ps, mark, j as int),
        forall|jj: int|
            0 <= jj < j ==> #[trigger] field(packed, (jj * clb) as u64, clb as u64)
                == nearest_marked(ps, mark, jj),
        packed >> ((j * clb) as u64) == 0,
    ensures
        forall|jj: int|
            0 <= jj < j + 1 ==> #[trigger] field(
                packed | (a << ((j * clb) as u64)),
                (jj * clb) as u64,
                clb as u64,
            ) == nearest_marked(ps, mark, jj),
        (packed | (a << ((j * clb) as u64))) >> (((j + 1) * clb) as u64) == 0,
{
    let s = (j * clb) as u64;
    let c = clb as u64;
    lemma_u64_pow2_no_overflow_small(clb);
    vstd::bits::lemma_u64_shl_is_mul(1, c);
    lemma_small_shr(a, c);
    assert((j + 1) * clb == j * clb + clb) by (nonlinear_arith);
    assert forall|jj: int| 0 <= jj < j + 1 implies #[trigger] field(
        packed | (a << s),
        (jj * clb) as u64,
        clb as u64,
    ) == nearest_marked(ps, mark, jj) by {
        if jj < j {
            assert(field(packed, (jj * clb) as u64, clb as u64) == nearest_marked(ps, mark, jj));
            assert((jj + 1) * clb <= j * clb) by (nonlinear_arith)
                requires
                    jj < j,
                    0 <= jj,
            ;
            assert((jj * clb) + clb == (jj + 1) * clb) by (nonlinear_arith);
            lemma_pack_low(packed, a, s, c, (jj * clb) as u64);
        } else {
            lemma_pack_top(packed, a, s, c);
        }
    }
    lemma_pack_top(packed, a, s, c);
}

proof fn lemma_u64_pow2_no_overflow_small(c: nat)
    requires
        c <= 8,
    ensures
        0 < pow2(c) <= 256,
{
    lemma2_to64();
    if c < 8 {
        lemma_pow2_strictly_increases(c, 8);
    }
    lemma_pow2_pos(c);
}

impl AnswerTable {
    /// Build the answer table for the given capacity.
    pub fn new(capacity: usize) -> (t: Self)
        ensures
            t.wf(),
            t.b == compute_b_spec(capacity as nat).0,
            t.ceil_lg_b == compute_b_spec(capacity as nat).1,
    {
        let (b, ceil_lg_b) = compute_b(capacity);
        proof {
            lemma_compute_b_props(capacity as nat);
            lemma2_to64();
            lemma_pow2_fits_usize((3 * b - 4) as nat);
            lemma_usize_pow2_no_overflow((3 * b - 4) as nat);
            lemma_usize_shl_is_mul(1, (3 * b - 4) as usize);
            vstd::bits::lemma_u32_pow2_no_overflow((2 * (b - 1)) as nat);
            vstd::bits::lemma_u32_shl_is_mul(1, (2 * (b - 1)) as u32);
            vstd::bits::lemma_u32_pow2_no_overflow((b - 1) as nat);
            vstd::bits::lemma_u32_shl_is_mul(1, (b - 1) as u32);
            lemma_pow2_strictly_increases((2 * (b - 1)) as nat, 31);
        }
        let max_nodes = (b - 1) as usize;  // max nodes per microset
        let table_size = 1usize << (3 * b - 4).min(63);
        let mut table = vec![u64::MAX; table_size];  // MAX = sentinel for invalid

        // For each possible forest bitstring, decode and compute answers
        let max_forest = 1u32 << (2 * max_nodes).min(31);
        let max_mark = 1u32 << max_nodes.min(31);

        // Temporary buffers
        let mut parent = [0i32; 16];  // parent[i] = parent index, -1 if root
        let mut child_count = [0u32; 16];

        let ghost bn = b as nat;
        let ghost clb = ceil_lg_b as nat;
        let ghost pp = pow2((b - 1) as nat);
        proof {
            lemma_pow2_pos((b - 1) as nat);
            assert(filled_upto(table@, bn, clb, 0, 0)) by {
                assert forall|i: int| 0 <= i < table@.len() implies table@[i] == u64::MAX by {
                    assert(cloned(u64::MAX, table@[i]));
                }
            }
        }

        for forest in 0..max_forest
            invariant
                b == bn,
                ceil_lg_b == clb,
                2 <= b <= 16,
                1 <= clb <= 4,
                (b - 1) * clb <= 63,
                b <= pow2(clb),
                pp == pow2((b - 1) as nat),
                pp > 0,
                max_nodes == b - 1,
                table_size == pow2((3 * b - 4) as nat),
                table_size <= usize::MAX,
                2 * table_size <= usize::MAX,
                table@.len() == table_size,
                max_forest == pow2((2 * (b - 1)) as nat),
                max_forest < 0x8000_0000,
                max_mark == pp,
                filled_upto(table@, bn, clb, forest as nat, 0),
        {
            // Decode forest bitstring to parent array
            let node_count = Self::decode_forest(forest, &mut parent, &mut child_count);
            let ghost counts = forest_counts(forest);
            if node_count == 0 || node_count > max_nodes {
                proof {
                    assert(filled_upto(table@, bn, clb, forest as nat + 1, 0)) by {
                        assert forall|i: int| 0 <= i < table@.len() implies {
                            let fi = (i as nat) / pp;
                            let mi = (i as nat) % pp;
                            if fi < forest + 1 || (fi == forest + 1 && mi < 0) {
                                entry_ok(#[trigger] table@[i], i as nat, bn, clb)
                            } else {
                                table@[i] == u64::MAX
                            }
                        } by {
                            if (i as nat) / pp == forest {
                                assert(!entry_valid(forest as nat, ((i as nat) % pp) as nat, bn));
                            }
                        }
                    }
                }
            } else {
            let ghost ps = forest_parents(forest);
            proof {
                lemma_decode_shape(counts);
                assert(counts.take(counts.len() as int) =~= counts);
                assert(as_ints(parent@).take(node_count as int) =~= ps);
            }

            // For each mark bitmask
            for mark in 0..max_mark
                invariant
                    b == bn,
                    ceil_lg_b == clb,
                    2 <= b <= 16,
                    1 <= clb <= 4,
                    (b - 1) * clb <= 63,
                    b <= pow2(clb),
                    pp == pow2((b - 1) as nat),
                    pp > 0,
                    max_nodes == b - 1,
                    table_size == pow2((3 * b - 4) as nat),
                    table_size <= usize::MAX,
                    2 * table_size <= usize::MAX,
                    table@.len() == table_size,
                    max_forest == pow2((2 * (b - 1)) as nat),
                    forest < max_forest,
                    max_mark == pp,
                    1 <= node_count <= max_nodes,
                    forest_valid(forest),
                    node_count == forest_size(forest),
                    ps == forest_parents(forest),
                    parents_ordered(ps),
                    ps.len() == node_count,
                    as_ints(parent@).take(node_count as int) =~= ps,
                    filled_upto(table@, bn, clb, forest as nat, mark as nat),
            {
                // Only consider valid mark bitmasks (no bits set beyond node_count)
                proof {
                    vstd::bits::lemma_u32_shr_is_div(mark, node_count as u32);
                    vstd::bits::lemma_u32_pow2_no_overflow(node_count as nat);
                    lemma_pow2_pos(node_count as nat);
                    if mark as nat >= pow2(node_count as nat) {
                        vstd::arithmetic::div_mod::lemma_div_is_ordered(
                            pow2(node_count as nat) as int,
                            mark as int,
                            pow2(node_count as nat) as int,
                        );
                        vstd::arithmetic::div_mod::lemma_div_by_multiple(1, pow2(node_count as nat) as int);
                    } else {
                        vstd::arithmetic::div_mod::lemma_basic_div(mark as int, pow2(node_count as nat) as int);
                    }
                }
                if mark >> node_count != 0 {
                    proof {
                        lemma_index_split(forest as nat, mark as nat, pp);
                        assert(filled_upto(table@, bn, clb, forest as nat, mark as nat + 1)) by {
                            assert forall|i: int| 0 <= i < table@.len() implies {
                                let fi = (i as nat) / pp;
                                let mi = (i as nat) % pp;
                                if fi < forest || (fi == forest && mi < mark + 1) {
                                    entry_ok(#[trigger] table@[i], i as nat, bn, clb)
                                } else {
                                    table@[i] == u64::MAX
                                }
                            } by {
                                if (i as nat) / pp == forest && (i as nat) % pp == mark {
                                    assert(!entry_valid(forest as nat, mark as nat, bn));
                                }
                            }
                        }
                    }
                } else {

                // Compute answer for each node
                let mut packed: u64 = 0;
                proof {
                    assert(packed >> 0u64 == 0) by (bit_vector)
                        requires
                            packed == 0,
                    ;
                    assert(((0 * clb) as u64) == 0u64);
                }
                for j in 0..node_count
                    invariant
                        ceil_lg_b == clb,
                        1 <= clb <= 4,
                        (b - 1) * clb <= 63,
                        b <= pow2(clb),
                        max_nodes == b - 1,
                        node_count <= max_nodes,
                        1 <= node_count <= 16,
                        ps.len() == node_count,
                        parents_ordered(ps),
                        as_ints(parent@).take(node_count as int) =~= ps,
                        forall|jj: int|
                            0 <= jj < j ==> #[trigger] field(packed, (jj * clb) as u64, clb as u64)
                                == nearest_marked(ps, mark, jj),
                        packed >> ((j * clb) as u64) == 0,
                {
                    // Walk up to find nearest marked ancestor (bit = 0 means marked)
                    let answer = Self::compute_answer(j, mark, &parent, node_count);
                    proof {
                        lemma_nearest_le(ps, mark, j as int);
                        assert((j + 1) * clb <= (b - 1) * clb) by (nonlinear_arith)
                            requires
                                j + 1 <= b - 1,
                                clb >= 1,
                        ;
                        lemma_pack_next(packed, answer as u64, j as nat, clb, ps, mark);
                        assert(j * clb + clb <= 63 && j * clb <= 63) by (nonlinear_arith)
                            requires
                                (j + 1) * clb <= 63,
                                clb >= 1,
                        ;
                    }
                    packed |= (answer as u64) << (j as u32 * ceil_lg_b);
                }

                let ghost idx = entry_index(forest as nat, mark as nat, bn);
                proof {
                    assert(mark < pow2(node_count as nat));
                    if node_count < b - 1 {
                        lemma_pow2_strictly_increases(node_count as nat, (b - 1) as nat);
                    }
                    assert(forest * pp + mark < max_forest * pp) by (nonlinear_arith)
                        requires
                            forest < max_forest,
                            mark < pp,
                    ;
                    lemma_pow2_adds((2 * (b - 1)) as nat, (b - 1) as nat);
                    assert(max_forest * pp == pow2((3 * b - 3) as nat));
                    lemma_pow2_unfold((3 * b - 3) as nat);
                    assert(pow2((3 * b - 3) as nat) == 2 * table_size);
                    lemma_shift_index(forest as nat, mark as nat, (b - 1) as nat);
                    lemma_index_split(forest as nat, mark as nat, pp);
                }
                let index = ((forest as usize) << max_nodes) | (mark as usize);
                if index < table_size {
                    table[index] = packed;
                    proof {
                        assert(entry_valid(forest as nat, mark as nat, bn));
                        assert(entry_ok(table@[index as int], index as nat, bn, clb));
                    }
                }
                proof {
                    assert(filled_upto(table@, bn, clb, forest as nat, mark as nat + 1)) by {
                        assert forall|i: int| 0 <= i < table@.len() implies {
                            let fi = (i as nat) / pp;
                            let mi = (i as nat) % pp;
                            if fi < forest || (fi == forest && mi < mark + 1) {
                                entry_ok(#[trigger] table@[i], i as nat, bn, clb)
                            } else {
                                table@[i] == u64::MAX
                            }
                        } by {
                            if i == index {
                            } else if (i as nat) / pp == forest && (i as nat) % pp == mark {
                                vstd::arithmetic::div_mod::lemma_fundamental_div_mod(i as int, pp as int);
                                let qi = (i as nat) / pp;
                                let ri = (i as nat) % pp;
                                assert(i == idx) by (nonlinear_arith)
                                    requires
                                        i == pp * qi + ri,
                                        qi == forest,
                                        ri == mark,
                                        idx == forest * pp + mark,
                                ;
                            }
                        }
                    }
                }
                }
            }
            proof {
                assert(filled_upto(table@, bn, clb, forest as nat + 1, 0)) by {
                    assert forall|i: int| 0 <= i < table@.len() implies {
                        let fi = (i as nat) / pp;
                        let mi = (i as nat) % pp;
                        if fi < forest + 1 || (fi == forest + 1 && mi < 0) {
                            entry_ok(#[trigger] table@[i], i as nat, bn, clb)
                        } else {
                            table@[i] == u64::MAX
                        }
                    } by {
                        vstd::arithmetic::div_mod::lemma_mod_pos_bound(i as int, pp as int);
                    }
                }
            }
            }
        }
        proof {
            assert forall|i: int| 0 <= i < table@.len() implies entry_ok(
                #[trigger] table@[i],
                i as nat,
                bn,
                clb,
            ) by {
                lemma_table_index_range(i as nat, bn);
            }
        }
        Self { table, b, ceil_lg_b }
    }
}

} // verus!
