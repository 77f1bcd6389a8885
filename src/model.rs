//! Mathematical model of an associative memory: bipolar states, weight
//! matrices, local fields and the two learning rules.
use vstd::prelude::*;

verus! {

/// Smallest number of nodes a network may have.
pub const MIN_NODES: usize = 4;

/// Largest number of nodes a network may have (its weight matrix already
/// holds 2^32 entries at this size).
pub const MAX_NODES: usize = 65536;

/// Bound on the magnitude of every stored weight; learning that would cross
/// it is refused.
pub const WEIGHT_LIMIT: i64 = 1099511627776;

/// Fixed-point scale of Storkey weights: a stored value `w` stands for the
/// real weight `w / STORKEY_SCALE`.
pub const STORKEY_SCALE: i64 = 1048576;

/// Activation of a node that is on.
pub const ON: i8 = 1;

/// Activation of a node that is off.
pub const OFF: i8 = -1;

/// A node activation is bipolar when it is exactly `+1` or `-1`.
pub open spec fn is_bipolar(v: i8) -> bool {
    v == ON || v == OFF
}

pub open spec fn is_bipolar_seq(s: Seq<i8>) -> bool {
    forall|k: int| 0 <= k < s.len() ==> is_bipolar(#[trigger] s[k])
}

/// A network size the engine accepts.
pub open spec fn valid_size(n: int) -> bool {
    MIN_NODES <= n <= MAX_NODES
}

/// `w` is an `n` by `n` matrix.
pub open spec fn is_square(w: Seq<Seq<i64>>, n: int) -> bool {
    &&& w.len() == n
    &&& forall|i: int| 0 <= i < n ==> (#[trigger] w[i]).len() == n
}

pub open spec fn weight_fits(x: int) -> bool {
    -WEIGHT_LIMIT <= x <= WEIGHT_LIMIT
}

/// Every entry of the matrix lies within the weight limit.
pub open spec fn weights_bounded(w: Seq<Seq<i64>>) -> bool {
    forall|i: int, j: int|
        0 <= i < w.len() && 0 <= j < w[i].len() ==> weight_fits(#[trigger] w[i][j] as int)
}

pub open spec fn zero_matrix(n: nat) -> Seq<Seq<i64>> {
    Seq::new(n, |i: int| Seq::new(n, |j: int| 0i64))
}

pub open spec fn is_symmetric(w: Seq<Seq<i64>>) -> bool {
    forall|i: int, j: int| 0 <= i < w.len() && 0 <= j < w.len() ==> #[trigger] w[i][j] == w[j][i]
}

pub open spec fn has_zero_diagonal(w: Seq<Seq<i64>>) -> bool {
    forall|i: int| 0 <= i < w.len() ==> #[trigger] w[i][i] == 0
}

/// `sum_{k < m, k != a, k != b} row[k] * s[k]`.
pub open spec fn masked_sum(row: Seq<i64>, s: Seq<i8>, a: int, b: int, m: int) -> int
    decreases m,
{
    if m <= 0 {
        0
    } else {
        masked_sum(row, s, a, b, m - 1) + if m - 1 == a || m - 1 == b {
            0
        } else {
            row[m - 1] * s[m - 1]
        }
    }
}

/// The local field of node `i`: the weighted sum of the other nodes'
/// activations. The diagonal never takes part.
pub open spec fn local_field(w: Seq<Seq<i64>>, s: Seq<i8>, i: int) -> int {
    masked_sum(w[i], s, i, i, s.len() as int)
}

/// Sign rule with the tie broken towards off: a zero field gives `-1`.
pub open spec fn activation(field: int) -> i8 {
    if field > 0 {
        ON
    } else {
        OFF
    }
}

/// The state after node `i` has been recomputed from its local field.
pub open spec fn relax_node(w: Seq<Seq<i64>>, s: Seq<i8>, i: int) -> Seq<i8> {
    s.update(i, activation(local_field(w, s, i)))
}

/// Classic Hebbian rule: the outer product of the pattern is added off the
/// diagonal; the diagonal stays zero.
pub open spec fn hebbian_weight(w: Seq<Seq<i64>>, p: Seq<i8>, i: int, j: int) -> int {
    if i == j {
        0
    } else {
        w[i][j] + p[i] * p[j]
    }
}

/// Storkey's local field `h(i, j)`: row `i` against the pattern, leaving out
/// the entries `i` and `j`.
pub open spec fn crosstalk(w: Seq<Seq<i64>>, p: Seq<i8>, i: int, j: int) -> int {
    masked_sum(w[i], p, i, j, p.len() as int)
}

/// Numerator of the Storkey increment, in fixed-point units.
pub open spec fn storkey_increment(w: Seq<Seq<i64>>, p: Seq<i8>, i: int, j: int) -> int {
    STORKEY_SCALE * p[i] * p[j] - p[i] * crosstalk(w, p, j, i) - p[j] * crosstalk(w, p, i, j)
}

/// Integer division rounding towards zero.
pub open spec fn trunc_div(a: int, d: int) -> int {
    if a >= 0 {
        a / d
    } else {
        -((-a) / d)
    }
}

/// Storkey rule: `w[i][j] + (1/N) * (p_i p_j - p_i h(j, i) - p_j h(i, j))`,
/// evaluated in fixed point and rounded towards zero.
pub open spec fn storkey_weight(w: Seq<Seq<i64>>, p: Seq<i8>, i: int, j: int) -> int {
    w[i][j] + trunc_div(storkey_increment(w, p, i, j), p.len() as int)
}

/// `q` holds distinct node indices below `n`.
pub open spec fn queue_ok(q: Seq<usize>, n: nat) -> bool {
    &&& q.no_duplicates()
    &&& forall|k: int| 0 <= k < q.len() ==> (#[trigger] q[k]) < n
}

/// `q` is a whole sweep: every index below `n` exactly once.
pub open spec fn full_sweep(q: Seq<usize>, n: nat) -> bool {
    q.len() == n && queue_ok(q, n)
}

/// A counter that stops at its largest value instead of wrapping.
pub open spec fn saturating_inc(x: nat, max: nat) -> nat {
    if x < max {
        x + 1
    } else {
        max
    }
}

/// The product of two bipolar values is `+1` when they agree, else `-1`.
pub proof fn lemma_bipolar_product(a: i8, b: i8)
    requires
        is_bipolar(a),
        is_bipolar(b),
    ensures
        a * b == if a == b {
            1int
        } else {
            -1int
        },
        a * b == b * a,
{
    if a == ON {
        if b == ON {
        } else {
        }
    } else {
        if b == ON {
        } else {
        }
    }
}

/// `masked_sum` stays within `m` times the weight limit.
pub proof fn lemma_masked_sum_bounded(row: Seq<i64>, s: Seq<i8>, a: int, b: int, m: int)
    requires
        0 <= m <= row.len(),
        m <= s.len(),
        is_bipolar_seq(s),
        forall|k: int| 0 <= k < row.len() ==> weight_fits(#[trigger] row[k] as int),
    ensures
        -(m * WEIGHT_LIMIT) <= masked_sum(row, s, a, b, m) <= m * WEIGHT_LIMIT,
    decreases m,
{
    if m > 0 {
        lemma_masked_sum_bounded(row, s, a, b, m - 1);
        assert(is_bipolar(s[m - 1]));
        assert(weight_fits(row[m - 1] as int));
        let t = row[m - 1] * s[m - 1];
        assert(-WEIGHT_LIMIT <= t <= WEIGHT_LIMIT) by (nonlinear_arith)
            requires
                t == row[m - 1] * s[m - 1],
                s[m - 1] == 1 || s[m - 1] == -1,
                -WEIGHT_LIMIT <= row[m - 1] <= WEIGHT_LIMIT,
        ;
    }
}

/// Leaving out two entries is the full sum minus those entries.
pub proof fn lemma_masked_sum_split(row: Seq<i64>, s: Seq<i8>, a: int, b: int, m: int)
    requires
        0 <= a,
        0 <= b,
        0 <= m,
    ensures
        masked_sum(row, s, a, b, m) == masked_sum(row, s, -1, -1, m) - (if a < m {
            row[a] * s[a]
        } else {
            0
        }) - (if b < m && b != a {
            row[b] * s[b]
        } else {
            0
        }),
    decreases m,
{
    if m > 0 {
        lemma_masked_sum_split(row, s, a, b, m - 1);
    }
}

/// A zero row gives a zero sum.
pub proof fn lemma_masked_sum_zero(row: Seq<i64>, s: Seq<i8>, a: int, b: int, m: int)
    requires
        0 <= m <= row.len(),
        forall|k: int| 0 <= k < row.len() ==> #[trigger] row[k] == 0,
    ensures
        masked_sum(row, s, a, b, m) == 0,
    decreases m,
{
    if m > 0 {
        lemma_masked_sum_zero(row, s, a, b, m - 1);
    }
}

/// The seq of the first `n` indices is a whole sweep.
pub proof fn lemma_identity_sweep(n: nat)
    requires
        n <= usize::MAX,
    ensures
        full_sweep(Seq::new(n, |k: int| k as usize), n),
{
}

/// A reordering of a whole sweep is a whole sweep.
pub proof fn lemma_reordered_sweep(q: Seq<usize>, r: Seq<usize>, n: nat)
    requires
        full_sweep(q, n),
        r.to_multiset() == q.to_multiset(),
    ensures
        full_sweep(r, n),
{
    broadcast use vstd::seq_lib::group_to_multiset_ensures;

    q.lemma_multiset_has_no_duplicates();
    r.lemma_multiset_has_no_duplicates_conv();
    assert(r.len() == r.to_multiset().len());
    assert(q.len() == q.to_multiset().len());
    assert forall|k: int| 0 <= k < r.len() implies (#[trigger] r[k]) < n by {
        assert(r.contains(r[k]));
        assert(r.to_multiset().count(r[k]) > 0);
        assert(q.contains(r[k]));
    }
}

} // verus!
