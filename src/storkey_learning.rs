//! Hopfield network with Storkey's learning rule.
use crate::hop_net::{rule_fits, rule_of, Net, NetworkType};
use crate::model::{
    crosstalk, is_bipolar, is_bipolar_seq, is_square, lemma_bipolar_product,
    lemma_masked_sum_bounded, lemma_masked_sum_split, masked_sum, storkey_increment,
    storkey_weight, trunc_div, weight_fits, weights_bounded, MAX_NODES, ON, STORKEY_SCALE,
    WEIGHT_LIMIT,
};
use crate::net_core::{
    all_off, is_bipolar_pattern, matrix_view, pattern_view, NetCore, NetError, NetView,
};
use vstd::prelude::*;

verus! {

/// A network that learns by Storkey's rule, whose local-field corrections
/// suppress crosstalk between stored patterns.
///
/// The weights keep their diagonal, which the rule needs from one pattern to
/// the next; recall leaves the diagonal out, so a node's own value never
/// feeds its update. Weights are fixed point, scaled by `STORKEY_SCALE`.
pub struct StorkeyLearningNetwork {
    core: NetCore,
}

/// `v * x` for a bipolar `v`.
fn signed(v: i8, x: i64) -> (r: i64)
    requires
        is_bipolar(v),
        x > i64::MIN,
    ensures
        r == v * x,
        r == x * v,
        r == x || r == -x,
{
    if v == ON {
        x
    } else {
        -x
    }
}

/// `sum_k w[i][k] * p[k]` over the whole row.
fn row_total(core: &NetCore, p: &[i8], i: usize) -> (r: i64)
    requires
        core@.wf(),
        p@.len() == core@.size(),
        is_bipolar_seq(p@),
        i < core@.size(),
    ensures
        r == masked_sum(core@.weights[i as int], p@, -1, -1, p@.len() as int),
        -(MAX_NODES * WEIGHT_LIMIT) <= r <= MAX_NODES * WEIGHT_LIMIT,
{
    let n = core.size();
    let ghost row = core@.weights[i as int];
    proof {
        assert forall|k: int| 0 <= k < row.len() implies weight_fits(#[trigger] row[k] as int) by {
            assert(weight_fits(core@.weights[i as int][k] as int));
        }
    }
    let mut acc: i64 = 0;
    let mut k: usize = 0;
    while k < n
        invariant
            n == core@.size(),
            core@.wf(),
            i < n,
            p@.len() == n,
            is_bipolar_seq(p@),
            row == core@.weights[i as int],
            forall|m: int| 0 <= m < row.len() ==> weight_fits(#[trigger] row[m] as int),
            k <= n,
            acc == masked_sum(row, p@, -1, -1, k as int),
        decreases n - k,
    {
        proof {
            lemma_masked_sum_bounded(row, p@, -1, -1, k as int);
            assert(k * WEIGHT_LIMIT <= MAX_NODES * WEIGHT_LIMIT) by (nonlinear_arith)
                requires
                    k <= MAX_NODES,
            ;
            assert(is_bipolar(p@[k as int]));
            assert(weight_fits(row[k as int] as int));
        }
        let t = signed(p[k], core.weight(i, k));
        acc = acc + t;
        k = k + 1;
    }
    proof {
        lemma_masked_sum_bounded(row, p@, -1, -1, n as int);
        assert(n * WEIGHT_LIMIT <= MAX_NODES * WEIGHT_LIMIT) by (nonlinear_arith)
            requires
                n <= MAX_NODES,
        ;
    }
    acc
}

/// Storkey's `h(i, j)` from the row total of `i`.
fn crosstalk_of(core: &NetCore, p: &[i8], total: i64, i: usize, j: usize) -> (r: i64)
    requires
        core@.wf(),
        p@.len() == core@.size(),
        is_bipolar_seq(p@),
        i < core@.size(),
        j < core@.size(),
        total == masked_sum(core@.weights[i as int], p@, -1, -1, p@.len() as int),
        -(MAX_NODES * WEIGHT_LIMIT) <= total <= MAX_NODES * WEIGHT_LIMIT,
    ensures
        r == crosstalk(core@.weights, p@, i as int, j as int),
        -(MAX_NODES * WEIGHT_LIMIT + 2 * WEIGHT_LIMIT) <= r <= MAX_NODES * WEIGHT_LIMIT + 2
            * WEIGHT_LIMIT,
{
    proof {
        lemma_masked_sum_split(core@.weights[i as int], p@, i as int, j as int, p@.len() as int);
        assert(weight_fits(core@.weights[i as int][i as int] as int));
        assert(weight_fits(core@.weights[i as int][j as int] as int));
        assert(is_bipolar(p@[i as int]));
        assert(is_bipolar(p@[j as int]));
    }
    let own = signed(p[i], core.weight(i, i));
    let other = if j != i {
        signed(p[j], core.weight(i, j))
    } else {
        0
    };
    total - own - other
}

/// `trunc_div(a, n)` for a positive `n`.
fn div_toward_zero(a: i64, n: usize) -> (r: i64)
    requires
        a > i64::MIN,
        0 < n,
    ensures
        r == trunc_div(a as int, n as int),
        -(if a >= 0 { a as int } else { -a }) <= r <= (if a >= 0 { a as int } else { -a }),
{
    if a >= 0 {
        let q = (a as u64) / (n as u64);
        proof {
            assert(q <= a) by (nonlinear_arith)
                requires
                    q == (a as u64) / (n as u64),
                    n > 0,
                    a >= 0,
            ;
        }
        q as i64
    } else {
        let m = (-a) as u64;
        let q = m / (n as u64);
        proof {
            assert(q <= m) by (nonlinear_arith)
                requires
                    q == m / (n as u64),
                    n > 0,
            ;
        }
        -(q as i64)
    }
}

impl StorkeyLearningNetwork {
    /// A network of `size` nodes with zero weights, starting from
    /// `start_state` or, without one, from all nodes off.
    pub fn new(size: usize, start_state: Option<&[i8]>) -> (r: Result<
        StorkeyLearningNetwork,
        NetError,
    >)
        ensures
            match NetView::new_error(size as nat, pattern_view(start_state)) {
                Some(e) => r == Err::<StorkeyLearningNetwork, NetError>(e),
                None => r matches Ok(c) && c.inv() && c.net_view().is_fresh(size as nat)
                    && c.net_view().state == match start_state {
                    Some(s) => s@,
                    None => all_off(size as nat),
                },
            },
    {
        match NetCore::new(size, start_state) {
            Ok(core) => Ok(StorkeyLearningNetwork { core }),
            Err(e) => Err(e),
        }
    }

    /// The weight of `(i, j)` after learning `state`, in fixed point.
    fn learned_weight(&self, state: &[i8], totals: &Vec<i64>, i: usize, j: usize) -> (r: i64)
        requires
            self.inv(),
            state@.len() == self.core@.size(),
            is_bipolar_seq(state@),
            totals@.len() == self.core@.size(),
            forall|a: int|
                0 <= a < totals@.len() ==> #[trigger] totals@[a] == masked_sum(
                    self.core@.weights[a],
                    state@,
                    -1,
                    -1,
                    state@.len() as int,
                ),
            forall|a: int|
                0 <= a < totals@.len() ==> -(MAX_NODES * WEIGHT_LIMIT) <= #[trigger] totals@[a]
                    <= MAX_NODES * WEIGHT_LIMIT,
            i < self.core@.size(),
            j < self.core@.size(),
        ensures
            r == storkey_weight(self.core@.weights, state@, i as int, j as int),
    {
        let ghost w = self.core@.weights;
        let ghost p = state@;
        let n = self.core.size();
        let h_ij = crosstalk_of(&self.core, state, totals[i], i, j);
        let h_ji = crosstalk_of(&self.core, state, totals[j], j, i);
        proof {
            assert(is_bipolar(p[i as int]));
            assert(is_bipolar(p[j as int]));
            lemma_bipolar_product(p[i as int], p[j as int]);
            assert(weight_fits(w[i as int][j as int] as int));
            assert(STORKEY_SCALE * p[i as int] * p[j as int] == STORKEY_SCALE * (p[i as int]
                * p[j as int])) by (nonlinear_arith);
        }
        let base: i64 = if state[i] == state[j] {
            STORKEY_SCALE
        } else {
            -STORKEY_SCALE
        };
        let incr = base - signed(state[i], h_ji) - signed(state[j], h_ij);
        assert(incr == storkey_increment(w, p, i as int, j as int));
        let q = div_toward_zero(incr, n);
        self.core.weight(i, j) + q
    }
}

impl Net for StorkeyLearningNetwork {
    closed spec fn net_view(&self) -> NetView {
        self.core@
    }

    closed spec fn inv(&self) -> bool {
        self.core@.wf()
    }

    open spec fn network_type() -> NetworkType {
        NetworkType::StorkeySquareDiscrete
    }

    proof fn lemma_inv(&self) {
    }

    fn get_state(&self) -> (r: Vec<i8>) {
        self.core.get_state()
    }

    fn learn(&mut self, state: &[i8]) -> (r: Result<(), NetError>) {
        let n = self.core.size();
        if state.len() != n {
            return Err(NetError::WrongLength);
        }
        if !is_bipolar_pattern(state) {
            return Err(NetError::NotBipolar);
        }
        let ghost w = self.core@.weights;
        let ghost p = state@;
        let mut totals: Vec<i64> = Vec::new();
        let mut t: usize = 0;
        while t < n
            invariant
                self.inv(),
                n == self.core@.size(),
                p == state@,
                p.len() == n,
                is_bipolar_seq(p),
                t <= n,
                totals@.len() == t,
                forall|a: int|
                    0 <= a < t ==> #[trigger] totals@[a] == masked_sum(
                        self.core@.weights[a],
                        p,
                        -1,
                        -1,
                        n as int,
                    ),
                forall|a: int|
                    0 <= a < t ==> -(MAX_NODES * WEIGHT_LIMIT) <= #[trigger] totals@[a]
                        <= MAX_NODES * WEIGHT_LIMIT,
            decreases n - t,
        {
            let total = row_total(&self.core, state, t);
            totals.push(total);
            t = t + 1;
        }
        let mut next: Vec<Vec<i64>> = Vec::new();
        let mut i: usize = 0;
        while i < n
            invariant
                self.inv(),
                self.core@.weights == w,
                n == self.core@.size(),
                p == state@,
                p.len() == n,
                is_bipolar_seq(p),
                totals@.len() == n,
                forall|a: int|
                    0 <= a < n ==> #[trigger] totals@[a] == masked_sum(w[a], p, -1, -1, n as int),
                forall|a: int|
                    0 <= a < n ==> -(MAX_NODES * WEIGHT_LIMIT) <= #[trigger] totals@[a]
                        <= MAX_NODES * WEIGHT_LIMIT,
                i <= n,
                next@.len() == i,
                forall|a: int| 0 <= a < i ==> (#[trigger] next@[a])@.len() == n,
                forall|a: int, b: int|
                    0 <= a < i && 0 <= b < n ==> next@[a]@[b] == storkey_weight(w, p, a, b),
                forall|a: int, b: int|
                    0 <= a < i && 0 <= b < n ==> weight_fits(#[trigger] next@[a]@[b] as int),
            decreases n - i,
        {
            let mut row: Vec<i64> = Vec::new();
            let mut j: usize = 0;
            while j < n
                invariant
                    self.inv(),
                    self.core@.weights == w,
                    n == self.core@.size(),
                    p == state@,
                    p.len() == n,
                    is_bipolar_seq(p),
                    totals@.len() == n,
                    forall|a: int|
                        0 <= a < n ==> #[trigger] totals@[a] == masked_sum(
                            w[a],
                            p,
                            -1,
                            -1,
                            n as int,
                        ),
                    forall|a: int|
                        0 <= a < n ==> -(MAX_NODES * WEIGHT_LIMIT) <= #[trigger] totals@[a]
                            <= MAX_NODES * WEIGHT_LIMIT,
                    i < n,
                    j <= n,
                    row@.len() == j,
                    forall|b: int| 0 <= b < j ==> row@[b] == storkey_weight(w, p, i as int, b),
                    forall|b: int| 0 <= b < j ==> weight_fits(#[trigger] row@[b] as int),
                decreases n - j,
            {
                let x = self.learned_weight(state, &totals, i, j);
                if x > WEIGHT_LIMIT || x < -WEIGHT_LIMIT {
                    assert(!weight_fits(rule_of(Self::network_type(), w, p, i as int, j as int)));
                    return Err(NetError::WeightLimit);
                }
                row.push(x);
                j = j + 1;
            }
            next.push(row);
            i = i + 1;
        }
        proof {
            assert(is_square(matrix_view(next@), n as int));
            assert forall|a: int, b: int|
                0 <= a < n && 0 <= b < n implies weight_fits(
                #[trigger] matrix_view(next@)[a][b] as int,
            ) by {
                assert(matrix_view(next@)[a] == next@[a]@);
            }
            assert(weights_bounded(matrix_view(next@)));
            assert forall|a: int, b: int| 0 <= a < n && 0 <= b < n implies weight_fits(
                #[trigger] storkey_weight(w, p, a, b),
            ) by {
                assert(next@[a]@[b] == storkey_weight(w, p, a, b));
            }
            assert(rule_fits(Self::network_type(), w, p));
        }
        self.core.store_learned(next);
        Ok(())
    }

    fn step(&mut self) -> (r: (bool, Vec<i8>)) {
        self.core.step()
    }

    fn get_steps(&self) -> (r: usize) {
        self.core.get_steps()
    }

    fn set_state(&mut self, state: &[i8]) -> (r: Result<(), NetError>) {
        self.core.set_state(state)
    }

    fn reset_weights(&mut self) {
        self.core.reset_weights();
    }

    fn get_weights(&self) -> (r: Vec<Vec<i64>>) {
        self.core.get_weights()
    }
}

} // verus!
