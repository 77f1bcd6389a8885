//! Hopfield network with the classic Hebbian rule.
use crate::hop_net::{
    render_state, rule_fits, rule_of, state_vec_to_string, Net, NetworkType,
};
use crate::model::{
    has_zero_diagonal, hebbian_weight, is_bipolar, is_bipolar_seq, is_square, is_symmetric,
    lemma_bipolar_product, weight_fits, weights_bounded, zero_matrix, WEIGHT_LIMIT,
};
use crate::net_core::{
    all_off, is_bipolar_pattern, matrix_view, pattern_view, NetCore, NetError, NetView,
};
use vstd::prelude::*;
use vstd::string::StringExecFns;

verus! {

/// A network that learns by adding each pattern's outer product to its
/// weights, off the diagonal.
pub struct ClassicNetworkDiscrete {
    core: NetCore,
}

impl ClassicNetworkDiscrete {
    /// A network of `size` nodes with zero weights, starting from
    /// `start_state` or, without one, from all nodes off.
    pub fn new(size: usize, start_state: Option<&[i8]>) -> (r: Result<
        ClassicNetworkDiscrete,
        NetError,
    >)
        ensures
            match NetView::new_error(size as nat, pattern_view(start_state)) {
                Some(e) => r == Err::<ClassicNetworkDiscrete, NetError>(e),
                None => r matches Ok(c) && c.inv() && c.net_view().is_fresh(size as nat)
                    && c.net_view().state == match start_state {
                    Some(s) => s@,
                    None => all_off(size as nat),
                },
            },
    {
        match NetCore::new(size, start_state) {
            Ok(core) => Ok(ClassicNetworkDiscrete { core }),
            Err(e) => Err(e),
        }
    }

    /// Sets the state to `state` or, without one, to random activations,
    /// and restarts the step count.
    pub fn init(&mut self, state: Option<&[i8]>) -> (r: Result<(), NetError>)
        requires
            old(self).inv(),
        ensures
            final(self).inv(),
            match state {
                Some(s) => if s@.len() != old(self).net_view().size() {
                    r == Err::<(), NetError>(NetError::WrongLength) && final(self).net_view()
                        == old(self).net_view()
                } else if !is_bipolar_seq(s@) {
                    r == Err::<(), NetError>(NetError::NotBipolar) && final(self).net_view()
                        == old(self).net_view()
                } else {
                    r is Ok && final(self).net_view() == (NetView {
                        state: s@,
                        steps: 0,
                        ..old(self).net_view()
                    })
                },
                None => r is Ok && final(self).net_view() == (NetView {
                    state: final(self).net_view().state,
                    steps: 0,
                    ..old(self).net_view()
                }) && final(self).net_view().size() == old(self).net_view().size(),
            },
    {
        self.core.init(state)
    }

    /// The state drawn under a `state:` heading.
    pub fn to_string(&self) -> (r: String)
        requires
            self.inv(),
        ensures
            r@ == "state:\n"@ + render_state(self.net_view().state),
    {
        let mut out = String::from_str("state:\n");
        let state = self.core.get_state();
        let body = state_vec_to_string(state.as_slice());
        out.append(body.as_str());
        out
    }

    /// The weights stay symmetric with a zero diagonal.
    pub proof fn lemma_symmetric(&self)
        requires
            self.inv(),
        ensures
            is_symmetric(self.net_view().weights),
            has_zero_diagonal(self.net_view().weights),
    {
    }
}

impl Net for ClassicNetworkDiscrete {
    closed spec fn net_view(&self) -> NetView {
        self.core@
    }

    closed spec fn inv(&self) -> bool {
        &&& self.core@.wf()
        &&& is_symmetric(self.core@.weights)
        &&& has_zero_diagonal(self.core@.weights)
    }

    open spec fn network_type() -> NetworkType {
        NetworkType::SquareDiscrete
    }

    proof fn lemma_inv(&self) {
    }

    fn get_state(&self) -> (r: Vec<i8>) {
        self.core.get_state()
    }

    fn learn(&mut self, state: &[i8]) -> (r: Result<(), NetError>) {
        let n = self.core.size();
        if state.len() != n {
            return Err(NetError::WrongLength);
        }
        if !is_bipolar_pattern(state) {
            return Err(NetError::NotBipolar);
        }
        let ghost w = self.core@.weights;
        let ghost p = state@;
        let mut next: Vec<Vec<i64>> = Vec::new();
        let mut i: usize = 0;
        while i < n
            invariant
                self.inv(),
                self.core@.weights == w,
                n == self.core@.size(),
                p == state@,
                p.len() == n,
                is_bipolar_seq(p),
                i <= n,
                next@.len() == i,
                forall|a: int| 0 <= a < i ==> (#[trigger] next@[a])@.len() == n,
                forall|a: int, b: int|
                    0 <= a < i && 0 <= b < n ==> next@[a]@[b] == hebbian_weight(w, p, a, b),
                forall|a: int, b: int|
                    0 <= a < i && 0 <= b < n ==> weight_fits(#[trigger] next@[a]@[b] as int),
            decreases n - i,
        {
            let mut row: Vec<i64> = Vec::new();
            let mut j: usize = 0;
            while j < n
                invariant
                    self.inv(),
                    self.core@.weights == w,
                    n == self.core@.size(),
                    p == state@,
                    p.len() == n,
                    is_bipolar_seq(p),
                    i < n,
                    j <= n,
                    row@.len() == j,
                    forall|b: int| 0 <= b < j ==> row@[b] == hebbian_weight(w, p, i as int, b),
                    forall|b: int| 0 <= b < j ==> weight_fits(#[trigger] row@[b] as int),
                decreases n - j,
            {
                let x: i64 = if i == j {
                    0
                } else {
                    let old_w = self.core.weight(i, j);
                    assert(weight_fits(w[i as int][j as int] as int));
                    assert(is_bipolar(p[i as int]) && is_bipolar(p[j as int]));
                    proof {
                        lemma_bipolar_product(p[i as int], p[j as int]);
                    }
                    let same = state[i] == state[j];
                    if same {
                        old_w + 1
                    } else {
                        old_w - 1
                    }
                };
                assert(x == hebbian_weight(w, p, i as int, j as int));
                if x > WEIGHT_LIMIT || x < -WEIGHT_LIMIT {
                    assert(!weight_fits(rule_of(Self::network_type(), w, p, i as int, j as int)));
                    return Err(NetError::WeightLimit);
                }
                row.push(x);
                j = j + 1;
            }
            next.push(row);
            i = i + 1;
        }
        proof {
            assert(is_square(matrix_view(next@), n as int));
            assert forall|a: int, b: int|
                0 <= a < n && 0 <= b < n implies weight_fits(
                #[trigger] matrix_view(next@)[a][b] as int,
            ) by {
                assert(matrix_view(next@)[a] == next@[a]@);
            }
            assert(weights_bounded(matrix_view(next@)));
            assert forall|a: int, b: int| 0 <= a < n && 0 <= b < n implies weight_fits(
                #[trigger] hebbian_weight(w, p, a, b),
            ) by {
                assert(next@[a]@[b] == hebbian_weight(w, p, a, b));
            }
            assert(rule_fits(Self::network_type(), w, p));
        }
        let ghost rows = next@;
        self.core.store_learned(next);
        proof {
            assert forall|a: int, b: int|
                0 <= a < n && 0 <= b < n implies #[trigger] self.core@.weights[a][b]
                == self.core@.weights[b][a] by {
                assert(self.core@.weights[a] == rows[a]@);
                assert(self.core@.weights[b] == rows[b]@);
                assert(rows[a]@[b] == hebbian_weight(w, p, a, b));
                assert(rows[b]@[a] == hebbian_weight(w, p, b, a));
                assert(w[a][b] == w[b][a]);
                lemma_bipolar_product(p[a], p[b]);
            }
            assert forall|a: int| 0 <= a < n implies #[trigger] self.core@.weights[a][a] == 0 by {
                assert(self.core@.weights[a] == rows[a]@);
                assert(rows[a]@[a] == hebbian_weight(w, p, a, a));
            }
        }
        Ok(())
    }

    fn step(&mut self) -> (r: (bool, Vec<i8>)) {
        self.core.step()
    }

    fn get_steps(&self) -> (r: usize) {
        self.core.get_steps()
    }

    fn set_state(&mut self, state: &[i8]) -> (r: Result<(), NetError>) {
        let r = self.core.set_state(state);
        proof {
            let n = state@.len();
            if r is Ok && n != old(self).core@.size() {
                assert(self.core@.weights == zero_matrix(n));
            }
        }
        r
    }

    fn reset_weights(&mut self) {
        self.core.reset_weights();
    }

    fn get_weights(&self) -> (r: Vec<Vec<i64>>) {
        self.core.get_weights()
    }
}

} // verus!
