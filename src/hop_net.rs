//! The network capability set and the messages that cross between a
//! foreground and the worker that owns a network.
use crate::model::{
    ON, hebbian_weight, is_bipolar_seq, is_square, storkey_weight, weight_fits, zero_matrix,
};
use crate::net_core::{NetError, NetView};
use crate::thread_utils::CommandError;
use vstd::prelude::*;
use vstd::string::StringExecFns;

verus! {

/// The learning rule of a network.
#[derive(Debug, Clone, Copy, PartialEq, Eq, Structural)]
pub enum NetworkType {
    StorkeySquareDiscrete,
    SquareDiscrete,
}

impl NetworkType {
    /// The name under which the type is shown.
    pub open spec fn name(self) -> Seq<char> {
        match self {
            NetworkType::StorkeySquareDiscrete => "StorkeySquareDiscrete"@,
            NetworkType::SquareDiscrete => "HebbianSquareDiscrete"@,
        }
    }

    pub fn to_string(&self) -> (r: String)
        ensures
            r@ == self.name(),
    {
        match self {
            NetworkType::StorkeySquareDiscrete => String::from_str("StorkeySquareDiscrete"),
            NetworkType::SquareDiscrete => String::from_str("HebbianSquareDiscrete"),
        }
    }
}

/// A command from the foreground to the worker.
#[derive(Debug, Clone, PartialEq, Eq)]
pub enum NetworkCommand {
    /// Nothing arrived.
    Empty,
    /// Fold a pattern into the weights.
    Learn(Vec<i8>),
    /// Begin stepping.
    Go,
    /// Stop stepping.
    Stop,
    /// Replace the state.
    SetState(Vec<i8>),
    /// Step at this many updates per second.
    SetSpeed(u64),
    /// Clear the weights.
    ResetWeights,
    /// Rebuild the network with another learning rule, at the same size.
    ChangeNetType(NetworkType),
}

/// A response from the worker to the foreground.
#[derive(Debug, Clone, PartialEq, Eq)]
pub enum NetworkResponse {
    /// The state after a node flipped.
    NewState(Vec<i8>),
    /// Stepping stopped at an equilibrium.
    Stopped,
    /// A heartbeat: a step that changed nothing.
    Heartbeat,
    /// A command was refused; the worker is unchanged.
    Rejected(CommandError),
}

impl NetworkResponse {
    pub fn is_some(&self) -> (r: bool)
        ensures
            r == !(self is Heartbeat),
    {
        !matches!(self, NetworkResponse::Heartbeat)
    }

    pub fn is_none(&self) -> (r: bool)
        ensures
            r == (self is Heartbeat),
    {
        matches!(self, NetworkResponse::Heartbeat)
    }

    /// The state that a `NewState` carries.
    pub fn unwrap(self) -> (r: Vec<i8>)
        requires
            self is NewState,
        ensures
            self == NetworkResponse::NewState(r),
    {
        match self {
            NetworkResponse::NewState(state) => state,
            _ => {
                assert(false);
                Vec::new()
            },
        }
    }
}

/// How one node is drawn: a filled square when on, a hollow one otherwise.
pub open spec fn glyph(v: i8) -> Seq<char> {
    if v == ON {
        "\u{25FC}"@
    } else {
        "\u{25FB}"@
    }
}

/// The nodes drawn one after the other.
pub open spec fn render_line(s: Seq<i8>) -> Seq<char>
    decreases s.len(),
{
    if s.len() == 0 {
        Seq::empty()
    } else {
        render_line(s.drop_last()) + glyph(s.last())
    }
}

/// The first `rows` rows of a grid `side` nodes wide, each ending in a
/// newline.
pub open spec fn render_rows(s: Seq<i8>, side: nat, rows: nat) -> Seq<char>
    decreases rows,
{
    if rows == 0 {
        Seq::empty()
    } else {
        render_rows(s, side, (rows - 1) as nat) + render_line(
            s.subrange((rows - 1) * side, (rows * side) as int),
        ) + "\n"@
    }
}

/// `k` is the side of a square of area `n`.
pub open spec fn is_side_of(k: nat, n: nat) -> bool {
    k * k == n
}

/// A state of square length drawn as a square grid, any other on one line.
pub open spec fn render_state(s: Seq<i8>) -> Seq<char> {
    if exists|k: nat| is_side_of(k, s.len()) {
        let k = choose|k: nat| is_side_of(k, s.len());
        render_rows(s, k, k)
    } else {
        render_line(s)
    }
}

/// The side of the square whose area is `n`, if there is one.
fn square_side(n: usize) -> (r: Option<usize>)
    ensures
        match r {
            Some(k) => k * k == n,
            None => !exists|k: nat| is_side_of(k, n as nat),
        },
{
    let mut k: usize = 0;
    let mut sq: u128 = 0;
    while sq < (n as u128)
        invariant
            k <= n,
            sq == k * k,
            forall|j: nat| j < k ==> (#[trigger] (j * j)) < n,
        decreases n - k,
    {
        proof {
            assert(k < n) by (nonlinear_arith)
                requires
                    k * k < n,
                    k <= n,
            ;
            assert forall|j: nat| j < k + 1 implies (#[trigger] (j * j)) < n by {
                if j < k {
                } else {
                    assert(j == k);
                }
            }
            assert((k + 1) * (k + 1) == k * k + 2 * k + 1) by (nonlinear_arith);
        }
        sq = sq + 2 * (k as u128) + 1;
        k = k + 1;
    }
    if sq == (n as u128) {
        Some(k)
    } else {
        proof {
            assert forall|j: nat| !is_side_of(j, n as nat) by {
                if j < k {
                } else {
                    assert(j * j >= k * k) by (nonlinear_arith)
                        requires
                            j >= k,
                    ;
                }
            }
        }
        None
    }
}

proof fn lemma_render_line_push(s: Seq<i8>, a: int, b: int)
    requires
        0 <= a <= b < s.len(),
    ensures
        render_line(s.subrange(a, b + 1)) == render_line(s.subrange(a, b)) + glyph(s[b]),
{
    assert(s.subrange(a, b + 1).drop_last() =~= s.subrange(a, b));
}

/// Draws a state for a terminal: as a grid when its length is a square
/// number, else on one line.
pub fn state_vec_to_string(state: &[i8]) -> (r: String)
    ensures
        r@ == render_state(state@),
{
    let n = state.len();
    let mut out = String::new();
    match square_side(n) {
        Some(side) => {
            assert(is_side_of(side as nat, n as nat));
            let ghost chosen = choose|k: nat| is_side_of(k, state@.len());
            assert(chosen == side) by {
                assert(side * side == state@.len());
                if chosen < side {
                    assert(chosen * chosen < side * side) by (nonlinear_arith)
                        requires
                            chosen < side,
                    ;
                } else if chosen > side {
                    assert(chosen * chosen > side * side) by (nonlinear_arith)
                        requires
                            chosen > side,
                    ;
                }
            }
            let mut row: usize = 0;
            while row < side
                invariant
                    side * side == n,
                    n == state@.len(),
                    row <= side,
                    out@ == render_rows(state@, side as nat, row as nat),
                decreases side - row,
            {
                proof {
                    assert((row + 1) * side <= side * side) by (nonlinear_arith)
                        requires
                            row < side,
                    ;
                    assert((row + 1) * side == row * side + side) by (nonlinear_arith);
                }
                let start = row * side;
                let mut col: usize = 0;
                while col < side
                    invariant
                        side * side == n,
                        n == state@.len(),
                        row < side,
                        start == row * side,
                        start + side <= n,
                        col <= side,
                        out@ == render_rows(state@, side as nat, row as nat) + render_line(
                            state@.subrange(start as int, start + col),
                        ),
                    decreases side - col,
                {
                    proof {
                        lemma_render_line_push(state@, start as int, start + col);
                    }
                    if state[start + col] == ON {
                        out.append("\u{25FC}");
                    } else {
                        out.append("\u{25FB}");
                    }
                    col = col + 1;
                }
                out.append("\n");
                row = row + 1;
                proof {
                    assert(row * side == start + side) by (nonlinear_arith)
                        requires
                            row == (row - 1) + 1,
                            start == (row - 1) * side,
                    ;
                }
            }
        },
        None => {
            let mut k: usize = 0;
            while k < n
                invariant
                    n == state@.len(),
                    k <= n,
                    out@ == render_line(state@.subrange(0, k as int)),
                decreases n - k,
            {
                proof {
                    lemma_render_line_push(state@, 0, k as int);
                }
                if state[k] == ON {
                    out.append("\u{25FC}");
                } else {
                    out.append("\u{25FB}");
                }
                k = k + 1;
            }
            assert(state@.subrange(0, n as int) =~= state@);
        },
    }
    out
}

/// The weight at `(i, j)` after a network of type `kind` with weights `w`
/// learns `p`.
pub open spec fn rule_of(kind: NetworkType, w: Seq<Seq<i64>>, p: Seq<i8>, i: int, j: int) -> int {
    match kind {
        NetworkType::StorkeySquareDiscrete => storkey_weight(w, p, i, j),
        NetworkType::SquareDiscrete => hebbian_weight(w, p, i, j),
    }
}

/// Every weight that the rule of `kind` gives is within the limit.
pub open spec fn rule_fits(kind: NetworkType, w: Seq<Seq<i64>>, p: Seq<i8>) -> bool {
    forall|i: int, j: int|
        0 <= i < p.len() && 0 <= j < p.len() ==> weight_fits(#[trigger] rule_of(kind, w, p, i, j))
}

/// `next` is `prev` with the weights that the rule of `kind` gives for `p`,
/// and one more learned pattern.
pub open spec fn learned_by(prev: NetView, next: NetView, kind: NetworkType, p: Seq<i8>) -> bool {
    &&& is_square(next.weights, prev.size() as int)
    &&& forall|i: int, j: int|
        0 <= i < prev.size() && 0 <= j < prev.size() ==> next.weights[i][j] == #[trigger] rule_of(
            kind,
            prev.weights,
            p,
            i,
            j,
        )
    &&& next.state == prev.state
    &&& next.queue == prev.queue
    &&& next.steps == prev.steps
    &&& next.learned == crate::model::saturating_inc(prev.learned, u64::MAX as nat)
}

/// What `learn(p)` does: a pattern of the wrong length or with a value that
/// is not bipolar is refused, as is one whose weights would pass the limit;
/// otherwise the rule of `kind` gives the new weights.
pub open spec fn learn_outcome(
    prev: NetView,
    next: NetView,
    p: Seq<i8>,
    kind: NetworkType,
    r: Result<(), NetError>,
) -> bool {
    if p.len() != prev.size() {
        r == Err::<(), NetError>(NetError::WrongLength) && next == prev
    } else if !is_bipolar_seq(p) {
        r == Err::<(), NetError>(NetError::NotBipolar) && next == prev
    } else if !rule_fits(kind, prev.weights, p) {
        r == Err::<(), NetError>(NetError::WeightLimit) && next == prev
    } else {
        r == Ok::<(), NetError>(()) && learned_by(prev, next, kind, p)
    }
}

/// What `set_state(p)` does.
pub open spec fn set_state_outcome(
    prev: NetView,
    next: NetView,
    p: Seq<i8>,
    r: Result<(), NetError>,
) -> bool {
    match NetView::set_state_error(p) {
        Some(e) => r == Err::<(), NetError>(e) && next == prev,
        None => r == Ok::<(), NetError>(()) && prev.state_set_to(next, p),
    }
}

/// An associative memory: a bipolar state, a weight matrix, and the sweep
/// that orders node updates.
pub trait Net: Sized {
    spec fn net_view(&self) -> NetView;

    /// The variant's invariant.
    spec fn inv(&self) -> bool;

    /// The variant, which fixes the learning rule.
    spec fn network_type() -> NetworkType;

    proof fn lemma_inv(&self)
        requires
            self.inv(),
        ensures
            self.net_view().wf(),
    ;

    fn get_state(&self) -> (r: Vec<i8>)
        requires
            self.inv(),
        ensures
            r@ == self.net_view().state,
    ;

    /// Folds `state` into the weights by the variant's rule.
    fn learn(&mut self, state: &[i8]) -> (r: Result<(), NetError>)
        requires
            old(self).inv(),
        ensures
            final(self).inv(),
            learn_outcome(
                old(self).net_view(),
                final(self).net_view(),
                state@,
                Self::network_type(),
                r,
            ),
    ;

    /// Updates the next node of the sweep; returns whether it flipped and
    /// the state afterwards.
    fn step(&mut self) -> (r: (bool, Vec<i8>))
        requires
            old(self).inv(),
        ensures
            final(self).inv(),
            old(self).net_view().step_to(final(self).net_view(), r.0),
            r.1@ == final(self).net_view().state,
    ;

    fn get_steps(&self) -> (r: usize)
        requires
            self.inv(),
        ensures
            r == self.net_view().steps,
    ;

    /// Replaces the state, resizing the network when the length differs.
    fn set_state(&mut self, state: &[i8]) -> (r: Result<(), NetError>)
        requires
            old(self).inv(),
        ensures
            final(self).inv(),
            set_state_outcome(old(self).net_view(), final(self).net_view(), state@, r),
    ;

    /// Clears the weights and the count of learned patterns.
    fn reset_weights(&mut self)
        requires
            old(self).inv(),
        ensures
            final(self).inv(),
            final(self).net_view() == (NetView {
                weights: zero_matrix(old(self).net_view().size()),
                learned: 0,
                ..old(self).net_view()
            }),
    ;

    fn get_weights(&self) -> (r: Vec<Vec<i64>>)
        requires
            self.inv(),
        ensures
            crate::net_core::matrix_view(r@) == self.net_view().weights,
    ;
}

} // verus!
