//! State, weights and sweep bookkeeping shared by both network variants.
use crate::model::{
    full_sweep, is_bipolar, is_bipolar_seq, is_square, lemma_identity_sweep,
    lemma_masked_sum_bounded, lemma_reordered_sweep, local_field, masked_sum, queue_ok,
    relax_node, saturating_inc, valid_size, weight_fits, weights_bounded, zero_matrix, MAX_NODES,
    MIN_NODES, OFF, ON, WEIGHT_LIMIT,
};
use rand::seq::SliceRandom;
use rand::Rng;
use vstd::prelude::*;

verus! {

/// Why the engine refused an operation. The engine is left unchanged.
#[derive(Debug, Clone, Copy, PartialEq, Eq, Structural)]
pub enum NetError {
    /// The pattern's length differs from the network size.
    WrongLength,
    /// The network would have fewer than `MIN_NODES` nodes.
    TooShort,
    /// The network would have more than `MAX_NODES` nodes.
    TooLong,
    /// A value of the pattern is neither `+1` nor `-1`.
    NotBipolar,
    /// Learning the pattern would push a weight past `WEIGHT_LIMIT`.
    WeightLimit,
}

/// What a network is, mathematically.
pub struct NetView {
    pub state: Seq<i8>,
    pub weights: Seq<Seq<i64>>,
    /// Indices not yet visited in the current sweep; the next one is the last.
    pub queue: Seq<usize>,
    /// Node updates since the state was last set.
    pub steps: nat,
    /// Patterns folded into the weights since they were last cleared.
    pub learned: nat,
}

impl NetView {
    pub open spec fn size(self) -> nat {
        self.state.len()
    }

    pub open spec fn wf(self) -> bool {
        &&& valid_size(self.size() as int)
        &&& is_bipolar_seq(self.state)
        &&& is_square(self.weights, self.size() as int)
        &&& weights_bounded(self.weights)
        &&& queue_ok(self.queue, self.size())
        &&& self.steps <= usize::MAX
        &&& self.learned <= u64::MAX
    }

    /// `self` after one update of node `i`, which `changed` reports.
    pub open spec fn stepped_at(self, next: NetView, i: int, changed: bool) -> bool {
        &&& 0 <= i < self.size()
        &&& next.state == relax_node(self.weights, self.state, i)
        &&& changed == (next.state[i] != self.state[i])
        &&& next.weights == self.weights
        &&& next.learned == self.learned
        &&& next.steps == saturating_inc(self.steps, usize::MAX as nat)
    }

    /// One step: the last queued index is updated; an empty queue is first
    /// refilled with a fresh sweep in some order.
    pub open spec fn step_to(self, next: NetView, changed: bool) -> bool {
        if self.queue.len() > 0 {
            &&& next.queue == self.queue.drop_last()
            &&& self.stepped_at(next, self.queue.last() as int, changed)
        } else {
            exists|i: usize|
                full_sweep(#[trigger] next.queue.push(i), self.size()) && self.stepped_at(
                    next,
                    i as int,
                    changed,
                )
        }
    }

    /// What a successful `set_state(p)` leaves.
    pub open spec fn state_set_to(self, next: NetView, p: Seq<i8>) -> bool {
        &&& next.state == p
        &&& next.steps == 0
        &&& full_sweep(next.queue, p.len())
        &&& if p.len() == self.size() {
            next.weights == self.weights && next.learned == self.learned
        } else {
            next.weights == zero_matrix(p.len()) && next.learned == 0
        }
    }

    /// Why `set_state(p)` refuses `p`, if it does.
    pub open spec fn set_state_error(p: Seq<i8>) -> Option<NetError> {
        if p.len() < MIN_NODES {
            Some(NetError::TooShort)
        } else if p.len() > MAX_NODES {
            Some(NetError::TooLong)
        } else if !is_bipolar_seq(p) {
            Some(NetError::NotBipolar)
        } else {
            None
        }
    }

    /// A fresh network of `size` nodes.
    pub open spec fn is_fresh(self, size: nat) -> bool {
        &&& self.size() == size
        &&& self.weights == zero_matrix(size)
        &&& full_sweep(self.queue, size)
        &&& self.steps == 0
        &&& self.learned == 0
    }

    /// Why a network of `size` nodes starting from `start` cannot be built.
    pub open spec fn new_error(size: nat, start: Option<Seq<i8>>) -> Option<NetError> {
        if size < MIN_NODES {
            Some(NetError::TooShort)
        } else if size > MAX_NODES {
            Some(NetError::TooLong)
        } else {
            match start {
                Some(s) => if s.len() != size {
                    Some(NetError::WrongLength)
                } else if !is_bipolar_seq(s) {
                    Some(NetError::NotBipolar)
                } else {
                    None
                },
                None => None,
            }
        }
    }

    /// The weights after learning: `weights` replaced by `w`, one more pattern.
    pub open spec fn learned_into(self, next: NetView, w: Seq<Seq<i64>>) -> bool {
        &&& next.weights == w
        &&& next.learned == saturating_inc(self.learned, u64::MAX as nat)
        &&& next.state == self.state
        &&& next.queue == self.queue
        &&& next.steps == self.steps
    }
}

/// The all-off state of `n` nodes.
pub open spec fn all_off(n: nat) -> Seq<i8> {
    Seq::new(n, |k: int| OFF)
}

pub open spec fn pattern_view(p: Option<&[i8]>) -> Option<Seq<i8>> {
    match p {
        Some(s) => Some(s@),
        None => None,
    }
}

pub open spec fn matrix_view(m: Seq<Vec<i64>>) -> Seq<Seq<i64>> {
    m.map_values(|r: Vec<i64>| r@)
}

/// A network's state, weights and sweep bookkeeping.
pub struct NetCore {
    state: Vec<i8>,
    weights: Vec<Vec<i64>>,
    queue: Vec<usize>,
    steps: usize,
    learned: u64,
}

impl View for NetCore {
    type V = NetView;

    closed spec fn view(&self) -> NetView {
        NetView {
            state: self.state@,
            weights: matrix_view(self.weights@),
            queue: self.queue@,
            steps: self.steps as nat,
            learned: self.learned as nat,
        }
    }
}

/// Relies on rand's `SliceRandom::shuffle` with the thread-local generator:
/// it only swaps elements, so the values stay the same.
#[verifier::external_body]
fn shuffle(v: &mut Vec<usize>)
    ensures
        final(v)@.to_multiset() == old(v)@.to_multiset(),
{
    v.shuffle(&mut rand::thread_rng());
}

/// Relies on rand's `Rng::gen_range` with the thread-local generator: over
/// the inclusive range `0..=1` it returns 0 or 1.
#[verifier::external_body]
fn random_bit() -> (r: u8)
    ensures
        r <= 1,
{
    rand::thread_rng().gen_range(0..=1u8)
}

/// Empties `container` and refills it with every index below `length`, in
/// random order.
pub fn reset_nodes_to_update(container: &mut Vec<usize>, length: usize)
    ensures
        full_sweep(final(container)@, length as nat),
{
    container.clear();
    let mut i: usize = 0;
    while i < length
        invariant
            i <= length,
            container@ == Seq::new(i as nat, |k: int| k as usize),
        decreases length - i,
    {
        container.push(i);
        i = i + 1;
        assert(container@ =~= Seq::new(i as nat, |k: int| k as usize));
    }
    let ghost ordered = container@;
    proof {
        lemma_identity_sweep(length as nat);
    }
    shuffle(container);
    proof {
        lemma_reordered_sweep(ordered, container@, length as nat);
    }
}

/// Whether every value of `p` is `+1` or `-1`.
pub fn is_bipolar_pattern(p: &[i8]) -> (r: bool)
    ensures
        r == is_bipolar_seq(p@),
{
    let mut k: usize = 0;
    while k < p.len()
        invariant
            k <= p@.len(),
            forall|m: int| 0 <= m < k ==> is_bipolar(#[trigger] p@[m]),
        decreases p@.len() - k,
    {
        if p[k] != ON && p[k] != OFF {
            assert(!is_bipolar(p@[k as int]));
            return false;
        }
        k = k + 1;
    }
    true
}

fn copy_pattern(p: &[i8]) -> (r: Vec<i8>)
    ensures
        r@ == p@,
{
    let mut r: Vec<i8> = Vec::new();
    let mut k: usize = 0;
    while k < p.len()
        invariant
            k <= p@.len(),
            r@ == p@.subrange(0, k as int),
        decreases p@.len() - k,
    {
        r.push(p[k]);
        k = k + 1;
        assert(r@ =~= p@.subrange(0, k as int));
    }
    assert(r@ =~= p@);
    r
}

fn zero_weights(n: usize) -> (r: Vec<Vec<i64>>)
    ensures
        matrix_view(r@) == zero_matrix(n as nat),
{
    let mut r: Vec<Vec<i64>> = Vec::new();
    let mut i: usize = 0;
    while i < n
        invariant
            i <= n,
            r@.len() == i,
            forall|a: int| 0 <= a < i ==> (#[trigger] r@[a])@ == Seq::new(n as nat, |j: int| 0i64),
        decreases n - i,
    {
        let mut row: Vec<i64> = Vec::new();
        let mut j: usize = 0;
        while j < n
            invariant
                j <= n,
                row@ == Seq::new(j as nat, |b: int| 0i64),
            decreases n - j,
        {
            row.push(0);
            j = j + 1;
            assert(row@ =~= Seq::new(j as nat, |b: int| 0i64));
        }
        r.push(row);
        i = i + 1;
    }
    assert(matrix_view(r@) =~~= zero_matrix(n as nat));
    r
}

impl NetCore {
    /// A network of `size` nodes, starting from `start_state` or, without
    /// one, from all nodes off; its weights are zero.
    pub fn new(size: usize, start_state: Option<&[i8]>) -> (r: Result<NetCore, NetError>)
        ensures
            match NetView::new_error(size as nat, pattern_view(start_state)) {
                Some(e) => r == Err::<NetCore, NetError>(e),
                None => r matches Ok(c) && c@.wf() && c@.is_fresh(size as nat) && c@.state
                    == match start_state {
                    Some(s) => s@,
                    None => all_off(size as nat),
                },
            },
    {
        if size < MIN_NODES {
            return Err(NetError::TooShort);
        }
        if size > MAX_NODES {
            return Err(NetError::TooLong);
        }
        let state = match start_state {
            Some(s) => {
                if s.len() != size {
                    return Err(NetError::WrongLength);
                }
                if !is_bipolar_pattern(s) {
                    return Err(NetError::NotBipolar);
                }
                copy_pattern(s)
            },
            None => {
                let mut v: Vec<i8> = Vec::new();
                let mut k: usize = 0;
                while k < size
                    invariant
                        k <= size,
                        v@ == Seq::new(k as nat, |m: int| OFF),
                    decreases size - k,
                {
                    v.push(OFF);
                    k = k + 1;
                    assert(v@ =~= Seq::new(k as nat, |m: int| OFF));
                }
                v
            },
        };
        let mut queue: Vec<usize> = Vec::new();
        reset_nodes_to_update(&mut queue, size);
        let c = NetCore { state, weights: zero_weights(size), queue, steps: 0, learned: 0 };
        proof {
            assert(weights_bounded(c@.weights));
        }
        Ok(c)
    }

    pub fn size(&self) -> (r: usize)
        requires
            self@.wf(),
        ensures
            r == self@.size(),
    {
        self.state.len()
    }

    /// The weight from node `j` into node `i`.
    pub fn weight(&self, i: usize, j: usize) -> (r: i64)
        requires
            self@.wf(),
            i < self@.size(),
            j < self@.size(),
        ensures
            r == self@.weights[i as int][j as int],
    {
        assert(self.weights@[i as int]@ == self@.weights[i as int]);
        self.weights[i][j]
    }

    pub fn get_state(&self) -> (r: Vec<i8>)
        ensures
            r@ == self@.state,
    {
        copy_pattern(self.state.as_slice())
    }

    pub fn get_steps(&self) -> (r: usize)
        ensures
            r == self@.steps,
    {
        self.steps
    }

    pub fn learned_count(&self) -> (r: u64)
        ensures
            r == self@.learned,
    {
        self.learned
    }

    pub fn get_weights(&self) -> (r: Vec<Vec<i64>>)
        ensures
            matrix_view(r@) == self@.weights,
    {
        let mut r: Vec<Vec<i64>> = Vec::new();
        let mut i: usize = 0;
        while i < self.weights.len()
            invariant
                i <= self.weights@.len(),
                r@.len() == i,
                forall|a: int| 0 <= a < i ==> (#[trigger] r@[a])@ == self.weights@[a]@,
            decreases self.weights@.len() - i,
        {
            let row = &self.weights[i];
            let mut copy: Vec<i64> = Vec::new();
            let mut j: usize = 0;
            while j < row.len()
                invariant
                    j <= row@.len(),
                    copy@ == row@.subrange(0, j as int),
                decreases row@.len() - j,
            {
                copy.push(row[j]);
                j = j + 1;
                assert(copy@ =~= row@.subrange(0, j as int));
            }
            assert(copy@ =~= row@);
            r.push(copy);
            i = i + 1;
        }
        assert(matrix_view(r@) =~~= matrix_view(self.weights@));
        r
    }

    /// The local field of node `i`.
    pub fn field_of(&self, i: usize) -> (r: i64)
        requires
            self@.wf(),
            i < self@.size(),
        ensures
            r == local_field(self@.weights, self@.state, i as int),
    {
        let n = self.state.len();
        let row = &self.weights[i];
        assert(row@ == self@.weights[i as int]);
        let mut acc: i64 = 0;
        let mut j: usize = 0;
        while j < n
            invariant
                n == self@.size(),
                self@.wf(),
                i < n,
                row@ == self@.weights[i as int],
                j <= n,
                acc == masked_sum(row@, self@.state, i as int, i as int, j as int),
            decreases n - j,
        {
            proof {
                assert forall|k: int| 0 <= k < row@.len() implies weight_fits(
                    #[trigger] row@[k] as int,
                ) by {
                    assert(weight_fits(self@.weights[i as int][k] as int));
                }
                lemma_masked_sum_bounded(row@, self@.state, i as int, i as int, j as int);
                lemma_masked_sum_bounded(row@, self@.state, i as int, i as int, j + 1);
                assert(j * WEIGHT_LIMIT <= MAX_NODES * WEIGHT_LIMIT) by (nonlinear_arith)
                    requires
                        j <= MAX_NODES,
                ;
                assert((j + 1) * WEIGHT_LIMIT <= (MAX_NODES + 1) * WEIGHT_LIMIT)
                    by (nonlinear_arith)
                    requires
                        j <= MAX_NODES,
                ;
            }
            if j != i {
                acc = acc + row[j] * (self.state[j] as i64);
            }
            j = j + 1;
        }
        acc
    }

    /// Updates one node: the next index of the sweep (after refilling an
    /// empty queue) is recomputed from its local field. Returns whether that
    /// node flipped, and the whole state after the update.
    pub fn step(&mut self) -> (r: (bool, Vec<i8>))
        requires
            old(self)@.wf(),
        ensures
            final(self)@.wf(),
            old(self)@.step_to(final(self)@, r.0),
            r.1@ == final(self)@.state,
    {
        let n = self.state.len();
        if self.queue.len() == 0 {
            reset_nodes_to_update(&mut self.queue, n);
        }
        let ghost full = self.queue@;
        let i = self.queue[self.queue.len() - 1];
        self.queue.pop();
        assert(full.drop_last().push(i) =~= full);
        let field = self.field_of(i);
        let new_val = if field > 0 {
            ON
        } else {
            OFF
        };
        let changed = new_val != self.state[i];
        self.state.set(i, new_val);
        self.steps = self.steps.saturating_add(1);
        proof {
            assert(self@.state == relax_node(old(self)@.weights, old(self)@.state, i as int));
            assert(is_bipolar_seq(self@.state));
            if old(self)@.queue.len() == 0 {
                assert(full_sweep(self@.queue.push(i), n as nat));
                assert(old(self)@.stepped_at(self@, i as int, changed));
            }
            assert(self@.queue =~= full.drop_last());
            assert(full.no_duplicates());
        }
        (changed, copy_pattern(self.state.as_slice()))
    }

    /// Replaces the state; a pattern of another length resizes the network
    /// and clears its weights. The step count restarts and a fresh sweep
    /// begins.
    pub fn set_state(&mut self, state: &[i8]) -> (r: Result<(), NetError>)
        requires
            old(self)@.wf(),
        ensures
            final(self)@.wf(),
            match NetView::set_state_error(state@) {
                Some(e) => r == Err::<(), NetError>(e) && final(self)@ == old(self)@,
                None => r == Ok::<(), NetError>(()) && old(self)@.state_set_to(final(self)@, state@),
            },
    {
        if state.len() < MIN_NODES {
            return Err(NetError::TooShort);
        }
        if state.len() > MAX_NODES {
            return Err(NetError::TooLong);
        }
        if !is_bipolar_pattern(state) {
            return Err(NetError::NotBipolar);
        }
        if self.state.len() != state.len() {
            self.weights = zero_weights(state.len());
            self.learned = 0;
        }
        self.state = copy_pattern(state);
        self.steps = 0;
        reset_nodes_to_update(&mut self.queue, state.len());
        Ok(())
    }

    /// Clears the weights and the count of learned patterns.
    pub fn reset_weights(&mut self)
        requires
            old(self)@.wf(),
        ensures
            final(self)@.wf(),
            final(self)@ == (NetView {
                weights: zero_matrix(old(self)@.size()),
                learned: 0,
                ..old(self)@
            }),
    {
        self.weights = zero_weights(self.state.len());
        self.learned = 0;
    }

    /// Sets the state to `state` or, without one, to random activations,
    /// and restarts the step count.
    pub fn init(&mut self, state: Option<&[i8]>) -> (r: Result<(), NetError>)
        requires
            old(self)@.wf(),
        ensures
            final(self)@.wf(),
            match state {
                Some(s) => if s@.len() != old(self)@.size() {
                    r == Err::<(), NetError>(NetError::WrongLength) && final(self)@ == old(self)@
                } else if !is_bipolar_seq(s@) {
                    r == Err::<(), NetError>(NetError::NotBipolar) && final(self)@ == old(self)@
                } else {
                    r is Ok && final(self)@ == (NetView { state: s@, steps: 0, ..old(self)@ })
                },
                None => r is Ok && final(self)@ == (NetView {
                    state: final(self)@.state,
                    steps: 0,
                    ..old(self)@
                }) && final(self)@.size() == old(self)@.size(),
            },
    {
        match state {
            Some(s) => {
                if s.len() != self.state.len() {
                    return Err(NetError::WrongLength);
                }
                if !is_bipolar_pattern(s) {
                    return Err(NetError::NotBipolar);
                }
                self.state = copy_pattern(s);
            },
            None => {
                let mut k: usize = 0;
                while k < self.state.len()
                    invariant
                        self@.wf(),
                        self@.size() == old(self)@.size(),
                        self@.weights == old(self)@.weights,
                        self@.queue == old(self)@.queue,
                        self@.steps == old(self)@.steps,
                        self@.learned == old(self)@.learned,
                    decreases self@.size() - k,
                {
                    let v = if random_bit() == 1 {
                        ON
                    } else {
                        OFF
                    };
                    self.state.set(k, v);
                    k = k + 1;
                }
            },
        }
        self.steps = 0;
        Ok(())
    }

    /// Installs the weights computed by a learning rule and counts the
    /// pattern.
    pub(crate) fn store_learned(&mut self, w: Vec<Vec<i64>>)
        requires
            old(self)@.wf(),
            is_square(matrix_view(w@), old(self)@.size() as int),
            weights_bounded(matrix_view(w@)),
        ensures
            final(self)@.wf(),
            old(self)@.learned_into(final(self)@, matrix_view(w@)),
    {
        self.weights = w;
        self.learned = self.learned.saturating_add(1);
    }
}

} // verus!
