//! The worker that owns a network: it applies commands, relaxes the network
//! while stepping, and detects equilibrium. Receiving, sending and pacing
//! are left to the caller, which feeds it one command at a time.
use crate::classic_network::ClassicNetworkDiscrete;
use crate::hop_net::{
    learn_outcome, rule_fits, set_state_outcome, Net, NetworkCommand, NetworkResponse, NetworkType,
};
use crate::model::{full_sweep, is_bipolar_seq, zero_matrix};
use crate::net_core::{all_off, matrix_view, pattern_view, NetError, NetView};
use crate::storkey_learning::StorkeyLearningNetwork;
use vstd::prelude::*;

verus! {

/// Why the worker refused a command. It is left unchanged.
#[derive(Debug, Clone, Copy, PartialEq, Eq, Structural)]
pub enum CommandError {
    /// The network refused the pattern.
    Validation(NetError),
    /// A step rate of zero.
    Config,
}

/// Milliseconds between steps at `rate` steps per second.
pub open spec fn interval_for(rate: u64) -> nat {
    (1000u64 / rate) as nat
}

/// The pause between steps at `rate` steps per second; a rate of zero is
/// refused.
pub fn speed_interval(rate: u64) -> (r: Result<u64, CommandError>)
    ensures
        rate == 0 ==> r == Err::<u64, CommandError>(CommandError::Config),
        rate > 0 ==> r == Ok::<u64, CommandError>(interval_for(rate) as u64),
{
    if rate == 0 {
        Err(CommandError::Config)
    } else {
        Ok(1000 / rate)
    }
}

/// What `learn(p)` returns.
pub open spec fn learn_result(prev: NetView, p: Seq<i8>, kind: NetworkType) -> Result<(), NetError> {
    if p.len() != prev.size() {
        Err(NetError::WrongLength)
    } else if !is_bipolar_seq(p) {
        Err(NetError::NotBipolar)
    } else if !rule_fits(kind, prev.weights, p) {
        Err(NetError::WeightLimit)
    } else {
        Ok(())
    }
}

/// A network of either variant.
pub enum Network {
    Classic(ClassicNetworkDiscrete),
    Storkey(StorkeyLearningNetwork),
}

impl Network {
    pub open spec fn net_view(&self) -> NetView {
        match self {
            Network::Classic(n) => n.net_view(),
            Network::Storkey(n) => n.net_view(),
        }
    }

    pub open spec fn inv(&self) -> bool {
        match self {
            Network::Classic(n) => n.inv(),
            Network::Storkey(n) => n.inv(),
        }
    }

    pub open spec fn kind(&self) -> NetworkType {
        match self {
            Network::Classic(_) => NetworkType::SquareDiscrete,
            Network::Storkey(_) => NetworkType::StorkeySquareDiscrete,
        }
    }

    pub proof fn lemma_inv(&self)
        requires
            self.inv(),
        ensures
            self.net_view().wf(),
    {
        match self {
            Network::Classic(n) => n.lemma_inv(),
            Network::Storkey(n) => n.lemma_inv(),
        }
    }

    /// A network of type `kind` and `size` nodes, with zero weights,
    /// starting from `start_state` or from all nodes off.
    pub fn new(kind: NetworkType, size: usize, start_state: Option<&[i8]>) -> (r: Result<
        Network,
        NetError,
    >)
        ensures
            match NetView::new_error(size as nat, pattern_view(start_state)) {
                Some(e) => r == Err::<Network, NetError>(e),
                None => r matches Ok(c) && c.inv() && c.kind() == kind && c.net_view().is_fresh(
                    size as nat,
                ) && c.net_view().state == match start_state {
                    Some(s) => s@,
                    None => all_off(size as nat),
                },
            },
    {
        match kind {
            NetworkType::SquareDiscrete => match ClassicNetworkDiscrete::new(size, start_state) {
                Ok(n) => Ok(Network::Classic(n)),
                Err(e) => Err(e),
            },
            NetworkType::StorkeySquareDiscrete => match StorkeyLearningNetwork::new(
                size,
                start_state,
            ) {
                Ok(n) => Ok(Network::Storkey(n)),
                Err(e) => Err(e),
            },
        }
    }

    pub fn network_type(&self) -> (r: NetworkType)
        ensures
            r == self.kind(),
    {
        match self {
            Network::Classic(_) => NetworkType::SquareDiscrete,
            Network::Storkey(_) => NetworkType::StorkeySquareDiscrete,
        }
    }

    pub fn get_state(&self) -> (r: Vec<i8>)
        requires
            self.inv(),
        ensures
            r@ == self.net_view().state,
    {
        match self {
            Network::Classic(n) => n.get_state(),
            Network::Storkey(n) => n.get_state(),
        }
    }

    pub fn get_weights(&self) -> (r: Vec<Vec<i64>>)
        requires
            self.inv(),
        ensures
            matrix_view(r@) == self.net_view().weights,
    {
        match self {
            Network::Classic(n) => n.get_weights(),
            Network::Storkey(n) => n.get_weights(),
        }
    }

    pub fn get_steps(&self) -> (r: usize)
        requires
            self.inv(),
        ensures
            r == self.net_view().steps,
    {
        match self {
            Network::Classic(n) => n.get_steps(),
            Network::Storkey(n) => n.get_steps(),
        }
    }

    pub fn learn(&mut self, state: &[i8]) -> (r: Result<(), NetError>)
        requires
            old(self).inv(),
        ensures
            final(self).inv(),
            final(self).kind() == old(self).kind(),
            r == learn_result(old(self).net_view(), state@, old(self).kind()),
            learn_outcome(old(self).net_view(), final(self).net_view(), state@, old(self).kind(), r),
    {
        match self {
            Network::Classic(n) => n.learn(state),
            Network::Storkey(n) => n.learn(state),
        }
    }

    pub fn step(&mut self) -> (r: (bool, Vec<i8>))
        requires
            old(self).inv(),
        ensures
            final(self).inv(),
            final(self).kind() == old(self).kind(),
            old(self).net_view().step_to(final(self).net_view(), r.0),
            r.1@ == final(self).net_view().state,
    {
        match self {
            Network::Classic(n) => n.step(),
            Network::Storkey(n) => n.step(),
        }
    }

    pub fn set_state(&mut self, state: &[i8]) -> (r: Result<(), NetError>)
        requires
            old(self).inv(),
        ensures
            final(self).inv(),
            final(self).kind() == old(self).kind(),
            set_state_outcome(old(self).net_view(), final(self).net_view(), state@, r),
    {
        match self {
            Network::Classic(n) => n.set_state(state),
            Network::Storkey(n) => n.set_state(state),
        }
    }

    pub fn reset_weights(&mut self)
        requires
            old(self).inv(),
        ensures
            final(self).inv(),
            final(self).kind() == old(self).kind(),
            final(self).net_view() == (NetView {
                weights: zero_matrix(old(self).net_view().size()),
                learned: 0,
                ..old(self).net_view()
            }),
    {
        match self {
            Network::Classic(n) => n.reset_weights(),
            Network::Storkey(n) => n.reset_weights(),
        }
    }
}

/// The worker, mathematically.
pub struct WorkerView {
    pub net: NetView,
    pub kind: NetworkType,
    pub stepping: bool,
    /// Consecutive steps that flipped no node.
    pub streak: nat,
    /// Milliseconds between steps.
    pub interval_ms: nat,
}

impl WorkerView {
    /// The step after which the worker stops: more than `N` updates in a
    /// row flipped nothing.
    pub open spec fn at_equilibrium(self, streak: nat) -> bool {
        streak > self.net.size()
    }
}

/// The worker's state between two iterations of its loop.
pub struct WorkerState {
    net: Network,
    stepping: bool,
    no_change_streak: usize,
    interval_ms: u64,
}

impl View for WorkerState {
    type V = WorkerView;

    closed spec fn view(&self) -> WorkerView {
        WorkerView {
            net: self.net.net_view(),
            kind: self.net.kind(),
            stepping: self.stepping,
            streak: self.no_change_streak as nat,
            interval_ms: self.interval_ms as nat,
        }
    }
}

/// What `Learn`, `SetState` and the other commands do to the worker.
pub open spec fn command_outcome(
    prev: WorkerView,
    next: WorkerView,
    command: NetworkCommand,
    r: Result<bool, CommandError>,
) -> bool {
    match command {
        NetworkCommand::Empty => r == Ok::<bool, CommandError>(false) && next == prev,
        NetworkCommand::Learn(p) => {
            let e = learn_result(prev.net, p@, prev.kind);
            &&& r == match e {
                Ok(_) => Ok::<bool, CommandError>(false),
                Err(x) => Err(CommandError::Validation(x)),
            }
            &&& learn_outcome(prev.net, next.net, p@, prev.kind, e)
            &&& next == WorkerView { net: next.net, ..prev }
        },
        NetworkCommand::Go => r == Ok::<bool, CommandError>(false) && next == WorkerView {
            stepping: true,
            streak: 0,
            ..prev
        },
        NetworkCommand::Stop => r == Ok::<bool, CommandError>(false) && next == WorkerView {
            stepping: false,
            ..prev
        },
        NetworkCommand::SetState(p) => match NetView::set_state_error(p@) {
            Some(e) => r == Err::<bool, CommandError>(CommandError::Validation(e)) && next == prev,
            None => {
                &&& r == Ok::<bool, CommandError>(false)
                &&& prev.net.state_set_to(next.net, p@)
                &&& next == WorkerView { net: next.net, streak: 0, ..prev }
            },
        },
        NetworkCommand::SetSpeed(rate) => if rate == 0 {
            r == Err::<bool, CommandError>(CommandError::Config) && next == prev
        } else {
            r == Ok::<bool, CommandError>(false) && next == WorkerView {
                interval_ms: interval_for(rate),
                ..prev
            }
        },
        NetworkCommand::ResetWeights => r == Ok::<bool, CommandError>(false) && next
            == WorkerView {
            net: NetView { weights: zero_matrix(prev.net.size()), learned: 0, ..prev.net },
            ..prev
        },
        NetworkCommand::ChangeNetType(kind) => {
            &&& r == Ok::<bool, CommandError>(true)
            &&& next.kind == kind
            &&& next.net.is_fresh(prev.net.size())
            &&& next.net.state == all_off(prev.net.size())
            &&& next.stepping == prev.stepping
            &&& next.streak == 0
            &&& next.interval_ms == prev.interval_ms
        },
    }
}

/// What one stepping iteration does: nothing while idle; otherwise one
/// node update, answered by the new state when a node flipped, by `Stopped`
/// (and the end of stepping) at equilibrium, and by a heartbeat otherwise.
pub open spec fn advance_outcome(prev: WorkerView, next: WorkerView, r: Option<NetworkResponse>) -> bool {
    if !prev.stepping {
        r is None && next == prev
    } else {
        let changed = next.net.state != prev.net.state;
        &&& prev.net.step_to(next.net, changed)
        &&& next.kind == prev.kind
        &&& next.interval_ms == prev.interval_ms
        &&& if changed {
            &&& r matches Some(NetworkResponse::NewState(s)) && s@ == next.net.state
            &&& next.streak == 0
            &&& next.stepping
        } else if prev.at_equilibrium(prev.streak + 1) {
            &&& r == Some(NetworkResponse::Stopped)
            &&& next.streak == prev.streak + 1
            &&& !next.stepping
        } else {
            &&& r == Some(NetworkResponse::Heartbeat)
            &&& next.streak == prev.streak + 1
            &&& next.stepping
        }
    }
}

impl WorkerState {
    pub closed spec fn inv(&self) -> bool {
        &&& self.net.inv()
        &&& self.no_change_streak <= self.net.net_view().size() + 1
        &&& self.stepping ==> self.no_change_streak <= self.net.net_view().size()
    }

    pub proof fn lemma_inv(&self)
        requires
            self.inv(),
        ensures
            self@.net.wf(),
            self@.streak <= self@.net.size() + 1,
            self@.stepping ==> self@.streak <= self@.net.size(),
    {
        self.net.lemma_inv();
    }

    /// An idle worker with a network of type `net_type` starting from
    /// `start_state`, stepping at `step_speed` steps per second.
    pub fn new(net_type: NetworkType, start_state: &[i8], step_speed: u64) -> (r: Result<
        WorkerState,
        CommandError,
    >)
        ensures
            match NetView::set_state_error(start_state@) {
                Some(e) => r == Err::<WorkerState, CommandError>(CommandError::Validation(e)),
                None => if step_speed == 0 {
                    r == Err::<WorkerState, CommandError>(CommandError::Config)
                } else {
                    r matches Ok(w) && w.inv() && w@.kind == net_type && w@.net.is_fresh(
                        start_state@.len(),
                    ) && w@.net.state == start_state@ && !w@.stepping && w@.streak == 0
                        && w@.interval_ms == interval_for(step_speed)
                },
            },
    {
        let net = match Network::new(net_type, start_state.len(), Some(start_state)) {
            Ok(n) => n,
            Err(e) => return Err(CommandError::Validation(e)),
        };
        let interval_ms = match speed_interval(step_speed) {
            Ok(i) => i,
            Err(e) => return Err(e),
        };
        Ok(WorkerState { net, stepping: false, no_change_streak: 0, interval_ms })
    }

    pub fn is_stepping(&self) -> (r: bool)
        ensures
            r == self@.stepping,
    {
        self.stepping
    }

    /// The worker waits for a command while idle and only polls while
    /// stepping.
    pub fn waits_for_command(&self) -> (r: bool)
        ensures
            r == !self@.stepping,
    {
        !self.stepping
    }

    pub fn interval_ms(&self) -> (r: u64)
        ensures
            r == self@.interval_ms,
    {
        self.interval_ms
    }

    pub fn no_change_streak(&self) -> (r: usize)
        ensures
            r == self@.streak,
    {
        self.no_change_streak
    }

    pub fn network_type(&self) -> (r: NetworkType)
        ensures
            r == self@.kind,
    {
        self.net.network_type()
    }

    pub fn get_state(&self) -> (r: Vec<i8>)
        requires
            self.inv(),
        ensures
            r@ == self@.net.state,
    {
        self.net.get_state()
    }

    pub fn get_weights(&self) -> (r: Vec<Vec<i64>>)
        requires
            self.inv(),
        ensures
            matrix_view(r@) == self@.net.weights,
    {
        self.net.get_weights()
    }

    pub fn get_steps(&self) -> (r: usize)
        requires
            self.inv(),
        ensures
            r == self@.net.steps,
    {
        self.net.get_steps()
    }

    /// One stepping iteration; returns the response to send, if any.
    pub fn advance(&mut self) -> (r: Option<NetworkResponse>)
        requires
            old(self).inv(),
        ensures
            final(self).inv(),
            advance_outcome(old(self)@, final(self)@, r),
    {
        if !self.stepping {
            return None;
        }
        proof {
            self.net.lemma_inv();
        }
        let (changed, state) = self.net.step();
        proof {
            self.net.lemma_inv();
            let prev = old(self)@.net;
            let next = self.net.net_view();
            if prev.queue.len() > 0 {
                assert(changed == (next.state != prev.state)) by {
                    let i = prev.queue.last() as int;
                    if !changed {
                        assert(next.state =~= prev.state);
                    } else {
                        assert(next.state[i] != prev.state[i]);
                    }
                }
            } else {
                let i = choose|i: usize|
                    full_sweep(#[trigger] next.queue.push(i), prev.size()) && prev.stepped_at(
                        next,
                        i as int,
                        changed,
                    );
                assert(changed == (next.state != prev.state)) by {
                    if !changed {
                        assert(next.state =~= prev.state);
                    } else {
                        assert(next.state[i as int] != prev.state[i as int]);
                    }
                }
            }
        }
        if changed {
            self.no_change_streak = 0;
            Some(NetworkResponse::NewState(state))
        } else {
            self.no_change_streak = self.no_change_streak + 1;
            if self.no_change_streak > state.len() {
                self.stepping = false;
                Some(NetworkResponse::Stopped)
            } else {
                Some(NetworkResponse::Heartbeat)
            }
        }
    }
}

/// Applies one command to the worker. Returns whether the network was
/// rebuilt, in which case its new state should be announced.
pub fn handle_message(worker: &mut WorkerState, command: NetworkCommand) -> (r: Result<
    bool,
    CommandError,
>)
    requires
        old(worker).inv(),
    ensures
        final(worker).inv(),
        command_outcome(old(worker)@, final(worker)@, command, r),
{
    proof {
        worker.net.lemma_inv();
    }
    match command {
        NetworkCommand::Empty => Ok(false),
        NetworkCommand::Learn(state) => match worker.net.learn(state.as_slice()) {
            Ok(()) => Ok(false),
            Err(e) => Err(CommandError::Validation(e)),
        },
        NetworkCommand::Go => {
            worker.stepping = true;
            worker.no_change_streak = 0;
            Ok(false)
        },
        NetworkCommand::Stop => {
            worker.stepping = false;
            Ok(false)
        },
        NetworkCommand::SetState(state) => match worker.net.set_state(state.as_slice()) {
            Ok(()) => {
                worker.no_change_streak = 0;
                Ok(false)
            },
            Err(e) => Err(CommandError::Validation(e)),
        },
        NetworkCommand::SetSpeed(rate) => match speed_interval(rate) {
            Ok(interval) => {
                worker.interval_ms = interval;
                Ok(false)
            },
            Err(e) => Err(e),
        },
        NetworkCommand::ResetWeights => {
            worker.net.reset_weights();
            Ok(false)
        },
        NetworkCommand::ChangeNetType(kind) => {
            let size = worker.net.get_state().len();
            match Network::new(kind, size, None) {
                Ok(net) => {
                    worker.net = net;
                    worker.no_change_streak = 0;
                    Ok(true)
                },
                Err(e) => {
                    assert(false);
                    Err(CommandError::Validation(e))
                },
            }
        },
    }
}

} // verus!
