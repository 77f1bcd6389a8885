//! Properties that hold across several operations, proved over the
//! contracts of the network and the worker.
use crate::hop_net::{
    learned_by, rule_of, set_state_outcome, NetworkCommand, NetworkResponse, NetworkType,
};
use crate::model::{
    activation, crosstalk, full_sweep, has_zero_diagonal, hebbian_weight, is_bipolar,
    is_bipolar_seq, is_square, is_symmetric, lemma_bipolar_product, lemma_masked_sum_zero,
    local_field, masked_sum, relax_node, storkey_increment, valid_size, zero_matrix, MAX_NODES, ON,
    STORKEY_SCALE,
};
use crate::net_core::{all_off, NetError, NetView};
use crate::thread_utils::{advance_outcome, command_outcome, CommandError, WorkerView};
use vstd::prelude::*;

verus! {

/// Sweep coverage: once `set_state` has started a fresh sweep, the next `N`
/// steps update `N` different nodes, so every node exactly once, whether or
/// not any of them flips.
pub proof fn law_sweep_coverage(nets: Seq<NetView>, changes: Seq<bool>)
    requires
        nets.len() == nets[0].size() + 1,
        changes.len() == nets[0].size(),
        full_sweep(nets[0].queue, nets[0].size()),
        forall|k: int| 0 <= k < changes.len() ==> #[trigger] nets[k].step_to(nets[k + 1], changes[k]),
    ensures
        forall|k: int|
            0 <= k < changes.len() ==> #[trigger] nets[k].queue.len() > 0 && nets[k].stepped_at(
                nets[k + 1],
                nets[k].queue.last() as int,
                changes[k],
            ),
        full_sweep(
            Seq::new(nets[0].size(), |k: int| nets[k].queue.last()),
            nets[0].size(),
        ),
{
    let n = nets[0].size() as int;
    let q = nets[0].queue;
    assert forall|k: int| 0 <= k <= n implies (#[trigger] nets[k]).queue == q.subrange(0, n - k)
        && nets[k].size() == n by {
        lemma_sweep_prefix(nets, changes, k);
    }
    assert forall|k: int| 0 <= k < n implies #[trigger] nets[k].queue.last() == q[n - 1 - k] by {
        assert(nets[k].queue == q.subrange(0, n - k));
    }
    let visited = Seq::new(n as nat, |k: int| nets[k].queue.last());
    assert forall|a: int, b: int| 0 <= a < n && 0 <= b < n && a != b implies visited[a]
        != visited[b] by {
        assert(visited[a] == q[n - 1 - a]);
        assert(visited[b] == q[n - 1 - b]);
    }
    assert forall|k: int| 0 <= k < n implies (#[trigger] visited[k]) < n by {
        assert(visited[k] == q[n - 1 - k]);
    }
    assert forall|k: int| 0 <= k < n implies #[trigger] nets[k].queue.len() > 0 && nets[k].stepped_at(
        nets[k + 1],
        nets[k].queue.last() as int,
        changes[k],
    ) by {
        assert(nets[k].step_to(nets[k + 1], changes[k]));
        assert(nets[k].queue == q.subrange(0, n - k));
    }
}

proof fn lemma_sweep_prefix(nets: Seq<NetView>, changes: Seq<bool>, k: int)
    requires
        nets.len() == nets[0].size() + 1,
        changes.len() == nets[0].size(),
        full_sweep(nets[0].queue, nets[0].size()),
        forall|m: int| 0 <= m < changes.len() ==> #[trigger] nets[m].step_to(nets[m + 1], changes[m]),
        0 <= k <= nets[0].size(),
    ensures
        nets[k].queue == nets[0].queue.subrange(0, nets[0].size() - k),
        nets[k].size() == nets[0].size(),
    decreases k,
{
    let n = nets[0].size() as int;
    if k > 0 {
        lemma_sweep_prefix(nets, changes, k - 1);
        let m = k - 1;
        assert(nets[m].step_to(nets[m + 1], changes[m]));
        assert(nets[k - 1].queue.len() == n - k + 1);
        assert(nets[k].queue =~= nets[0].queue.subrange(0, n - k));
    } else {
        assert(nets[0].queue =~= nets[0].queue.subrange(0, n));
    }
}

/// Hebbian symmetry: whatever patterns a Hebbian network learns from zero
/// weights, its weights stay symmetric with a zero diagonal.
pub proof fn law_hebbian_symmetry(ws: Seq<Seq<Seq<i64>>>, ps: Seq<Seq<i8>>, n: nat)
    requires
        ws.len() == ps.len() + 1,
        ws[0] == zero_matrix(n),
        forall|k: int| 0 <= k < ws.len() ==> is_square(#[trigger] ws[k], n as int),
        forall|k: int, i: int, j: int|
            0 <= k < ps.len() && 0 <= i < n && 0 <= j < n ==> #[trigger] ws[k + 1][i][j]
                == hebbian_weight(ws[k], ps[k], i, j),
    ensures
        is_symmetric(ws.last()),
        has_zero_diagonal(ws.last()),
    decreases ps.len(),
{
    if ps.len() > 0 {
        let m = ps.len() - 1;
        law_hebbian_symmetry(ws.drop_last(), ps.drop_last(), n);
        assert(ws.drop_last().last() == ws[m]);
        let w = ws[m];
        let p = ps[m];
        assert forall|i: int, j: int| 0 <= i < n && 0 <= j < n implies #[trigger] ws.last()[i][j]
            == ws.last()[j][i] by {
            assert(ws[m + 1][i][j] == hebbian_weight(w, p, i, j));
            assert(ws[m + 1][j][i] == hebbian_weight(w, p, j, i));
            assert(p[i] * p[j] == p[j] * p[i]) by (nonlinear_arith);
        }
        assert forall|i: int| 0 <= i < n implies #[trigger] ws.last()[i][i] == 0 by {
            assert(ws[m + 1][i][i] == hebbian_weight(w, p, i, i));
        }
    }
}

/// The local field of node `i` when every weight into it has the sign of
/// `p[i] * p[b]` and magnitude `q`.
proof fn lemma_aligned_field(row: Seq<i64>, p: Seq<i8>, i: int, q: int, m: int)
    requires
        0 <= i < p.len(),
        0 <= m <= p.len(),
        row.len() == p.len(),
        is_bipolar_seq(p),
        forall|b: int|
            0 <= b < p.len() && b != i ==> #[trigger] row[b] == if p[b] == p[i] {
                q
            } else {
                -q
            },
    ensures
        masked_sum(row, p, i, i, m) == (if p[i] == ON {
            q
        } else {
            -q
        }) * (m - if i < m {
            1int
        } else {
            0int
        }),
    decreases m,
{
    if m > 0 {
        lemma_aligned_field(row, p, i, q, m - 1);
        let b = m - 1;
        let s = if p[i] == ON {
            q
        } else {
            -q
        };
        let c0 = m - 1 - if i < m - 1 {
            1int
        } else {
            0int
        };
        let c1 = m - if i < m {
            1int
        } else {
            0int
        };
        if b != i {
            assert(is_bipolar(p[b]));
            assert(is_bipolar(p[i]));
            assert(row[b] == if p[b] == p[i] {
                q
            } else {
                -q
            });
            assert(row[b] * p[b] == s) by (nonlinear_arith)
                requires
                    p[b] == 1 || p[b] == -1,
                    p[i] == 1 || p[i] == -1,
                    row[b] == if p[b] == p[i] {
                        q
                    } else {
                        -q
                    },
                    s == if p[i] == 1 {
                        q
                    } else {
                        -q
                    },
            ;
            assert(c1 == c0 + 1);
            assert(s * c1 == s * c0 + s) by (nonlinear_arith)
                requires
                    c1 == c0 + 1,
            ;
            assert(masked_sum(row, p, i, i, m) == masked_sum(row, p, i, i, m - 1) + row[b] * p[b]);
            assert(masked_sum(row, p, i, i, m) == s * c1);
        } else {
            assert(c1 == c0);
            assert(masked_sum(row, p, i, i, m) == masked_sum(row, p, i, i, m - 1));
            assert(masked_sum(row, p, i, i, m) == s * c1);
        }
    } else {
        let s = if p[i] == ON {
            q
        } else {
            -q
        };
        assert(s * 0 == 0);
    }
}

/// Single-pattern stability: a fresh Storkey network that learns `p` once
/// and is then set to `p` does not flip the node its next step updates.
pub proof fn law_storkey_single_pattern_stable(
    fresh: NetView,
    learned: NetView,
    set: NetView,
    stepped: NetView,
    p: Seq<i8>,
    changed: bool,
)
    requires
        fresh.wf(),
        fresh.is_fresh(p.len()),
        is_bipolar_seq(p),
        learned_by(fresh, learned, NetworkType::StorkeySquareDiscrete, p),
        learned.state_set_to(set, p),
        set.step_to(stepped, changed),
    ensures
        !changed,
        stepped.state == p,
{
    let n = p.len() as int;
    let q = STORKEY_SCALE as int / n;
    let w = set.weights;
    assert(set.weights == learned.weights);
    assert forall|a: int, b: int| 0 <= a < n && 0 <= b < n implies #[trigger] w[a][b] == if p[a]
        == p[b] {
        q
    } else {
        -q
    } by {
        assert(w[a][b] == rule_of(NetworkType::StorkeySquareDiscrete, fresh.weights, p, a, b));
        let z = zero_matrix(n as nat);
        lemma_masked_sum_zero(z[a], p, a, b, n);
        lemma_masked_sum_zero(z[b], p, b, a, n);
        assert(crosstalk(z, p, a, b) == 0);
        assert(crosstalk(z, p, b, a) == 0);
        assert(is_bipolar(p[a]) && is_bipolar(p[b]));
        lemma_bipolar_product(p[a], p[b]);
        assert(STORKEY_SCALE * p[a] * p[b] == STORKEY_SCALE * (p[a] * p[b])) by (nonlinear_arith);
        if p[a] == p[b] {
            assert(storkey_increment(z, p, a, b) == STORKEY_SCALE);
        } else {
            assert(storkey_increment(z, p, a, b) == -STORKEY_SCALE);
        }
    }
    assert(q >= 1) by (nonlinear_arith)
        requires
            q == STORKEY_SCALE as int / n,
            4 <= n <= MAX_NODES,
    ;
    assert forall|i: int| 0 <= i < n implies #[trigger] relax_node(w, p, i) == p by {
        lemma_aligned_field(w[i], p, i, q, n);
        assert(is_bipolar(p[i]));
        assert(q * (n - 1) > 0) by (nonlinear_arith)
            requires
                q >= 1,
                n >= 4,
        ;
        assert((-q) * (n - 1) < 0) by (nonlinear_arith)
            requires
                q >= 1,
                n >= 4,
        ;
        assert(w[i].len() == n);
        assert(local_field(w, p, i) == masked_sum(w[i], p, i, i, n));
        assert(activation(local_field(w, p, i)) == p[i]);
        assert(relax_node(w, p, i) =~= p);
    }
    if set.queue.len() > 0 {
        assert(set.stepped_at(stepped, set.queue.last() as int, changed));
    } else {
        let i = choose|i: usize|
            full_sweep(#[trigger] stepped.queue.push(i), set.size()) && set.stepped_at(
                stepped,
                i as int,
                changed,
            );
        assert(set.stepped_at(stepped, i as int, changed));
    }
}

/// With zero weights every local field is zero, so the all-off state is a
/// fixed point of every node update.
pub proof fn law_zero_weights_all_off_fixed(n: nat, i: int)
    requires
        0 <= i < n,
    ensures
        relax_node(zero_matrix(n), all_off(n), i) == all_off(n),
{
    lemma_masked_sum_zero(zero_matrix(n)[i], all_off(n), i, i, n as int);
    assert(relax_node(zero_matrix(n), all_off(n), i) =~= all_off(n));
}

/// Equilibrium detection: a worker that starts stepping on zero weights and
/// the all-off state answers its first `N` steps with heartbeats, the next
/// with exactly one `Stopped`, and then stays idle.
pub proof fn law_equilibrium_detection(ws: Seq<WorkerView>, rs: Seq<Option<NetworkResponse>>)
    requires
        ws.len() == rs.len() + 1,
        rs.len() > ws[0].net.size(),
        ws[0].net.wf(),
        ws[0].stepping,
        ws[0].streak == 0,
        ws[0].net.weights == zero_matrix(ws[0].net.size()),
        ws[0].net.state == all_off(ws[0].net.size()),
        forall|k: int| 0 <= k < rs.len() ==> #[trigger] advance_outcome(ws[k], ws[k + 1], rs[k]),
    ensures
        forall|k: int| 0 <= k < ws[0].net.size() ==> #[trigger] rs[k] == Some(NetworkResponse::Heartbeat),
        rs[ws[0].net.size() as int] == Some(NetworkResponse::Stopped),
        forall|k: int| ws[0].net.size() < k < rs.len() ==> (#[trigger] rs[k]) is None,
{
    let n = ws[0].net.size();
    assert forall|k: int| 0 <= k <= n implies {
        &&& (#[trigger] ws[k]).stepping
        &&& ws[k].streak == k
        &&& ws[k].net.weights == zero_matrix(n)
        &&& ws[k].net.state == all_off(n)
    } by {
        lemma_equilibrium_prefix(ws, rs, k);
    }
    assert forall|k: int| 0 <= k < n implies #[trigger] rs[k] == Some(NetworkResponse::Heartbeat) by {
        lemma_equilibrium_prefix(ws, rs, k);
        lemma_quiet_step(ws[k], ws[k + 1], rs[k], n);
    }
    lemma_quiet_step(ws[n as int], ws[n as int + 1], rs[n as int], n);
    assert(!ws[n as int + 1].stepping);
    assert forall|k: int| n < k < rs.len() implies (#[trigger] rs[k]) is None by {
        lemma_idle_stays(ws, rs, n as int + 1, k);
    }
}

proof fn lemma_idle_stays(
    ws: Seq<WorkerView>,
    rs: Seq<Option<NetworkResponse>>,
    from: int,
    k: int,
)
    requires
        ws.len() == rs.len() + 1,
        0 <= from <= k < rs.len(),
        !ws[from].stepping,
        forall|m: int| 0 <= m < rs.len() ==> #[trigger] advance_outcome(ws[m], ws[m + 1], rs[m]),
    ensures
        !ws[k].stepping,
        rs[k] is None,
    decreases k - from,
{
    if k > from {
        lemma_idle_stays(ws, rs, from, k - 1);
        let m = k - 1;
        assert(advance_outcome(ws[m], ws[m + 1], rs[m]));
    }
    assert(advance_outcome(ws[k], ws[k + 1], rs[k]));
}

/// One step of a stepping worker on zero weights and the all-off state.
proof fn lemma_quiet_step(prev: WorkerView, next: WorkerView, r: Option<NetworkResponse>, n: nat)
    requires
        prev.stepping,
        prev.net.size() == n,
        prev.net.weights == zero_matrix(n),
        prev.net.state == all_off(n),
        advance_outcome(prev, next, r),
    ensures
        next.net.weights == zero_matrix(n),
        next.net.state == all_off(n),
        next.streak == prev.streak + 1,
        prev.streak + 1 > n ==> r == Some(NetworkResponse::Stopped) && !next.stepping,
        prev.streak + 1 <= n ==> r == Some(NetworkResponse::Heartbeat) && next.stepping,
{
    let changed = next.net.state != prev.net.state;
    if prev.net.queue.len() > 0 {
        let i = prev.net.queue.last() as int;
        assert(prev.net.stepped_at(next.net, i, changed));
        law_zero_weights_all_off_fixed(n, i);
    } else {
        let i = choose|i: usize|
            full_sweep(#[trigger] next.net.queue.push(i), prev.net.size()) && prev.net.stepped_at(
                next.net,
                i as int,
                changed,
            );
        law_zero_weights_all_off_fixed(n, i as int);
    }
}

proof fn lemma_equilibrium_prefix(ws: Seq<WorkerView>, rs: Seq<Option<NetworkResponse>>, k: int)
    requires
        ws.len() == rs.len() + 1,
        rs.len() > ws[0].net.size(),
        ws[0].stepping,
        ws[0].streak == 0,
        ws[0].net.weights == zero_matrix(ws[0].net.size()),
        ws[0].net.state == all_off(ws[0].net.size()),
        forall|m: int| 0 <= m < rs.len() ==> #[trigger] advance_outcome(ws[m], ws[m + 1], rs[m]),
        0 <= k <= ws[0].net.size(),
    ensures
        ws[k].stepping,
        ws[k].streak == k,
        ws[k].net.weights == zero_matrix(ws[0].net.size()),
        ws[k].net.state == all_off(ws[0].net.size()),
    decreases k,
{
    if k > 0 {
        lemma_equilibrium_prefix(ws, rs, k - 1);
        let m = k - 1;
        assert(advance_outcome(ws[m], ws[m + 1], rs[m]));
        lemma_quiet_step(ws[m], ws[m + 1], rs[m], ws[0].net.size());
    }
}

/// Round trip: setting a valid state succeeds, and the state read back is
/// the one set.
pub proof fn law_round_trip(prev: NetView, next: NetView, x: Seq<i8>, r: Result<(), NetError>)
    requires
        valid_size(x.len() as int),
        is_bipolar_seq(x),
        set_state_outcome(prev, next, x, r),
    ensures
        r is Ok,
        next.state == x,
{
}

/// Type change isolation: after `ChangeNetType` the weights are all zero and
/// the network keeps its size.
pub proof fn law_change_type_isolation(
    prev: WorkerView,
    next: WorkerView,
    kind: NetworkType,
    r: Result<bool, CommandError>,
)
    requires
        command_outcome(prev, next, NetworkCommand::ChangeNetType(kind), r),
    ensures
        next.net.weights == zero_matrix(prev.net.size()),
        next.net.state.len() == prev.net.state.len(),
        next.kind == kind,
{
}

} // verus!
