use hopfield_nets::classic_network::ClassicNetworkDiscrete;
use hopfield_nets::hop_net::Net;
use hopfield_nets::model::{MAX_NODES, STORKEY_SCALE};
use hopfield_nets::net_core::{reset_nodes_to_update, NetError};
use hopfield_nets::storkey_learning::StorkeyLearningNetwork;

fn zeros(n: usize) -> Vec<Vec<i64>> {
    vec![vec![0; n]; n]
}

#[test]
fn new_network_starts_all_off_with_zero_weights() {
    let net = ClassicNetworkDiscrete::new(4, None).unwrap();
    assert_eq!(net.get_state(), vec![-1, -1, -1, -1]);
    assert_eq!(net.get_weights(), zeros(4));
    assert_eq!(net.get_steps(), 0);
}

#[test]
fn new_network_takes_its_start_state() {
    let start = vec![1, -1, 1, 1, -1];
    let net = StorkeyLearningNetwork::new(5, Some(start.as_slice())).unwrap();
    assert_eq!(net.get_state(), start);
}

#[test]
fn new_network_refuses_bad_sizes_and_states() {
    assert_eq!(ClassicNetworkDiscrete::new(3, None).err(), Some(NetError::TooShort));
    assert_eq!(ClassicNetworkDiscrete::new(MAX_NODES + 1, None).err(), Some(NetError::TooLong));
    let short = [1i8, -1, 1];
    assert_eq!(
        ClassicNetworkDiscrete::new(4, Some(&short[..])).err(),
        Some(NetError::WrongLength)
    );
    let odd = [1i8, 0, 1, -1];
    assert_eq!(
        StorkeyLearningNetwork::new(4, Some(&odd[..])).err(),
        Some(NetError::NotBipolar)
    );
}

#[test]
fn hebbian_learning_adds_the_outer_product_off_the_diagonal() {
    let mut net = ClassicNetworkDiscrete::new(4, None).unwrap();
    assert_eq!(net.learn(&[1, -1, 1, -1]), Ok(()));
    assert_eq!(
        net.get_weights(),
        vec![
            vec![0, -1, 1, -1],
            vec![-1, 0, -1, 1],
            vec![1, -1, 0, -1],
            vec![-1, 1, -1, 0],
        ]
    );
}

#[test]
fn hebbian_learning_accumulates_without_normalising() {
    let mut net = ClassicNetworkDiscrete::new(4, None).unwrap();
    net.learn(&[1, 1, -1, -1]).unwrap();
    net.learn(&[1, 1, -1, -1]).unwrap();
    net.learn(&[1, -1, 1, -1]).unwrap();
    assert_eq!(
        net.get_weights(),
        vec![
            vec![0, 1, -1, -3],
            vec![1, 0, -3, -1],
            vec![-1, -3, 0, 1],
            vec![-3, -1, 1, 0],
        ]
    );
}

#[test]
fn hebbian_weights_stay_symmetric() {
    let mut net = ClassicNetworkDiscrete::new(6, None).unwrap();
    let patterns: [[i8; 6]; 4] = [
        [1, -1, 1, 1, -1, -1],
        [-1, -1, 1, -1, 1, 1],
        [1, 1, 1, -1, -1, 1],
        [1, -1, -1, -1, 1, -1],
    ];
    for p in patterns.iter() {
        net.learn(p).unwrap();
        let w = net.get_weights();
        for i in 0..6 {
            assert_eq!(w[i][i], 0);
            for j in 0..6 {
                assert_eq!(w[i][j], w[j][i]);
            }
        }
    }
}

#[test]
fn learn_refuses_wrong_length_and_non_bipolar_patterns() {
    let mut net = ClassicNetworkDiscrete::new(4, None).unwrap();
    assert_eq!(net.learn(&[1, -1, 1]), Err(NetError::WrongLength));
    assert_eq!(net.learn(&[1, -1, 2, 1]), Err(NetError::NotBipolar));
    assert_eq!(net.get_weights(), zeros(4));
    let mut storkey = StorkeyLearningNetwork::new(4, None).unwrap();
    assert_eq!(storkey.learn(&[1, -1, 1, 1, 1]), Err(NetError::WrongLength));
    assert_eq!(storkey.learn(&[0, -1, 1, 1]), Err(NetError::NotBipolar));
    assert_eq!(storkey.get_weights(), zeros(4));
}

#[test]
fn storkey_first_pattern_gives_scaled_outer_product() {
    let mut net = StorkeyLearningNetwork::new(4, None).unwrap();
    net.learn(&[1, 1, -1, -1]).unwrap();
    let a = STORKEY_SCALE / 4;
    assert_eq!(a, 262144);
    assert_eq!(
        net.get_weights(),
        vec![
            vec![a, a, -a, -a],
            vec![a, a, -a, -a],
            vec![-a, -a, a, a],
            vec![-a, -a, a, a],
        ]
    );
}

#[test]
fn storkey_second_pattern_applies_crosstalk_corrections() {
    let mut net = StorkeyLearningNetwork::new(4, None).unwrap();
    net.learn(&[1, 1, -1, -1]).unwrap();
    net.learn(&[1, -1, 1, -1]).unwrap();
    assert_eq!(
        net.get_weights(),
        vec![
            vec![655360, 0, 0, -786432],
            vec![0, 655360, -786432, 0],
            vec![0, -786432, 655360, 0],
            vec![-786432, 0, 0, 655360],
        ]
    );
}

#[test]
fn storkey_single_pattern_is_a_fixed_point() {
    let p: Vec<i8> = vec![1, -1, -1, 1, 1, -1, 1, -1, -1];
    let mut net = StorkeyLearningNetwork::new(p.len(), None).unwrap();
    net.learn(&p).unwrap();
    net.set_state(&p).unwrap();
    for _ in 0..3 * p.len() {
        let (changed, state) = net.step();
        assert!(!changed);
        assert_eq!(state, p);
    }
}

#[test]
fn hebbian_recalls_a_stored_pattern_from_a_corrupted_one() {
    let p: Vec<i8> = vec![1, -1, 1, -1, 1, -1, 1, -1, 1];
    let mut net = ClassicNetworkDiscrete::new(9, None).unwrap();
    net.learn(&p).unwrap();
    let mut noisy = p.clone();
    noisy[0] = -1;
    noisy[3] = 1;
    net.set_state(&noisy).unwrap();
    for _ in 0..9 {
        net.step();
    }
    assert_eq!(net.get_state(), p);
}

#[test]
fn zero_field_resolves_to_off() {
    let mut net = ClassicNetworkDiscrete::new(4, None).unwrap();
    net.set_state(&[1, -1, -1, -1]).unwrap();
    let mut flips = 0;
    for _ in 0..4 {
        let (changed, _) = net.step();
        if changed {
            flips += 1;
        }
    }
    assert_eq!(flips, 1);
    assert_eq!(net.get_state(), vec![-1, -1, -1, -1]);
}

#[test]
fn a_sweep_updates_every_node_once() {
    // With zero weights every visited node that is on turns off, so a sweep
    // that missed a node, or visited one twice, would leave a node on.
    for n in [4usize, 7, 16, 25] {
        let mut net = ClassicNetworkDiscrete::new(n, None).unwrap();
        net.set_state(&vec![1i8; n]).unwrap();
        for _ in 0..n {
            let (changed, _) = net.step();
            assert!(changed);
        }
        assert_eq!(net.get_state(), vec![-1i8; n]);
    }
}

#[test]
fn zero_weights_and_all_off_never_change() {
    let mut net = StorkeyLearningNetwork::new(5, None).unwrap();
    net.learn(&[1, 1, -1, 1, -1]).unwrap();
    net.reset_weights();
    assert_eq!(net.get_weights(), zeros(5));
    for _ in 0..20 {
        let (changed, state) = net.step();
        assert!(!changed);
        assert_eq!(state, vec![-1i8; 5]);
    }
}

#[test]
fn steps_are_counted_and_restart_on_set_state() {
    let mut net = ClassicNetworkDiscrete::new(4, None).unwrap();
    for _ in 0..10 {
        net.step();
    }
    assert_eq!(net.get_steps(), 10);
    net.set_state(&[1, 1, 1, 1]).unwrap();
    assert_eq!(net.get_steps(), 0);
}

#[test]
fn set_state_round_trips() {
    let x: Vec<i8> = vec![1, -1, -1, 1, 1, 1, -1];
    let mut net = ClassicNetworkDiscrete::new(7, None).unwrap();
    assert_eq!(net.set_state(&x), Ok(()));
    assert_eq!(net.get_state(), x);
}

#[test]
fn set_state_keeps_weights_at_the_same_size() {
    let mut net = ClassicNetworkDiscrete::new(4, None).unwrap();
    net.learn(&[1, -1, 1, -1]).unwrap();
    let before = net.get_weights();
    net.set_state(&[1, 1, 1, 1]).unwrap();
    assert_eq!(net.get_weights(), before);
}

#[test]
fn set_state_of_another_length_resizes_and_clears() {
    let mut net = StorkeyLearningNetwork::new(4, None).unwrap();
    net.learn(&[1, -1, 1, -1]).unwrap();
    let x = vec![1i8; 9];
    net.set_state(&x).unwrap();
    assert_eq!(net.get_state(), x);
    assert_eq!(net.get_weights(), zeros(9));
}

#[test]
fn set_state_refuses_short_and_non_bipolar_states() {
    let mut net = ClassicNetworkDiscrete::new(4, None).unwrap();
    assert_eq!(net.set_state(&[1, -1, 1]), Err(NetError::TooShort));
    assert_eq!(net.set_state(&[1, -1, 1, 3]), Err(NetError::NotBipolar));
    assert_eq!(net.get_state(), vec![-1, -1, -1, -1]);
}

#[test]
fn init_sets_the_given_state_or_a_random_one() {
    let mut net = ClassicNetworkDiscrete::new(64, None).unwrap();
    net.step();
    assert_eq!(net.init(Some(&[1, 1, 1][..])), Err(NetError::WrongLength));
    let mut given = vec![-1i8; 64];
    given[5] = 1;
    assert_eq!(net.init(Some(given.as_slice())), Ok(()));
    assert_eq!(net.get_state(), given);
    assert_eq!(net.get_steps(), 0);
    assert_eq!(net.init(None), Ok(()));
    let state = net.get_state();
    assert_eq!(state.len(), 64);
    assert!(state.iter().all(|v| *v == 1 || *v == -1));
    assert!(state.iter().any(|v| *v == 1));
    assert!(state.iter().any(|v| *v == -1));
}

#[test]
fn refill_gives_each_index_once_in_random_order() {
    let mut queue = vec![7usize, 7, 7];
    let mut shuffled = false;
    for _ in 0..5 {
        reset_nodes_to_update(&mut queue, 100);
        let mut sorted = queue.clone();
        sorted.sort();
        assert_eq!(sorted, (0..100).collect::<Vec<usize>>());
        if queue != sorted {
            shuffled = true;
        }
    }
    assert!(shuffled);
}

#[test]
fn classic_network_text_shows_the_grid() {
    let net = ClassicNetworkDiscrete::new(4, Some(&[1, -1, -1, 1][..])).unwrap();
    assert_eq!(net.to_string(), "state:\n\u{25FC}\u{25FB}\n\u{25FB}\u{25FC}\n");
}
