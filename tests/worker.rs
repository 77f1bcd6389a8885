use hopfield_nets::foreground::{FrameUpdate, SKIP_BUDGET};
use hopfield_nets::hop_net::{state_vec_to_string, NetworkCommand, NetworkResponse, NetworkType};
use hopfield_nets::net_core::NetError;
use hopfield_nets::thread_utils::{handle_message, speed_interval, CommandError, WorkerState};
use hopfield_nets::utilities::EditableValue;

fn worker(kind: NetworkType, state: Vec<i8>) -> WorkerState {
    WorkerState::new(kind, &state, 10).unwrap()
}

#[test]
fn speed_maps_to_whole_milliseconds() {
    assert_eq!(speed_interval(10), Ok(100));
    assert_eq!(speed_interval(1000), Ok(1));
    assert_eq!(speed_interval(3), Ok(333));
    assert_eq!(speed_interval(2000), Ok(0));
    assert_eq!(speed_interval(0), Err(CommandError::Config));
}

#[test]
fn set_speed_command_changes_the_interval() {
    let mut w = worker(NetworkType::SquareDiscrete, vec![-1; 4]);
    assert_eq!(w.interval_ms(), 100);
    assert_eq!(handle_message(&mut w, NetworkCommand::SetSpeed(1000)), Ok(false));
    assert_eq!(w.interval_ms(), 1);
    assert_eq!(
        handle_message(&mut w, NetworkCommand::SetSpeed(0)),
        Err(CommandError::Config)
    );
    assert_eq!(w.interval_ms(), 1);
}

#[test]
fn new_worker_validates_its_start() {
    assert_eq!(
        WorkerState::new(NetworkType::SquareDiscrete, &[1, -1], 10).err(),
        Some(CommandError::Validation(NetError::TooShort))
    );
    assert_eq!(
        WorkerState::new(NetworkType::SquareDiscrete, &[1, -1, 5, 1], 10).err(),
        Some(CommandError::Validation(NetError::NotBipolar))
    );
    assert_eq!(
        WorkerState::new(NetworkType::StorkeySquareDiscrete, &[1, -1, 1, 1], 0).err(),
        Some(CommandError::Config)
    );
    let w = worker(NetworkType::StorkeySquareDiscrete, vec![1, -1, 1, 1]);
    assert!(!w.is_stepping());
    assert!(w.waits_for_command());
    assert_eq!(w.network_type(), NetworkType::StorkeySquareDiscrete);
    assert_eq!(w.get_state(), vec![1, -1, 1, 1]);
}

#[test]
fn idle_worker_does_not_step() {
    let mut w = worker(NetworkType::SquareDiscrete, vec![1, 1, 1, 1]);
    assert!(w.advance().is_none());
    assert_eq!(w.get_state(), vec![1, 1, 1, 1]);
    assert_eq!(w.get_steps(), 0);
}

#[test]
fn equilibrium_stops_exactly_once_after_more_than_n_quiet_steps() {
    let n = 6;
    let mut w = worker(NetworkType::SquareDiscrete, vec![-1; n]);
    handle_message(&mut w, NetworkCommand::ResetWeights).unwrap();
    assert_eq!(handle_message(&mut w, NetworkCommand::Go), Ok(false));
    assert!(!w.waits_for_command());
    for k in 0..n {
        assert_eq!(w.advance(), Some(NetworkResponse::Heartbeat));
        assert_eq!(w.no_change_streak(), k + 1);
    }
    assert_eq!(w.advance(), Some(NetworkResponse::Stopped));
    assert!(!w.is_stepping());
    for _ in 0..5 {
        assert_eq!(w.advance(), None);
    }
}

#[test]
fn a_flip_announces_the_state_and_restarts_the_streak() {
    let mut w = worker(NetworkType::SquareDiscrete, vec![1, -1, -1, -1]);
    handle_message(&mut w, NetworkCommand::Go).unwrap();
    let mut announced = 0;
    let mut stopped = 0;
    for _ in 0..20 {
        match w.advance() {
            Some(NetworkResponse::NewState(s)) => {
                assert_eq!(s, vec![-1, -1, -1, -1]);
                assert_eq!(w.no_change_streak(), 0);
                announced += 1;
            }
            Some(NetworkResponse::Stopped) => stopped += 1,
            _ => {}
        }
    }
    assert_eq!(announced, 1);
    assert_eq!(stopped, 1);
}

#[test]
fn stop_and_go_switch_stepping() {
    let mut w = worker(NetworkType::SquareDiscrete, vec![-1; 4]);
    handle_message(&mut w, NetworkCommand::Go).unwrap();
    assert!(w.is_stepping());
    w.advance();
    assert_eq!(handle_message(&mut w, NetworkCommand::Stop), Ok(false));
    assert!(!w.is_stepping());
    assert_eq!(handle_message(&mut w, NetworkCommand::Empty), Ok(false));
    assert!(!w.is_stepping());
}

#[test]
fn learn_command_folds_the_pattern_in() {
    let mut w = worker(NetworkType::SquareDiscrete, vec![-1; 4]);
    assert_eq!(
        handle_message(&mut w, NetworkCommand::Learn(vec![1, 1, -1, -1])),
        Ok(false)
    );
    assert_eq!(
        w.get_weights(),
        vec![
            vec![0, 1, -1, -1],
            vec![1, 0, -1, -1],
            vec![-1, -1, 0, 1],
            vec![-1, -1, 1, 0],
        ]
    );
    assert_eq!(
        handle_message(&mut w, NetworkCommand::Learn(vec![1, 1])),
        Err(CommandError::Validation(NetError::WrongLength))
    );
}

#[test]
fn set_state_command_replaces_and_validates() {
    let mut w = worker(NetworkType::StorkeySquareDiscrete, vec![-1; 4]);
    assert_eq!(
        handle_message(&mut w, NetworkCommand::SetState(vec![1, -1, 1, -1, 1])),
        Ok(false)
    );
    assert_eq!(w.get_state(), vec![1, -1, 1, -1, 1]);
    assert_eq!(
        handle_message(&mut w, NetworkCommand::SetState(vec![1, -1, 1])),
        Err(CommandError::Validation(NetError::TooShort))
    );
    assert_eq!(w.get_state(), vec![1, -1, 1, -1, 1]);
}

#[test]
fn change_type_mid_run_clears_weights_and_keeps_size() {
    let mut w = worker(NetworkType::SquareDiscrete, vec![1, -1, 1, -1, 1, -1, 1, -1, 1]);
    handle_message(&mut w, NetworkCommand::Learn(vec![1, -1, 1, -1, 1, -1, 1, -1, 1])).unwrap();
    handle_message(&mut w, NetworkCommand::Go).unwrap();
    w.advance();
    assert_eq!(
        handle_message(
            &mut w,
            NetworkCommand::ChangeNetType(NetworkType::StorkeySquareDiscrete)
        ),
        Ok(true)
    );
    assert_eq!(w.network_type(), NetworkType::StorkeySquareDiscrete);
    assert_eq!(w.get_weights(), vec![vec![0i64; 9]; 9]);
    assert_eq!(w.get_state().len(), 9);
    assert!(w.is_stepping());
}

#[test]
fn network_type_names() {
    assert_eq!(NetworkType::StorkeySquareDiscrete.to_string(), "StorkeySquareDiscrete");
    assert_eq!(NetworkType::SquareDiscrete.to_string(), "HebbianSquareDiscrete");
}

#[test]
fn responses_report_their_kind() {
    assert!(NetworkResponse::NewState(vec![1]).is_some());
    assert!(NetworkResponse::Stopped.is_some());
    assert!(NetworkResponse::Heartbeat.is_none());
    assert!(!NetworkResponse::Stopped.is_none());
    assert_eq!(NetworkResponse::NewState(vec![1, -1]).unwrap(), vec![1, -1]);
}

#[test]
fn square_states_are_drawn_as_a_grid() {
    assert_eq!(
        state_vec_to_string(&[1, -1, -1, 1]),
        "\u{25FC}\u{25FB}\n\u{25FB}\u{25FC}\n"
    );
    assert_eq!(
        state_vec_to_string(&[1, 1, 1, -1, -1, -1, 1, -1, 1]),
        "\u{25FC}\u{25FC}\u{25FC}\n\u{25FB}\u{25FB}\u{25FB}\n\u{25FC}\u{25FB}\u{25FC}\n"
    );
}

#[test]
fn other_states_are_drawn_on_one_line() {
    assert_eq!(
        state_vec_to_string(&[1, -1, -1, 1, 1]),
        "\u{25FC}\u{25FB}\u{25FB}\u{25FC}\u{25FC}"
    );
    assert_eq!(state_vec_to_string(&[]), "");
}

#[test]
fn editable_value_starts_unchanged() {
    let v = EditableValue::new(42u64);
    assert_eq!(v.value, 42);
    assert!(!v.changed);
}

#[test]
fn a_frame_keeps_the_newest_state() {
    let mut frame = FrameUpdate::new();
    assert!(frame.wants_more());
    frame.absorb(NetworkResponse::NewState(vec![1, -1, -1, -1]));
    frame.absorb(NetworkResponse::Heartbeat);
    frame.absorb(NetworkResponse::NewState(vec![-1, -1, -1, -1]));
    frame.absorb(NetworkResponse::Rejected(CommandError::Config));
    assert_eq!(frame.state, Some(vec![-1, -1, -1, -1]));
    assert!(!frame.stopped);
    assert_eq!(frame.rejected, Some(CommandError::Config));
    frame.absorb(NetworkResponse::Stopped);
    assert!(frame.stopped);
    assert_eq!(frame.received, 5);
}

#[test]
fn a_frame_reads_at_most_its_budget() {
    let mut frame = FrameUpdate::new();
    let mut read = 0;
    while frame.wants_more() {
        frame.absorb(NetworkResponse::Heartbeat);
        read += 1;
    }
    assert_eq!(read, SKIP_BUDGET);
}
