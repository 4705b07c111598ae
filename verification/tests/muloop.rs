use perple::utils::muloop::LoopMode;
use perple::utils::muloop::LoopState;

#[test]
fn count_policy_runs_exactly_n_times() {
    let mut state = LoopState::new(LoopMode::Count(5));
    let mut actions: usize = 0;
    while state.should_run(0) {
        actions += 1;
        state.record_iteration();
    }
    assert_eq!(actions, 5);
    assert!(!state.should_run(0));
    assert!(!state.should_run(1_000_000));
}

#[test]
fn count_policy_stopped_early_runs_fewer_times() {
    let mut state = LoopState::new(LoopMode::Count(5));
    let mut actions: usize = 0;
    while state.should_run(0) {
        actions += 1;
        state.record_iteration();
        if actions == 2 {
            state.request_stop();
        }
    }
    assert_eq!(actions, 2);
}

#[test]
fn duration_policy_checks_the_clock_before_each_iteration() {
    let mut state = LoopState::new(LoopMode::Duration(100));
    assert!(state.should_run(0));
    assert!(state.should_run(99));
    state.record_iteration();
    assert!(state.should_run(99));
    assert!(!state.should_run(100));
    assert!(!state.should_run(5_000));
}

#[test]
fn continuous_policy_runs_until_stopped() {
    let mut state = LoopState::new(LoopMode::Continuous);
    for ms in [0u64, 10, 1_000_000_000] {
        assert!(state.should_run(ms));
    }
    for _ in 0..3 {
        state.record_iteration();
    }
    assert!(state.should_run(u64::MAX));
    state.request_stop();
    assert!(!state.should_run(0));
    assert!(!state.should_run(u64::MAX));
    // Stopping again is a no-op.
    state.request_stop();
    assert!(!state.should_run(0));
}
