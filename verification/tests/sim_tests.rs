//! Simulation run state.

use velos::sim::SimState;

#[test]
fn only_running_state_advances() {
    assert!(SimState::Running.is_running());
    assert!(!SimState::Paused.is_running());
    assert!(!SimState::Stopped.is_running());
}
