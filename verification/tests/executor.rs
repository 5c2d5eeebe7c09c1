use boost::errors::Error;
use boost::executor::{TaskPlan, exit_outcome, plan_task};

#[test]
fn hit_replays_and_never_executes() {
    assert_eq!(plan_task(true, false), TaskPlan::Replay { restore_outputs: false });
    assert_eq!(plan_task(true, true), TaskPlan::Replay { restore_outputs: true });
}

#[test]
fn miss_executes_and_captures_declared_outputs() {
    assert_eq!(plan_task(false, false), TaskPlan::Execute { capture_outputs: false });
    assert_eq!(plan_task(false, true), TaskPlan::Execute { capture_outputs: true });
}

#[test]
fn zero_exit_succeeds() {
    assert_eq!(exit_outcome(0), Ok(()));
}

#[test]
fn nonzero_exit_is_command_failed() {
    assert_eq!(exit_outcome(3), Err(Error::CommandFailed(3)));
    assert_eq!(exit_outcome(127), Err(Error::CommandFailed(127)));
}
