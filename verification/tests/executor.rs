use clg::config::Library;
use clg::executor::{Action, Executor};
use indexmap::IndexMap;

fn library(steps: &[(&str, &[&str])]) -> Library {
    let mut map = IndexMap::new();
    for (name, commands) in steps {
        map.insert(name.to_string(), commands.iter().map(|c| c.to_string()).collect());
    }
    Library { source: String::new(), commit: String::new(), variables: IndexMap::new(), steps: map }
}

/// Drives the executor as a caller would; the commands end as `outcomes` says.
fn drive(library: &Library, continue_on_fail: bool, outcomes: &[bool]) -> Vec<Action> {
    let mut executor = Executor::new(library, continue_on_fail);
    let mut actions = Vec::new();
    let mut last = None;
    let mut run = 0;
    loop {
        let action = executor.advance(last);
        actions.push(action);
        match action {
            Action::Finished => return actions,
            Action::SkipEmptyStep { .. } => last = None,
            Action::Run { .. } => {
                last = Some(outcomes[run]);
                run += 1;
            }
        }
    }
}

fn run(step: usize, command: usize) -> Action {
    Action::Run { step, command }
}

#[test]
fn failure_ends_the_run_of_the_library() {
    let library = library(&[("build", &["one", "two", "three"]), ("test", &["four"])]);
    assert_eq!(
        drive(&library, false, &[true, false]),
        vec![run(0, 0), run(0, 1), Action::Finished]
    );
}

#[test]
fn failure_is_passed_over_where_the_run_continues_on_failure() {
    let library = library(&[("build", &["one", "two", "three"]), ("test", &["four"])]);
    assert_eq!(
        drive(&library, true, &[true, false, true, false]),
        vec![run(0, 0), run(0, 1), run(0, 2), run(1, 0), Action::Finished]
    );
}

#[test]
fn all_commands_run_where_none_fails() {
    let library = library(&[("a", &["1"]), ("b", &["2", "3"]), ("c", &["4"])]);
    for continue_on_fail in [false, true] {
        assert_eq!(
            drive(&library, continue_on_fail, &[true, true, true, true]),
            vec![run(0, 0), run(1, 0), run(1, 1), run(2, 0), Action::Finished]
        );
    }
}

#[test]
fn failure_of_the_first_command_ends_the_run_at_once() {
    let library = library(&[("a", &["1", "2"]), ("b", &["3"])]);
    assert_eq!(drive(&library, false, &[false]), vec![run(0, 0), Action::Finished]);
}

#[test]
fn failure_of_the_last_command_of_a_step_ends_the_later_steps() {
    let library = library(&[("a", &["1", "2"]), ("b", &["3"])]);
    assert_eq!(drive(&library, false, &[true, false]), vec![run(0, 0), run(0, 1), Action::Finished]);
}

#[test]
fn step_without_commands_is_passed_over() {
    let library = library(&[("none", &[]), ("a", &["1"]), ("void", &[]), ("gap", &[]), ("b", &["2"])]);
    assert_eq!(
        drive(&library, false, &[true, true]),
        vec![
            Action::SkipEmptyStep { step: 0 },
            run(1, 0),
            Action::SkipEmptyStep { step: 2 },
            Action::SkipEmptyStep { step: 3 },
            run(4, 0),
            Action::Finished,
        ]
    );
}

#[test]
fn steps_after_a_failure_are_not_even_warned_about() {
    let library = library(&[("a", &["1"]), ("void", &[]), ("b", &["2"])]);
    assert_eq!(drive(&library, false, &[false]), vec![run(0, 0), Action::Finished]);
}

#[test]
fn library_without_steps_is_finished_at_once() {
    let library = library(&[]);
    assert_eq!(drive(&library, false, &[]), vec![Action::Finished]);
}

#[test]
fn finished_executor_stays_finished() {
    let library = library(&[("a", &["1"])]);
    let mut executor = Executor::new(&library, false);
    assert_eq!(executor.advance(None), run(0, 0));
    assert_eq!(executor.advance(Some(false)), Action::Finished);
    assert_eq!(executor.advance(None), Action::Finished);
    assert_eq!(executor.advance(Some(true)), Action::Finished);
}

#[test]
fn outcome_that_is_not_due_changes_nothing() {
    let library = library(&[("a", &["1", "2"])]);
    let mut executor = Executor::new(&library, false);
    assert_eq!(executor.advance(Some(false)), run(0, 0));
    assert_eq!(executor.advance(Some(true)), run(0, 1));
}

#[test]
fn command_without_outcome_is_handed_out_again() {
    let library = library(&[("a", &["1", "2"])]);
    let mut executor = Executor::new(&library, true);
    assert_eq!(executor.advance(None), run(0, 0));
    assert_eq!(executor.advance(None), run(0, 0));
    assert_eq!(executor.advance(Some(false)), run(0, 1));
    assert_eq!(executor.advance(Some(false)), Action::Finished);
}
