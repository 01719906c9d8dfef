//! The step executor's decisions. The steps of a library are run in the order
//! of their declaration, the commands of a step in the order in which they
//! are written, one at a time. A command that fails ends the run of its
//! library, unless the run is told to continue on failure. A step without
//! commands is passed over and worth a warning.
//!
//! The executor runs nothing itself. Its caller asks it what to do, does it,
//! and reports how it went.

use vstd::prelude::*;
use crate::config::{step_at, step_count, step_entries, Library, LibraryView};

verus! {

/// What the caller is to do next.
#[derive(Clone, Copy, Debug, PartialEq, Eq, Structural)]
pub enum Action {
    /// Run this command of this step, both given by their index, and report
    /// how it went.
    Run { step: usize, command: usize },
    /// Warn that this step has no commands, and go on.
    SkipEmptyStep { step: usize },
    /// Nothing is left to do for this library.
    Finished,
}

/// The executor's state for one library.
pub struct Executor {
    counts: Vec<usize>,
    continue_on_fail: bool,
    step: usize,
    command: usize,
    awaiting: bool,
    halted: bool,
}

/// An executor as a mathematical value.
pub struct ExecutorView {
    /// The number of commands of each step.
    pub shape: Seq<nat>,
    /// Whether a failure is passed over.
    pub continue_on_fail: bool,
    /// The step and the command at which the run stands.
    pub step: nat,
    pub command: nat,
    /// Whether that command has been handed out and its outcome is due.
    pub awaiting: bool,
    /// Whether a failure has ended the run.
    pub halted: bool,
}

/// The number of commands of each step of `library`.
pub open spec fn shape_of(library: LibraryView) -> Seq<nat> {
    Seq::new(library.steps.len(), |i: int| library.steps[i].1.len())
}

/// The state before anything is run.
pub open spec fn initial(shape: Seq<nat>, continue_on_fail: bool) -> ExecutorView {
    ExecutorView { shape, continue_on_fail, step: 0, command: 0, awaiting: false, halted: false }
}

/// The state after the outcome of the command that was handed out. Where
/// none was handed out, the report changes nothing.
pub open spec fn reported(state: ExecutorView, succeeded: bool) -> ExecutorView {
    if !state.awaiting {
        state
    } else if !succeeded && !state.continue_on_fail {
        ExecutorView { awaiting: false, halted: true, ..state }
    } else if state.step < state.shape.len() && state.command + 1 < state.shape[state.step as int] {
        ExecutorView { command: state.command + 1, awaiting: false, ..state }
    } else {
        ExecutorView { step: state.step + 1, command: 0, awaiting: false, ..state }
    }
}

/// What is to be done in `state`, and the state after the decision.
pub open spec fn decided(state: ExecutorView) -> (ExecutorView, Action) {
    if state.halted || state.step >= state.shape.len() {
        (state, Action::Finished)
    } else if state.shape[state.step as int] == 0 {
        (
            ExecutorView { step: state.step + 1, command: 0, awaiting: false, ..state },
            Action::SkipEmptyStep { step: state.step as usize },
        )
    } else {
        (
            ExecutorView { awaiting: true, ..state },
            Action::Run { step: state.step as usize, command: state.command as usize },
        )
    }
}

/// What is to be done once `last` is known, and the state after that.
pub open spec fn advanced(state: ExecutorView, last: Option<bool>) -> (ExecutorView, Action) {
    match last {
        Some(succeeded) => decided(reported(state, succeeded)),
        None => decided(state),
    }
}

/// The state stands within its shape: at a command of a step, at the
/// beginning of a step, or behind the last step.
pub open spec fn in_shape(state: ExecutorView) -> bool {
    &&& state.step <= state.shape.len()
    &&& state.step < state.shape.len() ==> state.command == 0 || state.command
        < state.shape[state.step as int]
    &&& state.step == state.shape.len() ==> state.command == 0
    &&& state.awaiting ==> state.step < state.shape.len() && state.command
        < state.shape[state.step as int]
}

/// The commands of `shape` from command `command` of step `step` on, in the
/// order of the steps and, within a step, of the commands: each as the index of
/// its step and its own index in the step.
pub open spec fn commands_from(shape: Seq<nat>, step: nat, command: nat) -> Seq<(nat, nat)>
    decreases shape.len() - step, (if step < shape.len() {
        shape[step as int] - command
    } else {
        0
    }),
{
    if step >= shape.len() {
        Seq::empty()
    } else if command < shape[step as int] {
        seq![(step, command)] + commands_from(shape, step, command + 1)
    } else {
        commands_from(shape, step + 1, 0)
    }
}

/// All commands of `shape`, in the order in which they are to be run.
pub open spec fn all_commands(shape: Seq<nat>) -> Seq<(nat, nat)> {
    commands_from(shape, 0, 0)
}

/// The number of outcomes before the first failure.
pub open spec fn successes_before_failure(outcomes: Seq<bool>) -> nat
    decreases outcomes.len(),
{
    if outcomes.len() == 0 || !outcomes[0] {
        0
    } else {
        1 + successes_before_failure(outcomes.drop_first())
    }
}

/// The commands that are run from `state` on, in order, where the caller does
/// what it is told, the commands end as `outcomes` says, one after the other,
/// and the caller stops when it has run a command of which `outcomes` does not
/// tell the end.
pub open spec fn run_from(state: ExecutorView, outcomes: Seq<bool>) -> Seq<(nat, nat)>
    decreases outcomes.len(), state.shape.len() - state.step,
{
    let (next, action) = decided(state);
    match action {
        Action::Finished => Seq::empty(),
        Action::SkipEmptyStep { .. } => run_from(next, outcomes),
        Action::Run { .. } => if outcomes.len() == 0 {
            seq![(state.step, state.command)]
        } else {
            seq![(state.step, state.command)] + run_from(
                reported(next, outcomes[0]),
                outcomes.drop_first(),
            )
        },
    }
}

/// The first `n` of `commands`, or all of them where they are fewer.
pub open spec fn first_of(commands: Seq<(nat, nat)>, n: nat) -> Seq<(nat, nat)> {
    if n <= commands.len() {
        commands.take(n as int)
    } else {
        commands
    }
}

/// The number of commands after which the run is over: all outcomes are
/// passed where the run continues on failure, else those before the first
/// failure; and one command more is run.
pub open spec fn reach(outcomes: Seq<bool>, continue_on_fail: bool) -> nat {
    if continue_on_fail {
        outcomes.len() + 1
    } else {
        successes_before_failure(outcomes) + 1
    }
}

proof fn lemma_run_from(state: ExecutorView, outcomes: Seq<bool>)
    requires
        in_shape(state),
        !state.awaiting,
        !state.halted,
    ensures
        run_from(state, outcomes) == first_of(
            commands_from(state.shape, state.step, state.command),
            reach(outcomes, state.continue_on_fail),
        ),
    decreases outcomes.len(), state.shape.len() - state.step,
{
    let (next, action) = decided(state);
    let ahead = commands_from(state.shape, state.step, state.command);
    if state.step >= state.shape.len() {
    } else if state.shape[state.step as int] == 0 {
        lemma_run_from(next, outcomes);
    } else {
        let first = (state.step, state.command);
        let rest = commands_from(state.shape, state.step, state.command + 1);
        assert(ahead == seq![first] + rest);
        if outcomes.len() == 0 {
            assert(ahead.take(1) =~= seq![first]);
        } else if !outcomes[0] && !state.continue_on_fail {
            assert(ahead.take(1) =~= seq![first]);
            assert(reported(next, outcomes[0]).halted);
            assert(run_from(reported(next, outcomes[0]), outcomes.drop_first()) =~= Seq::<
                (nat, nat),
            >::empty());
        } else {
            let after = reported(next, outcomes[0]);
            let later = outcomes.drop_first();
            assert(commands_from(after.shape, after.step, after.command) == rest);
            lemma_run_from(after, later);
            let n = reach(later, state.continue_on_fail);
            assert(reach(outcomes, state.continue_on_fail) == n + 1);
            if n <= rest.len() {
                assert(ahead.take(n as int + 1) =~= seq![first] + rest.take(n as int));
            }
        }
    }
}

/// A run goes through the commands in their order and ends with the first
/// command that fails; where it is told to continue on failure, it ends with
/// the last command, however the commands end.
pub proof fn lemma_run_ends_with_first_failure(
    shape: Seq<nat>,
    continue_on_fail: bool,
    outcomes: Seq<bool>,
)
    ensures
        run_from(initial(shape, continue_on_fail), outcomes) == first_of(
            all_commands(shape),
            reach(outcomes, continue_on_fail),
        ),
        continue_on_fail && outcomes.len() >= all_commands(shape).len() ==> run_from(
            initial(shape, continue_on_fail),
            outcomes,
        ) == all_commands(shape),
{
    lemma_run_from(initial(shape, continue_on_fail), outcomes);
}

impl View for Executor {
    type V = ExecutorView;

    closed spec fn view(&self) -> ExecutorView {
        ExecutorView {
            shape: Seq::new(self.counts@.len(), |i: int| self.counts@[i] as nat),
            continue_on_fail: self.continue_on_fail,
            step: self.step as nat,
            command: self.command as nat,
            awaiting: self.awaiting,
            halted: self.halted,
        }
    }
}

impl Executor {
    #[verifier::type_invariant]
    spec fn well_formed(self) -> bool {
        in_shape(self@)
    }

    /// An executor for `library`, before anything is run.
    pub fn new(library: &Library, continue_on_fail: bool) -> (executor: Executor)
        ensures
            executor@ == initial(shape_of(library@), continue_on_fail),
    {
        let count = step_count(&library.steps);
        let ghost steps = step_entries(library.steps);
        let mut counts: Vec<usize> = Vec::new();
        let mut i: usize = 0;
        while i < count
            invariant
                steps == step_entries(library.steps),
                count == steps.len(),
                i <= count,
                counts.len() == i,
                forall|j: int| 0 <= j < i ==> counts@[j] == (#[trigger] steps[j]).1.len(),
            decreases count - i,
        {
            match step_at(&library.steps, i) {
                Some((_, commands)) => {
                    counts.push(commands.len());
                },
                None => {
                    counts.push(0);
                },
            }
            i += 1;
        }
        let executor = Executor {
            counts,
            continue_on_fail,
            step: 0,
            command: 0,
            awaiting: false,
            halted: false,
        };
        assert(executor@.shape =~= shape_of(library@));
        executor
    }

    /// What to do next. `last` is the outcome of the command that was handed
    /// out by the call before, where that call handed one out: whether it
    /// succeeded.
    pub fn advance(&mut self, last: Option<bool>) -> (action: Action)
        ensures
            (final(self)@, action) == advanced(old(self)@, last),
    {
        proof {
            use_type_invariant(&*self);
        }
        if let Some(succeeded) = last {
            if self.awaiting {
                assert(self.step < self.counts.len());
                if !succeeded && !self.continue_on_fail {
                    self.halted = true;
                } else if self.command + 1 < self.counts[self.step] {
                    self.command = self.command + 1;
                } else {
                    self.command = 0;
                    self.awaiting = false;
                    self.step = self.step + 1;
                }
                self.awaiting = false;
            }
        }
        if self.halted || self.step >= self.counts.len() {
            Action::Finished
        } else if self.counts[self.step] == 0 {
            let step = self.step;
            self.step = self.step + 1;
            Action::SkipEmptyStep { step }
        } else {
            self.awaiting = true;
            Action::Run { step: self.step, command: self.command }
        }
    }
}

} // verus!
