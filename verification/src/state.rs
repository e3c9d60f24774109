use vstd::prelude::*;

verus! {

/// Lifecycle shared by every actor: a service is created, is issued its
/// instructions, executes them, and ends in exactly one of two terminal
/// states — completed, or failed with a reason it never leaves again.
#[allow(non_camel_case_types)]
#[derive(Debug)]
pub enum State {
    CREATED,
    ISSUED,
    EXECUTING,
    COMPLETED,
    FAILED(String),
}

impl State {
    /// A terminal state is never left by any later cycle.
    pub open spec fn is_terminal(self) -> bool {
        self is COMPLETED || self is FAILED
    }
}

impl PartialEq for State {
    fn eq(&self, other: &State) -> (r: bool) {
        match (self, other) {
            (State::CREATED, State::CREATED) => true,
            (State::ISSUED, State::ISSUED) => true,
            (State::EXECUTING, State::EXECUTING) => true,
            (State::COMPLETED, State::COMPLETED) => true,
            (State::FAILED(a), State::FAILED(b)) => a.eq(b),
            _ => false,
        }
    }
}

impl vstd::std_specs::cmp::PartialEqSpecImpl for State {
    open spec fn obeys_eq_spec() -> bool {
        true
    }

    open spec fn eq_spec(&self, other: &State) -> bool {
        match (self, other) {
            (State::CREATED, State::CREATED) => true,
            (State::ISSUED, State::ISSUED) => true,
            (State::EXECUTING, State::EXECUTING) => true,
            (State::COMPLETED, State::COMPLETED) => true,
            (State::FAILED(a), State::FAILED(b)) => a@ == b@,
            _ => false,
        }
    }
}

} // verus!
