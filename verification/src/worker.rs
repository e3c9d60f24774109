use vstd::prelude::*;

verus! {

/// What a worker machine asks its driving loop to perform after a cycle.
///
/// The machines own no transport: the loop performs the requested action
/// against the real channels (or against in-memory ones) and hands the
/// result back as the next cycle's event.
#[derive(Debug, Clone, Copy, PartialEq, Eq, Structural)]
pub enum WorkerDirective {
    /// Nothing to perform; poll again on a later cycle, or stop if the
    /// machine is terminal.
    Idle,
    /// Send the role's acknowledgment marker, then report the outcome as a
    /// send-outcome event.
    SendAck,
    /// Perform the role's preamble: wait the given number of seconds, then
    /// report that the wait elapsed.
    Wait(u64),
    /// Perform the unit of work for the given number of seconds, then send
    /// the completion marker and report the outcome as a send-outcome
    /// event.
    Work(u64),
}

} // verus!
