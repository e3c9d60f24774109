use vstd::prelude::*;
use crate::msgs::PrepareCommand;
use crate::state::State;
use crate::steps::FoodItem;
use crate::worker::WorkerDirective;

verus! {

/// An event handed to the prep chef by its driving loop: the result of the
/// poll or send the machine last requested, or the end of a wait.
#[derive(Debug)]
pub enum PrepEvent {
    /// Result of a single poll of the prepare-command channel.
    Poll(Option<PrepareCommand>),
    /// Outcome of the send the machine last requested (acknowledgment or
    /// completion marker); an error carries the transport's reason.
    SendOutcome(Result<(), String>),
    /// The requested wait has elapsed.
    Elapsed,
}

/// Seconds of setup the prep role needs before working on the given item.
pub open spec fn prep_preamble_secs(item: FoodItem) -> u64 {
    match item {
        FoodItem::CHICKEN => 2,
        FoodItem::SALMON => 3,
    }
}

/// Seconds the prep role's unit of work takes for the given item.
pub open spec fn prep_work_secs(item: FoodItem) -> u64 {
    match item {
        FoodItem::CHICKEN => 5,
        FoodItem::SALMON => 3,
    }
}

/// The prep chef: receives a prepare command, acknowledges it, performs
/// the preparation, and emits a completion marker.  All transport is done
/// by the driving loop; the machine only transitions.
pub struct PrepChefService {
    /// The item carried by the received command, once one has arrived.
    pub prep_item: Option<FoodItem>,
    /// Where in its lifecycle this worker stands.
    pub service_state: State,
}

impl PrepChefService {
    /// Once instructions have been received, the machine knows its item.
    pub open spec fn wf(self) -> bool {
        self.service_state is ISSUED || self.service_state is EXECUTING
            ==> self.prep_item is Some
    }

    /// The complete transition function of the prep chef: from a machine
    /// and an event to the next machine and the directive handed to the
    /// driving loop.  Any event that the current state does not expect is
    /// ignored, and a terminal state is never left.
    pub open spec fn step_spec(pre: PrepChefService, event: PrepEvent) -> (PrepChefService,
        WorkerDirective) {
        match pre.service_state {
            State::CREATED => match event {
                PrepEvent::Poll(Some(cmd)) => (
                    PrepChefService {
                        prep_item: Some(cmd.item),
                        service_state: State::ISSUED,
                    },
                    WorkerDirective::SendAck,
                ),
                _ => (pre, WorkerDirective::Idle),
            },
            State::ISSUED => match event {
                PrepEvent::SendOutcome(Ok(())) => (
                    pre,
                    WorkerDirective::Wait(prep_preamble_secs(pre.prep_item.unwrap())),
                ),
                PrepEvent::SendOutcome(Err(e)) => (
                    PrepChefService { service_state: State::FAILED(e), ..pre },
                    WorkerDirective::Idle,
                ),
                PrepEvent::Elapsed => (
                    PrepChefService { service_state: State::EXECUTING, ..pre },
                    WorkerDirective::Work(prep_work_secs(pre.prep_item.unwrap())),
                ),
                _ => (pre, WorkerDirective::Idle),
            },
            State::EXECUTING => match event {
                PrepEvent::SendOutcome(Ok(())) => (
                    PrepChefService { service_state: State::COMPLETED, ..pre },
                    WorkerDirective::Idle,
                ),
                PrepEvent::SendOutcome(Err(e)) => (
                    PrepChefService { service_state: State::FAILED(e), ..pre },
                    WorkerDirective::Idle,
                ),
                _ => (pre, WorkerDirective::Idle),
            },
            _ => (pre, WorkerDirective::Idle),
        }
    }

    /// A fresh prep chef awaits instructions.
    pub fn new() -> (r: Self)
        ensures
            r.prep_item is None,
            r.service_state is CREATED,
            r.wf(),
    {
        Self { prep_item: None, service_state: State::CREATED }
    }

    /// Whether this worker has completed its unit of work.
    pub fn check_completed(&self) -> (r: bool)
        ensures
            r == (self.service_state is COMPLETED),
    {
        matches!(self.service_state, State::COMPLETED)
    }

    /// The reason this worker failed, if it did.
    pub fn check_failed(&self) -> (r: Option<&str>)
        ensures
            r is Some <==> self.service_state is FAILED,
            self.service_state matches State::FAILED(m) ==> (r matches Some(s) && s@ == m@),
    {
        if let State::FAILED(error_message) = &self.service_state {
            return Some(error_message.as_str());
        }
        None
    }

    /// One cycle of the worker: consumes the event the driving loop hands
    /// in and requests the next action.  The machine follows `step_spec`
    /// exactly.
    pub fn cycle(&mut self, event: PrepEvent) -> (d: WorkerDirective)
        requires
            old(self).wf(),
        ensures
            (*final(self), d) == Self::step_spec(*old(self), event),
            final(self).wf(),
    {
        match self.service_state {
            State::CREATED => match event {
                PrepEvent::Poll(Some(command)) => {
                    self.prep_item = Some(command.get_item());
                    self.service_state = State::ISSUED;
                    WorkerDirective::SendAck
                },
                _ => WorkerDirective::Idle,
            },
            State::ISSUED => match event {
                PrepEvent::SendOutcome(Ok(())) => {
                    let secs: u64 = match self.prep_item.unwrap() {
                        FoodItem::CHICKEN => 2,
                        FoodItem::SALMON => 3,
                    };
                    WorkerDirective::Wait(secs)
                },
                PrepEvent::SendOutcome(Err(e)) => {
                    self.service_state = State::FAILED(e);
                    WorkerDirective::Idle
                },
                PrepEvent::Elapsed => {
                    self.service_state = State::EXECUTING;
                    let secs: u64 = match self.prep_item.unwrap() {
                        FoodItem::CHICKEN => 5,
                        FoodItem::SALMON => 3,
                    };
                    WorkerDirective::Work(secs)
                },
                _ => WorkerDirective::Idle,
            },
            State::EXECUTING => match event {
                PrepEvent::SendOutcome(Ok(())) => {
                    self.service_state = State::COMPLETED;
                    WorkerDirective::Idle
                },
                PrepEvent::SendOutcome(Err(e)) => {
                    self.service_state = State::FAILED(e);
                    WorkerDirective::Idle
                },
                _ => WorkerDirective::Idle,
            },
            State::COMPLETED => WorkerDirective::Idle,
            State::FAILED(_) => WorkerDirective::Idle,
        }
    }

    /// The machine left after feeding a whole sequence of events, one
    /// cycle each, oldest first.
    pub open spec fn run_spec(pre: PrepChefService, events: Seq<PrepEvent>) -> PrepChefService
        decreases events.len(),
    {
        if events.len() == 0 {
            pre
        } else {
            Self::run_spec(Self::step_spec(pre, events[0]).0, events.drop_first())
        }
    }
}

/// A worker that never receives a command stays in `CREATED` indefinitely
/// and never transitions: any number of cycles whose polls return no
/// message leave the machine exactly as it was.
pub proof fn lemma_prep_no_command_no_transition(pre: PrepChefService, events: Seq<PrepEvent>)
    requires
        pre.service_state is CREATED,
        forall|i: int| 0 <= i < events.len() ==> #[trigger] events[i] matches PrepEvent::Poll(None),
    ensures
        PrepChefService::run_spec(pre, events) == pre,
    decreases events.len(),
{
    if events.len() > 0 {
        assert(events[0] matches PrepEvent::Poll(None));
        assert(PrepChefService::step_spec(pre, events[0]).0 == pre);
        assert(forall|i: int| 0 <= i < events.drop_first().len()
            ==> #[trigger] events.drop_first()[i] matches PrepEvent::Poll(None));
        lemma_prep_no_command_no_transition(pre, events.drop_first());
    }
}

/// A failed worker is terminal: once in `FAILED`, no sequence of further
/// cycles transitions the machine again.
pub proof fn lemma_prep_failed_is_terminal(pre: PrepChefService, events: Seq<PrepEvent>)
    requires
        pre.service_state is FAILED,
    ensures
        PrepChefService::run_spec(pre, events) == pre,
    decreases events.len(),
{
    if events.len() > 0 {
        assert(PrepChefService::step_spec(pre, events[0]).0 == pre);
        lemma_prep_failed_is_terminal(pre, events.drop_first());
    }
}

/// An ack-send failure while issued transitions the worker to `FAILED`
/// with the transport's reason, and it never subsequently transitions on
/// further cycles.
pub proof fn lemma_prep_ack_failure_is_terminal(
    pre: PrepChefService,
    reason: String,
    events: Seq<PrepEvent>,
)
    requires
        pre.service_state is ISSUED,
    ensures
        ({
            let failed = PrepChefService::step_spec(
                pre,
                PrepEvent::SendOutcome(Err(reason)),
            ).0;
            &&& failed.service_state == State::FAILED(reason)
            &&& PrepChefService::run_spec(failed, events) == failed
        }),
{
    let failed = PrepChefService::step_spec(pre, PrepEvent::SendOutcome(Err(reason))).0;
    lemma_prep_failed_is_terminal(failed, events);
}

} // verus!
