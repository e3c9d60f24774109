use vstd::prelude::*;
use crate::msgs::CookCommand;
use crate::state::State;
use crate::steps::FoodItem;
use crate::worker::WorkerDirective;

verus! {

/// An event handed to the cook chef by its driving loop: the result of
/// the poll or send the machine last requested, or the end of a wait.
#[derive(Debug)]
pub enum CookEvent {
    /// Result of a single poll of the cook-command channel.
    Poll(Option<CookCommand>),
    /// Outcome of the send the machine last requested (acknowledgment or
    /// completion marker); an error carries the transport's reason.
    SendOutcome(Result<(), String>),
    /// The requested wait has elapsed.
    Elapsed,
}

/// Seconds of heating the cook role needs before cooking the given item:
/// the oven-based item takes longer than the stovetop one.
pub open spec fn cook_preamble_secs(item: FoodItem) -> u64 {
    match item {
        FoodItem::CHICKEN => 5,
        FoodItem::SALMON => 15,
    }
}

/// The cook chef: receives a cooking command, acknowledges it, cooks the
/// item for the commanded number of seconds, and emits a completion
/// marker.  All transport is done by the driving loop; the machine only
/// transitions.
pub struct CookChefService {
    /// The item carried by the received command, once one has arrived.
    pub cooking_item: Option<FoodItem>,
    /// The commanded cooking time in seconds, once a command has arrived.
    pub cooking_time: Option<u64>,
    /// Where in its lifecycle this worker stands.
    pub service_state: State,
}

impl CookChefService {
    /// Once instructions have been received, the machine knows its item
    /// and its cooking time.
    pub open spec fn wf(self) -> bool {
        self.service_state is ISSUED || self.service_state is EXECUTING
            ==> self.cooking_item is Some && self.cooking_time is Some
    }

    /// The complete transition function of the cook chef: from a machine
    /// and an event to the next machine and the directive handed to the
    /// driving loop.  Any event that the current state does not expect is
    /// ignored, and a terminal state is never left.
    pub open spec fn step_spec(pre: CookChefService, event: CookEvent) -> (CookChefService,
        WorkerDirective) {
        match pre.service_state {
            State::CREATED => match event {
                CookEvent::Poll(Some(cmd)) => (
                    CookChefService {
                        cooking_item: Some(cmd.item),
                        cooking_time: Some(cmd.time),
                        service_state: State::ISSUED,
                    },
                    WorkerDirective::SendAck,
                ),
                _ => (pre, WorkerDirective::Idle),
            },
            State::ISSUED => match event {
                CookEvent::SendOutcome(Ok(())) => (
                    pre,
                    WorkerDirective::Wait(cook_preamble_secs(pre.cooking_item.unwrap())),
                ),
                CookEvent::SendOutcome(Err(e)) => (
                    CookChefService { service_state: State::FAILED(e), ..pre },
                    WorkerDirective::Idle,
                ),
                CookEvent::Elapsed => (
                    CookChefService { service_state: State::EXECUTING, ..pre },
                    WorkerDirective::Work(pre.cooking_time.unwrap()),
                ),
                _ => (pre, WorkerDirective::Idle),
            },
            State::EXECUTING => match event {
                CookEvent::SendOutcome(Ok(())) => (
                    CookChefService { service_state: State::COMPLETED, ..pre },
                    WorkerDirective::Idle,
                ),
                CookEvent::SendOutcome(Err(e)) => (
                    CookChefService { service_state: State::FAILED(e), ..pre },
                    WorkerDirective::Idle,
                ),
                _ => (pre, WorkerDirective::Idle),
            },
            _ => (pre, WorkerDirective::Idle),
        }
    }

    /// A fresh cook chef awaits instructions.
    pub fn new() -> (r: Self)
        ensures
            r.cooking_item is None,
            r.cooking_time is None,
            r.service_state is CREATED,
            r.wf(),
    {
        Self { cooking_item: None, cooking_time: None, service_state: State::CREATED }
    }

    /// Whether this worker has completed its unit of work.
    pub fn check_completed(&self) -> (r: bool)
        ensures
            r == (self.service_state is COMPLETED),
    {
        matches!(self.service_state, State::COMPLETED)
    }

    /// Whether this worker failed while cooking.
    pub fn check_failed(&self) -> (r: bool)
        ensures
            r == (self.service_state is FAILED),
    {
        matches!(self.service_state, State::FAILED(_))
    }

    /// The reason this worker failed, if it did.
    pub fn get_failure_msg(&self) -> (r: Option<&str>)
        ensures
            r is Some <==> self.service_state is FAILED,
            self.service_state matches State::FAILED(m) ==> (r matches Some(s) && s@ == m@),
    {
        if let State::FAILED(error_message) = &self.service_state {
            return Some(error_message.as_str());
        }
        None
    }

    /// One cycle of the worker: consumes the event the driving loop hands
    /// in and requests the next action.  The machine follows `step_spec`
    /// exactly.
    pub fn cycle(&mut self, event: CookEvent) -> (d: WorkerDirective)
        requires
            old(self).wf(),
        ensures
            (*final(self), d) == Self::step_spec(*old(self), event),
            final(self).wf(),
    {
        match self.service_state {
            State::CREATED => match event {
                CookEvent::Poll(Some(command)) => {
                    self.cooking_item = Some(command.get_item());
                    self.cooking_time = Some(command.get_duration());
                    self.service_state = State::ISSUED;
                    WorkerDirective::SendAck
                },
                _ => WorkerDirective::Idle,
            },
            State::ISSUED => match event {
                CookEvent::SendOutcome(Ok(())) => {
                    let secs: u64 = match self.cooking_item.unwrap() {
                        FoodItem::CHICKEN => 5,
                        FoodItem::SALMON => 15,
                    };
                    WorkerDirective::Wait(secs)
                },
                CookEvent::SendOutcome(Err(e)) => {
                    self.service_state = State::FAILED(e);
                    WorkerDirective::Idle
                },
                CookEvent::Elapsed => {
                    self.service_state = State::EXECUTING;
                    WorkerDirective::Work(self.cooking_time.unwrap())
                },
                _ => WorkerDirective::Idle,
            },
            State::EXECUTING => match event {
                CookEvent::SendOutcome(Ok(())) => {
                    self.service_state = State::COMPLETED;
                    WorkerDirective::Idle
                },
                CookEvent::SendOutcome(Err(e)) => {
                    self.service_state = State::FAILED(e);
                    WorkerDirective::Idle
                },
                _ => WorkerDirective::Idle,
            },
            State::COMPLETED => WorkerDirective::Idle,
            State::FAILED(_) => WorkerDirective::Idle,
        }
    }

    /// The machine left after feeding a whole sequence of events, one
    /// cycle each, oldest first.
    pub open spec fn run_spec(pre: CookChefService, events: Seq<CookEvent>) -> CookChefService
        decreases events.len(),
    {
        if events.len() == 0 {
            pre
        } else {
            Self::run_spec(Self::step_spec(pre, events[0]).0, events.drop_first())
        }
    }
}

/// A worker that never receives a command stays in `CREATED` indefinitely
/// and never transitions: any number of cycles whose polls return no
/// message leave the machine exactly as it was.
pub proof fn lemma_cook_no_command_no_transition(pre: CookChefService, events: Seq<CookEvent>)
    requires
        pre.service_state is CREATED,
        forall|i: int| 0 <= i < events.len() ==> #[trigger] events[i] matches CookEvent::Poll(None),
    ensures
        CookChefService::run_spec(pre, events) == pre,
    decreases events.len(),
{
    if events.len() > 0 {
        assert(events[0] matches CookEvent::Poll(None));
        assert(CookChefService::step_spec(pre, events[0]).0 == pre);
        assert(forall|i: int| 0 <= i < events.drop_first().len()
            ==> #[trigger] events.drop_first()[i] matches CookEvent::Poll(None));
        lemma_cook_no_command_no_transition(pre, events.drop_first());
    }
}

/// A failed worker is terminal: once in `FAILED`, no sequence of further
/// cycles transitions the machine again.
pub proof fn lemma_cook_failed_is_terminal(pre: CookChefService, events: Seq<CookEvent>)
    requires
        pre.service_state is FAILED,
    ensures
        CookChefService::run_spec(pre, events) == pre,
    decreases events.len(),
{
    if events.len() > 0 {
        assert(CookChefService::step_spec(pre, events[0]).0 == pre);
        lemma_cook_failed_is_terminal(pre, events.drop_first());
    }
}

/// An ack-send failure while issued transitions the worker to `FAILED`
/// with the transport's reason, and it never subsequently transitions on
/// further cycles.
pub proof fn lemma_cook_ack_failure_is_terminal(
    pre: CookChefService,
    reason: String,
    events: Seq<CookEvent>,
)
    requires
        pre.service_state is ISSUED,
    ensures
        ({
            let failed = CookChefService::step_spec(
                pre,
                CookEvent::SendOutcome(Err(reason)),
            ).0;
            &&& failed.service_state == State::FAILED(reason)
            &&& CookChefService::run_spec(failed, events) == failed
        }),
{
    let failed = CookChefService::step_spec(pre, CookEvent::SendOutcome(Err(reason))).0;
    lemma_cook_failed_is_terminal(failed, events);
}

} // verus!
