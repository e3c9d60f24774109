use vstd::prelude::*;
use crate::msgs::{CommandDone, CookCommand, CookCommandAck, PrepareCommand, PrepareCommandAck};
use crate::recipe::Recipe;
use crate::state::State;
use crate::steps::Step;

verus! {

/// Seconds of the coordinator's one-time startup preamble (opening the
/// restaurant for the evening).
pub const OPENING_SECS: u64 = 15;

/// Progress through the four-phase cycle of the current step, split by
/// the role the step is delegated to.
#[derive(Debug, Clone, Copy, PartialEq, Eq, Structural)]
pub enum RecipeState {
    /// Entry point: no action in flight for the current step.
    Initial,
    /// About to send a prepare command.
    PrepCmd,
    /// Prepare command sent; awaiting the prep role's acknowledgment.
    PrepAck,
    /// Awaiting the prep role's completion marker.
    PrepDone,
    /// About to send a cooking command.
    CookCmd,
    /// Cooking command sent; awaiting the cook role's acknowledgment.
    CookAck,
    /// Awaiting the cook role's completion marker.
    CookDone,
}

/// An event handed to the coordinator by its driving loop: the result of
/// the poll or send the machine last requested, the end of a wait, or a
/// plain go-ahead where no outside work was requested.
#[derive(Debug)]
pub enum CoordEvent {
    /// Nothing external was required; proceed.
    Tick,
    /// The requested wait has elapsed.
    Elapsed,
    /// Outcome of the command send the machine last requested; an error
    /// carries the transport's reason.
    SendOutcome(Result<(), String>),
    /// Result of a single poll of the prepare-ack channel.
    PrepAckPoll(Option<PrepareCommandAck>),
    /// Result of a single poll of the cook-ack channel.
    CookAckPoll(Option<CookCommandAck>),
    /// Result of a single poll of the prepare-done channel.
    PrepDonePoll(Option<CommandDone>),
    /// Result of a single poll of the cook-done channel.
    CookDonePoll(Option<CommandDone>),
}

/// What the coordinator asks its driving loop to perform after a cycle.
#[derive(Debug, Clone, Copy, PartialEq, Eq, Structural)]
pub enum CoordDirective {
    /// Nothing external is required; cycle again with a plain go-ahead.
    Proceed,
    /// Wait the given number of seconds, then report that the wait
    /// elapsed.
    Wait(u64),
    /// Send this command on the prepare-command channel and report the
    /// outcome.
    SendPrep(PrepareCommand),
    /// Send this command on the cook-command channel and report the
    /// outcome.
    SendCook(CookCommand),
    /// Poll the prepare-ack channel once and report the result.
    PollPrepAck,
    /// Poll the cook-ack channel once and report the result.
    PollCookAck,
    /// Poll the prepare-done channel once and report the result.
    PollPrepDone,
    /// Poll the cook-done channel once and report the result.
    PollCookDone,
    /// The machine is terminal; stop driving it.
    Idle,
}

/// One protocol-visible event of a coordinator run, recorded against the
/// index of the recipe step it belongs to and that step itself.  Which
/// channel carried the event follows from the step's variant: a `Prepare`
/// step's events travel on the prep role's channels, a `Cook` step's on
/// the cook role's.
pub enum WireEvent {
    /// The command for the given step was handed to its role's command
    /// channel.
    CommandSent(int, Step),
    /// The role's acknowledgment for the given step was observed.
    AckReceived(int, Step),
    /// The role's completion marker for the given step was observed.
    DoneReceived(int, Step),
}

/// The three protocol events of one step, in handshake order.
pub open spec fn step_events(i: int, s: Step) -> Seq<WireEvent> {
    seq![
        WireEvent::CommandSent(i, s),
        WireEvent::AckReceived(i, s),
        WireEvent::DoneReceived(i, s),
    ]
}

/// The wire trace of the first `n` steps of a recipe run to completion:
/// command, ack and done for step 0, then for step 1, and so on.
pub open spec fn protocol_trace(steps: Seq<Step>, n: int) -> Seq<WireEvent>
    decreases n,
{
    if n <= 0 {
        Seq::empty()
    } else {
        protocol_trace(steps, n - 1) + step_events(n - 1, steps[n - 1])
    }
}

/// The wire trace of a whole recipe run to completion.
pub open spec fn full_protocol_trace(steps: Seq<Step>) -> Seq<WireEvent> {
    protocol_trace(steps, steps.len() as int)
}

/// The head chef: owns the recipe and a cursor into it, and delegates
/// each step over the role channels with a strict command — ack — done
/// handshake, one step in flight at a time.  All transport is done by the
/// driving loop; the machine only transitions, and records every
/// protocol-visible event in its ghost history.
pub struct HeadChefService {
    /// The recipe being executed; never mutated.
    pub recipe: Recipe,
    /// Cursor into the recipe: how many steps are fully closed.
    pub step_index: usize,
    /// Where in its lifecycle the coordinator stands.
    pub service_state: State,
    /// Progress through the current step's handshake.
    pub recipe_state: RecipeState,
    /// Every protocol event of this run so far, in order of occurrence.
    pub history: Ghost<Seq<WireEvent>>,
}

impl HeadChefService {
    /// The events of the current step that the history already holds,
    /// given how far its handshake has progressed.
    pub open spec fn phase_partial(self) -> Seq<WireEvent> {
        let i = self.step_index as int;
        let s = self.recipe.steps@[i];
        match self.recipe_state {
            RecipeState::Initial => Seq::empty(),
            RecipeState::PrepCmd => Seq::empty(),
            RecipeState::CookCmd => Seq::empty(),
            RecipeState::PrepAck => seq![WireEvent::CommandSent(i, s)],
            RecipeState::CookAck => seq![WireEvent::CommandSent(i, s)],
            RecipeState::PrepDone => seq![
                WireEvent::CommandSent(i, s),
                WireEvent::AckReceived(i, s),
            ],
            RecipeState::CookDone => seq![
                WireEvent::CommandSent(i, s),
                WireEvent::AckReceived(i, s),
            ],
        }
    }

    /// The coordinator's invariant: the cursor stays within the recipe,
    /// the handshake phase agrees with the current step's variant, and
    /// the history holds exactly the closed steps' events followed by the
    /// current step's partial handshake.
    pub open spec fn wf(self) -> bool {
        let steps = self.recipe.steps@;
        let i = self.step_index as int;
        &&& i <= steps.len()
        &&& (self.service_state is CREATED || self.service_state is ISSUED) ==> i == 0
            && self.recipe_state is Initial
        &&& self.service_state is COMPLETED ==> i == steps.len()
        &&& (self.recipe_state is PrepCmd || self.recipe_state is PrepAck
            || self.recipe_state is PrepDone) ==> i < steps.len() && steps[i] is Prepare
        &&& (self.recipe_state is CookCmd || self.recipe_state is CookAck
            || self.recipe_state is CookDone) ==> i < steps.len() && steps[i] is Cook
        &&& self.history@ == protocol_trace(steps, i) + self.phase_partial()
    }

    /// The transition of the coordinator while `EXECUTING`: fetch the
    /// step under the cursor — an exhausted cursor is terminal success —
    /// then drive the current step's handshake one event further.
    pub open spec fn step_executing(pre: HeadChefService, event: CoordEvent) -> (HeadChefService,
        CoordDirective) {
        let steps = pre.recipe.steps@;
        let i = pre.step_index as int;
        if i >= steps.len() {
            (
                HeadChefService { service_state: State::COMPLETED, ..pre },
                CoordDirective::Idle,
            )
        } else {
            let s = steps[i];
            match pre.recipe_state {
                RecipeState::Initial => match event {
                    CoordEvent::Tick => match s {
                        Step::Prepare(_) => (
                            HeadChefService { recipe_state: RecipeState::PrepCmd, ..pre },
                            CoordDirective::Proceed,
                        ),
                        Step::Cook(_, _) => (
                            HeadChefService { recipe_state: RecipeState::CookCmd, ..pre },
                            CoordDirective::Proceed,
                        ),
                    },
                    _ => (pre, CoordDirective::Idle),
                },
                RecipeState::PrepCmd => match event {
                    CoordEvent::Tick => match s {
                        Step::Prepare(item) => (
                            HeadChefService {
                                recipe_state: RecipeState::PrepAck,
                                history: Ghost(
                                    pre.history@.push(WireEvent::CommandSent(i, s)),
                                ),
                                ..pre
                            },
                            CoordDirective::SendPrep(PrepareCommand { item }),
                        ),
                        // defensive: phase does not match the step's
                        // variant — start the step over
                        _ => (
                            HeadChefService { recipe_state: RecipeState::Initial, ..pre },
                            CoordDirective::Proceed,
                        ),
                    },
                    _ => (pre, CoordDirective::Idle),
                },
                RecipeState::PrepAck => match event {
                    CoordEvent::SendOutcome(Ok(())) => (pre, CoordDirective::PollPrepAck),
                    CoordEvent::SendOutcome(Err(e)) => (
                        HeadChefService { service_state: State::FAILED(e), ..pre },
                        CoordDirective::Idle,
                    ),
                    CoordEvent::PrepAckPoll(Some(_)) => (
                        HeadChefService {
                            recipe_state: RecipeState::PrepDone,
                            history: Ghost(pre.history@.push(WireEvent::AckReceived(i, s))),
                            ..pre
                        },
                        CoordDirective::PollPrepDone,
                    ),
                    CoordEvent::PrepAckPoll(None) => (pre, CoordDirective::PollPrepAck),
                    _ => (pre, CoordDirective::Idle),
                },
                RecipeState::PrepDone => match event {
                    CoordEvent::PrepDonePoll(Some(_)) => (
                        HeadChefService {
                            step_index: (pre.step_index + 1) as usize,
                            recipe_state: RecipeState::Initial,
                            history: Ghost(
                                pre.history@.push(WireEvent::DoneReceived(i, s)),
                            ),
                            ..pre
                        },
                        CoordDirective::Proceed,
                    ),
                    CoordEvent::PrepDonePoll(None) => (pre, CoordDirective::PollPrepDone),
                    _ => (pre, CoordDirective::Idle),
                },
                RecipeState::CookCmd => match event {
                    CoordEvent::Tick => match s {
                        Step::Cook(item, time) => (
                            HeadChefService {
                                recipe_state: RecipeState::CookAck,
                                history: Ghost(
                                    pre.history@.push(WireEvent::CommandSent(i, s)),
                                ),
                                ..pre
                            },
                            CoordDirective::SendCook(CookCommand { item, time }),
                        ),
                        // defensive: phase does not match the step's
                        // variant — start the step over
                        _ => (
                            HeadChefService { recipe_state: RecipeState::Initial, ..pre },
                            CoordDirective::Proceed,
                        ),
                    },
                    _ => (pre, CoordDirective::Idle),
                },
                RecipeState::CookAck => match event {
                    CoordEvent::SendOutcome(Ok(())) => (pre, CoordDirective::PollCookAck),
                    CoordEvent::SendOutcome(Err(e)) => (
                        HeadChefService { service_state: State::FAILED(e), ..pre },
                        CoordDirective::Idle,
                    ),
                    CoordEvent::CookAckPoll(Some(_)) => (
                        HeadChefService {
                            recipe_state: RecipeState::CookDone,
                            history: Ghost(pre.history@.push(WireEvent::AckReceived(i, s))),
                            ..pre
                        },
                        CoordDirective::PollCookDone,
                    ),
                    CoordEvent::CookAckPoll(None) => (pre, CoordDirective::PollCookAck),
                    _ => (pre, CoordDirective::Idle),
                },
                RecipeState::CookDone => match event {
                    CoordEvent::CookDonePoll(Some(_)) => (
                        HeadChefService {
                            step_index: (pre.step_index + 1) as usize,
                            recipe_state: RecipeState::Initial,
                            history: Ghost(
                                pre.history@.push(WireEvent::DoneReceived(i, s)),
                            ),
                            ..pre
                        },
                        CoordDirective::Proceed,
                    ),
                    CoordEvent::CookDonePoll(None) => (pre, CoordDirective::PollCookDone),
                    _ => (pre, CoordDirective::Idle),
                },
            }
        }
    }

    /// The complete transition function of the coordinator.  The
    /// coordinator is issued unconditionally upon creation, performs its
    /// startup preamble, then executes the recipe step by step; terminal
    /// states are never left, and any event the current state does not
    /// expect is ignored.
    pub open spec fn step_spec(pre: HeadChefService, event: CoordEvent) -> (HeadChefService,
        CoordDirective) {
        match pre.service_state {
            State::CREATED => match event {
                CoordEvent::Tick => (
                    HeadChefService { service_state: State::ISSUED, ..pre },
                    CoordDirective::Wait(OPENING_SECS),
                ),
                _ => (pre, CoordDirective::Idle),
            },
            State::ISSUED => match event {
                CoordEvent::Elapsed => (
                    HeadChefService { service_state: State::EXECUTING, ..pre },
                    CoordDirective::Proceed,
                ),
                _ => (pre, CoordDirective::Idle),
            },
            State::EXECUTING => Self::step_executing(pre, event),
            _ => (pre, CoordDirective::Idle),
        }
    }

    /// A fresh coordinator owning the given recipe, with an empty
    /// history.
    pub fn new(recipe: Recipe) -> (r: Self)
        ensures
            r.recipe == recipe,
            r.step_index == 0,
            r.service_state is CREATED,
            r.recipe_state is Initial,
            r.history@ == Seq::<WireEvent>::empty(),
            r.wf(),
    {
        Self {
            recipe,
            step_index: 0,
            service_state: State::CREATED,
            recipe_state: RecipeState::Initial,
            history: Ghost(Seq::empty()),
        }
    }

    /// Whether the whole recipe has been executed.
    pub fn check_completed(&self) -> (r: bool)
        ensures
            r == (self.service_state is COMPLETED),
    {
        matches!(self.service_state, State::COMPLETED)
    }

    /// The reason the coordinator failed, if it did.
    pub fn check_failed(&self) -> (r: Option<&str>)
        ensures
            r is Some <==> self.service_state is FAILED,
            self.service_state matches State::FAILED(m) ==> (r matches Some(s) && s@ == m@),
    {
        if let State::FAILED(error_message) = &self.service_state {
            return Some(error_message.as_str());
        }
        None
    }

    /// One cycle of the coordinator: consumes the event the driving loop
    /// hands in and requests the next action.  The machine follows
    /// `step_spec` exactly and preserves its invariant.
    pub fn cycle(&mut self, event: CoordEvent) -> (d: CoordDirective)
        requires
            old(self).wf(),
        ensures
            (*final(self), d) == Self::step_spec(*old(self), event),
            final(self).wf(),
    {
        match self.service_state {
            State::CREATED => match event {
                CoordEvent::Tick => {
                    self.service_state = State::ISSUED;
                    CoordDirective::Wait(OPENING_SECS)
                },
                _ => CoordDirective::Idle,
            },
            State::ISSUED => match event {
                CoordEvent::Elapsed => {
                    self.service_state = State::EXECUTING;
                    CoordDirective::Proceed
                },
                _ => CoordDirective::Idle,
            },
            State::EXECUTING => self.cycle_executing(event),
            State::COMPLETED => CoordDirective::Idle,
            State::FAILED(_) => CoordDirective::Idle,
        }
    }

    /// The `EXECUTING` arm of `cycle`.
    fn cycle_executing(&mut self, event: CoordEvent) -> (d: CoordDirective)
        requires
            old(self).wf(),
            old(self).service_state is EXECUTING,
        ensures
            (*final(self), d) == Self::step_executing(*old(self), event),
            final(self).wf(),
    {
        let ghost pre = *self;
        if self.step_index >= self.recipe.steps.len() {
            self.service_state = State::COMPLETED;
            return CoordDirective::Idle;
        }
        let s = self.recipe.steps[self.step_index];
        let ghost i = self.step_index as int;
        match self.recipe_state {
            RecipeState::Initial => match event {
                CoordEvent::Tick => {
                    match s {
                        Step::Prepare(_) => {
                            self.recipe_state = RecipeState::PrepCmd;
                        },
                        Step::Cook(_, _) => {
                            self.recipe_state = RecipeState::CookCmd;
                        },
                    }
                    CoordDirective::Proceed
                },
                _ => CoordDirective::Idle,
            },
            RecipeState::PrepCmd => match event {
                CoordEvent::Tick => match s {
                    Step::Prepare(item) => {
                        self.recipe_state = RecipeState::PrepAck;
                        self.history = Ghost(
                            self.history@.push(WireEvent::CommandSent(i, s)),
                        );
                        proof {
                            assert(self.history@ =~= protocol_trace(pre.recipe.steps@, i)
                                + self.phase_partial());
                        }
                        CoordDirective::SendPrep(PrepareCommand::new(item))
                    },
                    _ => {
                        self.recipe_state = RecipeState::Initial;
                        CoordDirective::Proceed
                    },
                },
                _ => CoordDirective::Idle,
            },
            RecipeState::PrepAck => match event {
                CoordEvent::SendOutcome(Ok(())) => CoordDirective::PollPrepAck,
                CoordEvent::SendOutcome(Err(e)) => {
                    self.service_state = State::FAILED(e);
                    CoordDirective::Idle
                },
                CoordEvent::PrepAckPoll(Some(_)) => {
                    self.recipe_state = RecipeState::PrepDone;
                    self.history = Ghost(self.history@.push(WireEvent::AckReceived(i, s)));
                    proof {
                        assert(self.history@ =~= protocol_trace(pre.recipe.steps@, i)
                            + self.phase_partial());
                    }
                    CoordDirective::PollPrepDone
                },
                CoordEvent::PrepAckPoll(None) => CoordDirective::PollPrepAck,
                _ => CoordDirective::Idle,
            },
            RecipeState::PrepDone => match event {
                CoordEvent::PrepDonePoll(Some(_)) => {
                    self.step_index = self.step_index + 1;
                    self.recipe_state = RecipeState::Initial;
                    self.history = Ghost(self.history@.push(WireEvent::DoneReceived(i, s)));
                    proof {
                        lemma_trace_extend(pre.recipe.steps@, i);
                        assert(self.history@ =~= protocol_trace(pre.recipe.steps@, i + 1)
                            + self.phase_partial());
                    }
                    CoordDirective::Proceed
                },
                CoordEvent::PrepDonePoll(None) => CoordDirective::PollPrepDone,
                _ => CoordDirective::Idle,
            },
            RecipeState::CookCmd => match event {
                CoordEvent::Tick => match s {
                    Step::Cook(item, time) => {
                        self.recipe_state = RecipeState::CookAck;
                        self.history = Ghost(
                            self.history@.push(WireEvent::CommandSent(i, s)),
                        );
                        proof {
                            assert(self.history@ =~= protocol_trace(pre.recipe.steps@, i)
                                + self.phase_partial());
                        }
                        CoordDirective::SendCook(CookCommand::new(item, time))
                    },
                    _ => {
                        self.recipe_state = RecipeState::Initial;
                        CoordDirective::Proceed
                    },
                },
                _ => CoordDirective::Idle,
            },
            RecipeState::CookAck => match event {
                CoordEvent::SendOutcome(Ok(())) => CoordDirective::PollCookAck,
                CoordEvent::SendOutcome(Err(e)) => {
                    self.service_state = State::FAILED(e);
                    CoordDirective::Idle
                },
                CoordEvent::CookAckPoll(Some(_)) => {
                    self.recipe_state = RecipeState::CookDone;
                    self.history = Ghost(self.history@.push(WireEvent::AckReceived(i, s)));
                    proof {
                        assert(self.history@ =~= protocol_trace(pre.recipe.steps@, i)
                            + self.phase_partial());
                    }
                    CoordDirective::PollCookDone
                },
                CoordEvent::CookAckPoll(None) => CoordDirective::PollCookAck,
                _ => CoordDirective::Idle,
            },
            RecipeState::CookDone => match event {
                CoordEvent::CookDonePoll(Some(_)) => {
                    self.step_index = self.step_index + 1;
                    self.recipe_state = RecipeState::Initial;
                    self.history = Ghost(self.history@.push(WireEvent::DoneReceived(i, s)));
                    proof {
                        lemma_trace_extend(pre.recipe.steps@, i);
                        assert(self.history@ =~= protocol_trace(pre.recipe.steps@, i + 1)
                            + self.phase_partial());
                    }
                    CoordDirective::Proceed
                },
                CoordEvent::CookDonePoll(None) => CoordDirective::PollCookDone,
                _ => CoordDirective::Idle,
            },
        }
    }
}

/// Unfolding the trace by one step: the first `n + 1` steps' trace is the
/// first `n` steps' trace followed by step `n`'s three events.
pub proof fn lemma_trace_extend(steps: Seq<Step>, n: int)
    requires
        0 <= n,
    ensures
        protocol_trace(steps, n + 1) == protocol_trace(steps, n) + step_events(n, steps[n]),
{
}


/// The trace of `n` steps holds exactly three events per step.
pub proof fn lemma_trace_len(steps: Seq<Step>, n: int)
    requires
        0 <= n,
    ensures
        protocol_trace(steps, n).len() == 3 * n,
    decreases n,
{
    if n > 0 {
        lemma_trace_len(steps, n - 1);
    }
}

/// Within the trace of `n` steps, step `k`'s command, ack and done stand
/// at offsets `3k`, `3k + 1` and `3k + 2`.
pub proof fn lemma_trace_structure(steps: Seq<Step>, n: int, k: int)
    requires
        0 <= k < n,
    ensures
        protocol_trace(steps, n)[3 * k] == WireEvent::CommandSent(k, steps[k]),
        protocol_trace(steps, n)[3 * k + 1] == WireEvent::AckReceived(k, steps[k]),
        protocol_trace(steps, n)[3 * k + 2] == WireEvent::DoneReceived(k, steps[k]),
    decreases n,
{
    lemma_trace_len(steps, n - 1);
    if k < n - 1 {
        lemma_trace_structure(steps, n - 1, k);
    }
}

/// A command event stands in the trace only at the offset of its own
/// step: if some position holds `CommandSent(j, s)`, that position is
/// `3j`, step `j` lies within the first `n` steps, and `s` is step `j`.
pub proof fn lemma_command_position(steps: Seq<Step>, n: int, p: int, j: int, s: Step)
    requires
        0 <= n,
        0 <= p < protocol_trace(steps, n).len(),
        protocol_trace(steps, n)[p] == WireEvent::CommandSent(j, s),
    ensures
        p == 3 * j,
        0 <= j < n,
        s == steps[j],
    decreases n,
{
    lemma_trace_len(steps, n);
    lemma_trace_len(steps, n - 1);
    if p < 3 * (n - 1) {
        lemma_command_position(steps, n - 1, p, j, s);
    }
}

/// A shorter trace is a pointwise prefix of a longer one.
pub proof fn lemma_trace_prefix(steps: Seq<Step>, m: int, n: int)
    requires
        0 <= m <= n,
    ensures
        protocol_trace(steps, m).len() <= protocol_trace(steps, n).len(),
        forall|p: int| 0 <= p < protocol_trace(steps, m).len()
            ==> #[trigger] protocol_trace(steps, n)[p] == protocol_trace(steps, m)[p],
    decreases n,
{
    lemma_trace_len(steps, m);
    lemma_trace_len(steps, n);
    if m < n {
        lemma_trace_prefix(steps, m, n - 1);
        lemma_trace_len(steps, n - 1);
    }
}

/// In every reachable coordinator state, the history is a prefix of the
/// full protocol trace of the coordinator's recipe.
pub proof fn lemma_history_prefix(chef: HeadChefService)
    requires
        chef.wf(),
    ensures
        chef.history@.len() <= full_protocol_trace(chef.recipe.steps@).len(),
        forall|p: int| 0 <= p < chef.history@.len()
            ==> #[trigger] full_protocol_trace(chef.recipe.steps@)[p] == chef.history@[p],
{
    let steps = chef.recipe.steps@;
    let n = steps.len() as int;
    let i = chef.step_index as int;
    let partial = chef.phase_partial();
    lemma_trace_len(steps, i);
    lemma_trace_prefix(steps, i, n);
    if partial.len() == 0 {
        assert forall|p: int| 0 <= p < chef.history@.len()
            implies #[trigger] full_protocol_trace(steps)[p] == chef.history@[p] by {
            assert(chef.history@[p] == protocol_trace(steps, i)[p]);
        }
    } else {
        // a phase with events recorded for the current step: that step
        // lies under the cursor, and the recorded events are a prefix of
        // its three handshake events
        assert(i < n);
        lemma_trace_prefix(steps, i + 1, n);
        lemma_trace_len(steps, i + 1);
        assert forall|p: int| 0 <= p < chef.history@.len()
            implies #[trigger] full_protocol_trace(steps)[p] == chef.history@[p] by {
            if p < 3 * i {
                assert(chef.history@[p] == protocol_trace(steps, i)[p]);
            } else {
                assert(chef.history@[p] == partial[p - 3 * i]);
                assert(protocol_trace(steps, i + 1)
                    == protocol_trace(steps, i) + step_events(i, steps[i]));
                assert(protocol_trace(steps, i + 1)[p] == step_events(i, steps[i])[p - 3 * i]);
                assert(full_protocol_trace(steps)[p] == protocol_trace(steps, i + 1)[p]);
            }
        }
    }
}

/// A coordinator run to completion exchanged exactly the full protocol
/// trace of its recipe: three events per step — its command sent, its
/// ack observed, its done observed, each on the channel of the step's
/// own variant — in step order, with one step fully closed before the
/// next begins.
pub proof fn theorem_completed_run_trace(chef: HeadChefService)
    requires
        chef.wf(),
        chef.service_state is COMPLETED,
    ensures
        chef.history@ == full_protocol_trace(chef.recipe.steps@),
        chef.history@.len() == 3 * chef.recipe.steps@.len(),
        forall|k: int| 0 <= k < chef.recipe.steps@.len()
            ==> #[trigger] chef.history@[3 * k]
                    == WireEvent::CommandSent(k, chef.recipe.steps@[k])
                && chef.history@[3 * k + 1]
                    == WireEvent::AckReceived(k, chef.recipe.steps@[k])
                && chef.history@[3 * k + 2]
                    == WireEvent::DoneReceived(k, chef.recipe.steps@[k]),
{
    let steps = chef.recipe.steps@;
    let n = steps.len() as int;
    assert(chef.history@ =~= protocol_trace(steps, n));
    lemma_trace_len(steps, n);
    assert forall|k: int| 0 <= k < n
        implies #[trigger] chef.history@[3 * k] == WireEvent::CommandSent(k, steps[k])
            && chef.history@[3 * k + 1] == WireEvent::AckReceived(k, steps[k])
            && chef.history@[3 * k + 2] == WireEvent::DoneReceived(k, steps[k]) by {
        lemma_trace_structure(steps, n, k);
    }
}

/// The coordinator never sends the command for a step before observing
/// the done signal of the step before it: wherever the history of a
/// reachable state holds the command of step `j`, the done marker of
/// step `j - 1` stands strictly earlier in the history.
pub proof fn theorem_no_command_before_prior_done(
    chef: HeadChefService,
    p: int,
    j: int,
    s: Step,
)
    requires
        chef.wf(),
        0 <= p < chef.history@.len(),
        chef.history@[p] == WireEvent::CommandSent(j, s),
        1 <= j,
    ensures
        p == 3 * j,
        3 * j - 1 < p,
        chef.history@[3 * j - 1]
            == WireEvent::DoneReceived(j - 1, chef.recipe.steps@[j - 1]),
{
    let steps = chef.recipe.steps@;
    let n = steps.len() as int;
    lemma_history_prefix(chef);
    lemma_command_position(steps, n, p, j, s);
    lemma_trace_structure(steps, n, j - 1);
}

/// A coordinator over a recipe with zero steps completes on its first
/// executing cycle, whatever the event, with no message ever sent.
pub proof fn lemma_empty_recipe_completes_immediately(chef: HeadChefService, event: CoordEvent)
    requires
        chef.wf(),
        chef.service_state is EXECUTING,
        chef.recipe.steps@.len() == 0,
    ensures
        ({
            let (post, d) = HeadChefService::step_spec(chef, event);
            &&& post.service_state is COMPLETED
            &&& d is Idle
            &&& post.history@ == Seq::<WireEvent>::empty()
        }),
{
    let (post, d) = HeadChefService::step_spec(chef, event);
    assert(post.history@ =~= Seq::<WireEvent>::empty());
}


/// Any single transition preserves the coordinator's invariant.
pub proof fn lemma_step_spec_preserves_wf(pre: HeadChefService, event: CoordEvent)
    requires
        pre.wf(),
    ensures
        HeadChefService::step_spec(pre, event).0.wf(),
{
    let post = HeadChefService::step_spec(pre, event).0;
    let steps = pre.recipe.steps@;
    let i = pre.step_index as int;
    if pre.service_state is EXECUTING && i < steps.len() {
        match pre.recipe_state {
            RecipeState::PrepCmd => {
                if event is Tick && steps[i] is Prepare {
                    assert(post.history@ =~= protocol_trace(steps, i) + post.phase_partial());
                }
            },
            RecipeState::CookCmd => {
                if event is Tick && steps[i] is Cook {
                    assert(post.history@ =~= protocol_trace(steps, i) + post.phase_partial());
                }
            },
            RecipeState::PrepAck => {
                if event matches CoordEvent::PrepAckPoll(Some(_)) {
                    assert(post.history@ =~= protocol_trace(steps, i) + post.phase_partial());
                }
            },
            RecipeState::CookAck => {
                if event matches CoordEvent::CookAckPoll(Some(_)) {
                    assert(post.history@ =~= protocol_trace(steps, i) + post.phase_partial());
                }
            },
            RecipeState::PrepDone => {
                if event matches CoordEvent::PrepDonePoll(Some(_)) {
                    assert(pre.recipe.steps.len() == steps.len());
                    assert(post.step_index as int == i + 1);
                    lemma_trace_extend(steps, i);
                    assert(post.history@ =~= protocol_trace(steps, i + 1)
                        + post.phase_partial());
                }
            },
            RecipeState::CookDone => {
                if event matches CoordEvent::CookDonePoll(Some(_)) {
                    assert(pre.recipe.steps.len() == steps.len());
                    assert(post.step_index as int == i + 1);
                    lemma_trace_extend(steps, i);
                    assert(post.history@ =~= protocol_trace(steps, i + 1)
                        + post.phase_partial());
                }
            },
            RecipeState::Initial => {
            },
        }
    }
}

impl HeadChefService {
    /// The machine left after feeding a whole sequence of events, one
    /// cycle each, oldest first.
    pub open spec fn run_spec(pre: HeadChefService, events: Seq<CoordEvent>) -> HeadChefService
        decreases events.len(),
    {
        if events.len() == 0 {
            pre
        } else {
            Self::run_spec(Self::step_spec(pre, events[0]).0, events.drop_first())
        }
    }
}

/// Every state a coordinator reaches, by any event sequence from any
/// state satisfying the invariant — so in particular from a fresh
/// coordinator — satisfies the invariant.  With the theorems above this
/// says of every run: the history is always a prefix of the full
/// protocol trace, and a run that reaches completion produced exactly
/// that trace.
pub proof fn lemma_run_spec_preserves_wf(pre: HeadChefService, events: Seq<CoordEvent>)
    requires
        pre.wf(),
    ensures
        HeadChefService::run_spec(pre, events).wf(),
    decreases events.len(),
{
    if events.len() > 0 {
        lemma_step_spec_preserves_wf(pre, events[0]);
        lemma_run_spec_preserves_wf(HeadChefService::step_spec(pre, events[0]).0,
            events.drop_first());
    }
}


/// The recipe, once loaded, never mutates: no transition, and hence no
/// run, touches it.
pub proof fn lemma_recipe_never_mutates(pre: HeadChefService, events: Seq<CoordEvent>)
    ensures
        HeadChefService::run_spec(pre, events).recipe == pre.recipe,
    decreases events.len(),
{
    if events.len() > 0 {
        assert(HeadChefService::step_spec(pre, events[0]).0.recipe == pre.recipe);
        lemma_recipe_never_mutates(HeadChefService::step_spec(pre, events[0]).0,
            events.drop_first());
    }
}

/// A coordinator run to completion, in run form: starting from any
/// state satisfying the invariant — in particular a fresh coordinator —
/// and feeding any event sequence after which the coordinator stands
/// completed, the history holds exactly the full protocol trace of the
/// recipe it was given.
pub proof fn theorem_run_to_completion(pre: HeadChefService, events: Seq<CoordEvent>)
    requires
        pre.wf(),
        HeadChefService::run_spec(pre, events).service_state is COMPLETED,
    ensures
        HeadChefService::run_spec(pre, events).history@ == full_protocol_trace(
            pre.recipe.steps@,
        ),
        HeadChefService::run_spec(pre, events).history@.len() == 3 * pre.recipe.steps@.len(),
{
    lemma_run_spec_preserves_wf(pre, events);
    lemma_recipe_never_mutates(pre, events);
    theorem_completed_run_trace(HeadChefService::run_spec(pre, events));
}

} // verus!
