use kitchen::cook_chef::{CookChefService, CookEvent};
use kitchen::head_chef::{CoordDirective, CoordEvent, HeadChefService};
use kitchen::io::Channel;
use kitchen::msgs::{CommandDone, CookCommand, CookCommandAck, PrepareCommand, PrepareCommandAck};
use kitchen::prep_chef::{PrepChefService, PrepEvent};
use kitchen::recipe::Recipe;
use kitchen::state::State;
use kitchen::steps::{FoodItem, Step};
use kitchen::worker::WorkerDirective;

/// Runs the prep chef as far as it can go right now: one poll of its
/// command channel, then its directives until it idles.  Appends one
/// label per message it sends to `log`.
fn run_prep(
    chef: &mut PrepChefService,
    cmd_rx: &mut Channel<PrepareCommand>,
    ack_tx: &mut Channel<PrepareCommandAck>,
    done_tx: &mut Channel<CommandDone>,
    log: &mut Vec<&'static str>,
) {
    if !matches!(chef.service_state, State::CREATED) {
        return;
    }
    let mut d = chef.cycle(PrepEvent::Poll(cmd_rx.receive()));
    loop {
        match d {
            WorkerDirective::SendAck => {
                ack_tx.send(PrepareCommandAck);
                log.push("prepare-ack");
                d = chef.cycle(PrepEvent::SendOutcome(Ok(())));
            }
            WorkerDirective::Wait(_) => {
                d = chef.cycle(PrepEvent::Elapsed);
            }
            WorkerDirective::Work(_) => {
                done_tx.send(CommandDone);
                log.push("prepare-done");
                d = chef.cycle(PrepEvent::SendOutcome(Ok(())));
            }
            WorkerDirective::Idle => break,
        }
    }
}

/// The cook chef's counterpart of `run_prep`.
fn run_cook(
    chef: &mut CookChefService,
    cmd_rx: &mut Channel<CookCommand>,
    ack_tx: &mut Channel<CookCommandAck>,
    done_tx: &mut Channel<CommandDone>,
    log: &mut Vec<&'static str>,
) {
    if !matches!(chef.service_state, State::CREATED) {
        return;
    }
    let mut d = chef.cycle(CookEvent::Poll(cmd_rx.receive()));
    loop {
        match d {
            WorkerDirective::SendAck => {
                ack_tx.send(CookCommandAck);
                log.push("cook-ack");
                d = chef.cycle(CookEvent::SendOutcome(Ok(())));
            }
            WorkerDirective::Wait(_) => {
                d = chef.cycle(CookEvent::Elapsed);
            }
            WorkerDirective::Work(_) => {
                done_tx.send(CommandDone);
                log.push("cook-done");
                d = chef.cycle(CookEvent::SendOutcome(Ok(())));
            }
            WorkerDirective::Idle => break,
        }
    }
}

/// The concrete end-to-end scenario: a two-step recipe drives the
/// coordinator and both workers through exactly prepare-command,
/// prepare-ack, prepare-done, cook-command, cook-ack, cook-done, then
/// the coordinator completes; six messages in all, and no others.
#[test]
fn two_step_recipe_exchanges_exactly_six_messages() {
    let recipe = Recipe::new(
        "T".to_string(),
        String::new(),
        vec![Step::Prepare(FoodItem::CHICKEN), Step::Cook(FoodItem::CHICKEN, 5)],
    );
    let mut chef = HeadChefService::new(recipe);
    let mut prep = PrepChefService::new();
    let mut cook = CookChefService::new();

    let mut prep_cmd: Channel<PrepareCommand> = Channel::new();
    let mut prep_ack: Channel<PrepareCommandAck> = Channel::new();
    let mut prep_done: Channel<CommandDone> = Channel::new();
    let mut cook_cmd: Channel<CookCommand> = Channel::new();
    let mut cook_ack: Channel<CookCommandAck> = Channel::new();
    let mut cook_done: Channel<CommandDone> = Channel::new();

    let mut log: Vec<&'static str> = Vec::new();
    let mut ev = CoordEvent::Tick;
    let mut rounds = 0;
    loop {
        rounds += 1;
        assert!(rounds < 1000, "scenario did not terminate");
        let d = chef.cycle(ev);
        ev = match d {
            CoordDirective::Proceed => CoordEvent::Tick,
            CoordDirective::Wait(_) => CoordEvent::Elapsed,
            CoordDirective::SendPrep(cmd) => {
                assert_eq!(cmd.get_item(), FoodItem::CHICKEN);
                prep_cmd.send(cmd);
                log.push("prepare-command");
                CoordEvent::SendOutcome(Ok(()))
            }
            CoordDirective::SendCook(cmd) => {
                assert_eq!(cmd.get_item(), FoodItem::CHICKEN);
                assert_eq!(cmd.get_duration(), 5);
                cook_cmd.send(cmd);
                log.push("cook-command");
                CoordEvent::SendOutcome(Ok(()))
            }
            CoordDirective::PollPrepAck => {
                run_prep(&mut prep, &mut prep_cmd, &mut prep_ack, &mut prep_done, &mut log);
                CoordEvent::PrepAckPoll(prep_ack.receive())
            }
            CoordDirective::PollPrepDone => CoordEvent::PrepDonePoll(prep_done.receive()),
            CoordDirective::PollCookAck => {
                run_cook(&mut cook, &mut cook_cmd, &mut cook_ack, &mut cook_done, &mut log);
                CoordEvent::CookAckPoll(cook_ack.receive())
            }
            CoordDirective::PollCookDone => CoordEvent::CookDonePoll(cook_done.receive()),
            CoordDirective::Idle => break,
        };
    }

    assert!(chef.check_completed());
    assert!(prep.check_completed());
    assert!(cook.check_completed());
    assert_eq!(chef.step_index, 2);

    // exactly six messages, on the right channels, in step order
    assert_eq!(
        log,
        vec![
            "prepare-command",
            "prepare-ack",
            "prepare-done",
            "cook-command",
            "cook-ack",
            "cook-done",
        ]
    );
    // nothing still in flight: each message was consumed exactly once
    assert_eq!(prep_cmd.len(), 0);
    assert_eq!(prep_ack.len(), 0);
    assert_eq!(prep_done.len(), 0);
    assert_eq!(cook_cmd.len(), 0);
    assert_eq!(cook_ack.len(), 0);
    assert_eq!(cook_done.len(), 0);
}

/// The in-memory channel drains one message at a time, oldest first, and
/// reports an empty queue as a normal outcome.
#[test]
fn channel_is_fifo_and_nonblocking() {
    let mut ch: Channel<u32> = Channel::new();
    assert_eq!(ch.receive(), None);
    ch.send(1);
    ch.send(2);
    ch.send(3);
    assert_eq!(ch.len(), 3);
    assert_eq!(ch.receive(), Some(1));
    assert_eq!(ch.receive(), Some(2));
    assert_eq!(ch.receive(), Some(3));
    assert_eq!(ch.receive(), None);
}
