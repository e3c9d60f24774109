use kitchen::head_chef::{CoordDirective, CoordEvent, HeadChefService, OPENING_SECS};
use kitchen::msgs::{CommandDone, PrepareCommandAck};
use kitchen::recipe::Recipe;
use kitchen::state::State;
use kitchen::steps::{FoodItem, Step};

fn recipe(steps: Vec<Step>) -> Recipe {
    Recipe::new("T".to_string(), "d".to_string(), steps)
}

/// A coordinator over a recipe with zero steps: its first executing
/// cycle, right after the startup preamble, completes with zero messages
/// sent.
#[test]
fn empty_recipe_completes_immediately() {
    let mut chef = HeadChefService::new(recipe(vec![]));
    assert_eq!(chef.service_state, State::CREATED);

    let d = chef.cycle(CoordEvent::Tick);
    assert_eq!(d, CoordDirective::Wait(OPENING_SECS));
    assert_eq!(chef.service_state, State::ISSUED);

    let d = chef.cycle(CoordEvent::Elapsed);
    assert_eq!(d, CoordDirective::Proceed);
    assert_eq!(chef.service_state, State::EXECUTING);

    // first executing cycle: the cursor is already past the end
    let d = chef.cycle(CoordEvent::Tick);
    assert_eq!(d, CoordDirective::Idle);
    assert!(chef.check_completed());
    assert_eq!(chef.step_index, 0);
}

/// The coordinator walks one prepare step phase by phase, tolerating
/// empty polls, and only advances the cursor on the done signal.
#[test]
fn single_prepare_step_phases() {
    let mut chef = HeadChefService::new(recipe(vec![Step::Prepare(FoodItem::SALMON)]));
    chef.cycle(CoordEvent::Tick);
    chef.cycle(CoordEvent::Elapsed);

    let d = chef.cycle(CoordEvent::Tick);
    assert_eq!(d, CoordDirective::Proceed);
    let d = chef.cycle(CoordEvent::Tick);
    match d {
        CoordDirective::SendPrep(cmd) => assert_eq!(cmd.get_item(), FoodItem::SALMON),
        other => panic!("expected a prepare command send, got {:?}", other),
    }
    let d = chef.cycle(CoordEvent::SendOutcome(Ok(())));
    assert_eq!(d, CoordDirective::PollPrepAck);

    // an empty ack poll is a no-op; the cursor stays put
    let d = chef.cycle(CoordEvent::PrepAckPoll(None));
    assert_eq!(d, CoordDirective::PollPrepAck);
    assert_eq!(chef.step_index, 0);

    let d = chef.cycle(CoordEvent::PrepAckPoll(Some(PrepareCommandAck)));
    assert_eq!(d, CoordDirective::PollPrepDone);
    assert_eq!(chef.step_index, 0);

    let d = chef.cycle(CoordEvent::PrepDonePoll(None));
    assert_eq!(d, CoordDirective::PollPrepDone);
    assert_eq!(chef.step_index, 0);

    let d = chef.cycle(CoordEvent::PrepDonePoll(Some(CommandDone)));
    assert_eq!(d, CoordDirective::Proceed);
    assert_eq!(chef.step_index, 1);

    let d = chef.cycle(CoordEvent::Tick);
    assert_eq!(d, CoordDirective::Idle);
    assert!(chef.check_completed());
}

/// A command-send failure moves the coordinator to `FAILED` with the
/// transport's reason, terminally.
#[test]
fn send_failure_fails_coordinator() {
    let mut chef = HeadChefService::new(recipe(vec![Step::Cook(FoodItem::CHICKEN, 5)]));
    chef.cycle(CoordEvent::Tick);
    chef.cycle(CoordEvent::Elapsed);
    chef.cycle(CoordEvent::Tick);
    let d = chef.cycle(CoordEvent::Tick);
    assert!(matches!(d, CoordDirective::SendCook(_)));

    let d = chef.cycle(CoordEvent::SendOutcome(Err("participant gone".to_string())));
    assert_eq!(d, CoordDirective::Idle);
    assert_eq!(chef.check_failed(), Some("participant gone"));
    assert!(!chef.check_completed());

    let d = chef.cycle(CoordEvent::Tick);
    assert_eq!(d, CoordDirective::Idle);
    assert_eq!(chef.check_failed(), Some("participant gone"));
}
