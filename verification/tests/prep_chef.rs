use kitchen::msgs::PrepareCommand;
use kitchen::prep_chef::{PrepChefService, PrepEvent};
use kitchen::state::State;
use kitchen::steps::FoodItem;
use kitchen::worker::WorkerDirective;

/// Tests initial values of chef state variables
#[test]
fn initialization() {
    let chef = PrepChefService::new();
    assert_eq!(chef.service_state, State::CREATED);
    assert!(!chef.check_completed());
    assert!(chef.check_failed().is_none());
    assert!(chef.prep_item.is_none());
}

/// Ensures chef state doesn't progress without receiving a command
#[test]
fn state_check_no_command() {
    let mut chef = PrepChefService::new();
    // cycle a large number of times and check state
    for _ in 0..10000 {
        chef.cycle(PrepEvent::Poll(None));
        assert_eq!(chef.service_state, State::CREATED);
    }
}

/// Checks state progress upon receiving prepare command
#[test]
fn state_check_command() {
    let mut chef = PrepChefService::new();
    let d = chef.cycle(PrepEvent::Poll(Some(PrepareCommand::new(FoodItem::CHICKEN))));
    assert_eq!(d, WorkerDirective::SendAck);
    assert_eq!(chef.service_state, State::ISSUED);
    assert_eq!(chef.prep_item, Some(FoodItem::CHICKEN));
    let d = chef.cycle(PrepEvent::SendOutcome(Ok(())));
    assert_eq!(d, WorkerDirective::Wait(2));
    assert_eq!(chef.service_state, State::ISSUED);
    let d = chef.cycle(PrepEvent::Elapsed);
    assert_eq!(d, WorkerDirective::Work(5));
    assert_eq!(chef.service_state, State::EXECUTING);
    let d = chef.cycle(PrepEvent::SendOutcome(Ok(())));
    assert_eq!(d, WorkerDirective::Idle);
    assert!(chef.check_completed());
}
