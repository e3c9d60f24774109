use kitchen::cook_chef::{CookChefService, CookEvent};
use kitchen::msgs::{CookCommand, PrepareCommand};
use kitchen::prep_chef::{PrepChefService, PrepEvent};
use kitchen::state::State;
use kitchen::steps::FoodItem;
use kitchen::worker::WorkerDirective;

/// A cook chef walks its whole lifecycle on a salmon command: ack, the
/// per-item preheat, the commanded cooking time, completion.
#[test]
fn cook_happy_path() {
    let mut chef = CookChefService::new();
    assert_eq!(chef.service_state, State::CREATED);
    assert!(chef.cooking_item.is_none());
    assert!(chef.cooking_time.is_none());

    let d = chef.cycle(CookEvent::Poll(Some(CookCommand::new(FoodItem::SALMON, 30))));
    assert_eq!(d, WorkerDirective::SendAck);
    assert_eq!(chef.service_state, State::ISSUED);
    assert_eq!(chef.cooking_item, Some(FoodItem::SALMON));
    assert_eq!(chef.cooking_time, Some(30));

    let d = chef.cycle(CookEvent::SendOutcome(Ok(())));
    assert_eq!(d, WorkerDirective::Wait(15));

    let d = chef.cycle(CookEvent::Elapsed);
    // the cook works for the commanded time, not a per-item constant
    assert_eq!(d, WorkerDirective::Work(30));
    assert_eq!(chef.service_state, State::EXECUTING);

    let d = chef.cycle(CookEvent::SendOutcome(Ok(())));
    assert_eq!(d, WorkerDirective::Idle);
    assert!(chef.check_completed());
    assert!(!chef.check_failed());
}

/// A cook chef polling an empty command channel never transitions.
#[test]
fn cook_stays_created_without_command() {
    let mut chef = CookChefService::new();
    for _ in 0..10000 {
        let d = chef.cycle(CookEvent::Poll(None));
        assert_eq!(d, WorkerDirective::Idle);
        assert_eq!(chef.service_state, State::CREATED);
    }
}

/// An ack-send failure moves the prep chef to `FAILED` with the
/// transport's reason, and no further cycle transitions it again.
#[test]
fn prep_ack_failure_is_terminal() {
    let mut chef = PrepChefService::new();
    chef.cycle(PrepEvent::Poll(Some(PrepareCommand::new(FoodItem::CHICKEN))));
    assert_eq!(chef.service_state, State::ISSUED);

    let d = chef.cycle(PrepEvent::SendOutcome(Err("write rejected".to_string())));
    assert_eq!(d, WorkerDirective::Idle);
    assert_eq!(chef.check_failed(), Some("write rejected"));

    for _ in 0..100 {
        let d = chef.cycle(PrepEvent::Elapsed);
        assert_eq!(d, WorkerDirective::Idle);
        assert_eq!(chef.check_failed(), Some("write rejected"));
        assert!(!chef.check_completed());
    }
}

/// An ack-send failure moves the cook chef to `FAILED` with the
/// transport's reason, and no further cycle transitions it again.
#[test]
fn cook_ack_failure_is_terminal() {
    let mut chef = CookChefService::new();
    chef.cycle(CookEvent::Poll(Some(CookCommand::new(FoodItem::CHICKEN, 5))));
    assert_eq!(chef.service_state, State::ISSUED);

    let d = chef.cycle(CookEvent::SendOutcome(Err("no endpoint".to_string())));
    assert_eq!(d, WorkerDirective::Idle);
    assert!(chef.check_failed());
    assert_eq!(chef.get_failure_msg(), Some("no endpoint"));

    for _ in 0..100 {
        let d = chef.cycle(CookEvent::Poll(None));
        assert_eq!(d, WorkerDirective::Idle);
        assert!(chef.check_failed());
    }
}

/// A completion-send failure is terminal too.
#[test]
fn cook_done_failure_is_terminal() {
    let mut chef = CookChefService::new();
    chef.cycle(CookEvent::Poll(Some(CookCommand::new(FoodItem::CHICKEN, 5))));
    chef.cycle(CookEvent::SendOutcome(Ok(())));
    chef.cycle(CookEvent::Elapsed);
    assert_eq!(chef.service_state, State::EXECUTING);

    chef.cycle(CookEvent::SendOutcome(Err("lost endpoint".to_string())));
    assert!(chef.check_failed());
    assert!(!chef.check_completed());
    let d = chef.cycle(CookEvent::SendOutcome(Ok(())));
    assert_eq!(d, WorkerDirective::Idle);
    assert!(chef.check_failed());
}
