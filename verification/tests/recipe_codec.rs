use kitchen::msgs::SimpleCommandAck;
use kitchen::recipe::Recipe;
use kitchen::steps::{FoodItem, Step};
use kitchen::topics::TopicName;

/// Saving a recipe to its document text and reloading it yields
/// field-for-field equal title, description and steps.
#[test]
fn round_trip() {
    let recipe = Recipe::new(
        "Roast night".to_string(),
        "A two course evening".to_string(),
        vec![
            Step::Prepare(FoodItem::CHICKEN),
            Step::Cook(FoodItem::CHICKEN, 5),
            Step::Prepare(FoodItem::SALMON),
            Step::Cook(FoodItem::SALMON, 1800),
        ],
    );
    let text = recipe.to_text().expect("line-clean fields must encode");
    let reloaded = Recipe::from_text(&text).expect("an exact encoding must decode");
    assert_eq!(reloaded.get_title().as_str(), "Roast night");
    assert_eq!(reloaded.get_description().as_str(), "A two course evening");
    assert_eq!(reloaded.get_steps(), recipe.get_steps());
}

/// The exact document a recipe encodes to.
#[test]
fn exact_encoding() {
    let recipe = Recipe::new(
        "T".to_string(),
        "d".to_string(),
        vec![Step::Prepare(FoodItem::CHICKEN), Step::Cook(FoodItem::SALMON, 42)],
    );
    let text = recipe.to_text().unwrap();
    assert_eq!(
        text,
        "title: T\ndescription: d\nsteps:\n- prepare: CHICKEN\n- cook: SALMON 42\n"
    );
}

/// A recipe with no steps still round-trips.
#[test]
fn round_trip_empty_steps() {
    let recipe = Recipe::new("T".to_string(), String::new(), vec![]);
    let text = recipe.to_text().unwrap();
    assert_eq!(text, "title: T\ndescription: \nsteps:\n");
    let reloaded = Recipe::from_text(&text).unwrap();
    assert_eq!(reloaded.get_title().as_str(), "T");
    assert_eq!(reloaded.get_description().as_str(), "");
    assert!(reloaded.get_steps().is_empty());
}

/// The largest duration survives the round trip.
#[test]
fn round_trip_largest_duration() {
    let recipe = Recipe::new(
        "T".to_string(),
        String::new(),
        vec![Step::Cook(FoodItem::CHICKEN, u64::MAX)],
    );
    let text = recipe.to_text().unwrap();
    let reloaded = Recipe::from_text(&text).unwrap();
    assert_eq!(reloaded.get_steps(), &vec![Step::Cook(FoodItem::CHICKEN, u64::MAX)]);
}

/// A title or description with a newline does not fit the line format
/// and is refused by the encoder.
#[test]
fn to_text_rejects_embedded_newline() {
    let recipe = Recipe::new("a\nb".to_string(), String::new(), vec![]);
    assert!(recipe.to_text().is_none());
    let recipe = Recipe::new("a".to_string(), "x\ny".to_string(), vec![]);
    assert!(recipe.to_text().is_none());
}

/// Texts that do not match the schema are rejected.
#[test]
fn from_text_rejects_malformed_documents() {
    assert!(Recipe::from_text("").is_err());
    assert!(Recipe::from_text("title: T").is_err());
    assert!(Recipe::from_text("Title: T\ndescription: d\nsteps:\n").is_err());
    assert!(Recipe::from_text("title: T\ndescription: d\n").is_err());
    assert!(Recipe::from_text("title: T\ndescription: d\nsteps:\n- fry: CHICKEN\n").is_err());
    assert!(Recipe::from_text("title: T\ndescription: d\nsteps:\n- prepare: TOFU\n").is_err());
    assert!(Recipe::from_text("title: T\ndescription: d\nsteps:\n- prepare: CHICKEN").is_err());
    // a cook step needs a duration
    assert!(Recipe::from_text("title: T\ndescription: d\nsteps:\n- cook: CHICKEN\n").is_err());
    // durations are canonical decimals: no leading zero, no sign, no overflow
    assert!(
        Recipe::from_text("title: T\ndescription: d\nsteps:\n- cook: CHICKEN 05\n").is_err()
    );
    assert!(
        Recipe::from_text("title: T\ndescription: d\nsteps:\n- cook: CHICKEN -5\n").is_err()
    );
    assert!(Recipe::from_text(
        "title: T\ndescription: d\nsteps:\n- cook: CHICKEN 18446744073709551616\n"
    )
    .is_err());
}

/// The duration just at the type's edge still decodes.
#[test]
fn from_text_accepts_max_duration() {
    let loaded = Recipe::from_text(
        "title: T\ndescription: d\nsteps:\n- cook: CHICKEN 18446744073709551615\n",
    )
    .unwrap();
    assert_eq!(loaded.get_steps(), &vec![Step::Cook(FoodItem::CHICKEN, u64::MAX)]);
}

/// Only the two recipe-file extensions are accepted.
#[test]
fn is_yaml_checks_extension() {
    assert!(Recipe::is_yaml("dinner.yaml"));
    assert!(Recipe::is_yaml("dinner.yml"));
    assert!(!Recipe::is_yaml("dinner.txt"));
    assert!(!Recipe::is_yaml("yaml"));
    assert!(!Recipe::is_yaml(""));
}

/// The six logical channels map to their fixed transport identifiers.
#[test]
fn topic_names() {
    assert_eq!(TopicName::PrepareCommand.as_str(), "prepare_command");
    assert_eq!(TopicName::PrepareCommandAck.as_str(), "prepare_command_ack");
    assert_eq!(TopicName::PrepareCommandDone.as_str(), "prepare_command_done");
    assert_eq!(TopicName::CookCommand.as_str(), "cook_command");
    assert_eq!(TopicName::CookCommandAck.as_str(), "cook_command_ack");
    assert_eq!(TopicName::CookCommandDone.as_str(), "cook_command_done");
}

/// The simple acknowledgment marker constructs.
#[test]
fn simple_command_ack_constructs() {
    let ack = SimpleCommandAck::new();
    assert_eq!(ack, SimpleCommandAck);
}
