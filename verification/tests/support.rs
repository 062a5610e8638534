use wakebot::actions::{is_valid_action_name, next_heh_count, Action};
use wakebot::errors::{WakeBotError, WakeBotErrorKind};
use wakebot::rolls::{RollResult, RollStringResult};
use wakebot::scan::is_dice_command;

#[test]
fn error_constructors_carry_kind_and_message() {
    let e = WakeBotError::new("something went wrong");
    assert_eq!(e.kind, WakeBotErrorKind::Parse);
    assert_eq!(e.details, "something went wrong");
    assert_eq!(e.message(), "something went wrong");
    let v = WakeBotError::with_kind(WakeBotErrorKind::Validation, "too many");
    assert_eq!(v.kind, WakeBotErrorKind::Validation);
    assert_eq!(v.details, "too many");
}

#[test]
fn roll_result_constructor_keeps_fields() {
    let r = RollResult::new(
        String::from("2d6"),
        String::from("+1"),
        vec![3, -4],
        3,
        false,
        false,
        7,
    );
    assert_eq!(r.original_text, "2d6");
    assert_eq!(r.non_roll_portion, "+1");
    assert_eq!(r.rolls, vec![3i64, -4]);
    assert_eq!(r.roll_total, 3);
    assert_eq!(r.sorting_priority, 7);
}

#[test]
fn roll_string_result_starts_unconverted() {
    let r = RollStringResult::new("2d6 + 1");
    assert_eq!(r.original_text, "2d6 + 1");
    assert_eq!(r.converted_text, "2d6 + 1");
    assert!(r.rolls.is_empty());
}

#[test]
fn dice_command_detection() {
    assert!(is_dice_command("!2d6"));
    assert!(is_dice_command("!d20 + 3"));
    assert!(is_dice_command("roll this: !3d8kh2"));
    assert!(!is_dice_command("2d6"));
    assert!(!is_dice_command("!dragons"));
    assert!(!is_dice_command("hello"));
    assert!(!is_dice_command("!"));
}

#[test]
fn action_name_validation() {
    assert!(is_valid_action_name("fire-bolt_2"));
    assert!(is_valid_action_name("A"));
    assert!(!is_valid_action_name(""));
    assert!(!is_valid_action_name("bad name"));
    assert!(!is_valid_action_name("nope!"));
}

#[test]
fn action_holds_name_and_roll() {
    let a = Action { name: String::from("smite"), roll: String::from("!2d8+3") };
    assert_eq!(a.name, "smite");
    assert_eq!(a.roll, "!2d8+3");
}

#[test]
fn heh_counter_increments() {
    assert_eq!(next_heh_count(None).unwrap(), 1);
    assert_eq!(next_heh_count(Some("41")).unwrap(), 42);
    assert_eq!(next_heh_count(Some("0")).unwrap(), 1);
}

#[test]
fn heh_counter_rejects_bad_text() {
    let e = next_heh_count(Some("many")).unwrap_err();
    assert_eq!(e.kind, WakeBotErrorKind::Parse);
    assert!(next_heh_count(Some("")).is_err());
    assert!(next_heh_count(Some("2147483647")).is_err());
    assert_eq!(next_heh_count(Some("2147483646")).unwrap(), 2147483647);
}
