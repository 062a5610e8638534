use wakebot::errors::WakeBotErrorKind;
use wakebot::rolls::{interpret_rolls, interpret_rolls_with_values};

#[test]
fn single_term_with_fixed_roll() {
    let values: Vec<u32> = vec![4];
    let res = interpret_rolls_with_values("1d6", 0, &values).unwrap();
    assert_eq!(res.original_text, "1d6");
    assert_eq!(res.converted_text, "4");
    assert_eq!(res.rolls.len(), 1);
    assert_eq!(res.rolls[0].original_text, "1d6");
    assert_eq!(res.rolls[0].non_roll_portion, "");
    assert_eq!(res.rolls[0].rolls, vec![4i64]);
    assert_eq!(res.rolls[0].roll_total, 4);
    assert!(!res.rolls[0].has_critical_success);
    assert!(!res.rolls[0].has_critical_failure);
}

#[test]
fn keep_highest_discards_lowest() {
    // "2d20kh1" with underlying rolls [5, 17] keeps 17 and discards 5.
    let values: Vec<u32> = vec![5, 17];
    let res = interpret_rolls_with_values("2d20kh1", 0, &values).unwrap();
    assert_eq!(res.rolls.len(), 1);
    assert_eq!(res.rolls[0].rolls, vec![-5i64, 17i64]);
    assert_eq!(res.rolls[0].roll_total, 17);
    assert!(!res.rolls[0].has_critical_success);
    assert!(!res.rolls[0].has_critical_failure);
    assert_eq!(res.converted_text, "17");
}

#[test]
fn keep_lowest_discards_highest() {
    let values: Vec<u32> = vec![5, 2];
    let res = interpret_rolls_with_values("2d6kl1", 0, &values).unwrap();
    assert_eq!(res.rolls[0].rolls, vec![-5i64, 2i64]);
    assert_eq!(res.rolls[0].roll_total, 2);
}

#[test]
fn plain_k_means_keep_highest() {
    let values: Vec<u32> = vec![1, 3, 4, 6];
    let res = interpret_rolls_with_values("4d6k3", 0, &values).unwrap();
    assert_eq!(res.rolls[0].rolls, vec![-1i64, 3, 4, 6]);
    assert_eq!(res.rolls[0].roll_total, 13);
}

#[test]
fn keep_count_at_least_quantity_discards_nothing() {
    let values: Vec<u32> = vec![3, 4];
    let res = interpret_rolls_with_values("2d6kh5", 0, &values).unwrap();
    assert_eq!(res.rolls[0].rolls, vec![3i64, 4]);
    assert_eq!(res.rolls[0].roll_total, 7);
}

#[test]
fn ties_discard_earlier_rolls_first() {
    let values: Vec<u32> = vec![4, 4, 2];
    let res = interpret_rolls_with_values("3d6kh1", 0, &values).unwrap();
    assert_eq!(res.rolls[0].rolls, vec![-4i64, 4, -2]);
    assert_eq!(res.rolls[0].roll_total, 4);
}

#[test]
fn critical_success_on_kept_twenty() {
    let values: Vec<u32> = vec![20];
    let res = interpret_rolls_with_values("1d20", 0, &values).unwrap();
    assert!(res.rolls[0].has_critical_success);
    assert!(!res.rolls[0].has_critical_failure);
}

#[test]
fn critical_failure_on_kept_one() {
    let values: Vec<u32> = vec![1];
    let res = interpret_rolls_with_values("1d20", 0, &values).unwrap();
    assert!(!res.rolls[0].has_critical_success);
    assert!(res.rolls[0].has_critical_failure);
}

#[test]
fn discarded_twenty_is_no_critical() {
    // Keep-lowest keeps the 3 and discards the 20: no critical success.
    let values: Vec<u32> = vec![20, 3];
    let res = interpret_rolls_with_values("2d20kl1", 0, &values).unwrap();
    assert_eq!(res.rolls[0].rolls, vec![-20i64, 3]);
    assert!(!res.rolls[0].has_critical_success);
}

#[test]
fn no_critical_flags_off_twenty_sided() {
    let values: Vec<u32> = vec![20, 1];
    let res = interpret_rolls_with_values("2d30", 0, &values).unwrap();
    assert!(!res.rolls[0].has_critical_success);
    assert!(!res.rolls[0].has_critical_failure);
}

#[test]
fn omitted_count_defaults_to_one() {
    let values: Vec<u32> = vec![3];
    let res = interpret_rolls_with_values("d6", 0, &values).unwrap();
    assert_eq!(res.rolls[0].rolls, vec![3i64]);
    assert_eq!(res.converted_text, "3");
}

#[test]
fn zero_dice_total_zero() {
    let values: Vec<u32> = vec![];
    let res = interpret_rolls_with_values("0d6", 0, &values).unwrap();
    assert_eq!(res.rolls[0].rolls.len(), 0);
    assert_eq!(res.rolls[0].roll_total, 0);
    assert_eq!(res.converted_text, "0");
}

#[test]
fn parenthesized_term_keeps_parens_in_converted_text() {
    // "(1d6+2)*2" with a rolled value of 4 becomes "(4+2)*2".
    let values: Vec<u32> = vec![4];
    let res = interpret_rolls_with_values("(1d6+2)*2", 0, &values).unwrap();
    assert_eq!(res.converted_text, "(4+2)*2");
    assert_eq!(res.rolls.len(), 1);
    assert_eq!(res.rolls[0].original_text, "1d6");
    assert_eq!(res.rolls[0].non_roll_portion, "+2");
}

#[test]
fn spaced_arithmetic_is_not_a_suffix() {
    let values: Vec<u32> = vec![2];
    let res = interpret_rolls_with_values("1d4 + 3", 0, &values).unwrap();
    assert_eq!(res.rolls[0].non_roll_portion, "");
    assert_eq!(res.converted_text, "2 + 3");
}

#[test]
fn suffix_stops_before_next_dice_term() {
    let values: Vec<u32> = vec![3, 5, 2];
    let res = interpret_rolls_with_values("2d6 + 1d4", 0, &values).unwrap();
    assert_eq!(res.rolls.len(), 2);
    assert_eq!(res.rolls[0].original_text, "2d6");
    assert_eq!(res.rolls[0].rolls, vec![3i64, 5]);
    assert_eq!(res.rolls[1].original_text, "1d4");
    assert_eq!(res.rolls[1].rolls, vec![2i64]);
    assert_eq!(res.converted_text, "8 + 2");
}

#[test]
fn adjacent_term_is_not_swallowed_by_suffix() {
    let values: Vec<u32> = vec![3, 2];
    let res = interpret_rolls_with_values("1d6+1d4", 0, &values).unwrap();
    assert_eq!(res.rolls.len(), 2);
    assert_eq!(res.rolls[0].non_roll_portion, "");
    assert_eq!(res.converted_text, "3+2");
}

#[test]
fn leading_bang_is_stripped() {
    let values: Vec<u32> = vec![4];
    let res = interpret_rolls_with_values("!1d6+2", 0, &values).unwrap();
    assert_eq!(res.original_text, "1d6+2");
    assert_eq!(res.converted_text, "4+2");
}

#[test]
fn order_keys_follow_text_order() {
    let values: Vec<u32> = vec![3, 2];
    let res = interpret_rolls_with_values("1d6+1d4", 0, &values).unwrap();
    assert_eq!(res.rolls[0].sorting_priority, 0);
    assert_eq!(res.rolls[1].sorting_priority, 4);
    let res2 = interpret_rolls_with_values("1d6+1d4", 10, &values).unwrap();
    assert_eq!(res2.rolls[0].sorting_priority, 10);
    assert_eq!(res2.rolls[1].sorting_priority, 14);
}

#[test]
fn over_thousand_dice_rejected_before_rolling() {
    // "1001d6" is rejected with a validation error before any roll.
    let err = interpret_rolls("1001d6", 0).unwrap_err();
    assert_eq!(err.kind, WakeBotErrorKind::Validation);
    assert_eq!(err.details, "Max number of dice is 1000");
    let values: Vec<u32> = vec![];
    let err2 = interpret_rolls_with_values("1001d6", 0, &values).unwrap_err();
    assert_eq!(err2.kind, WakeBotErrorKind::Validation);
    assert_eq!(err2.details, "Max number of dice is 1000");
}

#[test]
fn thousand_dice_accepted() {
    let values: Vec<u32> = vec![1; 1000];
    let res = interpret_rolls_with_values("1000d2", 0, &values).unwrap();
    assert_eq!(res.rolls[0].roll_total, 1000);
}

#[test]
fn zero_sides_rejected() {
    let err = interpret_rolls("1d0", 0).unwrap_err();
    assert_eq!(err.kind, WakeBotErrorKind::Parse);
}

#[test]
fn mismatched_values_rejected() {
    let one: Vec<u32> = vec![3];
    let err = interpret_rolls_with_values("2d6", 0, &one).unwrap_err();
    assert_eq!(err.kind, WakeBotErrorKind::Parse);
    let high: Vec<u32> = vec![7];
    let err2 = interpret_rolls_with_values("1d6", 0, &high).unwrap_err();
    assert_eq!(err2.kind, WakeBotErrorKind::Parse);
    let extra: Vec<u32> = vec![3, 3];
    let err3 = interpret_rolls_with_values("1d6", 0, &extra).unwrap_err();
    assert_eq!(err3.kind, WakeBotErrorKind::Parse);
}

#[test]
fn random_rolls_stay_in_range() {
    for _ in 0..50 {
        let res = interpret_rolls("3d6", 0).unwrap();
        assert_eq!(res.rolls.len(), 1);
        assert_eq!(res.rolls[0].rolls.len(), 3);
        let mut sum: u64 = 0;
        for &v in res.rolls[0].rolls.iter() {
            assert!((1..=6).contains(&v));
            sum += v as u64;
        }
        assert_eq!(res.rolls[0].roll_total, sum);
    }
}

#[test]
fn one_sided_die_always_rolls_one() {
    let res = interpret_rolls("1d1+5", 0).unwrap();
    assert_eq!(res.rolls[0].rolls, vec![1i64]);
    assert_eq!(res.rolls[0].roll_total, 1);
    assert_eq!(res.converted_text, "1+5");
}

#[test]
fn text_without_terms_is_left_alone() {
    let values: Vec<u32> = vec![];
    let res = interpret_rolls_with_values("2 + 3", 0, &values).unwrap();
    assert_eq!(res.rolls.len(), 0);
    assert_eq!(res.converted_text, "2 + 3");
}
