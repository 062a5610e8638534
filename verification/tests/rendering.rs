use wakebot::errors::WakeBotErrorKind;
use wakebot::render::format_rolls_result_new;
use wakebot::rolls::{interpret_rolls_with_values, RollStringResult};

#[test]
fn single_term_message_has_no_aggregate_line() {
    // "1d4 + 3" with a rolled value of 2: a single per-term line, no
    // flattened-text line, and a final total of 5.
    let values: Vec<u32> = vec![2];
    let res = interpret_rolls_with_values("1d4 + 3", 0, &values).unwrap();
    let msg = format_rolls_result_new(&res).unwrap();
    assert_eq!(msg, "1d4 + 3\n1d4 (2) = 2\n**5**");
}

#[test]
fn nested_parens_resolve_to_twelve() {
    // "(1d6+2)*2" with a rolled value of 4 evaluates to 12.
    let values: Vec<u32> = vec![4];
    let res = interpret_rolls_with_values("(1d6+2)*2", 0, &values).unwrap();
    assert_eq!(res.converted_text, "(4+2)*2");
    let msg = format_rolls_result_new(&res).unwrap();
    assert_eq!(msg, "(1d6+2)\\*2\n1d6 (4)+2 = 6\n**12**");
}

#[test]
fn discarded_rolls_are_struck_through() {
    let values: Vec<u32> = vec![5, 17];
    let res = interpret_rolls_with_values("2d20kh1", 0, &values).unwrap();
    let msg = format_rolls_result_new(&res).unwrap();
    assert_eq!(msg, "2d20kh1\n2d20kh1 (~~5~~, 17) = 17\n**17**");
}

#[test]
fn multiple_terms_show_flattened_line() {
    let values: Vec<u32> = vec![3, 5, 2];
    let res = interpret_rolls_with_values("2d6 + 1d4", 0, &values).unwrap();
    let msg = format_rolls_result_new(&res).unwrap();
    assert_eq!(msg, "2d6 + 1d4\n2d6 (3, 5) = 8\n1d4 (2) = 2\n8 + 2\n**10**");
}

#[test]
fn critical_success_marker_in_line() {
    let values: Vec<u32> = vec![20];
    let res = interpret_rolls_with_values("1d20", 0, &values).unwrap();
    let msg = format_rolls_result_new(&res).unwrap();
    assert_eq!(msg, "1d20\n1d20 (20) = 20 - **CRITICAL SUCCESS!**\n**20**");
}

#[test]
fn critical_failure_marker_in_line() {
    let values: Vec<u32> = vec![1];
    let res = interpret_rolls_with_values("1d20", 0, &values).unwrap();
    let msg = format_rolls_result_new(&res).unwrap();
    assert_eq!(msg, "1d20\n1d20 (1) = 1 - **CRITICAL FAILURE!**\n**1**");
}

#[test]
fn stars_are_escaped_in_original_text() {
    let values: Vec<u32> = vec![2];
    let res = interpret_rolls_with_values("1d4*2", 0, &values).unwrap();
    let msg = format_rolls_result_new(&res).unwrap();
    assert_eq!(msg, "1d4\\*2\n1d4 (2)*2 = 4\n**4**");
}

#[test]
fn division_renders_fractional_total() {
    let values: Vec<u32> = vec![3];
    let res = interpret_rolls_with_values("1d6/2", 0, &values).unwrap();
    let msg = format_rolls_result_new(&res).unwrap();
    assert_eq!(msg, "1d6/2\n1d6 (3)/2 = 1.5\n**1.5**");
}

#[test]
fn round_trip_total_matches_converted_text() {
    // Replacing each term's span with its kept total and evaluating that
    // text yields the final number shown to the user.
    let values: Vec<u32> = vec![6, 1, 4];
    let res = interpret_rolls_with_values("(2d6kh1+1)*1d8", 0, &values).unwrap();
    assert_eq!(res.converted_text, "(6+1)*4");
    let msg = format_rolls_result_new(&res).unwrap();
    let tail = msg.rsplit("**").nth(1).unwrap();
    assert_eq!(tail, "28");
}

#[test]
fn plain_arithmetic_evaluates() {
    let values: Vec<u32> = vec![];
    let res = interpret_rolls_with_values("2 + 3", 0, &values).unwrap();
    let msg = format_rolls_result_new(&res).unwrap();
    assert_eq!(msg, "2 + 3\n**5**");
}

#[test]
fn unevaluable_text_is_a_recoverable_error() {
    let res = RollStringResult::new("what");
    let err = format_rolls_result_new(&res).unwrap_err();
    assert_eq!(err.kind, WakeBotErrorKind::Evaluation);
    let res2 = RollStringResult::new("2 +");
    let err2 = format_rolls_result_new(&res2).unwrap_err();
    assert_eq!(err2.kind, WakeBotErrorKind::Evaluation);
}
