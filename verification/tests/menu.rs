use kvstore::menu::{loop_step, parse_choice, Choice, LoopState};
use kvstore::text::{format_pair, str_eq, trim};

#[test]
fn each_selection_number_maps_to_its_operation() {
    assert_eq!(parse_choice("1"), Some(Choice::Create));
    assert_eq!(parse_choice("2"), Some(Choice::Select));
    assert_eq!(parse_choice("3"), Some(Choice::Update));
    assert_eq!(parse_choice("4"), Some(Choice::Delete));
    assert_eq!(parse_choice("5"), Some(Choice::ViewAll));
}

#[test]
fn whitespace_around_a_selection_is_ignored() {
    assert_eq!(parse_choice(" 3 \n"), Some(Choice::Update));
    assert_eq!(parse_choice("\t5\r\n"), Some(Choice::ViewAll));
}

#[test]
fn out_of_range_selections_are_rejected() {
    assert_eq!(parse_choice("0"), None);
    assert_eq!(parse_choice("6"), None);
    assert_eq!(parse_choice("10"), None);
    assert_eq!(parse_choice("-1"), None);
    assert_eq!(parse_choice("99999999999999999999"), None);
}

#[test]
fn non_numeric_selections_are_rejected() {
    assert_eq!(parse_choice(""), None);
    assert_eq!(parse_choice("   "), None);
    assert_eq!(parse_choice("abc"), None);
    assert_eq!(parse_choice("2x"), None);
    assert_eq!(parse_choice("+"), None);
    assert_eq!(parse_choice("1 2"), None);
}

#[test]
fn signs_and_leading_zeros_parse_as_integers() {
    assert_eq!(parse_choice("+2"), Some(Choice::Select));
    assert_eq!(parse_choice("003"), Some(Choice::Update));
    assert_eq!(parse_choice("0000000001"), Some(Choice::Create));
    assert_eq!(parse_choice("-0"), None);
}

#[test]
fn end_of_input_terminates_the_loop() {
    assert_eq!(loop_step(LoopState::AwaitingChoice, None), LoopState::Terminated);
    assert_eq!(loop_step(LoopState::Terminated, Some("1")), LoopState::Terminated);
}

#[test]
fn a_valid_selection_starts_an_operation() {
    assert_eq!(
        loop_step(LoopState::AwaitingChoice, Some("2\n")),
        LoopState::Executing(Choice::Select)
    );
}

#[test]
fn an_invalid_selection_reprompts() {
    assert_eq!(
        loop_step(LoopState::AwaitingChoice, Some("nonsense\n")),
        LoopState::AwaitingChoice
    );
}

#[test]
fn a_finished_operation_returns_to_the_menu() {
    assert_eq!(
        loop_step(LoopState::Executing(Choice::Delete), None),
        LoopState::AwaitingChoice
    );
}

#[test]
fn trim_strips_whitespace_at_both_ends_only() {
    assert_eq!(trim("  color \n"), "color");
    assert_eq!(trim("a b"), "a b");
    assert_eq!(trim(""), "");
    assert_eq!(trim(" \t\r\n"), "");
    assert_eq!(trim("x"), "x");
}

#[test]
fn str_eq_compares_by_characters() {
    assert!(str_eq("color", "color"));
    assert!(!str_eq("color", "colour"));
    assert!(!str_eq("color", ""));
    assert!(str_eq("", ""));
}

#[test]
fn format_pair_joins_key_and_value_with_one_space() {
    assert_eq!(format_pair("color", "red"), "color red".to_string());
    assert_eq!(format_pair("", ""), " ".to_string());
}
