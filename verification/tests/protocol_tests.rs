//! The textual command protocol and the turn-input parsing.

use scrapgrid::action::{u32_to_string, Action};
use scrapgrid::field::Field;
use scrapgrid::owner::Owner;
use scrapgrid::parse::parse_int;

#[test]
fn numbers_render_in_decimal() {
    assert_eq!(u32_to_string(0), "0");
    assert_eq!(u32_to_string(7), "7");
    assert_eq!(u32_to_string(10), "10");
    assert_eq!(u32_to_string(12345), "12345");
    assert_eq!(u32_to_string(u32::MAX), "4294967295");
}

#[test]
fn actions_render_as_commands() {
    let m = Action::Move { amount: 3, from: (2, 1), to: (3, 2) };
    assert_eq!(m.to_command_string(), "MOVE 3 2 1 3 2");
    assert_eq!(Action::Build(4, 5).to_command_string(), "BUILD 4 5");
    assert_eq!(Action::Spawn(2, 0, 0).to_command_string(), "SPAWN 2 0 0");
    assert_eq!(
        Action::Message(String::from("gg")).to_command_string(),
        "MESSAGE gg"
    );
    assert_eq!(Action::Wait.to_command_string(), "WAIT");
}

#[test]
fn empty_turn_renders_as_wait() {
    let actions: Vec<Action> = Vec::new();
    assert_eq!(Action::render_turn(&actions), "WAIT;");
}

#[test]
fn turn_renders_in_decision_order() {
    let actions = vec![
        Action::Move { amount: 3, from: (2, 1), to: (3, 2) },
        Action::Spawn(2, 0, 0),
        Action::Wait,
    ];
    assert_eq!(Action::render_turn(&actions), "MOVE 3 2 1 3 2;SPAWN 2 0 0;WAIT;");
}

#[test]
fn parse_int_accepts_plain_decimals() {
    assert_eq!(parse_int("0"), Some(0));
    assert_eq!(parse_int("42"), Some(42));
    assert_eq!(parse_int("-1"), Some(-1));
    assert_eq!(parse_int("2147483647"), Some(2147483647));
    assert_eq!(parse_int("-2147483648"), Some(-2147483648));
}

#[test]
fn parse_int_rejects_malformed_and_oversized_tokens() {
    assert_eq!(parse_int(""), None);
    assert_eq!(parse_int("-"), None);
    assert_eq!(parse_int("abc"), None);
    assert_eq!(parse_int("1x"), None);
    assert_eq!(parse_int("2147483648"), None);
    assert_eq!(parse_int("-2147483649"), None);
    assert_eq!(parse_int("99999999999999999999"), None);
}

#[test]
fn line_ok_validates_tokens() {
    let good = ["5", "1", "2", "0", "1", "1", "0"];
    assert!(Field::line_ok(&good));
    let short = ["5", "1", "2"];
    assert!(!Field::line_ok(&short));
    let bad_owner = ["5", "2", "2", "0", "1", "1", "0"];
    assert!(!Field::line_ok(&bad_owner));
    let negative_scrap = ["-5", "1", "2", "0", "1", "1", "0"];
    assert!(!Field::line_ok(&negative_scrap));
    let junk = ["5", "1", "two", "0", "1", "1", "0"];
    assert!(!Field::line_ok(&junk));
}

#[test]
fn from_input_line_builds_the_cell() {
    let tokens = ["5", "1", "2", "0", "1", "1", "0"];
    assert!(Field::line_ok(&tokens));
    let f = Field::from_input_line(&tokens, 3, 4);
    assert_eq!(f.x, 3);
    assert_eq!(f.y, 4);
    assert_eq!(f.scrap_amount, 5);
    assert_eq!(f.owner, Owner::Me);
    assert_eq!(f.num_units, 2);
    assert!(!f.has_recycler);
    assert!(f.can_build);
    assert!(f.can_spawn);
    assert!(!f.in_recycler_range);
    let neutral = ["0", "-1", "0", "0", "0", "0", "1"];
    let g = Field::from_input_line(&neutral, 0, 0);
    assert_eq!(g.owner, Owner::Neutral);
    assert!(g.in_recycler_range);
}
