use tarea::order_index::{listing_ids, parse_index, render_index};
use tarea::task::{State, Task};

fn task(id: &str, text: &str, state: State) -> Task {
    let mut t = Task::with_id(id.to_string(), text.to_string());
    t.state = state;
    t
}

#[test]
fn render_writes_one_identifier_per_line() {
    let ids = vec!["a".to_string(), "bb".to_string(), "ccc".to_string()];
    assert_eq!(render_index(&ids), "a\nbb\nccc\n");
}

#[test]
fn render_of_no_identifiers_is_empty() {
    assert_eq!(render_index(&Vec::new()), "");
}

#[test]
fn parse_splits_lines() {
    let got = parse_index("a\nbb\nccc\n");
    assert_eq!(got, vec!["a".to_string(), "bb".to_string(), "ccc".to_string()]);
}

#[test]
fn parse_of_empty_text_is_empty() {
    assert!(parse_index("").is_empty());
}

#[test]
fn parse_keeps_a_final_line_without_terminator() {
    let got = parse_index("a\nbb");
    assert_eq!(got, vec!["a".to_string(), "bb".to_string()]);
}

#[test]
fn parse_trims_carriage_return_line_endings() {
    let got = parse_index("a\r\nbb\r\n");
    assert_eq!(got, vec!["a".to_string(), "bb".to_string()]);
}

#[test]
fn parse_keeps_a_bare_carriage_return_inside_a_line() {
    // only a carriage return directly before the line break is a terminator
    let got = parse_index("a\rb\n\r\n");
    assert_eq!(got, vec!["a\rb".to_string(), "".to_string()]);
}

#[test]
fn render_then_parse_round_trips() {
    let ids = vec![
        "0a1b2c3d-0000-4000-8000-abcdefabcdef".to_string(),
        "ffffffff-1111-4222-9333-444455556666".to_string(),
    ];
    assert_eq!(parse_index(&render_index(&ids)), ids);
}

#[test]
fn listing_ids_follow_listing_order() {
    let tasks = vec![
        task("x", "X", State::Done),
        task("y", "Y", State::Pending),
    ];
    assert_eq!(listing_ids(&tasks), vec!["x".to_string(), "y".to_string()]);
}
