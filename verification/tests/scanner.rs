use todo_scan::scan::{process_line, scan_line};

#[test]
fn process_line_with_todo() {
    assert_eq!(process_line("test.rs", 0, "// TODO assert this"), 1);
}

#[test]
fn process_line_with_no_todo() {
    assert_eq!(process_line("test.rs", 0, "fn main() {}"), 0);
}

#[test]
fn empty_line_yields_no_hit() {
    assert_eq!(process_line("test.rs", 0, ""), 0);
}

#[test]
fn notice_reports_position_and_message() {
    let n = scan_line("test.rs", 0, "// TODO assert this").expect("a hit");
    assert_eq!(n.path, "test.rs");
    assert_eq!(n.line, 1);
    assert_eq!(n.col, 8);
    assert_eq!(n.message, "assert this");
}

#[test]
fn notice_line_number_is_one_based() {
    let n = scan_line("a.rs", 41, "TODO x").expect("a hit");
    assert_eq!(n.line, 42);
    assert_eq!(n.col, 5);
    assert_eq!(n.message, "x");
}

#[test]
fn token_at_end_of_line_gives_empty_message() {
    let n = scan_line("a.rs", 0, "do it: TODO").expect("a hit");
    assert_eq!(n.message, "");
    assert_eq!(n.col, 12);
}

#[test]
fn message_is_trimmed_on_both_ends() {
    let n = scan_line("a.rs", 0, "x TODO \t fix me \t ").expect("a hit");
    assert_eq!(n.message, "fix me");
}

#[test]
fn whitespace_only_remainder_gives_empty_message() {
    let n = scan_line("a.rs", 0, "TODO   \t  ").expect("a hit");
    assert_eq!(n.message, "");
}

#[test]
fn token_inside_longer_word_still_counts() {
    assert_eq!(process_line("a.rs", 0, "xTODOy"), 1);
    let n = scan_line("a.rs", 0, "xTODOy").expect("a hit");
    assert_eq!(n.col, 6);
    assert_eq!(n.message, "y");
}

#[test]
fn two_tokens_count_as_one_hit_at_first_occurrence() {
    assert_eq!(process_line("a.rs", 0, "TODO and TODO again"), 1);
    let n = scan_line("a.rs", 0, "TODO and TODO again").expect("a hit");
    assert_eq!(n.col, 5);
    assert_eq!(n.message, "and TODO again");
}

#[test]
fn match_is_case_sensitive() {
    assert_eq!(process_line("a.rs", 0, "// todo lower case"), 0);
    assert_eq!(process_line("a.rs", 0, "// ToDo mixed case"), 0);
    assert!(scan_line("a.rs", 0, "// todo lower case").is_none());
}
