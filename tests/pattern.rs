use ticket_scan::pattern::{is_username_header, regex_flag, ticket_id_digits, username_in, Patterns};

#[test]
fn flag_between_prefix_and_suffix() {
    assert_eq!(regex_flag(&patterns(), "see flag{WIN} here").as_deref(), Some("WIN"));
}

#[test]
fn flag_with_empty_prefix_and_suffix() {
    assert_eq!(regex_flag(&patterns(), "flag{abc_123}").as_deref(), Some("abc_123"));
}

#[test]
fn flag_with_empty_token() {
    assert_eq!(regex_flag(&patterns(), "xflag{}y").as_deref(), Some(""));
}

#[test]
fn flag_stops_at_first_closing_brace() {
    assert_eq!(regex_flag(&patterns(), "flag{a}b}").as_deref(), Some("a"));
}

#[test]
fn leftmost_flag_wins() {
    assert_eq!(regex_flag(&patterns(), "flag{one} flag{two}").as_deref(), Some("one"));
}

#[test]
fn flag_token_keeps_inner_braces_and_spaces() {
    assert_eq!(regex_flag(&patterns(), "flag{a {b c}").as_deref(), Some("a {b c"));
}

#[test]
fn no_flag() {
    assert_eq!(regex_flag(&patterns(), "nothing to see"), None);
    assert_eq!(regex_flag(&patterns(), "flag{unterminated"), None);
    assert_eq!(regex_flag(&patterns(), ""), None);
}

#[test]
fn flag_token_keeps_new_lines() {
    assert_eq!(regex_flag(&patterns(), "flag{a\nb}").as_deref(), Some("a\nb"));
    assert_eq!(regex_flag(&patterns(), "flag{a\nb} flag{c}").as_deref(), Some("a\nb"));
    assert_eq!(regex_flag(&patterns(), "x flag{a\nb} y").as_deref(), Some("a\nb"));
    assert_eq!(regex_flag(&patterns(), "flag{\n}").as_deref(), Some("\n"));
}

#[test]
fn username_header_lines() {
    assert!(is_username_header(&patterns(), "User:"));
    assert!(is_username_header(&patterns(), "  User:\n "));
    assert!(!is_username_header(&patterns(), "User: bob"));
    assert!(!is_username_header(&patterns(), "Owner:"));
}

#[test]
fn username_field_drops_leading_space() {
    assert_eq!(username_in(&patterns(), " alice").as_deref(), Some("alice"));
    assert_eq!(username_in(&patterns(), "  bob ").as_deref(), Some(" bob "));
    assert_eq!(username_in(&patterns(), "carol"), None);
    assert_eq!(username_in(&patterns(), " a\nb"), None);
}

#[test]
fn ticket_id_lines() {
    assert_eq!(ticket_id_digits(&patterns(), "Ticket #42").as_deref(), Some("42"));
    assert_eq!(ticket_id_digits(&patterns(), "  Ticket #7 \n").as_deref(), Some("7"));
    assert_eq!(ticket_id_digits(&patterns(), "Ticket #"), None);
    assert_eq!(ticket_id_digits(&patterns(), "Ticket 42"), None);
    assert_eq!(ticket_id_digits(&patterns(), "Ticket #4x2"), None);
}

fn patterns() -> Patterns {
    Patterns::new()
}
