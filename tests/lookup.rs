use ticket_scan::lookup::{get_username, parse_ticket, process_tickets, rule_out, Scan, ScanError, TicketCard};
use ticket_scan::pattern::Patterns;
use ticket_scan::skipseq::SkipSeq;

fn texts(parts: &[&str]) -> Option<Vec<String>> {
    Some(parts.iter().map(|p| p.to_string()).collect())
}

fn card(id_html: &str, header: &str, description: &str) -> TicketCard {
    TicketCard {
        id_html: Some(id_html.to_string()),
        header: Some(header.to_string()),
        description: Some(description.to_string()),
    }
}

#[test]
fn username_follows_the_user_line() {
    let name = get_username(&patterns(), texts(&["Opened: today", "\n  User:  ", " alice", "Status"])).unwrap();
    assert_eq!(name, "alice");
}

#[test]
fn username_without_meta_block() {
    assert!(matches!(get_username(&patterns(), None), Err(ScanError::ElementNotFound)));
}

#[test]
fn username_without_user_line() {
    assert!(matches!(get_username(&patterns(), texts(&["Opened", " alice"])), Err(ScanError::UnexpectedFormat)));
}

#[test]
fn username_line_is_last() {
    assert!(matches!(get_username(&patterns(), texts(&["x", "User:"])), Err(ScanError::UnexpectedFormat)));
}

#[test]
fn username_without_leading_space() {
    assert!(matches!(get_username(&patterns(), texts(&["User:", "alice"])), Err(ScanError::UnexpectedFormat)));
}

#[test]
fn ticket_card_reads() {
    let t = parse_ticket(&patterns(), &card("\n Ticket #12 ", "Printer", "It jams")).unwrap();
    assert_eq!(t.id, 12);
    assert_eq!(t.header, "Printer");
    assert_eq!(t.description, "It jams");
}

#[test]
fn ticket_card_missing_parts() {
    let mut c = card("Ticket #1", "h", "d");
    c.id_html = None;
    assert!(matches!(parse_ticket(&patterns(), &c), Err(ScanError::ElementNotFound)));
    let mut c = card("Ticket #1", "h", "d");
    c.header = None;
    assert!(matches!(parse_ticket(&patterns(), &c), Err(ScanError::ElementNotFound)));
    let mut c = card("Ticket #1", "h", "d");
    c.description = None;
    assert!(matches!(parse_ticket(&patterns(), &c), Err(ScanError::ElementNotFound)));
}

#[test]
fn ticket_card_bad_number_line() {
    assert!(matches!(parse_ticket(&patterns(), &card("Ticket 1", "h", "d")), Err(ScanError::UnexpectedFormat)));
}

#[test]
fn ticket_card_number_without_digits() {
    assert!(matches!(parse_ticket(&patterns(), &card("Ticket #x", "h", "d")), Err(ScanError::UnexpectedFormat)));
    assert!(matches!(parse_ticket(&patterns(), &card("Ticket #12a", "h", "d")), Err(ScanError::UnexpectedFormat)));
    assert!(matches!(parse_ticket(&patterns(), &card("Ticket #\u{e9}", "h", "d")), Err(ScanError::UnexpectedFormat)));
    assert!(matches!(parse_ticket(&patterns(), &card("Ticket #\u{663}", "h", "d")), Err(ScanError::UnexpectedFormat)));
}

#[test]
fn tickets_fail_with_the_error_of_the_first_bad_card() {
    let mut missing_header = card("Ticket #5", "h", "d");
    missing_header.header = None;
    let cards = vec![card("Ticket #4", "a", "b"), missing_header, card("#9", "flag{x}", "d")];
    assert!(matches!(process_tickets(&patterns(), &cards), Err(ScanError::ElementNotFound)));
}

#[test]
fn ticket_card_number_too_large() {
    let line = "Ticket #99999999999999999999999999";
    assert!(matches!(parse_ticket(&patterns(), &card(line, "h", "d")), Err(ScanError::TicketId(_))));
}

#[test]
fn tickets_with_flag() {
    let cards = vec![
        card("Ticket #4", "nothing", "here"),
        card("Ticket #9", "hi", "flag{ABC}"),
        card("Ticket #10", "flag{later}", ""),
    ];
    match process_tickets(&patterns(), &cards).unwrap() {
        Scan::Flag(f) => assert_eq!(f, "ABC"),
        other => panic!("unexpected {:?}", other),
    }
}

#[test]
fn tickets_without_flag_rule_out_ids() {
    let cards = vec![card("Ticket #4", "a", "b"), card("Ticket #9", "c", "d")];
    match process_tickets(&patterns(), &cards).unwrap() {
        Scan::NotFound(ids) => assert_eq!(ids, vec![4, 9]),
        other => panic!("unexpected {:?}", other),
    }
    match process_tickets(&patterns(), &Vec::new()).unwrap() {
        Scan::NotFound(ids) => assert!(ids.is_empty()),
        other => panic!("unexpected {:?}", other),
    }
}

#[test]
fn tickets_with_bad_card_fail() {
    let cards = vec![card("Ticket #4", "a", "b"), card("#9", "flag{x}", "d")];
    assert!(matches!(process_tickets(&patterns(), &cards), Err(ScanError::UnexpectedFormat)));
}

#[test]
fn ruled_out_ids_are_skipped() {
    let mut checked = SkipSeq::new(1);
    assert_eq!(checked.next(), 1);
    let rejected = rule_out(&mut checked, &vec![1, 3, 4, 7, usize::MAX]);
    assert_eq!(rejected, vec![1, usize::MAX]);
    assert_eq!(checked.next(), 2);
    assert_eq!(checked.next(), 5);
    assert_eq!(checked.next(), 6);
    assert_eq!(checked.next(), 8);
}

fn patterns() -> Patterns {
    Patterns::new()
}
