use jfon_viewer::{Error, Event, Events, FmtErrorKind, Timespan, ViewBy};

fn read_ok(text: &str) -> Events {
    match Events::read(text) {
        Ok(events) => events,
        Err(e) => panic!("unexpected error: {:?}", e),
    }
}

fn summary(events: &Events) -> Vec<(String, u32, u64, u64)> {
    events
        .events
        .iter()
        .map(|e| (e.label.clone(), e.id, e.span.start, e.span.duration))
        .collect()
}

fn row(label: &str, id: u32, start: u64, duration: u64) -> (String, u32, u64, u64) {
    (label.to_string(), id, start, duration)
}

fn format_error(text: &str) -> (usize, FmtErrorKind) {
    match Events::read(text) {
        Err(Error::FormatError { line_number, kind }) => (line_number, kind),
        other => panic!("expected a format error, got {:?}", other),
    }
}

fn assert_syntax_error(text: &str, line: usize) {
    let (line_number, kind) = format_error(text);
    assert_eq!(line_number, line);
    assert!(matches!(kind, FmtErrorKind::SyntaxError));
}

#[test]
fn start_and_end_are_paired() {
    let events = read_ok("job:1,start,100\njob:1,end,150\n");
    assert_eq!(summary(&events), vec![row("job", 1, 0, 50)]);
    assert_eq!(events.labels, vec!["job".to_string()]);
}

#[test]
fn end_before_start_in_the_text_is_paired_too() {
    let events = read_ok("job:1,end,150\njob:1,start,100\n");
    assert_eq!(summary(&events), vec![row("job", 1, 0, 50)]);
}

#[test]
fn start_without_end_gets_default_duration() {
    let events = read_ok("job:2,start,200\n");
    assert_eq!(summary(&events), vec![row("job", 2, 0, 1000)]);
}

#[test]
fn starts_are_counted_from_the_earliest() {
    let events = read_ok("a:1,start,100\nb:1,start,50\nb:1,end,80\n");
    assert_eq!(summary(&events), vec![row("b", 1, 0, 30), row("a", 1, 50, 1000)]);
    assert_eq!(events.labels, vec!["a".to_string(), "b".to_string()]);
}

#[test]
fn trailing_fields_are_ignored() {
    let events = read_ok("a:1,start,10,extra,fields\n");
    assert_eq!(summary(&events), vec![row("a", 1, 0, 1000)]);
}

#[test]
fn end_without_start_gives_no_event() {
    let events = read_ok("a:1,end,5\n");
    assert!(events.events.is_empty());
    assert_eq!(events.labels, vec!["a".to_string()]);
}

#[test]
fn orphan_end_does_not_move_the_origin() {
    let events = read_ok("a:1,end,5\nb:1,start,40\n");
    assert_eq!(summary(&events), vec![row("b", 1, 0, 1000)]);
    assert_eq!(events.labels, vec!["a".to_string(), "b".to_string()]);
}

#[test]
fn line_without_colon_is_ignored() {
    let events = read_ok("a:1,start,10\nbroken line\na:1,end,20\n");
    assert_eq!(summary(&events), vec![row("a", 1, 0, 10)]);
}

#[test]
fn non_numeric_seqno_fails_at_its_line() {
    assert_syntax_error("a:1,start,10\na:x,start,10\na:1,end,20\n", 1);
}

#[test]
fn ignored_lines_are_counted() {
    assert_syntax_error("junk\n\nlabel:x,start,1\n", 2);
}

#[test]
fn first_bad_line_is_reported() {
    let (line_number, kind) = format_error("a:1,start,1\na:1,stop,2\na:q,start,3\n");
    assert_eq!(line_number, 1);
    match kind {
        FmtErrorKind::InvalidAction(token) => assert_eq!(token, "stop"),
        FmtErrorKind::SyntaxError => panic!("expected an invalid action"),
    }
}

#[test]
fn unknown_action_is_reported_with_its_token() {
    let (line_number, kind) = format_error("a:1,begin,10\n");
    assert_eq!(line_number, 0);
    match kind {
        FmtErrorKind::InvalidAction(token) => assert_eq!(token, "begin"),
        FmtErrorKind::SyntaxError => panic!("expected an invalid action"),
    }
}

#[test]
fn action_is_checked_before_timestamp() {
    let (_, kind) = format_error("a:1,foo,xyz\n");
    assert!(matches!(kind, FmtErrorKind::InvalidAction(ref t) if t == "foo"));
    let (_, kind) = format_error("a:1,foo\n");
    assert!(matches!(kind, FmtErrorKind::InvalidAction(ref t) if t == "foo"));
    let (_, kind) = format_error("a:1,,5\n");
    assert!(matches!(kind, FmtErrorKind::InvalidAction(ref t) if t.is_empty()));
}

#[test]
fn seqno_is_checked_before_action() {
    assert_syntax_error("a:x,foo,1\n", 0);
}

#[test]
fn action_names_are_exact() {
    let (_, kind) = format_error("a:1,Start,5\n");
    assert!(matches!(kind, FmtErrorKind::InvalidAction(ref t) if t == "Start"));
    let (_, kind) = format_error("a:1, start,5\n");
    assert!(matches!(kind, FmtErrorKind::InvalidAction(ref t) if t == " start"));
    let (_, kind) = format_error("a:1,starts,5\n");
    assert!(matches!(kind, FmtErrorKind::InvalidAction(ref t) if t == "starts"));
    let (_, kind) = format_error("a:1,en,5\n");
    assert!(matches!(kind, FmtErrorKind::InvalidAction(ref t) if t == "en"));
}

#[test]
fn missing_fields_are_syntax_errors() {
    assert_syntax_error("a:\n", 0);
    assert_syntax_error("a:1\n", 0);
    assert_syntax_error("a:1,start\n", 0);
    assert_syntax_error("a:1,start,\n", 0);
    assert_syntax_error("a:,start,1\n", 0);
}

#[test]
fn numbers_must_be_plain_decimals() {
    assert_syntax_error("a:-1,start,1\n", 0);
    assert_syntax_error("a: 1,start,1\n", 0);
    assert_syntax_error("a:1 ,start,1\n", 0);
    assert_syntax_error("a:1,start,1.5\n", 0);
    assert_syntax_error("a:1,start,0x10\n", 0);
    assert_syntax_error("a:+,start,1\n", 0);
    assert_syntax_error("a:++1,start,1\n", 0);
    assert_syntax_error("a:1,start,12a\n", 0);
}

#[test]
fn leading_plus_and_zeros_are_accepted() {
    let events = read_ok("a:+7,start,+0005\na:007,end,000000000000000000000000000009\n");
    assert_eq!(summary(&events), vec![row("a", 7, 0, 4)]);
}

#[test]
fn seqno_must_fit_32_bits() {
    let events = read_ok("a:4294967295,start,1\n");
    assert_eq!(summary(&events), vec![row("a", 4294967295, 0, 1000)]);
    assert_syntax_error("a:4294967296,start,1\n", 0);
    assert_syntax_error("a:99999999999999999999999999,start,1\n", 0);
}

#[test]
fn timestamp_must_fit_64_bits() {
    let events = read_ok("a:1,start,0\na:1,end,18446744073709551615\n");
    assert_eq!(summary(&events), vec![row("a", 1, 0, 18446744073709551615)]);
    assert_syntax_error("a:1,start,18446744073709551616\n", 0);
    assert_syntax_error("a:1,start,18446744073709551625\n", 0);
    assert_syntax_error("a:1,start,184467440737095516150\n", 0);
}

#[test]
fn carriage_return_before_newline_is_dropped() {
    let events = read_ok("a:1,start,10\r\na:1,end,30\r\n");
    assert_eq!(summary(&events), vec![row("a", 1, 0, 20)]);
}

#[test]
fn carriage_return_without_newline_stays() {
    assert_syntax_error("a:1,start,10\r", 0);
    assert_syntax_error("a:1,start,10\r\r\n", 0);
}

#[test]
fn last_line_needs_no_newline() {
    let events = read_ok("a:1,start,10\na:1,end,25");
    assert_eq!(summary(&events), vec![row("a", 1, 0, 15)]);
}

#[test]
fn inverted_span_is_a_fault() {
    match Events::read("a:1,start,10\nb:7,start,20\nb:7,end,5\na:1,end,3\n") {
        Err(Error::ReconstructionFault { label, seqno }) => {
            assert_eq!(label, "a");
            assert_eq!(seqno, 1);
        }
        other => panic!("expected a fault, got {:?}", other),
    }
    match Events::read("a:1,start,10\nb:7,start,20\nb:7,end,5\n") {
        Err(Error::ReconstructionFault { label, seqno }) => {
            assert_eq!(label, "b");
            assert_eq!(seqno, 7);
        }
        other => panic!("expected a fault, got {:?}", other),
    }
}

#[test]
fn format_error_comes_before_fault() {
    assert_syntax_error("a:1,start,10\na:1,end,5\na:x,end,5\n", 2);
}

#[test]
fn empty_span_is_accepted() {
    let events = read_ok("a:1,start,10\na:1,end,10\n");
    assert_eq!(summary(&events), vec![row("a", 1, 0, 0)]);
}

#[test]
fn last_start_wins() {
    let events = read_ok("a:1,start,10\na:1,start,20\na:1,end,30\na:1,end,45\n");
    assert_eq!(summary(&events), vec![row("a", 1, 0, 25)]);
}

#[test]
fn same_seqno_under_two_labels_is_two_events() {
    let events = read_ok("a:1,start,10\nb:1,start,30\na:1,end,20\n");
    assert_eq!(summary(&events), vec![row("a", 1, 0, 10), row("b", 1, 20, 1000)]);
}

#[test]
fn events_are_ordered_by_start_and_ties_keep_order() {
    let text = "c:1,start,30\na:1,start,10\nb:1,start,30\nd:1,start,20\ne:1,start,10\n";
    let events = read_ok(text);
    assert_eq!(
        summary(&events),
        vec![
            row("a", 1, 0, 1000),
            row("e", 1, 0, 1000),
            row("d", 1, 10, 1000),
            row("c", 1, 20, 1000),
            row("b", 1, 20, 1000),
        ]
    );
    for pair in events.events.windows(2) {
        assert!(pair[0].span.start <= pair[1].span.start);
    }
    assert_eq!(events.events[0].span.start, 0);
}

#[test]
fn labels_stand_once_in_order_of_appearance() {
    let events = read_ok("b:1,start,1\na:1,start,2\nb:2,start,3\na:1,end,9\n");
    assert_eq!(events.labels, vec!["b".to_string(), "a".to_string()]);
}

#[test]
fn label_is_all_before_first_colon() {
    let events = read_ok("x,y z:1,start,5\n:2,start,6\n");
    assert_eq!(events.labels, vec!["x,y z".to_string(), "".to_string()]);
    assert_syntax_error("a:b:1,start,5\n", 0);
    assert_syntax_error("k:3,start,7:8\n", 0);
}

#[test]
fn labels_may_hold_any_characters() {
    let events = read_ok("ünïcødé ✓:1,start,5\n");
    assert_eq!(summary(&events), vec![row("ünïcødé ✓", 1, 0, 1000)]);
}

#[test]
fn empty_text_gives_nothing() {
    let events = read_ok("");
    assert!(events.events.is_empty());
    assert!(events.labels.is_empty());
    let events = read_ok("\n\nno records here\n");
    assert!(events.events.is_empty());
    assert!(events.labels.is_empty());
}

#[test]
fn default_is_empty() {
    let events = Events::default();
    assert!(events.events.is_empty());
    assert!(events.labels.is_empty());
}

#[test]
fn view_by_matches_by_label() {
    let event = Event {
        label: "job".to_string(),
        id: 1,
        span: Timespan { start: 0, duration: 5 },
    };
    assert!(ViewBy::Any.matching(&event));
    assert!(ViewBy::Label("job".to_string()).matching(&event));
    assert!(!ViewBy::Label("jobs".to_string()).matching(&event));
    assert!(!ViewBy::Label("".to_string()).matching(&event));
}

#[test]
fn view_by_has_a_name() {
    assert_eq!(ViewBy::Any.text(), "Any");
    assert_eq!(ViewBy::Label("job".to_string()).text(), "Label: job");
}

#[test]
fn error_kinds_have_messages() {
    assert_eq!(FmtErrorKind::SyntaxError.message(), "Syntax Error!");
    assert_eq!(
        FmtErrorKind::InvalidAction("stop".to_string()).message(),
        "invalid action: `stop`"
    );
}

#[test]
fn many_events_keep_their_times() {
    let labels = ["a", "b", "c"];
    let mut text = String::new();
    for i in 0..400u64 {
        for label in labels {
            text.push_str(&format!("{}:{},start,{}\n", label, i, 1000 + i * 10));
        }
    }
    for i in 0..400u64 {
        for (k, label) in labels.iter().enumerate() {
            text.push_str(&format!("{}:{},end,{}\n", label, i, 1000 + i * 10 + k as u64 + 1));
        }
    }
    let events = read_ok(&text);
    assert_eq!(events.labels, vec!["a".to_string(), "b".to_string(), "c".to_string()]);
    assert_eq!(events.events.len(), 1200);
    for (n, e) in events.events.iter().enumerate() {
        let i = (n / 3) as u64;
        let k = n % 3;
        assert_eq!(e.label, labels[k]);
        assert_eq!(e.id as u64, i);
        assert_eq!(e.span.start, i * 10);
        assert_eq!(e.span.duration, k as u64 + 1);
    }
}

#[test]
fn events_logged_backwards_are_ordered() {
    let mut text = String::new();
    for i in 0..200u64 {
        text.push_str(&format!("job:{},start,{}\n", i, 5000 - i * 7));
    }
    let events = read_ok(&text);
    assert_eq!(events.events.len(), 200);
    for (n, e) in events.events.iter().enumerate() {
        assert_eq!(e.id as u64, 199 - n as u64);
        assert_eq!(e.span.start, n as u64 * 7);
        assert_eq!(e.span.duration, 1000);
    }
}

#[test]
fn same_number_under_many_labels_stays_apart() {
    let mut text = String::new();
    for i in 0..50u64 {
        text.push_str(&format!("label{}:7,start,{}\n", i, 10 + i));
    }
    for i in 0..50u64 {
        text.push_str(&format!("label{}:7,end,{}\n", i, 100 + 2 * i));
    }
    let events = read_ok(&text);
    assert_eq!(events.labels.len(), 50);
    assert_eq!(events.events.len(), 50);
    for (n, e) in events.events.iter().enumerate() {
        assert_eq!(e.label, format!("label{}", n));
        assert_eq!(e.id, 7);
        assert_eq!(e.span.start, n as u64);
        assert_eq!(e.span.duration, 90 + n as u64);
    }
}
