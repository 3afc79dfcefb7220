use jfon_viewer::accumulate::Accumulator;
use jfon_viewer::line::{parse_line, Action, Line, Record};
use jfon_viewer::reconstruct::insert_event;
use jfon_viewer::text::{chars_of, digit_of, find_from, parse_number, slice_of, string_of};
use jfon_viewer::{Error, Event, Events, FmtErrorKind, Timespan};

fn chars(s: &str) -> Vec<char> {
    s.chars().collect()
}

fn record(label: &str, seqno: u32, action: Action, time: u64) -> Line {
    Line::Record(Record { label: label.to_string(), seqno, action, time })
}

#[test]
fn chars_of_gives_every_character() {
    assert_eq!(chars_of("a✓b"), vec!['a', '✓', 'b']);
    assert_eq!(chars_of(""), Vec::<char>::new());
}

#[test]
fn find_from_gives_first_occurrence_or_length() {
    let s = chars("a,b,c");
    assert_eq!(find_from(&s, ',', 0), 1);
    assert_eq!(find_from(&s, ',', 1), 1);
    assert_eq!(find_from(&s, ',', 2), 3);
    assert_eq!(find_from(&s, ',', 4), 5);
    assert_eq!(find_from(&s, ',', 5), 5);
    assert_eq!(find_from(&s, ':', 0), 5);
}

#[test]
fn string_and_slice_copy_the_range() {
    let s = chars("hello world");
    assert_eq!(string_of(&s, 6, 11), "world");
    assert_eq!(string_of(&s, 3, 3), "");
    assert_eq!(slice_of(&s, 0, 5), chars("hello"));
}

#[test]
fn digit_of_reads_decimal_digits_only() {
    assert_eq!(digit_of('0'), Some(0));
    assert_eq!(digit_of('9'), Some(9));
    assert_eq!(digit_of('/'), None);
    assert_eq!(digit_of(':'), None);
    assert_eq!(digit_of('a'), None);
    assert_eq!(digit_of('٣'), None);
}

#[test]
fn parse_number_reads_the_range() {
    let s = chars("xx123yy");
    assert_eq!(parse_number(&s, 2, 5, 1000), Some(123));
    assert_eq!(parse_number(&s, 2, 5, 123), Some(123));
    assert_eq!(parse_number(&s, 2, 5, 122), None);
    assert_eq!(parse_number(&s, 2, 6, 1000), None);
    assert_eq!(parse_number(&s, 2, 2, 1000), None);
    assert_eq!(parse_number(&chars("+0"), 0, 2, 0), Some(0));
    assert_eq!(parse_number(&chars("7"), 0, 1, 5), None);
    assert_eq!(parse_number(&chars("10"), 0, 2, 9), None);
}

#[test]
fn parse_line_tells_the_three_kinds_apart() {
    assert!(matches!(parse_line(&chars("no colon here")), Line::Skipped));
    assert!(matches!(parse_line(&chars("")), Line::Skipped));
    match parse_line(&chars("job:12,end,99,more")) {
        Line::Record(r) => {
            assert_eq!(r.label, "job");
            assert_eq!(r.seqno, 12);
            assert_eq!(r.action, Action::End);
            assert_eq!(r.time, 99);
        }
        other => panic!("expected a record, got {:?}", other),
    }
    match parse_line(&chars("job:12,halt,99")) {
        Line::Invalid { label, kind } => {
            assert_eq!(label, "job");
            assert!(matches!(kind, FmtErrorKind::InvalidAction(ref t) if t == "halt"));
        }
        other => panic!("expected a refusal, got {:?}", other),
    }
    match parse_line(&chars("job:")) {
        Line::Invalid { label, kind } => {
            assert_eq!(label, "job");
            assert!(matches!(kind, FmtErrorKind::SyntaxError));
        }
        other => panic!("expected a refusal, got {:?}", other),
    }
}

#[test]
fn refused_line_still_leaves_its_label() {
    let mut acc = Accumulator::new();
    assert!(acc.feed(record("a", 1, Action::Start, 5)).is_ok());
    let refused = acc.feed(Line::Invalid {
        label: "b".to_string(),
        kind: FmtErrorKind::SyntaxError,
    });
    assert!(matches!(refused, Err(FmtErrorKind::SyntaxError)));
    assert!(acc.feed(Line::Skipped).is_ok());
    assert_eq!(acc.labels(), &vec!["a".to_string(), "b".to_string()]);
    assert_eq!(acc.entries().len(), 1);
    let events = Events::reconstruct(acc).unwrap();
    assert_eq!(events.labels, vec!["a".to_string(), "b".to_string()]);
    assert_eq!(events.events.len(), 1);
}

#[test]
fn accumulator_keeps_one_entry_per_event() {
    let mut acc = Accumulator::new();
    acc.feed(record("a", 1, Action::Start, 5)).unwrap();
    acc.feed(record("a", 2, Action::End, 6)).unwrap();
    acc.feed(record("a", 1, Action::End, 9)).unwrap();
    acc.feed(record("a", 1, Action::Start, 7)).unwrap();
    let entries = acc.entries();
    assert_eq!(entries.len(), 2);
    assert_eq!(entries[0].label, "a");
    assert_eq!(entries[0].seqno, 1);
    assert_eq!(entries[0].start, Some(7));
    assert_eq!(entries[0].end, Some(9));
    assert_eq!(entries[1].seqno, 2);
    assert_eq!(entries[1].start, None);
    assert_eq!(entries[1].end, Some(6));
    let (entries, labels) = acc.into_parts();
    assert_eq!(entries.len(), 2);
    assert_eq!(labels, vec!["a".to_string()]);
}

#[test]
fn reconstruct_reports_first_inverted_entry() {
    let mut acc = Accumulator::new();
    acc.feed(record("a", 1, Action::Start, 5)).unwrap();
    acc.feed(record("b", 2, Action::Start, 50)).unwrap();
    acc.feed(record("b", 2, Action::End, 49)).unwrap();
    match Events::reconstruct(acc) {
        Err(Error::ReconstructionFault { label, seqno }) => {
            assert_eq!(label, "b");
            assert_eq!(seqno, 2);
        }
        other => panic!("expected a fault, got {:?}", other),
    }
}

#[test]
fn reconstruct_of_nothing_is_empty() {
    let events = Events::reconstruct(Accumulator::new()).unwrap();
    assert!(events.events.is_empty());
    assert!(events.labels.is_empty());
}

#[test]
fn insert_event_goes_after_equal_starts() {
    let make = |label: &str, start: u64| Event {
        label: label.to_string(),
        id: 0,
        span: Timespan { start, duration: 1 },
    };
    let mut events = Vec::new();
    insert_event(&mut events, make("a", 5));
    insert_event(&mut events, make("b", 3));
    insert_event(&mut events, make("c", 5));
    insert_event(&mut events, make("d", 4));
    insert_event(&mut events, make("e", 9));
    let labels: Vec<&str> = events.iter().map(|e| e.label.as_str()).collect();
    assert_eq!(labels, vec!["b", "d", "a", "c", "e"]);
}
