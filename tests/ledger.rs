use gba_test::ledger::Ledger;
use gba_test::record::{read_backward, read_forward, RegionFull};
use gba_test::Outcome;

fn paths(n: usize) -> Vec<Vec<String>> {
    (0..n).map(|_| vec!["tests".to_string()]).collect()
}

#[test]
fn message_record_layout_after_the_tags() {
    let mut ledger = Ledger::new(paths(1), vec![0xAA; 16]);
    assert_eq!(ledger.start_test(), Some(0));
    assert_eq!(ledger.complete_test(Outcome::Failed(b"foo")), Ok(()));
    assert_eq!(ledger.data_cursor(), 16);
    let out = ledger.outcomes();
    assert_eq!(
        out.region()[..],
        [1, 0xAA, 0xAA, 0xAA, 3, 0, 0, 0, b'f', b'o', b'o', 0, 3, 0, 0, 0]
    );
}

#[test]
fn tags_follow_declaration_order() {
    let mut ledger = Ledger::new(paths(3), vec![0; 64]);
    assert_eq!(ledger.start_test(), Some(0));
    ledger.complete_test(Outcome::Ignored).unwrap();
    assert_eq!(ledger.start_test(), Some(1));
    ledger.complete_test(Outcome::Passed).unwrap();
    assert_eq!(ledger.start_test(), Some(2));
    ledger.complete_test(Outcome::Failed(b"x")).unwrap();
    assert_eq!(ledger.start_test(), None);
    let out = ledger.outcomes();
    assert_eq!(out.region()[..3], [2, 0, 1]);
    assert_eq!(
        out.iter(),
        vec![Outcome::Ignored, Outcome::Passed, Outcome::Failed(b"x".to_vec())]
    );
}

#[test]
fn current_test_tracks_the_running_test() {
    let mut ledger = Ledger::new(paths(2), vec![0; 8]);
    assert_eq!(ledger.current_test(), None);
    assert_eq!(ledger.start_test(), Some(0));
    assert_eq!(ledger.current_test(), Some(0));
    ledger.complete_test(Outcome::Passed).unwrap();
    assert_eq!(ledger.current_test(), None);
    assert_eq!(ledger.start_test(), Some(1));
    assert_eq!(ledger.current_test(), Some(1));
}

#[test]
fn round_trip_forward_and_backward() {
    let messages: [&[u8]; 4] = [b"", b"a", b"four", b"a longer message, of 33 bytes..."];
    let mut ledger = Ledger::new(paths(4), vec![0; 128]);
    for m in messages {
        ledger.start_test().unwrap();
        ledger.complete_test(Outcome::Failed(m)).unwrap();
    }
    let end = ledger.data_cursor();
    let out = ledger.outcomes();
    let read: Vec<Outcome<Vec<u8>>> = out.iter();
    for (m, o) in messages.iter().zip(read.iter()) {
        assert_eq!(o, &Outcome::Failed(m.to_vec()));
    }
    // Forward from the heap start, then backward from its end.
    let mut pos = 4;
    for m in messages {
        let (read, next) = read_forward(out.region(), pos);
        assert_eq!(read, m.to_vec());
        pos = next;
    }
    assert_eq!(pos, end);
    for m in messages.iter().rev() {
        let (read, start) = read_backward(out.region(), pos);
        assert_eq!(read, m.to_vec());
        pos = start;
    }
    assert_eq!(pos, 4);
}

#[test]
fn zero_length_message() {
    let mut ledger = Ledger::new(paths(1), vec![0xFF; 12]);
    ledger.start_test().unwrap();
    assert_eq!(ledger.complete_test(Outcome::Failed(b"")), Ok(()));
    let out = ledger.outcomes();
    assert_eq!(out.region()[4..], [0, 0, 0, 0, 0, 0, 0, 0]);
    assert_eq!(out.iter(), vec![Outcome::Failed(Vec::new())]);
    assert_eq!(read_backward(out.region(), 12), (Vec::new(), 4));
}

#[test]
fn region_full_changes_nothing() {
    let mut ledger = Ledger::new(paths(2), vec![0; 12]);
    ledger.start_test().unwrap();
    assert_eq!(ledger.complete_test(Outcome::Failed(b"x")), Err(RegionFull));
    assert_eq!(ledger.current_test(), Some(0));
    assert_eq!(ledger.data_cursor(), 4);
    assert_eq!(ledger.complete_test(Outcome::Failed(b"")), Ok(()));
    assert_eq!(ledger.start_test(), Some(1));
    assert_eq!(ledger.complete_test(Outcome::Failed(b"")), Err(RegionFull));
    assert_eq!(ledger.complete_test(Outcome::Passed), Ok(()));
}

#[test]
fn record_count_matches_failures() {
    let mut ledger = Ledger::new(paths(5), vec![0; 64]);
    let outcomes: [Outcome<&[u8]>; 5] = [
        Outcome::Failed(b"one"),
        Outcome::Passed,
        Outcome::Failed(b"two"),
        Outcome::Ignored,
        Outcome::Failed(b"three"),
    ];
    for o in outcomes {
        ledger.start_test().unwrap();
        ledger.complete_test(o).unwrap();
    }
    let end = ledger.data_cursor();
    let out = ledger.outcomes();
    let read = out.iter();
    assert_eq!(read.len(), 5);
    let failed = read.iter().filter(|o| matches!(o, Outcome::Failed(_))).count();
    let mut records = 0;
    let mut pos = 8;
    while pos < end {
        pos = read_forward(out.region(), pos).1;
        records += 1;
    }
    assert_eq!(pos, end);
    assert_eq!(records, failed);
}

#[test]
fn error_message_write_str() {
    let mut ledger = Ledger::new(paths(1), vec![0; 16]);
    ledger.start_test().unwrap();
    assert_eq!(ledger.complete_test(Outcome::Failed(b"foo")), Ok(()));
    let out = ledger.outcomes();
    assert_eq!(out.region()[4..], [3, 0, 0, 0, b'f', b'o', b'o', 0, 3, 0, 0, 0]);
}

fn tag_of(outcome: Outcome<&[u8]>) -> u8 {
    let mut ledger = Ledger::new(paths(1), vec![0xEE; 16]);
    ledger.start_test().unwrap();
    ledger.complete_test(outcome).unwrap();
    ledger.outcomes().region()[0]
}

#[test]
fn outcome_into_outcome_variant_passed() {
    assert_eq!(tag_of(Outcome::Passed), 0);
}

#[test]
fn outcome_into_outcome_variant_failed() {
    assert_eq!(tag_of(Outcome::Failed(b"foo")), 1);
}

#[test]
fn outcome_into_outcome_variant_ignored() {
    assert_eq!(tag_of(Outcome::Ignored), 2);
}

#[test]
fn append_cursor_follows_the_records() {
    let mut ledger = Ledger::new(paths(3), vec![0; 64]);
    assert_eq!(ledger.data_cursor(), 4);
    ledger.start_test().unwrap();
    assert_eq!(ledger.data_cursor(), 4);
    ledger.complete_test(Outcome::Passed).unwrap();
    assert_eq!(ledger.data_cursor(), 4);
    ledger.start_test().unwrap();
    ledger.complete_test(Outcome::Failed(b"hello")).unwrap();
    assert_eq!(ledger.data_cursor(), 4 + 8 + 8);
    ledger.start_test().unwrap();
    ledger.complete_test(Outcome::Failed(b"")).unwrap();
    assert_eq!(ledger.data_cursor(), 20 + 8);
}
