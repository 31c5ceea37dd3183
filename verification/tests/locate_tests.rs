use prefix_miner::get_timestamps_from_last_commit;
use prefix_miner::locate::{find_span, frame_commit, locate};
use prefix_miner::SearchError;

const METADATA: &str = "author Test <test@example.com> 1000000000 +0200\ncommitter Test <test@example.com> 1000000000 +0200";

#[test]
fn timestamps_from_commit_metadata() {
    let output = String::from(METADATA);
    let (a, c) = get_timestamps_from_last_commit(&output);
    assert_eq!(a, "1000000000");
    assert_eq!(c, "1000000000");
}

#[test]
fn last_matching_line_wins() {
    let output = String::from(
        "author A <a@b.c> 111 +0000\nauthor B <b@b.c> 222 +0000\ncommitter C <c@b.c> 333 +0000",
    );
    let (a, c) = get_timestamps_from_last_commit(&output);
    assert_eq!(a, "222");
    assert_eq!(c, "333");
}

#[test]
fn missing_fields_give_empty_strings() {
    let output = String::from("tree 0123abcd\nparent 4567ef01\n\nsome message");
    let (a, c) = get_timestamps_from_last_commit(&output);
    assert_eq!(a, "");
    assert_eq!(c, "");
}

#[test]
fn timestamp_needs_following_field() {
    let output = String::from("author x 123");
    let (a, _) = get_timestamps_from_last_commit(&output);
    assert_eq!(a, "");
}

#[test]
fn timestamp_needs_gap_after_keyword() {
    let output = String::from("author 123 x");
    let (a, _) = get_timestamps_from_last_commit(&output);
    assert_eq!(a, "");
    let output2 = String::from("author x 123 y");
    let (a2, _) = get_timestamps_from_last_commit(&output2);
    assert_eq!(a2, "123");
}

#[test]
fn keyword_may_sit_inside_the_line() {
    let output = String::from("co-author Test <t@e.c> 424242 +0000 x");
    let (a, _) = get_timestamps_from_last_commit(&output);
    assert_eq!(a, "424242");
}

#[test]
fn carriage_returns_are_stripped() {
    let output = String::from("author A <a@b.c> 555 +0000\r\ncommitter A <a@b.c> 556 +0000\r\n");
    let (a, c) = get_timestamps_from_last_commit(&output);
    assert_eq!(a, "555");
    assert_eq!(c, "556");
}

#[test]
fn frame_commit_builds_header() {
    assert_eq!(frame_commit("ab"), b"commit 2\0ab".to_vec());
    assert_eq!(frame_commit(""), b"commit 0\0".to_vec());
}

#[test]
fn locate_finds_both_spans() {
    let output = String::from(METADATA);
    let buffer = frame_commit(&output);
    assert_eq!(buffer.len(), 10 + 98);
    let (a, c) = locate(&output, &buffer).unwrap();
    assert_eq!(a.start, 41);
    assert_eq!(a.end, 51);
    assert_eq!(a.value, 1_000_000_000);
    // Both fields carry the same value, so both spans name its first
    // occurrence: the author position.
    assert_eq!(c.start, 41);
    assert_eq!(c.value, 1_000_000_000);
}

#[test]
fn locate_rejects_missing_committer() {
    let output = String::from("author Test <t@e.c> 999 +0000");
    let buffer = frame_commit(&output);
    assert!(matches!(locate(&output, &buffer), Err(SearchError::NotFound)));
}

#[test]
fn locate_rejects_leading_zero_timestamp() {
    let output = String::from("author A <a@b.c> 0123 +0000\ncommitter A <a@b.c> 0123 +0000");
    let buffer = frame_commit(&output);
    assert!(matches!(locate(&output, &buffer), Err(SearchError::InvalidInput)));
}

#[test]
fn find_span_takes_first_occurrence() {
    let buffer = b"xx123yy123".to_vec();
    let span = find_span(&buffer, 123).unwrap();
    assert_eq!(span.start, 2);
    assert_eq!(span.end, 5);
    assert!(matches!(find_span(&buffer, 77), Err(SearchError::NotFound)));
}
