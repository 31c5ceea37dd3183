use prefix_miner::coordinator::{make_tasks, run_sync};
use prefix_miner::digest::DigestContext;
use prefix_miner::digits::render_dec;
use prefix_miner::locate::{frame_commit, locate};
use prefix_miner::pattern::PrefixPattern;
use prefix_miner::worker::run_worker;
use prefix_miner::{CancellationFlag, SearchError, SearchTask, TimestampSpan, WorkerOutcome};

const METADATA: &str = "author Test <test@example.com> 1000000000 +0200\ncommitter Test <test@example.com> 1000000000 +0200";

fn meta_with(ts: u32) -> String {
    format!("author A <a@b.c> {} +0000\ncommitter A <a@b.c> {} +0000", ts, ts)
}

fn patched_digest_first_byte(buffer: &[u8], span: &TimestampSpan, ts: u32) -> u8 {
    let mut buf = buffer.to_vec();
    let digits = render_dec(ts as u64);
    assert_eq!(digits.len(), span.end - span.start);
    for (i, b) in digits.iter().enumerate() {
        buf[span.start + i] = *b;
    }
    let mut ctx = DigestContext::new();
    ctx.update(&buf);
    ctx.finalize_and_reset()[0]
}

#[test]
fn digest_context_known_vector() {
    let mut ctx = DigestContext::new();
    ctx.update(b"abc");
    let d = ctx.finalize_and_reset();
    assert_eq!(hex::encode(&d), "a9993e364706816aba3e25717850c26c9cd0d89d");
    // The context reset: the next digest is the digest of the empty input.
    let empty = ctx.finalize_and_reset();
    assert_eq!(hex::encode(&empty), "da39a3ee5e6b4b0d3255bfef95601890afd80709");
}

#[test]
fn digest_update_streams() {
    let mut one = DigestContext::new();
    one.update(b"hello ");
    one.update(b"world");
    let mut whole = DigestContext::new();
    whole.update(b"hello world");
    assert_eq!(one.finalize_and_reset(), whole.finalize_and_reset());
}

#[test]
fn digest_is_deterministic() {
    let mut ctx = DigestContext::new();
    ctx.update(METADATA.as_bytes());
    let first = ctx.finalize_and_reset();
    ctx.update(METADATA.as_bytes());
    let second = ctx.finalize_and_reset();
    assert_eq!(first, second);
}

#[test]
fn patch_shrinks_buffer_by_digit_delta() {
    let buffer = b"xx1000yy".to_vec();
    let span = TimestampSpan { start: 2, end: 6, value: 1000 };
    let mut tasks = make_tasks(&buffer, &span, 1).unwrap();
    let mut task = tasks.remove(0);
    task.patch_timestamp(999);
    assert_eq!(task.buffer, b"xx999yy".to_vec());
    assert_eq!(task.buffer.len(), buffer.len() - 1);
    assert_eq!(task.span.start, 2);
    assert_eq!(task.span.end, 5);
    assert_eq!(task.span.value, 999);
}

#[test]
fn patch_keeps_length_without_rollover() {
    let buffer = b"xx1000yy".to_vec();
    let span = TimestampSpan { start: 2, end: 6, value: 1000 };
    let mut tasks = make_tasks(&buffer, &span, 1).unwrap();
    let mut task = tasks.remove(0);
    task.patch_timestamp(1000);
    assert_eq!(task.buffer, b"xx1000yy".to_vec());
    task.patch_timestamp(42);
    assert_eq!(task.buffer, b"xx42yy".to_vec());
}

#[test]
fn make_tasks_partitions_counters() {
    let buffer = b"a 500 b".to_vec();
    let span = TimestampSpan { start: 2, end: 5, value: 500 };
    let tasks = make_tasks(&buffer, &span, 3).unwrap();
    assert_eq!(tasks.len(), 3);
    for (o, t) in tasks.iter().enumerate() {
        assert_eq!(t.stride, 3);
        assert_eq!(t.counter, 500 - o as u32);
        assert_eq!(t.buffer, buffer);
    }
}

#[test]
fn make_tasks_rejects_zero_workers() {
    let buffer = b"a 500 b".to_vec();
    let span = TimestampSpan { start: 2, end: 5, value: 500 };
    assert!(matches!(make_tasks(&buffer, &span, 0), Err(SearchError::InvalidInput)));
}

#[test]
fn make_tasks_rejects_small_base() {
    let buffer = b"a 2 b".to_vec();
    let span = TimestampSpan { start: 2, end: 3, value: 2 };
    assert!(matches!(make_tasks(&buffer, &span, 4), Err(SearchError::InvalidInput)));
}

#[test]
fn make_tasks_rejects_non_canonical_span() {
    let buffer = b"a 500 b".to_vec();
    let span = TimestampSpan { start: 2, end: 5, value: 501 };
    assert!(matches!(make_tasks(&buffer, &span, 1), Err(SearchError::InvalidInput)));
}

#[test]
fn worker_stops_on_cancellation() {
    let output = meta_with(70000);
    let buffer = frame_commit(&output);
    let (span, _) = locate(&output, &buffer).unwrap();
    let mut tasks = make_tasks(&buffer, &span, 1).unwrap();
    let task = tasks.remove(0);
    let pattern = PrefixPattern::parse("0").unwrap();
    let cancel = CancellationFlag::new();
    cancel.set();
    let outcome = run_worker(task, &pattern, &cancel);
    assert!(matches!(outcome, WorkerOutcome::Cancelled));
}

#[test]
fn search_underflows_when_nothing_matches() {
    let output = meta_with(50);
    let buffer = frame_commit(&output);
    let (span, _) = locate(&output, &buffer).unwrap();
    let mut tasks = make_tasks(&buffer, &span, 1).unwrap();
    let task = tasks.remove(0);
    let full_length_prefix = "f".repeat(40);
    let pattern = PrefixPattern::parse(&full_length_prefix).unwrap();
    let cancel = CancellationFlag::new();
    let r = run_sync(task, &pattern, &cancel);
    assert!(matches!(r, Err(SearchError::Underflow)));
}

#[test]
fn run_sync_rejects_overlong_pattern() {
    let output = meta_with(50);
    let buffer = frame_commit(&output);
    let (span, _) = locate(&output, &buffer).unwrap();
    let mut tasks = make_tasks(&buffer, &span, 1).unwrap();
    let task = tasks.remove(0);
    let overlong = "0".repeat(42);
    let pattern = PrefixPattern::parse(&overlong).unwrap();
    let cancel = CancellationFlag::new();
    assert!(matches!(run_sync(task, &pattern, &cancel), Err(SearchError::InvalidInput)));
}

#[test]
fn run_sync_rejects_malformed_task() {
    let task = SearchTask {
        buffer: b"xyz".to_vec(),
        span: TimestampSpan { start: 0, end: 3, value: 5 },
        stride: 1,
        counter: 5,
    };
    let pattern = PrefixPattern::parse("0").unwrap();
    let cancel = CancellationFlag::new();
    assert!(matches!(run_sync(task, &pattern, &cancel), Err(SearchError::InvalidInput)));
}

#[test]
fn run_sync_reports_cancellation_as_channel_closed() {
    let output = meta_with(70000);
    let buffer = frame_commit(&output);
    let (span, _) = locate(&output, &buffer).unwrap();
    let mut tasks = make_tasks(&buffer, &span, 1).unwrap();
    let task = tasks.remove(0);
    let pattern = PrefixPattern::parse("0").unwrap();
    let cancel = CancellationFlag::new();
    cancel.set();
    assert!(matches!(run_sync(task, &pattern, &cancel), Err(SearchError::ChannelClosed)));
}

#[test]
fn commit_scenario_finds_known_digest() {
    let output = String::from(METADATA);
    let buffer = frame_commit(&output);
    let (span, _) = locate(&output, &buffer).unwrap();
    let mut tasks = make_tasks(&buffer, &span, 1).unwrap();
    let task = tasks.remove(0);
    let pattern = PrefixPattern::parse("0").unwrap();
    let cancel = CancellationFlag::new();
    let msg = run_sync(task, &pattern, &cancel).unwrap();
    // The first decremented timestamp whose digest has a zero high nibble.
    assert_eq!(msg.new_author_timestamp, 999_999_968);
    assert_eq!(msg.hash, "083a33c05ccadacfbc65092ee5e9a28155247f14");
    assert!(msg.hash.starts_with('0'));
    // Cross-check: rebuild the patched buffer by hand and hash it.
    let mut by_hand = buffer[..span.start].to_vec();
    by_hand.extend_from_slice(&render_dec(msg.new_author_timestamp as u64));
    by_hand.extend_from_slice(&buffer[span.end..]);
    let mut ctx = DigestContext::new();
    ctx.update(&by_hand);
    assert_eq!(hex::encode(ctx.finalize_and_reset()), msg.hash);
    // Every decrement above the match fails the pattern.
    for ts in 999_999_969..1_000_000_000u32 {
        let mut buf = buffer[..span.start].to_vec();
        buf.extend_from_slice(&render_dec(ts as u64));
        buf.extend_from_slice(&buffer[span.end..]);
        let mut c = DigestContext::new();
        c.update(&buf);
        assert!(!pattern.matches(&c.finalize_and_reset()));
    }
}

#[test]
fn single_and_multi_worker_agree_on_an_early_match() {
    // Choose a base whose third candidate's digest byte differs from the
    // first two candidates' bytes, so the first match is base - 3: the
    // single-worker path reaches it as its third candidate, and worker 0 of
    // a three-worker partition reaches it as its first.
    let mut base: u32 = 99999;
    let mut found: Option<(u32, String)> = None;
    for _ in 0..64 {
        let output = meta_with(base);
        let buffer = frame_commit(&output);
        let (span, _) = locate(&output, &buffer).unwrap();
        let target = patched_digest_first_byte(&buffer, &span, base - 3);
        let near1 = patched_digest_first_byte(&buffer, &span, base - 1);
        let near2 = patched_digest_first_byte(&buffer, &span, base - 2);
        if near1 != target && near2 != target {
            found = Some((base, format!("{:02x}", target)));
            break;
        }
        base -= 7;
    }
    let (base, prefix) = found.expect("no clean window found");
    let output = meta_with(base);
    let buffer = frame_commit(&output);
    let (span, _) = locate(&output, &buffer).unwrap();
    let pattern = PrefixPattern::parse(&prefix).unwrap();

    let mut single = make_tasks(&buffer, &span, 1).unwrap();
    let cancel1 = CancellationFlag::new();
    let msg1 = run_sync(single.remove(0), &pattern, &cancel1).unwrap();
    assert_eq!(msg1.new_author_timestamp, base - 3);
    assert!(msg1.hash.starts_with(&prefix));

    let mut multi = make_tasks(&buffer, &span, 3).unwrap();
    let cancel2 = CancellationFlag::new();
    let outcome = run_worker(multi.remove(0), &pattern, &cancel2);
    match outcome {
        WorkerOutcome::Found(msg2) => {
            assert_eq!(msg2.new_author_timestamp, msg1.new_author_timestamp);
            assert_eq!(msg2.hash, msg1.hash);
            assert!(cancel2.is_set());
        },
        _ => panic!("multi-worker partition missed the match"),
    }
}
