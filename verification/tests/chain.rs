use s3_archiver::chain::assemble_chain::{run, ChainError};
use s3_archiver::chain::plan_chain::{plan_segment_chain, ChainPlan};
use s3_archiver::chain::rate_limit::{
    Grant, Priority, TokenBucket, MAX_BURST_MILLI,
};
use s3_archiver::engine::plan::{FileId, SourceFile};

#[test]
fn no_segments_are_planned() {
    let files = vec![SourceFile {
        id: FileId(0),
        key: "files/a".to_string(),
        name: "a".to_string(),
        size: 1,
    }];
    assert_eq!(plan_segment_chain(files).segment_count, 0);
    assert_eq!(ChainPlan::default().segment_count, 0);
}

#[test]
fn every_plan_is_refused() {
    let r = run("bucket", "files", "archive.zip", plan_segment_chain(Vec::new()));
    assert_eq!(r, Err(ChainError::Unimplemented));
    assert_eq!(
        ChainError::Unimplemented.message(),
        "segment-chain executor not yet implemented"
    );
}

#[test]
fn a_new_bucket_is_full() {
    let mut bucket = TokenBucket::new();
    assert_eq!(bucket.tokens_milli(), 64_000);
    for _ in 0..64 {
        assert!(bucket.try_take());
    }
    assert!(!bucket.try_take());
    assert_eq!(bucket.tokens_milli(), 0);
    assert_eq!(TokenBucket::default().tokens_milli(), MAX_BURST_MILLI);
}

#[test]
fn a_token_is_a_thousand() {
    let mut bucket = TokenBucket::new();
    bucket.fill_to(1_999);
    assert!(bucket.try_take());
    assert_eq!(bucket.tokens_milli(), 999);
    assert!(!bucket.try_take());
    assert_eq!(bucket.tokens_milli(), 999);
}

#[test]
fn the_bucket_does_not_overflow() {
    let mut bucket = TokenBucket::new();
    bucket.fill_to(64_001);
    assert_eq!(bucket.tokens_milli(), 64_000);
    bucket.fill_to(63_999);
    assert_eq!(bucket.tokens_milli(), 63_999);
    bucket.throttled(1);
    assert_eq!(bucket.tokens_milli(), 0);
}

#[test]
fn the_clock_yields_elapsed_time_once() {
    let mut bucket = TokenBucket::new();
    assert_eq!(bucket.advance(5), 5);
    assert_eq!(bucket.advance(5), 0);
    assert_eq!(bucket.advance(12), 7);
    assert_eq!(bucket.advance(3), 0);
    assert_eq!(bucket.advance(4), 1);
}

#[test]
fn low_priority_stands_back() {
    let mut bucket = TokenBucket::new();
    assert!(!bucket.defers(Priority::Low));
    bucket.enter(Priority::Low);
    assert_eq!(bucket.high_waiters(), 0);
    bucket.enter(Priority::High);
    assert_eq!(bucket.high_waiters(), 1);
    assert!(bucket.defers(Priority::Low));
    assert!(!bucket.defers(Priority::High));
    assert_eq!(
        bucket.try_grant(Priority::High),
        Grant::Granted { wake: true }
    );
    assert_eq!(bucket.high_waiters(), 0);
    assert!(!bucket.defers(Priority::Low));
    assert_eq!(
        bucket.try_grant(Priority::Low),
        Grant::Granted { wake: false }
    );
    assert_eq!(bucket.tokens_milli(), 62_000);
}

#[test]
fn an_empty_bucket_keeps_the_call_waiting() {
    let mut bucket = TokenBucket::new();
    bucket.throttled(1);
    bucket.enter(Priority::High);
    assert_eq!(bucket.try_grant(Priority::High), Grant::Empty);
    assert_eq!(bucket.high_waiters(), 1);
}

#[test]
fn recovery_takes_half_a_second() {
    let mut bucket = TokenBucket::new();
    assert!(!bucket.recover(499));
    assert!(bucket.recover(500));
    assert!(!bucket.recover(999));
    assert!(bucket.recover(1_001));
    assert_eq!(bucket.tokens_milli(), 64_000);
}

#[test]
fn a_throttle_restarts_the_recovery_time() {
    let mut bucket = TokenBucket::new();
    bucket.throttled(400);
    assert!(!bucket.recover(500));
    assert!(!bucket.recover(899));
    bucket.throttled(899);
    assert!(!bucket.recover(900));
    assert!(bucket.recover(1_399));
    // The clock never runs backwards into a step.
    assert!(!bucket.recover(3));
}
