use ghostsnap::error::Error;
use ghostsnap::retry::{AttemptOutcome, RetryConfig, RetryStep, Retryable};

#[test]
fn test_backoff_duration_calculation() {
    let config = RetryConfig {
        initial_backoff_ms: 100,
        max_backoff_ms: 10_000,
        backoff_multiplier_milli: 2000,
        jitter: false,
        ..Default::default()
    };

    // Attempt 0: 100ms * 2^0 = 100ms
    assert_eq!(config.backoff_duration(0), 100);

    // Attempt 1: 100ms * 2^1 = 200ms
    assert_eq!(config.backoff_duration(1), 200);

    // Attempt 2: 100ms * 2^2 = 400ms
    assert_eq!(config.backoff_duration(2), 400);

    // Should cap at max_backoff
    assert_eq!(config.backoff_duration(10), 10_000);
}

#[test]
fn the_three_policies() {
    let d = RetryConfig::default();
    assert_eq!(
        (d.max_attempts, d.initial_backoff_ms, d.max_backoff_ms, d.backoff_multiplier_milli, d.jitter),
        (5, 100, 30_000, 2000, true)
    );
    let q = RetryConfig::quick();
    assert_eq!(
        (q.max_attempts, q.initial_backoff_ms, q.max_backoff_ms, q.backoff_multiplier_milli, q.jitter),
        (3, 50, 5_000, 2000, true)
    );
    let p = RetryConfig::persistent();
    assert_eq!(
        (p.max_attempts, p.initial_backoff_ms, p.max_backoff_ms, p.backoff_multiplier_milli, p.jitter),
        (10, 200, 60_000, 2000, true)
    );
}

#[test]
fn backoff_is_the_exact_power_rounded_down_once() {
    let config = |initial: u64, max: u64, milli: u32| RetryConfig {
        max_attempts: 5,
        initial_backoff_ms: initial,
        max_backoff_ms: max,
        backoff_multiplier_milli: milli,
        jitter: false,
    };
    // 1 * 1.5^2 = 2.25
    assert_eq!(config(1, 1000, 1500).backoff_base(2), 2);
    assert_eq!(config(1, 1000, 1500).backoff_base(1), 1);
    // the cap is laid on at the end: 100 * 0.5 = 50, 100 * 0.25 = 25
    assert_eq!(config(100, 50, 500).backoff_base(0), 50);
    assert_eq!(config(100, 50, 500).backoff_base(1), 50);
    assert_eq!(config(100, 50, 500).backoff_base(2), 25);
    for initial in [0u64, 1, 7, 999, 1000, 123_456] {
        for milli in [0u32, 1, 333, 999, 1000, 1001, 1500, 2000, 4999] {
            for attempt in 0..=6u32 {
                let exact = initial as u128 * (milli as u128).pow(attempt) / 1000u128.pow(attempt);
                for max in [0u64, 10, 1_000_000, u64::MAX] {
                    let expected = exact.min(max as u128) as u64;
                    assert_eq!(
                        config(initial, max, milli).backoff_base(attempt),
                        expected,
                        "{} {} {} {}", initial, milli, attempt, max
                    );
                }
            }
        }
    }
    // 1.001^5000 is about 148.04
    assert_eq!(config(1, u64::MAX, 1001).backoff_base(5000), 148);
    // 0.999^5000 is about 0.00672
    assert_eq!(config(1000, u64::MAX, 999).backoff_base(5000), 6);
}

#[test]
fn backoff_rounds_down_and_settles() {
    let config = RetryConfig {
        max_attempts: 5,
        initial_backoff_ms: 100,
        max_backoff_ms: 1000,
        backoff_multiplier_milli: 1500,
        jitter: false,
    };
    let waits: Vec<u64> = (0..8).map(|a| config.backoff_base(a)).collect();
    assert_eq!(waits, vec![100, 150, 225, 337, 506, 759, 1000, 1000]);
    assert_eq!(config.backoff_base(u32::MAX), 1000);

    let shrinking = RetryConfig { backoff_multiplier_milli: 500, ..config };
    let waits: Vec<u64> = (0..9).map(|a| shrinking.backoff_base(a)).collect();
    assert_eq!(waits, vec![100, 50, 25, 12, 6, 3, 1, 0, 0]);
    assert_eq!(shrinking.backoff_base(u32::MAX), 0);

    let capped = RetryConfig { initial_backoff_ms: 5000, ..config };
    assert_eq!(capped.backoff_base(0), 1000);
    let steady = RetryConfig { backoff_multiplier_milli: 1000, ..config };
    assert_eq!(steady.backoff_base(4_000_000_000), 100);
    let huge = RetryConfig {
        initial_backoff_ms: u64::MAX,
        max_backoff_ms: u64::MAX,
        backoff_multiplier_milli: u32::MAX,
        ..config
    };
    assert_eq!(huge.backoff_base(3), u64::MAX);
}

#[test]
fn jitter_stays_within_a_quarter() {
    let config = RetryConfig { max_backoff_ms: 10_000, ..RetryConfig::default() };
    let mut seen = std::collections::BTreeSet::new();
    for _ in 0..200 {
        let wait = config.backoff_duration(3);
        assert!((600..=1000).contains(&wait));
        seen.insert(wait);
    }
    assert!(seen.len() > 10);
    assert_eq!(RetryConfig::with_jitter(800, 0), 600);
    assert_eq!(RetryConfig::with_jitter(800, 400), 1000);
    assert_eq!(RetryConfig::with_jitter(803, 200), 803);
    assert_eq!(RetryConfig::with_jitter(3, 0), 3);
    assert_eq!(RetryConfig::with_jitter(u64::MAX, u64::MAX / 4 * 2), u64::MAX);
}

#[test]
fn classification_of_errors() {
    assert!(Error::Io(String::from("connection reset")).is_retryable());
    for message in [
        "request timeout",
        "rate limit exceeded",
        "we throttle you",
        "service temporarily unavailable",
        "please try again later",
        "HTTP 503",
        "status 429 returned",
    ] {
        assert!(Error::Backend(String::from(message)).is_retryable(), "{}", message);
    }
    for message in ["", "access denied", "Timeout", "50 3", "not found"] {
        assert!(!Error::Backend(String::from(message)).is_retryable(), "{}", message);
    }
    let never = [
        Error::Serialization(String::from("timeout")),
        Error::Encryption(String::from("503")),
        Error::RepositoryNotFound { path: String::from("timeout") },
        Error::RepositoryExists { path: String::from("p") },
        Error::InvalidFormatVersion { version: 2 },
        Error::CorruptedPack { id: String::from("p") },
        Error::SnapshotNotFound { id: String::from("s") },
        Error::InvalidPassword,
        Error::ChunkNotFound { id: String::from("c") },
        Error::LockConflict(String::from("try again")),
        Error::Other(String::from("try again")),
    ];
    for error in never {
        assert!(!error.is_retryable(), "{:?}", error);
        assert_eq!(error.clone(), error);
    }
}

fn run(config: &RetryConfig, outcomes: &[AttemptOutcome]) -> (usize, bool, Vec<u64>) {
    let mut waits = Vec::new();
    let mut attempt = 0u32;
    loop {
        let outcome = outcomes[(attempt as usize).min(outcomes.len() - 1)];
        match config.next_step(attempt, outcome) {
            RetryStep::Succeed => return (attempt as usize + 1, true, waits),
            RetryStep::GiveUp => return (attempt as usize + 1, false, waits),
            RetryStep::RetryAfter { attempt: next, wait_ms } => {
                assert_eq!(next, attempt + 1);
                waits.push(wait_ms);
                attempt = next;
            }
        }
    }
}

#[test]
fn test_retry_succeeds_eventually() {
    let config = RetryConfig {
        max_attempts: 5,
        initial_backoff_ms: 10,
        max_backoff_ms: 50,
        backoff_multiplier_milli: 2000,
        jitter: false,
    };
    let fail = AttemptOutcome::Failure {
        retryable: Error::Io(String::from("Temporary failure")).is_retryable(),
    };
    let (attempts, ok, waits) = run(&config, &[fail, fail, AttemptOutcome::Success]);
    assert!(ok);
    assert_eq!(attempts, 3);
    assert_eq!(waits, vec![10, 20]);
}

#[test]
fn test_retry_fails_after_max_attempts() {
    let config = RetryConfig {
        max_attempts: 3,
        initial_backoff_ms: 10,
        max_backoff_ms: 50,
        backoff_multiplier_milli: 2000,
        jitter: false,
    };
    let fail = AttemptOutcome::Failure {
        retryable: Error::Io(String::from("Persistent failure")).is_retryable(),
    };
    let (attempts, ok, waits) = run(&config, &[fail]);
    assert!(!ok);
    assert_eq!(attempts, 3);
    assert_eq!(waits, vec![10, 20]);
    let long = RetryConfig { max_attempts: 6, ..config };
    let (attempts, _, waits) = run(&long, &[AttemptOutcome::Failure { retryable: true }]);
    assert_eq!(attempts, 6);
    assert_eq!(waits, vec![10, 20, 40, 50, 50]);
    let once = RetryConfig { max_attempts: 1, ..config };
    assert_eq!(run(&once, &[AttemptOutcome::Failure { retryable: true }]), (1, false, vec![]));
}

#[test]
fn test_non_retryable_error_fails_immediately() {
    let config = RetryConfig::default();
    let outcome = AttemptOutcome::Failure { retryable: Error::InvalidPassword.is_retryable() };
    let (attempts, ok, waits) = run(&config, &[outcome]);
    assert!(!ok);
    assert_eq!(attempts, 1);
    assert!(waits.is_empty());
    assert_eq!(config.next_step(0, AttemptOutcome::Success), RetryStep::Succeed);
}
