//! The retry policy: which errors are worth another attempt, how long to
//! wait before it, and when to give up.
//!
//! Times are in milliseconds.  The multiplier of the backoff is given in
//! thousandths, so that 2000 doubles the wait with each attempt; the power
//! of the multiplier is taken exactly and rounded down once.  The driver
//! that sleeps and calls the operation again lives with the caller; what it
//! does after each attempt is decided here.

use crate::error::Error;
use crate::scale::{grown, least, scaled};
use crate::text::{chars_of, contains_text, occurs_in};
use vstd::prelude::*;

verus! {

/// Draws a number from zero to `bound`, both included, by
/// `rand::thread_rng().gen_range(0..=bound)`.
#[verifier::external_body]
fn random_upto(bound: u64) -> (drawn: u64)
    ensures
        drawn <= bound,
{
    rand::Rng::gen_range(&mut rand::thread_rng(), 0..=bound)
}

/// How often and how patiently an operation is tried again.
#[derive(Debug, Clone, Copy, PartialEq, Eq, Structural)]
pub struct RetryConfig {
    /// The greatest number of attempts.
    pub max_attempts: u32,
    /// The wait after the first failure, in milliseconds.
    pub initial_backoff_ms: u64,
    /// The cap on the wait, in milliseconds.
    pub max_backoff_ms: u64,
    /// The factor by which the wait grows from one attempt to the next, in
    /// thousandths.
    pub backoff_multiplier_milli: u32,
    /// Whether the wait is spread by up to a quarter to either side.
    pub jitter: bool,
}

/// The wait after the failure of attempt number `attempt`, counted from
/// zero, before any jitter: the initial wait times the multiplier to the
/// power of the attempt, rounded down, and no more than the cap.
pub open spec fn base_backoff(config: RetryConfig, attempt: nat) -> int {
    least(
        grown(
            config.initial_backoff_ms as nat,
            config.backoff_multiplier_milli as nat,
            attempt,
        ) as int,
        config.max_backoff_ms as int,
    )
}

/// The greatest distance of a jittered wait from its base: a quarter of the
/// base.
pub open spec fn jitter_span(base: int) -> int {
    base / 4
}

/// The wait that a draw of `drawn` out of twice the jitter span makes of
/// `base`: the base less the span plus the draw, and no more than 64 bits
/// hold.
pub open spec fn jittered(base: int, drawn: int) -> int {
    least(base - jitter_span(base) + drawn, u64::MAX as int)
}

impl Default for RetryConfig {
    /// Five attempts, waits from 100 ms doubling up to 30 s, with jitter.
    fn default() -> (config: Self)
        ensures
            config == (RetryConfig {
                max_attempts: 5,
                initial_backoff_ms: 100,
                max_backoff_ms: 30_000,
                backoff_multiplier_milli: 2000,
                jitter: true,
            }),
    {
        RetryConfig {
            max_attempts: 5,
            initial_backoff_ms: 100,
            max_backoff_ms: 30_000,
            backoff_multiplier_milli: 2000,
            jitter: true,
        }
    }
}

impl RetryConfig {
    /// The policy for quick operations, such as those on a local disk: three
    /// attempts, waits from 50 ms up to 5 s.
    pub fn quick() -> (config: Self)
        ensures
            config == (RetryConfig {
                max_attempts: 3,
                initial_backoff_ms: 50,
                max_backoff_ms: 5_000,
                backoff_multiplier_milli: 2000,
                jitter: true,
            }),
    {
        RetryConfig {
            max_attempts: 3,
            initial_backoff_ms: 50,
            max_backoff_ms: 5_000,
            backoff_multiplier_milli: 2000,
            jitter: true,
        }
    }

    /// The policy for operations that must not be given up lightly: ten
    /// attempts, waits from 200 ms up to 60 s.
    pub fn persistent() -> (config: Self)
        ensures
            config == (RetryConfig {
                max_attempts: 10,
                initial_backoff_ms: 200,
                max_backoff_ms: 60_000,
                backoff_multiplier_milli: 2000,
                jitter: true,
            }),
    {
        RetryConfig {
            max_attempts: 10,
            initial_backoff_ms: 200,
            max_backoff_ms: 60_000,
            backoff_multiplier_milli: 2000,
            jitter: true,
        }
    }

    /// The wait after the failure of attempt number `attempt`, before any
    /// jitter.
    pub fn backoff_base(&self, attempt: u32) -> (wait: u64)
        ensures
            wait == base_backoff(*self, attempt as nat),
            wait <= self.max_backoff_ms,
    {
        scaled(
            self.initial_backoff_ms,
            self.backoff_multiplier_milli,
            attempt,
            self.max_backoff_ms,
        )
    }

    /// The wait that a draw makes of a base wait.
    pub fn with_jitter(base: u64, drawn: u64) -> (wait: u64)
        requires
            drawn <= 2 * jitter_span(base as int),
        ensures
            wait == jittered(base as int, drawn as int),
            base - jitter_span(base as int) <= wait,
            wait <= base + jitter_span(base as int),
    {
        let low = base - base / 4;
        if drawn > u64::MAX - low {
            u64::MAX
        } else {
            low + drawn
        }
    }

    /// The wait after the failure of attempt number `attempt`: the base
    /// wait, and with jitter a wait drawn from within a quarter of the base
    /// to either side of it.
    pub fn backoff_duration(&self, attempt: u32) -> (wait: u64)
        ensures
            !self.jitter ==> wait == base_backoff(*self, attempt as nat),
            self.jitter ==> exists|drawn: int|
                0 <= drawn <= 2 * jitter_span(base_backoff(*self, attempt as nat)) && wait
                    == #[trigger] jittered(base_backoff(*self, attempt as nat), drawn),
            base_backoff(*self, attempt as nat) - jitter_span(base_backoff(*self, attempt as nat))
                <= wait,
            wait <= base_backoff(*self, attempt as nat) + jitter_span(
                base_backoff(*self, attempt as nat),
            ),
    {
        let base = self.backoff_base(attempt);
        if self.jitter {
            let drawn = random_upto(2 * (base / 4));
            let wait = RetryConfig::with_jitter(base, drawn);
            assert(wait == jittered(base as int, drawn as int));
            wait
        } else {
            base
        }
    }

    /// What to do after attempt number `attempt`, counted from zero.
    ///
    /// A success ends the run.  A failure that is not worth another attempt
    /// ends it at once, and so does a failure of the last attempt.  After any
    /// other failure the operation is tried again after the wait.
    pub fn next_step(&self, attempt: u32, outcome: AttemptOutcome) -> (step: RetryStep)
        requires
            attempt < self.max_attempts,
        ensures
            outcome is Success ==> step is Succeed,
            outcome == (AttemptOutcome::Failure { retryable: false }) ==> step is GiveUp,
            outcome == (AttemptOutcome::Failure { retryable: true }) && attempt + 1
                >= self.max_attempts ==> step is GiveUp,
            outcome == (AttemptOutcome::Failure { retryable: true }) && attempt + 1
                < self.max_attempts ==> (step matches RetryStep::RetryAfter { attempt: next, wait_ms }
                && next == attempt + 1 && base_backoff(*self, attempt as nat) - jitter_span(
                base_backoff(*self, attempt as nat),
            ) <= wait_ms <= base_backoff(*self, attempt as nat) + jitter_span(
                base_backoff(*self, attempt as nat),
            ) && (!self.jitter ==> wait_ms == base_backoff(*self, attempt as nat))),
    {
        match outcome {
            AttemptOutcome::Success => RetryStep::Succeed,
            AttemptOutcome::Failure { retryable } => {
                if !retryable || attempt >= self.max_attempts - 1 {
                    RetryStep::GiveUp
                } else {
                    RetryStep::RetryAfter { attempt: attempt + 1, wait_ms: self.backoff_duration(attempt) }
                }
            },
        }
    }
}

/// How an attempt ended.
#[derive(Debug, Clone, Copy, PartialEq, Eq, Structural)]
pub enum AttemptOutcome {
    Success,
    Failure { retryable: bool },
}

/// What the driver does next.
#[derive(Debug, Clone, Copy, PartialEq, Eq, Structural)]
pub enum RetryStep {
    /// Return the result of the attempt.
    Succeed,
    /// Return the error of the attempt.
    GiveUp,
    /// Sleep for `wait_ms` milliseconds, then make attempt number `attempt`.
    RetryAfter { attempt: u32, wait_ms: u64 },
}

/// Whether the message of a backend error tells of a passing condition: a
/// timeout, a rate limit, throttling, or a busy server.
pub open spec fn transient_message(message: Seq<char>) -> bool {
    ||| occurs_in(message, "timeout"@)
    ||| occurs_in(message, "rate limit"@)
    ||| occurs_in(message, "throttle"@)
    ||| occurs_in(message, "temporarily unavailable"@)
    ||| occurs_in(message, "try again"@)
    ||| occurs_in(message, "503"@)
    ||| occurs_in(message, "429"@)
}

/// Whether an error is worth another attempt: I/O errors are, backend errors
/// are where their message tells of a passing condition, and no other error
/// is.
pub open spec fn worth_retrying(error: Error) -> bool {
    match error {
        Error::Io(_) => true,
        Error::Backend(message) => transient_message(message@),
        _ => false,
    }
}

/// Errors that can tell whether another attempt may succeed.
pub trait Retryable {
    /// Whether another attempt may succeed.
    spec fn retryable(&self) -> bool;

    fn is_retryable(&self) -> (r: bool)
        ensures
            r == self.retryable(),
    ;
}

impl Retryable for Error {
    open spec fn retryable(&self) -> bool {
        worth_retrying(*self)
    }

    fn is_retryable(&self) -> (r: bool) {
        match self {
            Error::Io(_) => true,
            Error::Backend(message) => {
                let text = chars_of(message.as_str());
                contains_text(&text, &chars_of("timeout")) || contains_text(
                    &text,
                    &chars_of("rate limit"),
                ) || contains_text(&text, &chars_of("throttle")) || contains_text(
                    &text,
                    &chars_of("temporarily unavailable"),
                ) || contains_text(&text, &chars_of("try again")) || contains_text(
                    &text,
                    &chars_of("503"),
                ) || contains_text(&text, &chars_of("429"))
            },
            _ => false,
        }
    }
}

} // verus!
