//! What a worker reports back, and the heartbeat by which it shows that it
//! is alive.

use vstd::prelude::*;

verus! {

/// What a worker reports back for one execution attempt.
#[derive(Debug, Clone)]
pub enum WorkerOutcome {
    /// Task finished; `output` is the result, `tokens_used` the actual spend.
    Success { output: String, tokens_used: u64 },
    /// Task failed in a way a retry might fix (transient error, crash).
    Retryable { error: String, tokens_used: u64 },
    /// Worker needs an external answer before it can proceed.
    Blocked { question: String, tokens_used: u64 },
    /// Task failed in a way retries will not fix (bad input, impossible).
    Fatal { error: String, tokens_used: u64 },
}

/// What a [`WorkerOutcome`] says, as mathematical values.
pub enum OutcomeView {
    Success { output: Seq<char>, tokens_used: u64 },
    Retryable { error: Seq<char>, tokens_used: u64 },
    Blocked { question: Seq<char>, tokens_used: u64 },
    Fatal { error: Seq<char>, tokens_used: u64 },
}

impl OutcomeView {
    /// The actual spend of the attempt.
    pub open spec fn tokens(self) -> u64 {
        match self {
            OutcomeView::Success { tokens_used, .. } => tokens_used,
            OutcomeView::Retryable { tokens_used, .. } => tokens_used,
            OutcomeView::Blocked { tokens_used, .. } => tokens_used,
            OutcomeView::Fatal { tokens_used, .. } => tokens_used,
        }
    }
}

impl View for WorkerOutcome {
    type V = OutcomeView;

    open spec fn view(&self) -> OutcomeView {
        match self {
            WorkerOutcome::Success { output, tokens_used } => OutcomeView::Success {
                output: output@,
                tokens_used: *tokens_used,
            },
            WorkerOutcome::Retryable { error, tokens_used } => OutcomeView::Retryable {
                error: error@,
                tokens_used: *tokens_used,
            },
            WorkerOutcome::Blocked { question, tokens_used } => OutcomeView::Blocked {
                question: question@,
                tokens_used: *tokens_used,
            },
            WorkerOutcome::Fatal { error, tokens_used } => OutcomeView::Fatal {
                error: error@,
                tokens_used: *tokens_used,
            },
        }
    }
}

/// Liveness record a worker beats while making progress. The supervisor
/// declares a worker stalled only on *evidence* (heartbeat age), never on
/// a wall-clock guess about how long work "should" take.
#[derive(Debug)]
pub struct Heartbeat {
    pub last_beat_ms: u64,
}

/// The time from `earlier_ms` to `now_ms`, and zero where the clock has gone
/// back meanwhile.
pub open spec fn elapsed_ms(earlier_ms: u64, now_ms: u64) -> u64 {
    if now_ms < earlier_ms {
        0
    } else {
        (now_ms - earlier_ms) as u64
    }
}

/// What the low 64 bits of a clock reading hold; zero without a reading.
pub open spec fn reading_ms(millis: Option<u128>) -> u64 {
    match millis {
        Some(m) => (m % 0x1_0000_0000_0000_0000) as u64,
        None => 0,
    }
}

impl Heartbeat {
    /// A heartbeat that beat for the first time at `now_ms`.
    pub fn new_at(now_ms: u64) -> (r: Self)
        ensures
            r.last_beat_ms == now_ms,
    {
        Heartbeat { last_beat_ms: now_ms }
    }

    /// Signal liveness at `now_ms`.
    pub fn beat_at(&mut self, now_ms: u64)
        ensures
            final(self).last_beat_ms == now_ms,
    {
        self.last_beat_ms = now_ms;
    }

    /// Milliseconds from the last beat to `now_ms`.
    pub fn age_at(&self, now_ms: u64) -> (r: u64)
        ensures
            r == elapsed_ms(self.last_beat_ms, now_ms),
    {
        now_ms.saturating_sub(self.last_beat_ms)
    }

    /// A heartbeat that has just beaten, by the system clock.
    pub fn new() -> (r: Self)
        ensures
            exists|millis: Option<u128>| #[trigger] clock_may_read(millis) && r.last_beat_ms == reading_ms(millis),
    {
        Heartbeat::new_at(now_ms())
    }

    /// Signal liveness. Call this whenever the worker makes progress.
    pub fn beat(&mut self)
        ensures
            exists|millis: Option<u128>| #[trigger]
                clock_may_read(millis) && final(self).last_beat_ms == reading_ms(millis),
    {
        self.beat_at(now_ms());
    }

    /// Milliseconds since the last beat, by the system clock.
    pub fn age_ms(&self) -> (r: u64)
        ensures
            exists|millis: Option<u128>| #[trigger]
                clock_may_read(millis) && r == elapsed_ms(self.last_beat_ms, reading_ms(millis)),
    {
        self.age_at(now_ms())
    }
}

impl Default for Heartbeat {
    fn default() -> (r: Self)
        ensures
            r.last_beat_ms == 0,
    {
        Heartbeat { last_beat_ms: 0 }
    }
}

/// `SystemTime::now`, converted by `duration_since` the Unix epoch and
/// `as_millis` to whole milliseconds, with `None` where the clock stands before
/// the epoch. Nothing is claimed of the reading: it is whatever the clock
/// shows.
#[verifier::external_body]
fn clock_reading() -> (r: Option<u128>)
{
    std::time::SystemTime::now().duration_since(std::time::UNIX_EPOCH).ok().map(|d| d.as_millis())
}

/// The system clock may be read as `millis`: a call of `clock_reading` can
/// return it.
pub closed spec fn clock_may_read(millis: Option<u128>) -> bool {
    call_ensures(clock_reading, (), millis)
}

/// A clock reading as the milliseconds that heartbeats count.
pub fn ms_of_reading(millis: Option<u128>) -> (r: u64)
    ensures
        r == reading_ms(millis),
{
    match millis {
        Some(m) => {
            let low: u128 = m % 0x1_0000_0000_0000_0000;
            low as u64
        },
        None => 0,
    }
}

/// The time by the system clock, in the milliseconds that heartbeats count.
fn now_ms() -> (r: u64)
    ensures
        exists|millis: Option<u128>| #[trigger] clock_may_read(millis) && r == reading_ms(millis),
{
    let millis = clock_reading();
    assert(clock_may_read(millis));
    ms_of_reading(millis)
}

} // verus!
