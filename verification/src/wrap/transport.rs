//! Receiving with a time limit, retrying, and telling a busy daemon from a hung one.

use vstd::prelude::*;
use super::relay::Received;
use crate::text::{concat2, parse_u64, parsed_u64, trim, trimmed};

verus! {

// ── Receiving ───────────────────────────────────────────────────────────

/// How long a client waits for an answer at most, in milliseconds.
pub const DEFAULT_CLIENT_RECV_TIMEOUT_MS: u64 = 300_000;

/// What waiting for an answer came to.
#[derive(Debug)]
pub enum RecvEvent {
    /// A message came, or the other side closed.
    Message(Option<Received>),
    /// The time was up; the error says so.
    TimedOut(String),
    /// The connection broke; the error says how.
    Broken(String),
}

/// What it means.
#[derive(Debug)]
pub enum CompileRecvOutcome {
    /// An answer.
    Done(Option<Received>),
    /// The daemon did not answer within the time it is given.
    Wedged,
    /// The connection broke.
    Failed(String),
}

/// What is said of a broken connection.
pub open spec fn broken_text(error: Seq<char>) -> Seq<char> {
    "broken connection to daemon: "@ + error
}

/// What is said of a daemon that closed the connection without an answer.
pub open spec fn closed_text() -> Seq<char> {
    "lost connection to daemon"@
}

/// Whether an outcome says that the connection broke, in these words.
pub open spec fn is_failed(outcome: CompileRecvOutcome, text: Seq<char>) -> bool {
    outcome matches CompileRecvOutcome::Failed(t) && t@ == text
}

/// How long to wait for an answer, in milliseconds.
pub fn recv_timeout_ms(budget: Option<u64>) -> (ms: u64)
    ensures
        ms == (match budget {
            Some(b) => b,
            None => DEFAULT_CLIENT_RECV_TIMEOUT_MS,
        }),
{
    match budget {
        Some(b) => b,
        None => DEFAULT_CLIENT_RECV_TIMEOUT_MS,
    }
}

/// What waiting for an answer means. Only where the daemon is given a time and lets it pass is it
/// wedged; everything else that goes wrong, a daemon that closes without an answer too, is a
/// broken connection.
pub fn compile_recv_with_wedge_detection(event: RecvEvent, budget: Option<u64>) -> (outcome: CompileRecvOutcome)
    ensures
        match event {
            RecvEvent::Message(m) => if m is Some {
                outcome == CompileRecvOutcome::Done(m)
            } else {
                is_failed(outcome, closed_text())
            },
            RecvEvent::TimedOut(e) => if budget is Some {
                outcome == CompileRecvOutcome::Wedged
            } else {
                is_failed(outcome, broken_text(e@))
            },
            RecvEvent::Broken(e) => is_failed(outcome, broken_text(e@)),
        },
{
    match event {
        RecvEvent::Message(m) => if m.is_some() {
            CompileRecvOutcome::Done(m)
        } else {
            CompileRecvOutcome::Failed("lost connection to daemon".to_owned())
        },
        RecvEvent::TimedOut(e) => if budget.is_some() {
            CompileRecvOutcome::Wedged
        } else {
            CompileRecvOutcome::Failed(concat2("broken connection to daemon: ", e.as_str()))
        },
        RecvEvent::Broken(e) => CompileRecvOutcome::Failed(concat2("broken connection to daemon: ", e.as_str())),
    }
}

// ── Retrying ────────────────────────────────────────────────────────────

/// What to do after an attempt.
#[derive(Debug)]
pub enum RetryStep {
    /// Wait a little, then try again.
    Recover,
    /// This is how it ended.
    Finish(CompileRecvOutcome),
}

/// Bounded retrying: how many attempts were made, and how many times it may be tried again.
#[derive(Debug)]
pub struct LinkRetry {
    max_recoveries: u32,
    recoveries_used: u32,
}

/// What a [`LinkRetry`] counts.
pub struct RetryView {
    /// How often it may be tried again in all.
    pub max: nat,
    /// How often it was.
    pub used: nat,
}

impl View for LinkRetry {
    type V = RetryView;

    closed spec fn view(&self) -> RetryView {
        RetryView { max: self.max_recoveries as nat, used: self.recoveries_used as nat }
    }
}

/// Whether it is tried again: only after a broken connection, and only so often.
pub open spec fn retries(r: RetryView, outcome: CompileRecvOutcome) -> bool {
    outcome is Failed && r.used < r.max
}

impl LinkRetry {
    /// Nothing was tried yet.
    pub fn new(max_recoveries: u32) -> (retry: LinkRetry)
        ensures
            retry@ == (RetryView { max: max_recoveries as nat, used: 0 }),
    {
        LinkRetry { max_recoveries, recoveries_used: 0 }
    }

    /// How often it was tried again.
    pub fn recoveries_used(&self) -> (used: u32)
        ensures
            used == self@.used,
    {
        self.recoveries_used
    }

    /// What to do after an attempt that came to `outcome`.
    pub fn link_with_retry(&mut self, outcome: CompileRecvOutcome) -> (step: RetryStep)
        ensures
            retries(old(self)@, outcome) ==> step == RetryStep::Recover && final(self)@ == (RetryView {
                used: old(self)@.used + 1,
                ..old(self)@
            }),
            !retries(old(self)@, outcome) ==> step == RetryStep::Finish(outcome) && final(self)@ == old(self)@,
    {
        let failed = match &outcome {
            CompileRecvOutcome::Failed(_) => true,
            CompileRecvOutcome::Done(_) => false,
            CompileRecvOutcome::Wedged => false,
        };
        if failed && self.recoveries_used < self.max_recoveries {
            self.recoveries_used = self.recoveries_used + 1;
            RetryStep::Recover
        } else {
            RetryStep::Finish(outcome)
        }
    }
}

/// How many attempts are made where they come to `outcomes`, one after the other.
pub open spec fn attempts_made(r: RetryView, outcomes: Seq<CompileRecvOutcome>) -> nat
    decreases outcomes.len(),
{
    if outcomes.len() == 0 {
        0
    } else if retries(r, outcomes[0]) {
        1 + attempts_made(RetryView { used: r.used + 1, ..r }, outcomes.drop_first())
    } else {
        1
    }
}

/// There are never more attempts than one and the number of retries allowed; all attempts but the
/// last ended in a broken connection; and the last did not, unless the retries are used up.
pub proof fn lemma_retry_is_bounded(r: RetryView, outcomes: Seq<CompileRecvOutcome>)
    requires
        r.used <= r.max,
        outcomes.len() > r.max - r.used,
    ensures
        1 <= attempts_made(r, outcomes) <= r.max - r.used + 1,
        forall|i: int| 0 <= i < attempts_made(r, outcomes) - 1 ==> (#[trigger] outcomes[i]) is Failed,
        !(outcomes[attempts_made(r, outcomes) - 1] is Failed) || attempts_made(r, outcomes) == r.max - r.used + 1,
    decreases outcomes.len(),
{
    if retries(r, outcomes[0]) {
        let next = RetryView { used: r.used + 1, ..r };
        let rest = outcomes.drop_first();
        lemma_retry_is_bounded(next, rest);
        assert forall|i: int| 0 <= i < attempts_made(r, outcomes) - 1 implies (#[trigger] outcomes[i]) is Failed by {
            if i > 0 {
                assert(rest[i - 1] == outcomes[i]);
            }
        }
        assert(rest[attempts_made(next, rest) - 1] == outcomes[attempts_made(r, outcomes) - 1]);
    }
}

/// A daemon that closes without an answer is asked again, as long as retries are left.
pub proof fn lemma_closed_connection_is_retried(r: RetryView, outcome: CompileRecvOutcome)
    requires
        is_failed(outcome, closed_text()),
        r.used < r.max,
    ensures
        retries(r, outcome),
{
}

/// A wedged daemon is not asked again, however many retries are allowed; nor is one that answered.
pub proof fn lemma_no_retry_without_failure(r: RetryView, outcomes: Seq<CompileRecvOutcome>)
    requires
        outcomes.len() > 0,
        !(outcomes[0] is Failed),
    ensures
        attempts_made(r, outcomes) == 1,
{
}

/// How long to wait before trying again, in milliseconds: somewhere between 50 and 250, so that
/// many clients that lost one daemon do not all come back at once. `nanos` is some part of the
/// clock that differs between them.
pub fn retry_backoff_ms(nanos: u32) -> (ms: u64)
    ensures
        ms == 50 + nanos % 201,
        50 <= ms <= 250,
{
    let spread: u32 = nanos % 201;
    50 + spread as u64
}

// ── Probing ─────────────────────────────────────────────────────────────

/// What a ping to a daemon that did not answer in time came to.
#[derive(Clone, Copy, Debug, PartialEq, Eq, Structural)]
pub enum ProbeOutcome {
    /// It was answered in time.
    Answered,
    /// It could not be sent or the connection broke.
    Failed,
    /// The time was up.
    TimedOut,
}

/// What to do about a daemon that did not answer in time.
#[derive(Clone, Copy, Debug, PartialEq, Eq, Structural)]
pub enum WedgeAction {
    /// It is only busy: leave it alone, others are using it.
    DowngradeNoKill,
    /// It hangs: stop it.
    EscalateKill,
    /// It cannot even be talked to: stop it.
    EscalateKillProbeError,
}

/// What to do about a daemon that did not answer in time, by what a ping came to.
pub fn classify_probe_outcome(probe: ProbeOutcome) -> (action: WedgeAction)
    ensures
        action == (match probe {
            ProbeOutcome::Answered => WedgeAction::DowngradeNoKill,
            ProbeOutcome::Failed => WedgeAction::EscalateKillProbeError,
            ProbeOutcome::TimedOut => WedgeAction::EscalateKill,
        }),
{
    match probe {
        ProbeOutcome::Answered => WedgeAction::DowngradeNoKill,
        ProbeOutcome::Failed => WedgeAction::EscalateKillProbeError,
        ProbeOutcome::TimedOut => WedgeAction::EscalateKill,
    }
}

/// How long a ping may take, in milliseconds, unless said otherwise.
pub const WEDGE_PROBE_DEFAULT_MS: u64 = 3_000;

/// How long a ping may take, in milliseconds, where the variable says `setting`; `None` for no
/// ping at all.
pub open spec fn probe_budget(setting: Option<Seq<char>>) -> Option<u64> {
    let ms = match setting {
        Some(text) => match parsed_u64(trimmed(text)) {
            Some(n) => n,
            None => WEDGE_PROBE_DEFAULT_MS,
        },
        None => WEDGE_PROBE_DEFAULT_MS,
    };
    if ms == 0 {
        None
    } else {
        Some(ms)
    }
}

/// How long a ping may take, in milliseconds, by the value of `ZCCACHE_WEDGE_PROBE_BUDGET_MS`.
/// Zero turns pings off; what is no number counts as not set.
pub fn wedge_probe_budget(setting: Option<&str>) -> (budget: Option<u64>)
    ensures
        budget == probe_budget(match setting {
            Some(t) => Some(t@),
            None => None,
        }),
{
    let ms: u64 = match setting {
        Some(text) => {
            let inner = trim(text);
            match parse_u64(inner.as_str()) {
                Some(n) => n,
                None => WEDGE_PROBE_DEFAULT_MS,
            }
        },
        None => WEDGE_PROBE_DEFAULT_MS,
    };
    if ms == 0 {
        None
    } else {
        Some(ms)
    }
}

} // verus!
