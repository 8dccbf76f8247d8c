//! Running the tool without the daemon.

use vstd::prelude::*;
use crate::text::{concat2, concat3};

verus! {

/// What running a tool came to.
#[derive(Debug)]
pub enum RunEvent {
    /// It could not be started; the error says why.
    NotStarted(String),
    /// It ended, with an exit code unless something else ended it.
    Exited(Option<i32>),
    /// It could not be waited for; the error says why.
    NotWaitedFor(String),
}

/// The exit code that running a tool gives: the tool's own, and 1 where it has none.
pub open spec fn exit_code_of(event: RunEvent) -> i32 {
    match event {
        RunEvent::Exited(Some(code)) => code,
        _ => 1,
    }
}

/// What is said before a tool is run because the daemon gave no verdict.
pub open spec fn local_notice_text(reason: Seq<char>, tool: Seq<char>) -> Seq<char> {
    "zccache[warn][F]: "@ + reason + "; running "@ + tool + " directly, uncached"@
}

/// What is said before a tool is run because the daemon gave no verdict.
pub fn local_notice(reason: &str, tool: &str) -> (text: String)
    ensures
        text@ == local_notice_text(reason@, tool@),
{
    let front = concat3("zccache[warn][F]: ", reason, "; running ");
    concat3(front.as_str(), tool, " directly, uncached")
}

/// Whether a tool is handed the input that the wrapper read: where there was any, else the tool
/// keeps the wrapper's own.
pub fn replays_stdin(stdin: &[u8]) -> (yes: bool)
    ensures
        yes == (stdin@.len() > 0),
{
    stdin.len() > 0
}

/// What a local run ends with: the exit code, and what is said where the tool could not be run.
pub fn run_locally(event: &RunEvent, tool: &str) -> (end: (i32, Option<String>))
    ensures
        end.0 == exit_code_of(*event),
        crate::text::opt_view(end.1) == (match *event {
            RunEvent::NotStarted(e) => Some("zccache[err][F]: failed to run "@ + tool@ + ": "@ + e@),
            RunEvent::NotWaitedFor(e) => Some("zccache[err][F]: failed to wait for "@ + tool@ + ": "@ + e@),
            RunEvent::Exited(_) => None,
        }),
{
    match event {
        RunEvent::NotStarted(e) => {
            let front = concat3("zccache[err][F]: failed to run ", tool, ": ");
            (1, Some(concat2(front.as_str(), e.as_str())))
        },
        RunEvent::NotWaitedFor(e) => {
            let front = concat3("zccache[err][F]: failed to wait for ", tool, ": ");
            (1, Some(concat2(front.as_str(), e.as_str())))
        },
        RunEvent::Exited(code) => match code {
            Some(c) => (*c, None),
            None => (1, None),
        },
    }
}

/// What a run without caching ends with: the exit code, and what is said where the tool could not
/// be run.
pub fn run_passthrough(event: &RunEvent, tool: &str) -> (end: (i32, Option<String>))
    ensures
        end.0 == exit_code_of(*event),
        crate::text::opt_view(end.1) == (match *event {
            RunEvent::NotStarted(e) => Some("zccache: failed to run "@ + tool@ + ": "@ + e@),
            RunEvent::NotWaitedFor(e) => Some("zccache: failed to run "@ + tool@ + ": "@ + e@),
            RunEvent::Exited(_) => None,
        }),
{
    match event {
        RunEvent::NotStarted(e) => {
            let front = concat3("zccache: failed to run ", tool, ": ");
            (1, Some(concat2(front.as_str(), e.as_str())))
        },
        RunEvent::NotWaitedFor(e) => {
            let front = concat3("zccache: failed to run ", tool, ": ");
            (1, Some(concat2(front.as_str(), e.as_str())))
        },
        RunEvent::Exited(code) => match code {
            Some(c) => (*c, None),
            None => (1, None),
        },
    }
}

} // verus!
