//! What the wrapper promises of every request: the tool's own output and exit code, or a run of the
//! tool.

use vstd::prelude::*;
use super::compile::{
    attempt_goes, busy_warning, compile_wedged_warning, link_wedged_warning, wedged_warning, compile_end, compile_step, link_end, note_view, AnswerView, AttemptEvent, AttemptStep,
    DisconnectCause, EndingView, StepView, WrapEvent,
};
use super::local::{exit_code_of, local_notice_text, RunEvent};
use super::relay::{compile_relay, line, link_relay, Received, Response};
use super::transport::{probe_budget, retries, CompileRecvOutcome, ProbeOutcome, RecvEvent, RetryView};
use crate::key_laws::lemma_encode_concat;
use crate::text::{decimal_value, digit_value, is_white, parsed_u64, trimmed, trimmed_end, trimmed_start};
use vstd::utf8::encode_utf8;

verus! {

// ── Answers ─────────────────────────────────────────────────────────────

/// What a compiler wrote and its exit code are passed on as they are.
pub proof fn lemma_compile_output_passes(received: Received)
    ensures
        received.response matches Response::CompileResult { exit_code, stdout, stderr, cached } ==> {
            let r = compile_relay(Some(received));
            r.stdout == stdout@ && r.stderr == stderr@ && r.code == Some(exit_code)
        },
{
}

/// What a linker wrote and its exit code are passed on as they are, a warning of the daemon behind
/// what the linker wrote to standard error.
pub proof fn lemma_link_output_passes(received: Received)
    ensures
        received.response matches Response::LinkResult { exit_code, stdout, stderr, cached, warning } ==> {
            let r = link_relay(Some(received));
            &&& r.stdout == stdout@
            &&& stderr@.is_prefix_of(r.stderr)
            &&& r.code == Some(exit_code)
            &&& r.stderr.skip(stderr@.len() as int) == (match warning {
                Some(w) => encode_utf8("zccache warning: "@ + w@) + encode_utf8("\n"@),
                None => Seq::empty(),
            })
        },
{
    if let Response::LinkResult { exit_code, stdout, stderr, cached, warning } = received.response {
        let r = link_relay(Some(received));
        assert(r.stderr.take(stderr@.len() as int) =~= stderr@);
        match warning {
            Some(w) => {
                assert(r.stderr.skip(stderr@.len() as int) =~= line("zccache warning: "@ + w@));
            },
            None => {
                assert(r.stderr.skip(stderr@.len() as int) =~= Seq::<u8>::empty());
            },
        }
    }
}

/// An answer that says nothing of the tool that was asked for gives no exit code and nothing for
/// standard output, and is told on standard error.
pub proof fn lemma_no_verdict_is_told(received: Option<Received>)
    ensures
        !(received is Some && received->0.response is CompileResult) ==> compile_relay(received).code is None && compile_relay(
            received,
        ).stdout.len() == 0 && compile_relay(received).stderr.len() > 0,
        !(received is Some && received->0.response is LinkResult) ==> link_relay(received).code is None && link_relay(
            received,
        ).stdout.len() == 0 && link_relay(received).stderr.len() > 0,
{
    reveal_strlit("\n");
    reveal_with_fuel(encode_utf8, 2);
    let n = "\n"@;
    assert(n.len() == 1);
    assert(encode_utf8(n).len() > 0);
    assert forall|text: Seq<char>| #[trigger] line(text).len() > 0 by {}
}

/// What is told where an answer says nothing of the tool is the daemon's own error, how an answer
/// that was not expected is shown, or that the connection was lost.
pub proof fn lemma_no_verdict_texts(received: Received)
    ensures
        received.response matches Response::Error { message } ==> compile_relay(Some(received)).stderr == line(
            "zccache[err][E]: daemon error: "@ + message@,
        ) && link_relay(Some(received)).stderr == compile_relay(Some(received)).stderr,
        received.response is Pong || received.response is Other || received.response is LinkResult ==> compile_relay(
            Some(received),
        ).stderr == line("zccache[err][U]: unexpected response from daemon: "@ + received.shown@),
        received.response is Pong || received.response is Other || received.response is CompileResult ==> link_relay(
            Some(received),
        ).stderr == line("zccache[err][U]: unexpected response from daemon: "@ + received.shown@),
        compile_relay(None).stderr == line("zccache[err][L]: lost connection to daemon"@),
        link_relay(None).stderr == line("zccache[err][L]: lost connection to daemon"@),
{
}

// ── A compile request in a session ──────────────────────────────────────

/// A request goes from connecting to sending to receiving; the answer is waited for as long as the
/// daemon is given, or five minutes; and a daemon that lets its time pass is pinged, where pings
/// are on.
pub proof fn lemma_request_goes_on(endpoint: Seq<char>, wedge_ms: Option<u64>, probe_ms: Option<u64>, error: String)
    ensures
        compile_step(WrapEvent::Connected, endpoint, wedge_ms, probe_ms) == StepView::Send,
        compile_step(WrapEvent::Sent, endpoint, wedge_ms, probe_ms) == StepView::Receive(
            match wedge_ms {
                Some(ms) => ms,
                None => 300_000,
            },
        ),
        wedge_ms is Some && probe_ms is Some ==> compile_step(
            WrapEvent::Received(RecvEvent::TimedOut(error)),
            endpoint,
            wedge_ms,
            probe_ms,
        ) == StepView::Probe(probe_ms->0),
{
}

/// Whether an ending runs the tool here, for this reason, and leaves the daemon alone.
pub open spec fn runs_here(ending: EndingView, reason: Seq<char>) -> bool {
    ending.answer == AnswerView::RunLocally(reason) && !ending.kill_daemon && ending.stdout.len() == 0
}

/// Where the daemon cannot be reached, the tool is run here, and the reason says why.
pub proof fn lemma_unreachable_runs_here(endpoint: Seq<char>, wedge_ms: Option<u64>, probe_ms: Option<u64>, error: String)
    ensures
        compile_step(WrapEvent::ConnectFailed(error), endpoint, wedge_ms, probe_ms) matches StepView::End(ending) && runs_here(
            ending,
            "cannot connect to daemon at "@ + endpoint + ": "@ + error@,
        ),
        compile_step(WrapEvent::SendFailed(error), endpoint, wedge_ms, probe_ms) matches StepView::End(ending) && runs_here(
            ending,
            "failed to send to daemon at "@ + endpoint + ": "@ + error@,
        ),
{
}

/// Where the connection breaks while the answer is waited for, that is noted, and the tool is run
/// here: where the daemon closes without an answer, where an error says so, and where the time is up
/// but the daemon was not given any.
pub proof fn lemma_broken_runs_here(endpoint: Seq<char>, wedge_ms: Option<u64>, probe_ms: Option<u64>, error: String)
    ensures
        compile_step(WrapEvent::Received(RecvEvent::Message(None)), endpoint, wedge_ms, probe_ms) matches StepView::End(ending)
            && runs_here(ending, "lost connection to daemon"@) && ending.disconnected == Some(
            (DisconnectCause::CommError, "lost connection to daemon"@),
        ),
        compile_step(WrapEvent::Received(RecvEvent::Broken(error)), endpoint, wedge_ms, probe_ms) matches StepView::End(ending)
            && runs_here(ending, "broken connection to daemon: "@ + error@) && ending.disconnected == Some(
            (DisconnectCause::CommError, "broken connection to daemon: "@ + error@),
        ),
        wedge_ms is None ==> (compile_step(WrapEvent::Received(RecvEvent::TimedOut(error)), endpoint, wedge_ms, probe_ms)
            matches StepView::End(ending) && runs_here(ending, "broken connection to daemon: "@ + error@) && ending.disconnected
            == Some((DisconnectCause::CommError, "broken connection to daemon: "@ + error@))),
{
}

/// A daemon that hangs is stopped, with a warning, and the tool is run here: where it fails a ping
/// or does not answer it, and where it lets its time pass and pings are off.
pub proof fn lemma_hung_daemon_is_stopped(endpoint: Seq<char>, wedge_ms: Option<u64>, probe_ms: Option<u64>, probe: ProbeOutcome, error: String)
    ensures
        probe != ProbeOutcome::Answered ==> (compile_step(WrapEvent::Probed(probe), endpoint, wedge_ms, probe_ms)
            matches StepView::End(ending) && stops_daemon(ending, endpoint)),
        wedge_ms is Some && probe_ms is None ==> (compile_step(
            WrapEvent::Received(RecvEvent::TimedOut(error)),
            endpoint,
            wedge_ms,
            probe_ms,
        ) matches StepView::End(ending) && stops_daemon(ending, endpoint)),
{
    lemma_warnings(endpoint);
}

/// Whether an ending stops the daemon, says so, and runs the tool here.
pub open spec fn stops_daemon(ending: EndingView, endpoint: Seq<char>) -> bool {
    &&& ending.kill_daemon
    &&& ending.answer == AnswerView::RunLocally("daemon at "@ + endpoint + " was wedged"@)
    &&& ending.stdout.len() == 0
    &&& warns_of(ending.stderr, endpoint)
    &&& ending.disconnected is None
}

/// Whether a warning begins with where the daemon is.
pub open spec fn warns_of(stderr: Seq<u8>, endpoint: Seq<char>) -> bool {
    encode_utf8("zccache[warn][W]: daemon at "@ + endpoint).is_prefix_of(stderr)
}

/// A warning that goes on behind where the daemon is begins with it.
proof fn lemma_warns(endpoint: Seq<char>, rest: Seq<char>)
    ensures
        warns_of(line("zccache[warn][W]: daemon at "@ + endpoint + rest), endpoint),
{
    let front = "zccache[warn][W]: daemon at "@ + endpoint;
    lemma_encode_concat(front, rest);
    let a = encode_utf8(front);
    let all = line(front + rest);
    assert(all.take(a.len() as int) =~= a);
}

/// The warnings say where the daemon is.
proof fn lemma_warnings(endpoint: Seq<char>)
    ensures
        warns_of(line(busy_warning(endpoint)), endpoint),
        warns_of(line(wedged_warning(endpoint)), endpoint),
        warns_of(line(compile_wedged_warning(endpoint)), endpoint),
        warns_of(line(link_wedged_warning(endpoint)), endpoint),
{
    lemma_warns(
        endpoint,
        " answered probe within budget but missed the per-request wedge budget — burst load, not a hung daemon. Recovering via ephemeral without killing — issue #753"@,
    );
    lemma_warns(
        endpoint,
        " is wedged (missed wedge budget + failed probe); killing it so the next invocation starts fresh"@,
    );
    lemma_warns(
        endpoint,
        " stopped responding within the wedge budget; killing it so the next compile starts fresh — issue #666"@,
    );
    lemma_warns(
        endpoint,
        " stopped responding within the wedge budget on a Link; killing it so the next request starts fresh — issue #666"@,
    );
}

/// A daemon that answers a ping is only busy: it is left alone, a warning says so, and the request is
/// made again in a session of its own.
pub proof fn lemma_busy_daemon_is_asked_again(endpoint: Seq<char>, wedge_ms: Option<u64>, probe_ms: Option<u64>)
    ensures
        compile_step(WrapEvent::Probed(ProbeOutcome::Answered), endpoint, wedge_ms, probe_ms) matches StepView::End(ending)
            && ending.answer == AnswerView::RunEphemeral && !ending.kill_daemon && ending.disconnected is None && ending.stdout.len() == 0
            && warns_of(ending.stderr, endpoint),
{
    lemma_warnings(endpoint);
}

/// What the compiler wrote reaches the two streams, and the daemon is neither stopped nor taken to
/// be gone.
pub proof fn lemma_session_passes_output(received: Received, endpoint: Seq<char>, wedge_ms: Option<u64>, probe_ms: Option<u64>)
    ensures
        received.response matches Response::CompileResult { exit_code, stdout, stderr, cached } ==> (compile_step(
            WrapEvent::Received(RecvEvent::Message(Some(received))),
            endpoint,
            wedge_ms,
            probe_ms,
        ) matches StepView::End(ending) && ending.stdout == stdout@ && ending.stderr == stderr@ && ending.answer == AnswerView::Exit(
            exit_code,
        ) && !ending.kill_daemon && ending.disconnected is None),
{
}

// ── Requests in a session of their own ──────────────────────────────────

/// What an attempt comes to: an answer is what was received, a daemon that lets the time pass that
/// it was given is wedged, and all else that goes wrong is a failure that is noted.
pub proof fn lemma_attempt_outcomes(event: AttemptEvent, endpoint: Seq<char>, wedge_ms: Option<u64>, step: AttemptStep)
    requires
        attempt_goes(event, endpoint, wedge_ms, step),
    ensures
        step matches AttemptStep::End(outcome, note) ==> match outcome {
            CompileRecvOutcome::Done(m) => m is Some && event == AttemptEvent::Received(RecvEvent::Message(m)) && note is None,
            CompileRecvOutcome::Wedged => (event matches AttemptEvent::Received(RecvEvent::TimedOut(_))) && wedge_ms is Some && note
                is None,
            CompileRecvOutcome::Failed(text) => note_view(note) matches Some((cause, detail)) && detail == text@ && (cause
                == DisconnectCause::PipeClosedMidWrite <==> event is SendFailed),
        },
        event is Ensured <==> step is Connect,
        event is Connected <==> step is Send,
        event is Sent <==> step is Receive,
        step matches AttemptStep::Receive(ms) ==> ms == (match wedge_ms {
            Some(w) => w,
            None => 300_000,
        }),
        event matches AttemptEvent::EnsureFailed(e) ==> (step matches AttemptStep::End(outcome, _) && (outcome
            matches CompileRecvOutcome::Failed(text) && text@ == "cannot start daemon at "@ + endpoint + ": "@ + e@)),
        event matches AttemptEvent::ConnectFailed(e) ==> (step matches AttemptStep::End(outcome, _) && (outcome
            matches CompileRecvOutcome::Failed(text) && text@ == "cannot connect to daemon at "@ + endpoint + ": "@ + e@)),
        event matches AttemptEvent::SendFailed(e) ==> (step matches AttemptStep::End(outcome, _) && (outcome
            matches CompileRecvOutcome::Failed(text) && text@ == "failed to send to daemon: "@ + e@)),
{
}

/// How requests end that were tried as often as they may be: what a tool wrote is passed on with its
/// exit code; a wedged daemon is stopped, with a warning, and the tool is run here; and after a
/// failure the tool is run here, with the failure as the reason, and the daemon left alone.
pub proof fn lemma_request_endings(outcome: CompileRecvOutcome, endpoint: Seq<char>)
    ensures
        outcome matches CompileRecvOutcome::Done(Some(received)) ==> (received.response matches Response::CompileResult {
            exit_code,
            stdout,
            stderr,
            cached,
        } ==> compile_end(outcome, endpoint).stdout == stdout@ && compile_end(outcome, endpoint).stderr == stderr@ && compile_end(
            outcome,
            endpoint,
        ).answer == AnswerView::Exit(exit_code)),
        outcome matches CompileRecvOutcome::Done(Some(received)) ==> (received.response matches Response::LinkResult {
            exit_code,
            stdout,
            stderr,
            cached,
            warning,
        } ==> link_end(outcome, endpoint).stdout == stdout@ && stderr@.is_prefix_of(link_end(outcome, endpoint).stderr) && link_end(
            outcome,
            endpoint,
        ).answer == AnswerView::Exit(exit_code)),
        outcome is Wedged ==> stops_daemon(compile_end(outcome, endpoint), endpoint) && stops_daemon(
            link_end(outcome, endpoint),
            endpoint,
        ),
        outcome matches CompileRecvOutcome::Failed(text) ==> runs_here(compile_end(outcome, endpoint), text@) && runs_here(
            link_end(outcome, endpoint),
            text@,
        ),
        compile_end(outcome, endpoint).kill_daemon ==> outcome is Wedged,
        link_end(outcome, endpoint).kill_daemon ==> outcome is Wedged,
{
    lemma_warnings(endpoint);
    if let CompileRecvOutcome::Done(Some(received)) = outcome {
        lemma_link_output_passes(received);
    }
}

/// An attempt is made again exactly after a failure and while attempts are left.
pub proof fn lemma_retries(r: RetryView, outcome: CompileRecvOutcome)
    ensures
        retries(r, outcome) <==> r.used < r.max && (outcome matches CompileRecvOutcome::Failed(_)),
{
}

// ── Runs of the tool ────────────────────────────────────────────────────

/// A tool that is run here gives its own exit code, and 1 where it has none.
pub proof fn lemma_exit_code(event: RunEvent)
    ensures
        event matches RunEvent::Exited(Some(code)) ==> exit_code_of(event) == code,
        !(event matches RunEvent::Exited(Some(_))) ==> exit_code_of(event) == 1,
{
}

/// What is said before a tool is run here names the reason and the tool.
pub proof fn lemma_notice_names_reason_and_tool(reason: Seq<char>, tool: Seq<char>)
    ensures
        ({
            let text = local_notice_text(reason, tool);
            let a = "zccache[warn][F]: "@.len() as int;
            let b = a + reason.len() + "; running "@.len();
            text.subrange(a, a + reason.len()) == reason && text.subrange(b, b + tool.len()) == tool
        }),
{
    let text = local_notice_text(reason, tool);
    let a = "zccache[warn][F]: "@.len() as int;
    let b = a + reason.len() + "; running "@.len();
    assert(text.subrange(a, a + reason.len()) =~= reason);
    assert(text.subrange(b, b + tool.len()) =~= tool);
}

// ── Settings ────────────────────────────────────────────────────────────

/// A number in decimal digits.
pub open spec fn decimal(n: nat) -> Seq<char>
    decreases n,
{
    if n < 10 {
        seq![digit(n)]
    } else {
        decimal(n / 10).push(digit(n % 10))
    }
}

/// A decimal digit.
pub open spec fn digit(d: nat) -> char {
    if d == 0 {
        '0'
    } else if d == 1 {
        '1'
    } else if d == 2 {
        '2'
    } else if d == 3 {
        '3'
    } else if d == 4 {
        '4'
    } else if d == 5 {
        '5'
    } else if d == 6 {
        '6'
    } else if d == 7 {
        '7'
    } else if d == 8 {
        '8'
    } else {
        '9'
    }
}

/// A number is read as it was written.
proof fn lemma_decimal(n: nat)
    ensures
        decimal_value(decimal(n)) == Some(n as int),
        decimal(n).len() > 0,
        forall|i: int| 0 <= i < decimal(n).len() ==> '0' <= #[trigger] decimal(n)[i] <= '9',
    decreases n,
{
    reveal_with_fuel(decimal_value, 2);
    let s = decimal(n);
    if n < 10 {
        assert(s.drop_last().len() == 0);
        assert(digit_value(s.last()) == Some(n as int));
    } else {
        lemma_decimal(n / 10);
        assert(s.drop_last() =~= decimal(n / 10));
        assert(digit_value(s.last()) == Some((n % 10) as int));
        assert forall|i: int| 0 <= i < s.len() implies '0' <= #[trigger] s[i] <= '9' by {
            if i < decimal(n / 10).len() {
                assert(s[i] == decimal(n / 10)[i]);
            }
        }
    }
}

/// A number is read as it was written, a leading plus or not; and one that is too large is none.
pub proof fn lemma_number_reads_back(n: nat)
    ensures
        n <= u64::MAX ==> parsed_u64(decimal(n)) == Some(n as u64) && parsed_u64(seq!['+'] + decimal(n)) == Some(n as u64),
        n > u64::MAX ==> parsed_u64(decimal(n)) is None,
{
    lemma_decimal(n);
    let s = decimal(n);
    assert('0' <= s[0] <= '9');
    let t = seq!['+'] + s;
    assert(t.drop_first() =~= s);
}

/// A text with another character in it is no number.
pub proof fn lemma_no_number(s: Seq<char>, i: int)
    requires
        0 <= i < s.len(),
        !('0' <= s[i] <= '9'),
        i > 0 || s[0] != '+',
    ensures
        parsed_u64(s) is None,
{
    if s[0] == '+' {
        assert(s.drop_first()[i - 1] == s[i]);
        lemma_no_digits(s.drop_first(), i - 1);
    } else {
        lemma_no_digits(s, i);
    }
}

/// The same of digits alone.
proof fn lemma_no_digits(s: Seq<char>, i: int)
    requires
        0 <= i < s.len(),
        !('0' <= s[i] <= '9'),
    ensures
        decimal_value(s) is None,
    decreases s.len(),
{
    if i < s.len() - 1 {
        assert(s.drop_last()[i] == s[i]);
        lemma_no_digits(s.drop_last(), i);
        if s.len() == 1 {
        }
    }
}

/// Among the ASCII characters, white space is what separates words and lines: the space, the tab,
/// the line feed, the vertical tab, the form feed and the carriage return.
pub proof fn lemma_white(c: char)
    ensures
        is_white(' ') && is_white('\t') && is_white('\n') && is_white('\u{b}') && is_white('\u{c}') && is_white('\r'),
        '\u{e}' <= c < ' ' || ' ' < c < '\u{80}' || c < '\t' ==> !is_white(c),
{
}

/// White space around a text is taken away, and nothing else.
pub proof fn lemma_trimmed_around(a: Seq<char>, s: Seq<char>, b: Seq<char>)
    requires
        forall|i: int| 0 <= i < a.len() ==> is_white(#[trigger] a[i]),
        forall|i: int| 0 <= i < b.len() ==> is_white(#[trigger] b[i]),
        s.len() > 0,
        !is_white(s[0]),
        !is_white(s.last()),
    ensures
        trimmed(a + s + b) == s,
{
    lemma_trimmed_front(a, s + b);
    assert((s + b)[0] == s[0]);
    assert(a + s + b =~= a + (s + b));
    lemma_trimmed_back(s, b);
}

/// White space in front is taken away.
proof fn lemma_trimmed_front(a: Seq<char>, t: Seq<char>)
    requires
        forall|i: int| 0 <= i < a.len() ==> is_white(#[trigger] a[i]),
        t.len() > 0 ==> !is_white(t[0]),
    ensures
        trimmed_start(a + t) == t,
    decreases a.len(),
{
    if a.len() == 0 {
        assert(a + t =~= t);
    } else {
        let rest = a.drop_first();
        assert((a + t)[0] == a[0]);
        assert((a + t).drop_first() =~= rest + t);
        assert forall|i: int| 0 <= i < rest.len() implies is_white(#[trigger] rest[i]) by {
            assert(rest[i] == a[i + 1]);
        }
        lemma_trimmed_front(rest, t);
    }
}

/// White space behind is taken away.
proof fn lemma_trimmed_back(s: Seq<char>, b: Seq<char>)
    requires
        forall|i: int| 0 <= i < b.len() ==> is_white(#[trigger] b[i]),
        s.len() > 0,
        !is_white(s.last()),
    ensures
        trimmed_end(s + b) == s,
    decreases b.len(),
{
    if b.len() == 0 {
        assert(s + b =~= s);
    } else {
        let init = b.drop_last();
        assert((s + b).last() == b.last());
        assert(is_white(b[b.len() - 1]));
        assert((s + b).drop_last() =~= s + init);
        assert forall|i: int| 0 <= i < init.len() implies is_white(#[trigger] init[i]) by {
            assert(init[i] == b[i]);
        }
        lemma_trimmed_back(s, init);
    }
}

/// How long a ping may take: three seconds where nothing is said, or nothing that is a number; and
/// as long as a number says, where 0 turns pings off.
pub proof fn lemma_probe_budget(n: u64, text: Seq<char>)
    ensures
        probe_budget(None) == Some(3_000u64),
        probe_budget(Some(decimal(n as nat))) == (if n == 0 {
            None
        } else {
            Some(n)
        }),
        parsed_u64(trimmed(text)) is None ==> probe_budget(Some(text)) == Some(3_000u64),
        parsed_u64(trimmed(text)) == Some(0u64) ==> probe_budget(Some(text)) is None,
{
    lemma_number_reads_back(n as nat);
    lemma_decimal(n as nat);
    let s = decimal(n as nat);
    assert('0' <= s[0] <= '9' && '0' <= s[s.len() - 1] <= '9');
    assert(trimmed(s) == s);
}

} // verus!
