//! The compiler wrapper.

use zccache::wrap::compile::{
    cmd_compile_ephemeral, cmd_link_ephemeral, Answer, AttemptEvent, AttemptStep, CompileRequest,
    DisconnectCause, Ending, EphemeralAttempt, WrapEvent, WrapStep,
};
use zccache::wrap::local::{local_notice, replays_stdin, run_locally, run_passthrough, RunEvent};
use zccache::wrap::relay::{
    relay_compile_response, relay_link_response, Received, Response, LOST_CONNECTION_MSG,
};
use zccache::wrap::transport::{
    classify_probe_outcome, compile_recv_with_wedge_detection, recv_timeout_ms, retry_backoff_ms,
    wedge_probe_budget, CompileRecvOutcome, LinkRetry, ProbeOutcome, RecvEvent, RetryStep,
    WedgeAction, WEDGE_PROBE_DEFAULT_MS,
};

fn received(response: Response, shown: &str) -> Option<Received> {
    Some(Received {
        response,
        shown: shown.to_string(),
    })
}

fn pong() -> Option<Received> {
    received(Response::Pong, "Pong")
}

fn compiled(exit_code: i32, out: &[u8], err: &[u8]) -> Option<Received> {
    received(
        Response::CompileResult {
            exit_code,
            stdout: out.to_vec(),
            stderr: err.to_vec(),
            cached: false,
        },
        "CompileResult",
    )
}

#[test]
fn compile_response_relay_writes_stdout_stderr_and_exit_code() {
    let mut stdout = Vec::new();
    let mut stderr = Vec::new();
    let exit = relay_compile_response(
        &compiled(7, b"compiler-out", b"compiler-err"),
        &mut stdout,
        &mut stderr,
    );
    assert_eq!(exit, Some(7));
    assert_eq!(stdout, b"compiler-out");
    assert_eq!(stderr, b"compiler-err");
}

#[test]
fn compile_relay_reports_a_real_compile_error_as_a_verdict() {
    let mut stdout = Vec::new();
    let mut stderr = Vec::new();
    let exit = relay_compile_response(
        &received(
            Response::CompileResult {
                exit_code: 1,
                stdout: Vec::new(),
                stderr: b"error[E0425]: cannot find value `x`".to_vec(),
                cached: true,
            },
            "CompileResult",
        ),
        &mut stdout,
        &mut stderr,
    );
    assert_eq!(exit, Some(1));
    assert_eq!(stderr, b"error[E0425]: cannot find value `x`");
}

#[test]
fn compile_relay_reports_no_verdict_when_connection_is_lost() {
    let mut stdout = Vec::new();
    let mut stderr = Vec::new();
    let exit = relay_compile_response(&None, &mut stdout, &mut stderr);
    assert_eq!(exit, None);
    assert_eq!(stderr, format!("{LOST_CONNECTION_MSG}\n").into_bytes());
}

#[test]
fn compile_relay_reports_no_verdict_on_daemon_error() {
    let mut stdout = Vec::new();
    let mut stderr = Vec::new();
    let exit = relay_compile_response(
        &received(
            Response::Error {
                message: "internal daemon failure".to_string(),
            },
            "Error",
        ),
        &mut stdout,
        &mut stderr,
    );
    assert_eq!(exit, None, "a daemon-side error is not a compile verdict");
    assert_eq!(
        stderr,
        b"zccache[err][E]: daemon error: internal daemon failure\n"
    );
}

#[test]
fn compile_relay_reports_no_verdict_on_unexpected_response() {
    let mut stdout = Vec::new();
    let mut stderr = Vec::new();
    let exit = relay_compile_response(&pong(), &mut stdout, &mut stderr);
    assert_eq!(exit, None);
    assert_eq!(
        stderr,
        b"zccache[err][U]: unexpected response from daemon: Pong\n"
    );
    // What a linker did says nothing of a compiler, and the other way round.
    let linked = received(
        Response::LinkResult {
            exit_code: 0,
            stdout: Vec::new(),
            stderr: Vec::new(),
            cached: false,
            warning: None,
        },
        "LinkResult",
    );
    assert_eq!(relay_compile_response(&linked, &mut stdout, &mut stderr), None);
    assert_eq!(relay_link_response(&compiled(0, b"", b""), &mut stdout, &mut stderr), None);
}

#[test]
fn link_relay_reports_no_verdict_when_connection_is_lost() {
    let mut stdout = Vec::new();
    let mut stderr = Vec::new();
    let exit = relay_link_response(&None, &mut stdout, &mut stderr);
    assert_eq!(exit, None);
}

#[test]
fn link_response_relay_preserves_warning_after_tool_stderr() {
    let mut stdout = Vec::new();
    let mut stderr = Vec::new();
    let exit = relay_link_response(
        &received(
            Response::LinkResult {
                exit_code: 0,
                stdout: b"link-out".to_vec(),
                stderr: b"link-err\n".to_vec(),
                cached: true,
                warning: Some("non-deterministic archive flags".to_string()),
            },
            "LinkResult",
        ),
        &mut stdout,
        &mut stderr,
    );
    assert_eq!(exit, Some(0));
    assert_eq!(stdout, b"link-out");
    assert_eq!(
        String::from_utf8(stderr).unwrap(),
        "link-err\nzccache warning: non-deterministic archive flags\n"
    );
}

fn is_pong(outcome: &CompileRecvOutcome) -> bool {
    matches!(
        outcome,
        CompileRecvOutcome::Done(Some(Received {
            response: Response::Pong,
            ..
        }))
    )
}

const TEST_BUDGET: Option<u64> = Some(1000);

#[test]
fn wedge_detection_returns_done_on_normal_response() {
    let outcome = compile_recv_with_wedge_detection(RecvEvent::Message(pong()), TEST_BUDGET);
    assert!(is_pong(&outcome));
}

#[test]
fn wedge_detection_returns_wedged_on_recv_timeout() {
    assert_eq!(recv_timeout_ms(TEST_BUDGET), 1000);
    let outcome =
        compile_recv_with_wedge_detection(RecvEvent::TimedOut("1s".to_string()), TEST_BUDGET);
    assert!(matches!(outcome, CompileRecvOutcome::Wedged));
}

#[test]
fn wedge_detection_does_not_misclassify_broken_pipe_as_wedge() {
    let outcome =
        compile_recv_with_wedge_detection(RecvEvent::Broken("closed".to_string()), TEST_BUDGET);
    match outcome {
        CompileRecvOutcome::Failed(text) => {
            assert_eq!(text, "broken connection to daemon: closed")
        }
        other => panic!("expected Failed, got {other:?}"),
    }
}

#[test]
fn a_closed_connection_is_a_failure_and_is_retried() {
    for budget in [TEST_BUDGET, None] {
        let outcome = compile_recv_with_wedge_detection(RecvEvent::Message(None), budget);
        assert!(matches!(outcome, CompileRecvOutcome::Failed(_)));
        let mut retry = LinkRetry::new(1);
        assert!(matches!(retry.link_with_retry(outcome), RetryStep::Recover));
    }
    let mut attempt = EphemeralAttempt::new("sock", TEST_BUDGET);
    attempt.run_ephemeral_attempt(AttemptEvent::Ensured);
    attempt.run_ephemeral_attempt(AttemptEvent::Connected);
    attempt.run_ephemeral_attempt(AttemptEvent::Sent);
    match attempt.run_ephemeral_attempt(AttemptEvent::Received(RecvEvent::Message(None))) {
        AttemptStep::End(CompileRecvOutcome::Failed(text), Some((DisconnectCause::CommError, _))) => {
            assert_eq!(text, "lost connection to daemon")
        }
        other => panic!("expected an end, got {other:?}"),
    }
}

#[test]
fn wedge_detection_disabled_when_budget_is_none() {
    assert_eq!(recv_timeout_ms(None), 300_000);
    let outcome = compile_recv_with_wedge_detection(RecvEvent::TimedOut("300s".to_string()), None);
    assert!(matches!(outcome, CompileRecvOutcome::Failed(_)));
}

/// Runs attempts that come to what `attempt` says; returns how it ended, and how many attempts
/// and recoveries there were.
fn drive(
    max_recoveries: u32,
    mut attempt: impl FnMut(u32) -> CompileRecvOutcome,
) -> (CompileRecvOutcome, u32, u32) {
    let mut retry = LinkRetry::new(max_recoveries);
    let mut attempts = 0;
    let mut recoveries = 0;
    loop {
        attempts += 1;
        match retry.link_with_retry(attempt(attempts)) {
            RetryStep::Recover => recoveries += 1,
            RetryStep::Finish(outcome) => {
                assert_eq!(retry.recoveries_used(), recoveries);
                return (outcome, attempts, recoveries);
            }
        }
    }
}

#[test]
fn link_retry_returns_done_when_first_attempt_succeeds() {
    let (outcome, attempts, recoveries) = drive(1, |_| CompileRecvOutcome::Done(pong()));
    assert!(is_pong(&outcome));
    assert_eq!(attempts, 1);
    assert_eq!(recoveries, 0);
}

#[test]
fn link_retry_recovers_after_one_transport_failure() {
    let (outcome, attempts, recoveries) = drive(1, |n| {
        if n == 1 {
            CompileRecvOutcome::Failed("lost connection to daemon".to_string())
        } else {
            CompileRecvOutcome::Done(pong())
        }
    });
    assert!(is_pong(&outcome));
    assert_eq!(attempts, 2);
    assert_eq!(recoveries, 1);
}

#[test]
fn link_retry_surfaces_failure_after_exhausting_budget() {
    let (outcome, attempts, recoveries) = drive(1, |_| {
        CompileRecvOutcome::Failed("daemon really gone".to_string())
    });
    assert!(matches!(outcome, CompileRecvOutcome::Failed(_)));
    assert_eq!(attempts, 2);
    assert_eq!(recoveries, 1);
}

#[test]
fn link_retry_does_not_retry_on_wedge() {
    let (outcome, attempts, recoveries) = drive(5, |_| CompileRecvOutcome::Wedged);
    assert!(matches!(outcome, CompileRecvOutcome::Wedged));
    assert_eq!(attempts, 1);
    assert_eq!(recoveries, 0);
}

#[test]
fn link_retry_disabled_when_budget_is_zero() {
    let (outcome, attempts, recoveries) =
        drive(0, |_| CompileRecvOutcome::Failed("once".to_string()));
    assert!(matches!(outcome, CompileRecvOutcome::Failed(_)));
    assert_eq!(attempts, 1);
    assert_eq!(recoveries, 0);
}

#[test]
fn classify_probe_outcome_pong_within_budget_means_no_kill() {
    assert_eq!(
        classify_probe_outcome(ProbeOutcome::Answered),
        WedgeAction::DowngradeNoKill
    );
}

#[test]
fn classify_probe_outcome_probe_error_escalates_to_kill() {
    assert_eq!(
        classify_probe_outcome(ProbeOutcome::Failed),
        WedgeAction::EscalateKillProbeError
    );
}

#[test]
fn classify_probe_outcome_probe_timeout_escalates_to_kill() {
    assert_eq!(
        classify_probe_outcome(ProbeOutcome::TimedOut),
        WedgeAction::EscalateKill
    );
}

#[test]
fn wedge_probe_budget_default_is_three_seconds() {
    assert_eq!(
        WEDGE_PROBE_DEFAULT_MS, 3_000,
        "schema commits to 3s default — tooling docs reference this number"
    );
    assert_eq!(wedge_probe_budget(None), Some(3_000));
}

#[test]
fn wedge_probe_budget_reads_its_setting() {
    assert_eq!(wedge_probe_budget(Some("0")), None);
    assert_eq!(wedge_probe_budget(Some(" 250\n")), Some(250));
    assert_eq!(wedge_probe_budget(Some("+7")), Some(7));
    assert_eq!(wedge_probe_budget(Some("")), Some(3_000));
    assert_eq!(wedge_probe_budget(Some("-1")), Some(3_000));
    assert_eq!(wedge_probe_budget(Some("1e3")), Some(3_000));
    assert_eq!(
        wedge_probe_budget(Some("18446744073709551615")),
        Some(u64::MAX)
    );
    assert_eq!(wedge_probe_budget(Some("18446744073709551616")), Some(3_000));
}

#[test]
fn backoff_spreads_between_50_and_250_ms() {
    assert_eq!(retry_backoff_ms(0), 50);
    assert_eq!(retry_backoff_ms(200), 250);
    assert_eq!(retry_backoff_ms(201), 50);
    assert_eq!(retry_backoff_ms(999_999_999), 50 + 999_999_999 % 201);
}

fn request(wedge_ms: Option<u64>, probe_ms: Option<u64>) -> CompileRequest {
    CompileRequest::new("sock", wedge_ms, probe_ms)
}

fn end(step: WrapStep) -> Ending {
    match step {
        WrapStep::End(ending) => ending,
        other => panic!("expected an end, got {other:?}"),
    }
}

fn reason(ending: &Ending) -> &str {
    match &ending.answer {
        Answer::RunLocally(reason) => reason,
        other => panic!("expected a local run, got {other:?}"),
    }
}

/// A request that waits for its answer.
fn sent(wedge_ms: Option<u64>, probe_ms: Option<u64>) -> CompileRequest {
    let mut request = request(wedge_ms, probe_ms);
    assert!(matches!(request.cmd_compile(WrapEvent::Connected), WrapStep::Send));
    match request.cmd_compile(WrapEvent::Sent) {
        WrapStep::Receive(ms) => assert_eq!(ms, recv_timeout_ms(wedge_ms)),
        other => panic!("expected Receive, got {other:?}"),
    }
    request
}

#[test]
fn daemon_unavailable_still_runs_the_compiler() {
    let mut attempt = EphemeralAttempt::new("sock", TEST_BUDGET);
    let step = attempt.run_ephemeral_attempt(AttemptEvent::EnsureFailed("no spawn".to_string()));
    let outcome = match step {
        AttemptStep::End(outcome, Some((DisconnectCause::CommError, detail))) => {
            assert_eq!(detail, "cannot start daemon at sock: no spawn");
            outcome
        }
        other => panic!("expected an end, got {other:?}"),
    };
    let ending = cmd_compile_ephemeral(outcome, "sock");
    assert_eq!(reason(&ending), "cannot start daemon at sock: no spawn");
    assert!(!ending.kill_daemon);
    assert_eq!(run_locally(&RunEvent::Exited(Some(0)), "cc"), (0, None));
}

#[test]
fn daemon_unavailable_preserves_the_tools_exit_code() {
    assert_eq!(run_locally(&RunEvent::Exited(Some(3)), "cc"), (3, None));
    assert_eq!(run_passthrough(&RunEvent::Exited(Some(3)), "cc"), (3, None));
    assert_eq!(run_locally(&RunEvent::Exited(None), "cc"), (1, None));
}

#[test]
fn daemon_unavailable_still_runs_the_compiler_on_the_session_route() {
    let mut request = request(TEST_BUDGET, None);
    let ending = end(request.cmd_compile(WrapEvent::ConnectFailed("refused".to_string())));
    assert_eq!(reason(&ending), "cannot connect to daemon at sock: refused");
    assert!(ending.disconnected.is_none());
}

#[test]
fn daemon_unavailable_replays_piped_stdin_to_the_compiler() {
    assert!(replays_stdin(&[0, 1, 2]));
    assert!(!replays_stdin(&[]));
}

#[test]
fn a_session_request_relays_a_verdict() {
    let mut request = sent(TEST_BUDGET, Some(3_000));
    let ending = end(request.cmd_compile(WrapEvent::Received(RecvEvent::Message(compiled(
        7, b"out", b"err",
    )))));
    assert!(matches!(ending.answer, Answer::Exit(7)));
    assert_eq!(ending.stdout, b"out");
    assert_eq!(ending.stderr, b"err");
    assert!(!ending.kill_daemon);
}

#[test]
fn a_session_request_without_a_verdict_runs_locally() {
    let mut request = sent(TEST_BUDGET, Some(3_000));
    let ending = end(request.cmd_compile(WrapEvent::Received(RecvEvent::Message(pong()))));
    assert_eq!(reason(&ending), "daemon at sock returned no compile verdict");
    assert!(!ending.kill_daemon);

    let mut request = sent(TEST_BUDGET, Some(3_000));
    let ending = end(request.cmd_compile(WrapEvent::Received(RecvEvent::Message(None))));
    assert_eq!(reason(&ending), "lost connection to daemon");
    assert!(matches!(
        ending.disconnected,
        Some((DisconnectCause::CommError, _))
    ));
    assert!(!ending.kill_daemon);

    let mut request = sent(TEST_BUDGET, Some(3_000));
    let ending = end(request.cmd_compile(WrapEvent::Received(RecvEvent::Broken("eof".to_string()))));
    assert_eq!(reason(&ending), "broken connection to daemon: eof");
    assert!(matches!(
        ending.disconnected,
        Some((DisconnectCause::CommError, _))
    ));
    assert!(!ending.kill_daemon);
}

#[test]
fn a_request_that_cannot_be_sent_runs_locally() {
    let mut request = request(TEST_BUDGET, None);
    request.cmd_compile(WrapEvent::Connected);
    let ending = end(request.cmd_compile(WrapEvent::SendFailed("pipe".to_string())));
    assert_eq!(reason(&ending), "failed to send to daemon at sock: pipe");
}

#[test]
fn a_busy_daemon_is_pinged_and_lives() {
    let mut request = sent(TEST_BUDGET, Some(3_000));
    let step = request.cmd_compile(WrapEvent::Received(RecvEvent::TimedOut("1s".to_string())));
    assert!(matches!(step, WrapStep::Probe(3_000)));
    let ending = end(request.cmd_compile(WrapEvent::Probed(ProbeOutcome::Answered)));
    assert!(matches!(ending.answer, Answer::RunEphemeral));
    assert!(!ending.kill_daemon);
}

#[test]
fn a_hung_daemon_is_stopped() {
    for probe in [ProbeOutcome::Failed, ProbeOutcome::TimedOut] {
        let mut request = sent(TEST_BUDGET, Some(3_000));
        request.cmd_compile(WrapEvent::Received(RecvEvent::TimedOut("1s".to_string())));
        let ending = end(request.cmd_compile(WrapEvent::Probed(probe)));
        assert!(ending.kill_daemon);
        assert_eq!(reason(&ending), "daemon at sock was wedged");
        assert_eq!(
            String::from_utf8(ending.stderr).unwrap(),
            "zccache[warn][W]: daemon at sock is wedged (missed wedge budget + failed probe); \
             killing it so the next invocation starts fresh\n"
        );
    }
    // With pings off it is stopped at once.
    let mut request = sent(TEST_BUDGET, None);
    let ending =
        end(request.cmd_compile(WrapEvent::Received(RecvEvent::TimedOut("1s".to_string()))));
    assert!(ending.kill_daemon);
}

#[test]
fn an_attempt_goes_through_its_stages() {
    let mut attempt = EphemeralAttempt::new("sock", None);
    assert!(matches!(
        attempt.run_ephemeral_attempt(AttemptEvent::Ensured),
        AttemptStep::Connect
    ));
    assert!(matches!(
        attempt.run_ephemeral_attempt(AttemptEvent::Connected),
        AttemptStep::Send
    ));
    assert!(matches!(
        attempt.run_ephemeral_attempt(AttemptEvent::Sent),
        AttemptStep::Receive(300_000)
    ));
    match attempt.run_ephemeral_attempt(AttemptEvent::Received(RecvEvent::Message(compiled(
        0, b"", b"",
    )))) {
        AttemptStep::End(outcome, None) => {
            let ending = cmd_compile_ephemeral(outcome, "sock");
            assert!(matches!(ending.answer, Answer::Exit(0)));
        }
        other => panic!("expected an end, got {other:?}"),
    }
}

#[test]
fn an_attempt_tells_why_it_failed() {
    let mut attempt = EphemeralAttempt::new("sock", TEST_BUDGET);
    attempt.run_ephemeral_attempt(AttemptEvent::Ensured);
    match attempt.run_ephemeral_attempt(AttemptEvent::ConnectFailed("no".to_string())) {
        AttemptStep::End(CompileRecvOutcome::Failed(text), Some((DisconnectCause::CommError, _))) => {
            assert_eq!(text, "cannot connect to daemon at sock: no")
        }
        other => panic!("expected an end, got {other:?}"),
    }
    let mut attempt = EphemeralAttempt::new("sock", TEST_BUDGET);
    attempt.run_ephemeral_attempt(AttemptEvent::Ensured);
    attempt.run_ephemeral_attempt(AttemptEvent::Connected);
    match attempt.run_ephemeral_attempt(AttemptEvent::SendFailed("no".to_string())) {
        AttemptStep::End(
            CompileRecvOutcome::Failed(text),
            Some((DisconnectCause::PipeClosedMidWrite, detail)),
        ) => {
            assert_eq!(text, "failed to send to daemon: no");
            assert_eq!(detail, text);
        }
        other => panic!("expected an end, got {other:?}"),
    }
}

#[test]
fn ephemeral_requests_stop_a_wedged_daemon() {
    let compile = cmd_compile_ephemeral(CompileRecvOutcome::Wedged, "sock");
    assert!(compile.kill_daemon);
    assert_eq!(reason(&compile), "daemon at sock was wedged");
    let link = cmd_link_ephemeral(CompileRecvOutcome::Wedged, "sock");
    assert!(link.kill_daemon);
    assert!(String::from_utf8(link.stderr).unwrap().contains("on a Link"));
    let link = cmd_link_ephemeral(CompileRecvOutcome::Done(pong()), "sock");
    assert_eq!(reason(&link), "daemon at sock returned no link verdict");
    let failed = cmd_link_ephemeral(CompileRecvOutcome::Failed("gone".to_string()), "sock");
    assert_eq!(reason(&failed), "gone");
    assert!(!failed.kill_daemon);
}

#[test]
fn local_runs_say_what_went_wrong() {
    assert_eq!(
        local_notice("daemon gone", "cc"),
        "zccache[warn][F]: daemon gone; running cc directly, uncached"
    );
    assert_eq!(
        run_locally(&RunEvent::NotStarted("no such file".to_string()), "cc"),
        (1, Some("zccache[err][F]: failed to run cc: no such file".to_string()))
    );
    assert_eq!(
        run_locally(&RunEvent::NotWaitedFor("lost".to_string()), "cc"),
        (1, Some("zccache[err][F]: failed to wait for cc: lost".to_string()))
    );
    assert_eq!(
        run_passthrough(&RunEvent::NotStarted("no such file".to_string()), "cc"),
        (1, Some("zccache: failed to run cc: no such file".to_string()))
    );
}
