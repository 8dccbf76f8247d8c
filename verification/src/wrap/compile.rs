//! Compile and link requests, from the first connection to the exit code.
//!
//! Each request is a machine: it says what to do next, and is told what that came to.

use vstd::prelude::*;
use super::relay::{
    compile_relay, line, link_relay, put_line, relay_compile_response, relay_link_response, Received, Relayed, Response,
};
use super::transport::{
    broken_text, classify_probe_outcome, closed_text, compile_recv_with_wedge_detection, is_failed, recv_timeout_ms,
    CompileRecvOutcome, ProbeOutcome, RecvEvent, WedgeAction, DEFAULT_CLIENT_RECV_TIMEOUT_MS,
};
use crate::text::{concat2, concat3};

verus! {

// ── How a request ends ──────────────────────────────────────────────────

/// Why the daemon is taken to be gone.
#[derive(Clone, Copy, Debug, PartialEq, Eq, Structural)]
pub enum DisconnectCause {
    /// It could not be reached, or the connection broke.
    CommError,
    /// The connection broke while the request was being written.
    PipeClosedMidWrite,
}

/// What the wrapper answers.
#[derive(Debug)]
pub enum Answer {
    /// The exit code of the tool, as the daemon ran it.
    Exit(i32),
    /// What the tool does when it is run here, for this reason.
    RunLocally(String),
    /// What comes of asking the daemon again, in a session of its own.
    RunEphemeral,
}

/// The last things to do, in this order: write to the two streams, note that the daemon is gone,
/// stop the daemon, answer.
#[derive(Debug)]
pub struct Ending {
    /// To standard output.
    pub stdout: Vec<u8>,
    /// To standard error.
    pub stderr: Vec<u8>,
    /// Why the daemon is taken to be gone, and what is known of it.
    pub disconnected: Option<(DisconnectCause, String)>,
    /// The daemon is to be stopped.
    pub kill_daemon: bool,
    /// The answer.
    pub answer: Answer,
}

/// An answer, by its text.
pub enum AnswerView {
    /// The exit code of the tool.
    Exit(i32),
    /// What the tool does when it is run here.
    RunLocally(Seq<char>),
    /// What comes of asking the daemon again.
    RunEphemeral,
}

/// The last things to do, by their texts.
pub struct EndingView {
    /// To standard output.
    pub stdout: Seq<u8>,
    /// To standard error.
    pub stderr: Seq<u8>,
    /// Why the daemon is taken to be gone.
    pub disconnected: Option<(DisconnectCause, Seq<char>)>,
    /// The daemon is to be stopped.
    pub kill_daemon: bool,
    /// The answer.
    pub answer: AnswerView,
}

impl View for Answer {
    type V = AnswerView;

    open spec fn view(&self) -> AnswerView {
        match *self {
            Answer::Exit(code) => AnswerView::Exit(code),
            Answer::RunLocally(reason) => AnswerView::RunLocally(reason@),
            Answer::RunEphemeral => AnswerView::RunEphemeral,
        }
    }
}

/// A note that the daemon is gone, by its text.
pub open spec fn note_view(note: Option<(DisconnectCause, String)>) -> Option<(DisconnectCause, Seq<char>)> {
    match note {
        Some((cause, detail)) => Some((cause, detail@)),
        None => None,
    }
}

impl View for Ending {
    type V = EndingView;

    open spec fn view(&self) -> EndingView {
        EndingView {
            stdout: self.stdout@,
            stderr: self.stderr@,
            disconnected: note_view(self.disconnected),
            kill_daemon: self.kill_daemon,
            answer: self.answer@,
        }
    }
}

/// Running the tool here, with nothing to say and nothing to stop.
pub open spec fn locally(reason: Seq<char>) -> EndingView {
    EndingView {
        stdout: Seq::empty(),
        stderr: Seq::empty(),
        disconnected: None,
        kill_daemon: false,
        answer: AnswerView::RunLocally(reason),
    }
}

/// Passing on an answer; and running the tool here where the answer has no exit code.
pub open spec fn relayed(r: Relayed, reason: Seq<char>) -> EndingView {
    EndingView {
        stdout: r.stdout,
        stderr: r.stderr,
        disconnected: None,
        kill_daemon: false,
        answer: match r.code {
            Some(code) => AnswerView::Exit(code),
            None => AnswerView::RunLocally(reason),
        },
    }
}

/// Stopping a daemon that hangs, with a warning, and running the tool here.
pub open spec fn killed(endpoint: Seq<char>, warning: Seq<char>) -> EndingView {
    EndingView {
        stderr: line(warning),
        kill_daemon: true,
        ..locally("daemon at "@ + endpoint + " was wedged"@)
    }
}

/// Runs the tool here, with nothing to say and nothing to stop.
fn end_locally(reason: String) -> (ending: Ending)
    ensures
        ending@ == locally(reason@),
{
    let ending = Ending {
        stdout: Vec::new(),
        stderr: Vec::new(),
        disconnected: None,
        kill_daemon: false,
        answer: Answer::RunLocally(reason),
    };
    assert(ending.stdout@ =~= Seq::<u8>::empty());
    assert(ending.stderr@ =~= Seq::<u8>::empty());
    ending
}

/// Stops the daemon, with a warning, and runs the tool here.
fn end_killed(endpoint: &str, warning: &str) -> (ending: Ending)
    ensures
        ending@ == killed(endpoint@, warning@),
{
    let mut ending = end_locally(concat3("daemon at ", endpoint, " was wedged"));
    put_line(&mut ending.stderr, warning);
    ending.kill_daemon = true;
    assert(ending.stderr@ =~= line(warning@));
    ending
}

/// Passes on an answer that was already written out.
fn end_relayed(stdout: Vec<u8>, stderr: Vec<u8>, code: Option<i32>, reason: String) -> (ending: Ending)
    ensures
        ending@ == relayed((Relayed { stdout: stdout@, stderr: stderr@, code }), reason@),
{
    let answer = match code {
        Some(c) => Answer::Exit(c),
        None => Answer::RunLocally(reason),
    };
    Ending { stdout, stderr, disconnected: None, kill_daemon: false, answer }
}

/// Passes on the answer to a compile request.
fn end_compile_relayed(received: &Option<Received>, endpoint: &str) -> (ending: Ending)
    ensures
        ending@ == relayed(compile_relay(*received), "daemon at "@ + endpoint@ + " returned no compile verdict"@),
{
    let mut stdout: Vec<u8> = Vec::new();
    let mut stderr: Vec<u8> = Vec::new();
    let code = relay_compile_response(received, &mut stdout, &mut stderr);
    assert(stdout@ =~= compile_relay(*received).stdout);
    assert(stderr@ =~= compile_relay(*received).stderr);
    end_relayed(stdout, stderr, code, concat3("daemon at ", endpoint, " returned no compile verdict"))
}

/// Passes on the answer to a link request.
fn end_link_relayed(received: &Option<Received>, endpoint: &str) -> (ending: Ending)
    ensures
        ending@ == relayed(link_relay(*received), "daemon at "@ + endpoint@ + " returned no link verdict"@),
{
    let mut stdout: Vec<u8> = Vec::new();
    let mut stderr: Vec<u8> = Vec::new();
    let code = relay_link_response(received, &mut stdout, &mut stderr);
    assert(stdout@ =~= link_relay(*received).stdout);
    assert(stderr@ =~= link_relay(*received).stderr);
    end_relayed(stdout, stderr, code, concat3("daemon at ", endpoint, " returned no link verdict"))
}

// ── A compile request in a session ──────────────────────────────────────

/// What a compile request waits for.
#[derive(Clone, Copy, Debug, PartialEq, Eq, Structural)]
pub enum WrapState {
    /// A connection.
    Connecting,
    /// The request to be sent.
    Sending,
    /// The answer.
    Receiving,
    /// The answer to a ping.
    Probing,
}

/// What that came to.
#[derive(Debug)]
pub enum WrapEvent {
    /// There is a connection.
    Connected,
    /// There is none; the error says why.
    ConnectFailed(String),
    /// The request was sent.
    Sent,
    /// It was not; the error says why.
    SendFailed(String),
    /// Waiting for the answer came to this.
    Received(RecvEvent),
    /// The ping came to this.
    Probed(ProbeOutcome),
}

/// What to do next.
#[derive(Debug)]
pub enum WrapStep {
    /// Send the request.
    Send,
    /// Wait for the answer, so many milliseconds at most.
    Receive(u64),
    /// Ping the daemon on a new connection, so many milliseconds at most.
    Probe(u64),
    /// Finish.
    End(Ending),
}

/// What to do next, by its texts.
pub enum StepView {
    /// Send the request.
    Send,
    /// Wait for the answer.
    Receive(u64),
    /// Ping the daemon.
    Probe(u64),
    /// Finish.
    End(EndingView),
}

impl View for WrapStep {
    type V = StepView;

    open spec fn view(&self) -> StepView {
        match *self {
            WrapStep::Send => StepView::Send,
            WrapStep::Receive(ms) => StepView::Receive(ms),
            WrapStep::Probe(ms) => StepView::Probe(ms),
            WrapStep::End(ending) => StepView::End(ending@),
        }
    }
}

/// Whether the event is one that is waited for.
pub open spec fn fits(state: WrapState, event: WrapEvent) -> bool {
    match state {
        WrapState::Connecting => event is Connected || event is ConnectFailed,
        WrapState::Sending => event is Sent || event is SendFailed,
        WrapState::Receiving => event is Received,
        WrapState::Probing => event is Probed,
    }
}

/// The warning about a daemon that is only busy.
pub open spec fn busy_warning(endpoint: Seq<char>) -> Seq<char> {
    "zccache[warn][W]: daemon at "@ + endpoint
        + " answered probe within budget but missed the per-request wedge budget — burst load, not a hung daemon. Recovering via ephemeral without killing — issue #753"@
}

/// The warning about a daemon that hangs.
pub open spec fn wedged_warning(endpoint: Seq<char>) -> Seq<char> {
    "zccache[warn][W]: daemon at "@ + endpoint
        + " is wedged (missed wedge budget + failed probe); killing it so the next invocation starts fresh"@
}

/// The time given to the daemon, in milliseconds.
pub open spec fn timeout_of(budget: Option<u64>) -> u64 {
    match budget {
        Some(b) => b,
        None => DEFAULT_CLIENT_RECV_TIMEOUT_MS,
    }
}

/// What follows a broken connection: it is noted, and the tool is run here.
pub open spec fn after_failure(text: Seq<char>) -> EndingView {
    EndingView { disconnected: Some((DisconnectCause::CommError, text)), ..locally(text) }
}

/// What follows waiting for an answer. A daemon that lets its time pass is pinged before it is
/// stopped, unless pings are off.
pub open spec fn after_receiving(event: RecvEvent, endpoint: Seq<char>, wedge_ms: Option<u64>, probe_ms: Option<u64>) -> StepView {
    match event {
        RecvEvent::Message(m) => if m is Some {
            StepView::End(relayed(compile_relay(m), "daemon at "@ + endpoint + " returned no compile verdict"@))
        } else {
            StepView::End(after_failure(closed_text()))
        },
        RecvEvent::TimedOut(e) => if wedge_ms is Some {
            match probe_ms {
                Some(ms) => StepView::Probe(ms),
                None => StepView::End(killed(endpoint, wedged_warning(endpoint))),
            }
        } else {
            StepView::End(after_failure(broken_text(e@)))
        },
        RecvEvent::Broken(e) => StepView::End(after_failure(broken_text(e@))),
    }
}

/// What follows a ping. One that is answered tells a busy daemon from a hung one.
pub open spec fn after_probing(probe: ProbeOutcome, endpoint: Seq<char>) -> StepView {
    match probe {
        ProbeOutcome::Answered => StepView::End(
            EndingView {
                stdout: Seq::empty(),
                stderr: line(busy_warning(endpoint)),
                disconnected: None,
                kill_daemon: false,
                answer: AnswerView::RunEphemeral,
            },
        ),
        _ => StepView::End(killed(endpoint, wedged_warning(endpoint))),
    }
}

/// What follows an event.
pub open spec fn compile_step(event: WrapEvent, endpoint: Seq<char>, wedge_ms: Option<u64>, probe_ms: Option<u64>) -> StepView {
    match event {
        WrapEvent::Connected => StepView::Send,
        WrapEvent::ConnectFailed(e) => StepView::End(
            locally("cannot connect to daemon at "@ + endpoint + ": "@ + e@),
        ),
        WrapEvent::Sent => StepView::Receive(timeout_of(wedge_ms)),
        WrapEvent::SendFailed(e) => StepView::End(locally("failed to send to daemon at "@ + endpoint + ": "@ + e@)),
        WrapEvent::Received(r) => after_receiving(r, endpoint, wedge_ms, probe_ms),
        WrapEvent::Probed(p) => after_probing(p, endpoint),
    }
}

/// What is waited for after a step.
pub open spec fn state_after(state: WrapState, step: StepView) -> WrapState {
    match step {
        StepView::Send => WrapState::Sending,
        StepView::Receive(_) => WrapState::Receiving,
        StepView::Probe(_) => WrapState::Probing,
        StepView::End(_) => state,
    }
}

/// A compile request in a session.
#[derive(Debug)]
pub struct CompileRequest {
    state: WrapState,
    endpoint: String,
    wedge_ms: Option<u64>,
    probe_ms: Option<u64>,
}

/// A compile request, by its texts.
pub struct CompileRequestView {
    /// What it waits for.
    pub state: WrapState,
    /// Where the daemon is.
    pub endpoint: Seq<char>,
    /// The time given to the daemon, where it is watched.
    pub wedge_ms: Option<u64>,
    /// The time given to a ping, where pings are on.
    pub probe_ms: Option<u64>,
}

impl View for CompileRequest {
    type V = CompileRequestView;

    closed spec fn view(&self) -> CompileRequestView {
        CompileRequestView {
            state: self.state,
            endpoint: self.endpoint@,
            wedge_ms: self.wedge_ms,
            probe_ms: self.probe_ms,
        }
    }
}

impl CompileRequest {
    /// A request to the daemon at `endpoint`; the first thing to do is to connect.
    pub fn new(endpoint: &str, wedge_ms: Option<u64>, probe_ms: Option<u64>) -> (request: CompileRequest)
        ensures
            request@ == (CompileRequestView {
                state: WrapState::Connecting,
                endpoint: endpoint@,
                wedge_ms,
                probe_ms,
            }),
    {
        CompileRequest { state: WrapState::Connecting, endpoint: endpoint.to_owned(), wedge_ms, probe_ms }
    }

    /// What follows the event that was waited for.
    pub fn cmd_compile(&mut self, event: WrapEvent) -> (step: WrapStep)
        requires
            fits(old(self)@.state, event),
        ensures
            step@ == compile_step(event, old(self)@.endpoint, old(self)@.wedge_ms, old(self)@.probe_ms),
            final(self)@ == (CompileRequestView { state: state_after(old(self)@.state, step@), ..old(self)@ }),
    {
        let endpoint = self.endpoint.as_str();
        match event {
            WrapEvent::Connected => {
                self.state = WrapState::Sending;
                WrapStep::Send
            },
            WrapEvent::ConnectFailed(e) => {
                let front = concat3("cannot connect to daemon at ", endpoint, ": ");
                WrapStep::End(end_locally(concat2(front.as_str(), e.as_str())))
            },
            WrapEvent::Sent => {
                self.state = WrapState::Receiving;
                WrapStep::Receive(recv_timeout_ms(self.wedge_ms))
            },
            WrapEvent::SendFailed(e) => {
                let front = concat3("failed to send to daemon at ", endpoint, ": ");
                WrapStep::End(end_locally(concat2(front.as_str(), e.as_str())))
            },
            WrapEvent::Received(r) => match compile_recv_with_wedge_detection(r, self.wedge_ms) {
                CompileRecvOutcome::Done(received) => WrapStep::End(end_compile_relayed(&received, endpoint)),
                CompileRecvOutcome::Wedged => match self.probe_ms {
                    Some(ms) => {
                        self.state = WrapState::Probing;
                        WrapStep::Probe(ms)
                    },
                    None => WrapStep::End(end_wedged(endpoint)),
                },
                CompileRecvOutcome::Failed(text) => {
                    let mut ending = end_locally(text.clone());
                    ending.disconnected = Some((DisconnectCause::CommError, text));
                    WrapStep::End(ending)
                },
            },
            WrapEvent::Probed(p) => match classify_probe_outcome(p) {
                WedgeAction::DowngradeNoKill => {
                    let warning = concat3(
                        "zccache[warn][W]: daemon at ",
                        endpoint,
                        " answered probe within budget but missed the per-request wedge budget — burst load, not a hung daemon. Recovering via ephemeral without killing — issue #753",
                    );
                    let mut stderr: Vec<u8> = Vec::new();
                    put_line(&mut stderr, warning.as_str());
                    let ending = Ending {
                        stdout: Vec::new(),
                        stderr,
                        disconnected: None,
                        kill_daemon: false,
                        answer: Answer::RunEphemeral,
                    };
                    assert(ending.stdout@ =~= Seq::<u8>::empty());
                    assert(ending.stderr@ =~= line(busy_warning(endpoint@)));
                    WrapStep::End(ending)
                },
                WedgeAction::EscalateKill => WrapStep::End(end_wedged(endpoint)),
                WedgeAction::EscalateKillProbeError => WrapStep::End(end_wedged(endpoint)),
            },
        }
    }
}

/// Stops a daemon that hangs, and runs the tool here.
fn end_wedged(endpoint: &str) -> (ending: Ending)
    ensures
        ending@ == killed(endpoint@, wedged_warning(endpoint@)),
{
    let warning = concat3(
        "zccache[warn][W]: daemon at ",
        endpoint,
        " is wedged (missed wedge budget + failed probe); killing it so the next invocation starts fresh",
    );
    end_killed(endpoint, warning.as_str())
}

// ── Requests in a session of their own ──────────────────────────────────

/// What an attempt waits for.
#[derive(Clone, Copy, Debug, PartialEq, Eq, Structural)]
pub enum AttemptState {
    /// A daemon that runs.
    Ensuring,
    /// A connection.
    Connecting,
    /// The request to be sent.
    Sending,
    /// The answer.
    Receiving,
}

/// What that came to.
#[derive(Debug)]
pub enum AttemptEvent {
    /// A daemon runs.
    Ensured,
    /// None could be started; the error says why.
    EnsureFailed(String),
    /// There is a connection.
    Connected,
    /// There is none; the error says why.
    ConnectFailed(String),
    /// The request was sent.
    Sent,
    /// It was not; the error says why.
    SendFailed(String),
    /// Waiting for the answer came to this.
    Received(RecvEvent),
}

/// What to do next.
#[derive(Debug)]
pub enum AttemptStep {
    /// Connect.
    Connect,
    /// Send the request.
    Send,
    /// Wait for the answer, so many milliseconds at most.
    Receive(u64),
    /// The attempt came to this; and where the daemon is taken to be gone, it is to be noted.
    End(CompileRecvOutcome, Option<(DisconnectCause, String)>),
}

/// Whether the event is one that is waited for.
pub open spec fn attempt_fits(state: AttemptState, event: AttemptEvent) -> bool {
    match state {
        AttemptState::Ensuring => event is Ensured || event is EnsureFailed,
        AttemptState::Connecting => event is Connected || event is ConnectFailed,
        AttemptState::Sending => event is Sent || event is SendFailed,
        AttemptState::Receiving => event is Received,
    }
}

/// Whether the attempt ended in a broken connection, said and noted in these words.
pub open spec fn attempt_failed(step: AttemptStep, cause: DisconnectCause, text: Seq<char>) -> bool {
    step matches AttemptStep::End(outcome, note) && is_failed(outcome, text) && note_view(note) == Some((cause, text))
}

/// Whether `step` is what follows an event.
pub open spec fn attempt_goes(event: AttemptEvent, endpoint: Seq<char>, wedge_ms: Option<u64>, step: AttemptStep) -> bool {
    match event {
        AttemptEvent::Ensured => step == AttemptStep::Connect,
        AttemptEvent::EnsureFailed(e) => attempt_failed(
            step,
            DisconnectCause::CommError,
            "cannot start daemon at "@ + endpoint + ": "@ + e@,
        ),
        AttemptEvent::Connected => step == AttemptStep::Send,
        AttemptEvent::ConnectFailed(e) => attempt_failed(
            step,
            DisconnectCause::CommError,
            "cannot connect to daemon at "@ + endpoint + ": "@ + e@,
        ),
        AttemptEvent::Sent => step == AttemptStep::Receive(timeout_of(wedge_ms)),
        AttemptEvent::SendFailed(e) => attempt_failed(
            step,
            DisconnectCause::PipeClosedMidWrite,
            "failed to send to daemon: "@ + e@,
        ),
        AttemptEvent::Received(RecvEvent::Message(m)) => if m is Some {
            step == AttemptStep::End(CompileRecvOutcome::Done(m), None)
        } else {
            attempt_failed(step, DisconnectCause::CommError, closed_text())
        },
        AttemptEvent::Received(RecvEvent::TimedOut(e)) => if wedge_ms is Some {
            step == AttemptStep::End(CompileRecvOutcome::Wedged, None)
        } else {
            attempt_failed(step, DisconnectCause::CommError, broken_text(e@))
        },
        AttemptEvent::Received(RecvEvent::Broken(e)) => attempt_failed(
            step,
            DisconnectCause::CommError,
            broken_text(e@),
        ),
    }
}

/// The end of an attempt in a broken connection.
fn failed_with_disconnect_event(cause: DisconnectCause, text: String) -> (step: AttemptStep)
    ensures
        attempt_failed(step, cause, text@),
{
    AttemptStep::End(CompileRecvOutcome::Failed(text.clone()), Some((cause, text)))
}

/// One attempt at a request in a session of its own.
#[derive(Debug)]
pub struct EphemeralAttempt {
    state: AttemptState,
    endpoint: String,
    wedge_ms: Option<u64>,
}

impl EphemeralAttempt {
    /// What it waits for.
    pub closed spec fn state(&self) -> AttemptState {
        self.state
    }

    /// Where the daemon is.
    pub closed spec fn endpoint(&self) -> Seq<char> {
        self.endpoint@
    }

    /// The time given to the daemon, where it is watched.
    pub closed spec fn wedge_ms(&self) -> Option<u64> {
        self.wedge_ms
    }

    /// An attempt at the daemon at `endpoint`; the first thing to do is to see that one runs.
    pub fn new(endpoint: &str, wedge_ms: Option<u64>) -> (attempt: EphemeralAttempt)
        ensures
            attempt.state() == AttemptState::Ensuring,
            attempt.endpoint() == endpoint@,
            attempt.wedge_ms() == wedge_ms,
    {
        EphemeralAttempt { state: AttemptState::Ensuring, endpoint: endpoint.to_owned(), wedge_ms }
    }

    /// What follows the event that was waited for.
    pub fn run_ephemeral_attempt(&mut self, event: AttemptEvent) -> (step: AttemptStep)
        requires
            attempt_fits(old(self).state(), event),
        ensures
            attempt_goes(event, old(self).endpoint(), old(self).wedge_ms(), step),
            final(self).endpoint() == old(self).endpoint(),
            final(self).wedge_ms() == old(self).wedge_ms(),
            final(self).state() == (match step {
                AttemptStep::Connect => AttemptState::Connecting,
                AttemptStep::Send => AttemptState::Sending,
                AttemptStep::Receive(_) => AttemptState::Receiving,
                AttemptStep::End(_, _) => old(self).state(),
            }),
    {
        let endpoint = self.endpoint.as_str();
        match event {
            AttemptEvent::Ensured => {
                self.state = AttemptState::Connecting;
                AttemptStep::Connect
            },
            AttemptEvent::EnsureFailed(e) => {
                let front = concat3("cannot start daemon at ", endpoint, ": ");
                failed_with_disconnect_event(DisconnectCause::CommError, concat2(front.as_str(), e.as_str()))
            },
            AttemptEvent::Connected => {
                self.state = AttemptState::Sending;
                AttemptStep::Send
            },
            AttemptEvent::ConnectFailed(e) => {
                let front = concat3("cannot connect to daemon at ", endpoint, ": ");
                failed_with_disconnect_event(DisconnectCause::CommError, concat2(front.as_str(), e.as_str()))
            },
            AttemptEvent::Sent => {
                self.state = AttemptState::Receiving;
                AttemptStep::Receive(recv_timeout_ms(self.wedge_ms))
            },
            AttemptEvent::SendFailed(e) => failed_with_disconnect_event(
                DisconnectCause::PipeClosedMidWrite,
                concat2("failed to send to daemon: ", e.as_str()),
            ),
            AttemptEvent::Received(r) => match compile_recv_with_wedge_detection(r, self.wedge_ms) {
                CompileRecvOutcome::Done(m) => AttemptStep::End(CompileRecvOutcome::Done(m), None),
                CompileRecvOutcome::Wedged => AttemptStep::End(CompileRecvOutcome::Wedged, None),
                CompileRecvOutcome::Failed(text) => failed_with_disconnect_event(DisconnectCause::CommError, text),
            },
        }
    }
}

/// The warning about a daemon that did not answer a compile request.
pub open spec fn compile_wedged_warning(endpoint: Seq<char>) -> Seq<char> {
    "zccache[warn][W]: daemon at "@ + endpoint
        + " stopped responding within the wedge budget; killing it so the next compile starts fresh — issue #666"@
}

/// The warning about a daemon that did not answer a link request.
pub open spec fn link_wedged_warning(endpoint: Seq<char>) -> Seq<char> {
    "zccache[warn][W]: daemon at "@ + endpoint
        + " stopped responding within the wedge budget on a Link; killing it so the next request starts fresh — issue #666"@
}

/// How a compile request ends that was tried as often as it may be.
pub open spec fn compile_end(outcome: CompileRecvOutcome, endpoint: Seq<char>) -> EndingView {
    match outcome {
        CompileRecvOutcome::Done(m) => relayed(
            compile_relay(m),
            "daemon at "@ + endpoint + " returned no compile verdict"@,
        ),
        CompileRecvOutcome::Wedged => killed(endpoint, compile_wedged_warning(endpoint)),
        CompileRecvOutcome::Failed(text) => locally(text@),
    }
}

/// How a link request ends that was tried as often as it may be.
pub open spec fn link_end(outcome: CompileRecvOutcome, endpoint: Seq<char>) -> EndingView {
    match outcome {
        CompileRecvOutcome::Done(m) => relayed(link_relay(m), "daemon at "@ + endpoint + " returned no link verdict"@),
        CompileRecvOutcome::Wedged => killed(endpoint, link_wedged_warning(endpoint)),
        CompileRecvOutcome::Failed(text) => locally(text@),
    }
}

/// Ends a compile request that was tried as often as it may be.
pub fn cmd_compile_ephemeral(outcome: CompileRecvOutcome, endpoint: &str) -> (ending: Ending)
    ensures
        ending@ == compile_end(outcome, endpoint@),
{
    match outcome {
        CompileRecvOutcome::Done(received) => end_compile_relayed(&received, endpoint),
        CompileRecvOutcome::Wedged => {
            let warning = concat3(
                "zccache[warn][W]: daemon at ",
                endpoint,
                " stopped responding within the wedge budget; killing it so the next compile starts fresh — issue #666",
            );
            end_killed(endpoint, warning.as_str())
        },
        CompileRecvOutcome::Failed(text) => end_locally(text),
    }
}

/// Ends a link request that was tried as often as it may be.
pub fn cmd_link_ephemeral(outcome: CompileRecvOutcome, endpoint: &str) -> (ending: Ending)
    ensures
        ending@ == link_end(outcome, endpoint@),
{
    match outcome {
        CompileRecvOutcome::Done(received) => end_link_relayed(&received, endpoint),
        CompileRecvOutcome::Wedged => {
            let warning = concat3(
                "zccache[warn][W]: daemon at ",
                endpoint,
                " stopped responding within the wedge budget on a Link; killing it so the next request starts fresh — issue #666",
            );
            end_killed(endpoint, warning.as_str())
        },
        CompileRecvOutcome::Failed(text) => end_locally(text),
    }
}

// ── Laws ────────────────────────────────────────────────────────────────

/// Whether the daemon reported that a compiler ended with this code.
pub open spec fn compiler_said(received: Option<Received>, code: i32) -> bool {
    received matches Some(r) && (r.response matches Response::CompileResult { exit_code, .. } && exit_code == code)
}

/// Whether the daemon reported that a linker or archiver ended with this code.
pub open spec fn linker_said(received: Option<Received>, code: i32) -> bool {
    received matches Some(r) && (r.response matches Response::LinkResult { exit_code, .. } && exit_code == code)
}

/// In a session the wrapper exits with a code only where the daemon reported that the compiler
/// ended with it; whatever else ends the request, a compiler is run, here or by the daemon.
pub proof fn lemma_session_reports_only_verdicts(
    event: WrapEvent,
    endpoint: Seq<char>,
    wedge_ms: Option<u64>,
    probe_ms: Option<u64>,
)
    ensures
        compile_step(event, endpoint, wedge_ms, probe_ms) matches StepView::End(ending) ==> match ending.answer {
            AnswerView::Exit(code) => event matches WrapEvent::Received(RecvEvent::Message(m)) && compiler_said(m, code),
            AnswerView::RunLocally(_) => true,
            AnswerView::RunEphemeral => !ending.kill_daemon,
        },
{
}

/// A verdict of the compiler, a failure too, is reported as it is and nothing is run again.
pub proof fn lemma_session_keeps_verdicts(
    m: Option<Received>,
    code: i32,
    endpoint: Seq<char>,
    wedge_ms: Option<u64>,
    probe_ms: Option<u64>,
)
    requires
        compiler_said(m, code),
    ensures
        compile_step(WrapEvent::Received(RecvEvent::Message(m)), endpoint, wedge_ms, probe_ms) matches StepView::End(
            ending,
        ) && ending.answer == AnswerView::Exit(code),
{
}

/// Outside a session too, the wrapper exits with a code exactly where the daemon reported it, and
/// else runs the tool here.
pub proof fn lemma_ephemeral_reports_only_verdicts(outcome: CompileRecvOutcome, endpoint: Seq<char>)
    ensures
        match compile_end(outcome, endpoint).answer {
            AnswerView::Exit(code) => outcome matches CompileRecvOutcome::Done(m) && compiler_said(m, code),
            AnswerView::RunLocally(_) => !(outcome matches CompileRecvOutcome::Done(m) && exists|code: i32|
                compiler_said(m, code)),
            AnswerView::RunEphemeral => false,
        },
        match link_end(outcome, endpoint).answer {
            AnswerView::Exit(code) => outcome matches CompileRecvOutcome::Done(m) && linker_said(m, code),
            AnswerView::RunLocally(_) => !(outcome matches CompileRecvOutcome::Done(m) && exists|code: i32|
                linker_said(m, code)),
            AnswerView::RunEphemeral => false,
        },
{
}

/// In a session a daemon is stopped only where it let its time pass and then failed a ping, or
/// pings are off; one that answers the ping is left alone.
pub proof fn lemma_busy_daemon_lives(event: WrapEvent, endpoint: Seq<char>, wedge_ms: Option<u64>, probe_ms: Option<u64>)
    ensures
        compile_step(event, endpoint, wedge_ms, probe_ms) matches StepView::End(ending) && ending.kill_daemon ==> (
        event matches WrapEvent::Probed(p) && p != ProbeOutcome::Answered) || (event matches WrapEvent::Received(
            RecvEvent::TimedOut(_),
        ) && wedge_ms is Some && probe_ms is None),
        compile_step(WrapEvent::Probed(ProbeOutcome::Answered), endpoint, wedge_ms, probe_ms) matches StepView::End(
            ending,
        ) && !ending.kill_daemon && ending.answer == AnswerView::RunEphemeral,
{
}

/// How many steps a request has left at most.
pub open spec fn steps_left(state: WrapState) -> nat {
    match state {
        WrapState::Connecting => 3,
        WrapState::Sending => 2,
        WrapState::Receiving => 1,
        WrapState::Probing => 0,
    }
}

/// A request ends: every step ends it or brings it nearer to its end.
pub proof fn lemma_request_ends(
    state: WrapState,
    event: WrapEvent,
    endpoint: Seq<char>,
    wedge_ms: Option<u64>,
    probe_ms: Option<u64>,
)
    requires
        fits(state, event),
    ensures
        ({
            let step = compile_step(event, endpoint, wedge_ms, probe_ms);
            step is End || steps_left(state_after(state, step)) < steps_left(state)
        }),
{
}

} // verus!
