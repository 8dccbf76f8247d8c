//! Passing on what the daemon answered.

use vstd::prelude::*;
use crate::hash::put_text;
use crate::text::concat2;
use vstd::utf8::encode_utf8;

verus! {

/// What is said when the daemon went away without an answer.
pub const LOST_CONNECTION_MSG: &'static str = "zccache[err][L]: lost connection to daemon";

/// An answer of the daemon.
#[derive(Debug)]
pub enum Response {
    /// A compiler was run, now or before.
    CompileResult {
        /// Its exit code.
        exit_code: i32,
        /// What it wrote to standard output.
        stdout: Vec<u8>,
        /// What it wrote to standard error.
        stderr: Vec<u8>,
        /// It was run before.
        cached: bool,
    },
    /// A linker or archiver was run, now or before.
    LinkResult {
        /// Its exit code.
        exit_code: i32,
        /// What it wrote to standard output.
        stdout: Vec<u8>,
        /// What it wrote to standard error.
        stderr: Vec<u8>,
        /// It was run before.
        cached: bool,
        /// Something the user should know.
        warning: Option<String>,
    },
    /// The daemon failed.
    Error {
        /// What it says of it.
        message: String,
    },
    /// The answer to a ping.
    Pong,
    /// Any other message.
    Other,
}

/// A message that came in, and how it is shown where it was not expected.
#[derive(Debug)]
pub struct Received {
    /// The message.
    pub response: Response,
    /// How it is shown.
    pub shown: String,
}

/// What passing on an answer comes to: what is written, and the exit code where there is one.
pub struct Relayed {
    /// To standard output.
    pub stdout: Seq<u8>,
    /// To standard error.
    pub stderr: Seq<u8>,
    /// The exit code; `None` where no tool was run.
    pub code: Option<i32>,
}

/// A line of text, in bytes.
pub open spec fn line(text: Seq<char>) -> Seq<u8> {
    encode_utf8(text) + encode_utf8("\n"@)
}

/// What is made of an answer that says nothing of a tool.
pub open spec fn no_verdict(received: Option<Received>) -> Relayed {
    Relayed {
        stdout: Seq::empty(),
        stderr: match received {
            Some(r) => match r.response {
                Response::Error { message } => line("zccache[err][E]: daemon error: "@ + message@),
                _ => line("zccache[err][U]: unexpected response from daemon: "@ + r.shown@),
            },
            None => line(LOST_CONNECTION_MSG@),
        },
        code: None,
    }
}

/// What is made of the answer to a compile request.
pub open spec fn compile_relay(received: Option<Received>) -> Relayed {
    match received {
        Some(r) => match r.response {
            Response::CompileResult { exit_code, stdout, stderr, cached: _ } => Relayed {
                stdout: stdout@,
                stderr: stderr@,
                code: Some(exit_code),
            },
            _ => no_verdict(received),
        },
        None => no_verdict(received),
    }
}

/// What is made of the answer to a link request.
pub open spec fn link_relay(received: Option<Received>) -> Relayed {
    match received {
        Some(r) => match r.response {
            Response::LinkResult { exit_code, stdout, stderr, cached: _, warning } => Relayed {
                stdout: stdout@,
                stderr: match warning {
                    Some(w) => stderr@ + line("zccache warning: "@ + w@),
                    None => stderr@,
                },
                code: Some(exit_code),
            },
            _ => no_verdict(received),
        },
        None => no_verdict(received),
    }
}

/// Appends a line.
pub fn put_line(out: &mut Vec<u8>, text: &str)
    ensures
        final(out)@ == old(out)@ + line(text@),
{
    put_text(out, text);
    put_text(out, "\n");
    assert(out@ =~= old(out)@ + line(text@));
}

/// Says what came in place of a verdict.
fn put_no_verdict(received: &Option<Received>, stderr: &mut Vec<u8>)
    ensures
        final(stderr)@ == old(stderr)@ + no_verdict(*received).stderr,
{
    match received {
        Some(r) => match &r.response {
            Response::Error { message } => {
                let text = concat2("zccache[err][E]: daemon error: ", message.as_str());
                put_line(stderr, text.as_str());
            },
            _ => {
                let text = concat2("zccache[err][U]: unexpected response from daemon: ", r.shown.as_str());
                put_line(stderr, text.as_str());
            },
        },
        None => {
            put_line(stderr, LOST_CONNECTION_MSG);
        },
    }
}

/// Passes on the answer to a compile request. The exit code is the compiler's own; `None` means
/// that no compiler was run, and that the caller is to run it.
pub fn relay_compile_response(received: &Option<Received>, stdout: &mut Vec<u8>, stderr: &mut Vec<u8>) -> (code: Option<i32>)
    ensures
        code == compile_relay(*received).code,
        final(stdout)@ == old(stdout)@ + compile_relay(*received).stdout,
        final(stderr)@ == old(stderr)@ + compile_relay(*received).stderr,
{
    if let Some(r) = received {
        if let Response::CompileResult { exit_code, stdout: out, stderr: err, cached: _ } = &r.response {
            stdout.extend_from_slice(out.as_slice());
            stderr.extend_from_slice(err.as_slice());
            return Some(*exit_code);
        }
    }
    put_no_verdict(received, stderr);
    assert(stdout@ + Seq::<u8>::empty() =~= stdout@);
    None
}

/// Passes on the answer to a link request, with its warning behind what the tool wrote.
pub fn relay_link_response(received: &Option<Received>, stdout: &mut Vec<u8>, stderr: &mut Vec<u8>) -> (code: Option<i32>)
    ensures
        code == link_relay(*received).code,
        final(stdout)@ == old(stdout)@ + link_relay(*received).stdout,
        final(stderr)@ == old(stderr)@ + link_relay(*received).stderr,
{
    if let Some(r) = received {
        if let Response::LinkResult { exit_code, stdout: out, stderr: err, cached: _, warning } = &r.response {
            stdout.extend_from_slice(out.as_slice());
            stderr.extend_from_slice(err.as_slice());
            if let Some(w) = warning {
                let text = concat2("zccache warning: ", w.as_str());
                put_line(stderr, text.as_str());
                assert(stderr@ =~= old(stderr)@ + link_relay(*received).stderr);
            }
            return Some(*exit_code);
        }
    }
    put_no_verdict(received, stderr);
    assert(stdout@ + Seq::<u8>::empty() =~= stdout@);
    None
}

/// There is an exit code exactly where the daemon reported what the tool did, and then it is the
/// tool's.
pub proof fn lemma_verdicts_are_real(received: Option<Received>)
    ensures
        compile_relay(received).code matches Some(code) ==> received is Some && (received->0.response matches
            Response::CompileResult { exit_code, .. } && exit_code == code),
        received matches Some(r) && r.response is CompileResult ==> compile_relay(received).code is Some,
        link_relay(received).code matches Some(code) ==> received is Some && (received->0.response matches
            Response::LinkResult { exit_code, .. } && exit_code == code),
        received matches Some(r) && r.response is LinkResult ==> link_relay(received).code is Some,
{
}

} // verus!
