//! The handshake's decisions. The browser waits for a `Hello`, validates it and answers with
//! a `HelloAck`; the child sends its `Hello` and waits for that answer. The sending and
//! receiving happen around these functions; what to answer and whether the handshake
//! succeeded is decided here.
use vstd::prelude::*;

use crate::ipc::message::{Hello, ProcessType, ToBrowser, ToChild, PROTOCOL_VERSION};
use crate::ipc::validate::{hello_verdict, IpcViolation, ReceiverCtx, Validate};

verus! {

/// Why a handshake failed on its own terms (transport failures are the caller's).
#[derive(Debug, Clone, Copy, PartialEq, Eq, Structural)]
pub enum HandshakeError {
    /// The browser received something other than a `Hello`.
    ExpectedHello,
    /// The child received something other than a `HelloAck`.
    ExpectedHelloAck,
    /// The `Hello` failed validation.
    Violation(IpcViolation),
    /// The browser rejected the child's `Hello`.
    Rejected,
}

/// The browser's side of the handshake, given the first message the child sent: the
/// `HelloAck` to send back, and the handshake's outcome. Anything but a valid `Hello` is
/// answered with `accepted: false`.
pub fn browser_decide(msg: ToBrowser, ctx: &ReceiverCtx) -> (r: (ToChild, Result<Hello, HandshakeError>))
    ensures
        match msg {
            ToBrowser::Hello(h) => match hello_verdict(h, *ctx) {
                Ok(()) => r == (ToChild::HelloAck { accepted: true }, Ok::<Hello, HandshakeError>(h)),
                Err(v) => r == (ToChild::HelloAck { accepted: false }, Err::<Hello, HandshakeError>(
                    HandshakeError::Violation(v),
                )),
            },
            ToBrowser::Pong(_) => r == (ToChild::HelloAck { accepted: false }, Err::<
                Hello,
                HandshakeError,
            >(HandshakeError::ExpectedHello)),
        },
{
    match msg {
        ToBrowser::Hello(hello) => match hello.validate(ctx) {
            Ok(()) => (ToChild::HelloAck { accepted: true }, Ok(hello)),
            Err(violation) => (
                ToChild::HelloAck { accepted: false },
                Err(HandshakeError::Violation(violation)),
            ),
        },
        ToBrowser::Pong(_) => (ToChild::HelloAck { accepted: false }, Err(HandshakeError::ExpectedHello)),
    }
}

/// The `Hello` a child opens the handshake with.
pub fn child_hello(process_type: ProcessType, pid: u32) -> (r: ToBrowser)
    ensures
        r == ToBrowser::Hello(Hello { protocol_version: PROTOCOL_VERSION, process_type, pid }),
{
    ToBrowser::Hello(Hello { protocol_version: PROTOCOL_VERSION, process_type, pid })
}

/// The child's side of the handshake, given the browser's answer.
pub fn child_decide(reply: ToChild) -> (r: Result<(), HandshakeError>)
    ensures
        r == match reply {
            ToChild::HelloAck { accepted: true } => Ok(()),
            ToChild::HelloAck { accepted: false } => Err(HandshakeError::Rejected),
            _ => Err(HandshakeError::ExpectedHelloAck),
        },
{
    match reply {
        ToChild::HelloAck { accepted } => {
            if accepted {
                Ok(())
            } else {
                Err(HandshakeError::Rejected)
            }
        },
        ToChild::Ping(_) => Err(HandshakeError::ExpectedHelloAck),
        ToChild::Shutdown => Err(HandshakeError::ExpectedHelloAck),
    }
}

/// What a child does with one message after the handshake.
#[derive(Debug, Clone, Copy, PartialEq, Eq, Structural)]
pub enum ChildAction {
    /// Send this reply and keep serving.
    Reply(ToBrowser),
    /// Exit cleanly.
    Exit,
    /// A second `HelloAck`: a protocol error.
    DuplicateHelloAck,
}

/// A child's answer to one message: a `Ping` is answered with a `Pong` carrying the same
/// nonce, `Shutdown` ends the child, a second `HelloAck` is an error.
pub fn child_serve_step(msg: ToChild) -> (r: ChildAction)
    ensures
        r == match msg {
            ToChild::Ping(n) => ChildAction::Reply(ToBrowser::Pong(n)),
            ToChild::Shutdown => ChildAction::Exit,
            ToChild::HelloAck { .. } => ChildAction::DuplicateHelloAck,
        },
{
    match msg {
        ToChild::Ping(n) => ChildAction::Reply(ToBrowser::Pong(n)),
        ToChild::Shutdown => ChildAction::Exit,
        ToChild::HelloAck { .. } => ChildAction::DuplicateHelloAck,
    }
}

/// A handshake between a child and a browser that spawned it succeeds on both sides: the
/// browser accepts the child's own `Hello`, and the child accepts that answer.
pub proof fn lemma_honest_handshake_succeeds(process_type: ProcessType, pid: u32)
    ensures
        ({
            let ctx = ReceiverCtx { expected_process_type: process_type, expected_pid: Some(pid) };
            let h = Hello { protocol_version: PROTOCOL_VERSION, process_type, pid };
            &&& hello_verdict(h, ctx) is Ok
        }),
{
}

} // verus!
