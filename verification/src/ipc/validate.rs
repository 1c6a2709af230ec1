//! Receiver-side validation: every message is checked against what the receiver knows
//! independently of it, and a message that fails is treated as hostile.
use vstd::prelude::*;

use crate::ipc::message::{process_type_name, Hello, ProcessType, ToBrowser, ToChild, PROTOCOL_VERSION};
use crate::layout::dump::{decimal, push_decimal};
use crate::strutil::push_str;

verus! {

/// What the receiving side knows independently of the message.
#[derive(Debug, Clone, Copy, PartialEq, Eq, Structural)]
pub struct ReceiverCtx {
    /// The process type the browser actually spawned.
    pub expected_process_type: ProcessType,
    /// The pid the browser actually spawned (`None` when unknown).
    pub expected_pid: Option<u32>,
}

/// A message that failed validation.
#[derive(Debug, Clone, Copy, PartialEq, Eq, Structural)]
pub enum IpcViolation {
    /// Wire protocol mismatch.
    VersionMismatch {
        /// Version claimed by the peer.
        got: u32,
        /// Our version.
        expected: u32,
    },
    /// The peer claims to be a different process type than was spawned.
    ProcessTypeMismatch {
        /// Claimed.
        claimed: ProcessType,
        /// Spawned.
        expected: ProcessType,
    },
    /// The peer claims a pid that was not spawned.
    PidMismatch {
        /// Claimed.
        claimed: u32,
        /// Spawned.
        expected: u32,
    },
}

/// The message of an [`IpcViolation`].
pub open spec fn violation_message(v: IpcViolation) -> Seq<char> {
    match v {
        IpcViolation::VersionMismatch { got, expected } => "protocol version "@ + decimal(got as nat)
            + " != expected "@ + decimal(expected as nat),
        IpcViolation::ProcessTypeMismatch { claimed, expected } => "process type mismatch: claimed "@
            + process_type_name(claimed) + ", expected "@ + process_type_name(expected),
        IpcViolation::PidMismatch { claimed, expected } => "pid mismatch: claimed "@ + decimal(
            claimed as nat,
        ) + ", expected "@ + decimal(expected as nat),
    }
}

impl IpcViolation {
    /// A human-readable description of the violation.
    pub fn message(&self) -> (r: String)
        ensures
            r@ == violation_message(*self),
    {
        let mut s = String::new();
        match self {
            IpcViolation::VersionMismatch { got, expected } => {
                push_str(&mut s, "protocol version ");
                push_decimal(&mut s, *got as u64);
                push_str(&mut s, " != expected ");
                push_decimal(&mut s, *expected as u64);
            },
            IpcViolation::ProcessTypeMismatch { claimed, expected } => {
                push_str(&mut s, "process type mismatch: claimed ");
                push_str(&mut s, claimed.name());
                push_str(&mut s, ", expected ");
                push_str(&mut s, expected.name());
            },
            IpcViolation::PidMismatch { claimed, expected } => {
                push_str(&mut s, "pid mismatch: claimed ");
                push_decimal(&mut s, *claimed as u64);
                push_str(&mut s, ", expected ");
                push_decimal(&mut s, *expected as u64);
            },
        }
        s
    }
}

/// The validation verdict on a `Hello`: the version first, then the process type, then the
/// pid (only where the receiver knows it).
pub open spec fn hello_verdict(h: Hello, ctx: ReceiverCtx) -> Result<(), IpcViolation> {
    if h.protocol_version != PROTOCOL_VERSION {
        Err(IpcViolation::VersionMismatch { got: h.protocol_version, expected: PROTOCOL_VERSION })
    } else if h.process_type != ctx.expected_process_type {
        Err(
            IpcViolation::ProcessTypeMismatch {
                claimed: h.process_type,
                expected: ctx.expected_process_type,
            },
        )
    } else if ctx.expected_pid is Some && h.pid != ctx.expected_pid->0 {
        Err(IpcViolation::PidMismatch { claimed: h.pid, expected: ctx.expected_pid->0 })
    } else {
        Ok(())
    }
}

/// Implemented by every message type crossing a process boundary.
pub trait Validate {
    /// Checks the message against what the receiver independently knows.
    fn validate(&self, ctx: &ReceiverCtx) -> Result<(), IpcViolation>;
}

impl Validate for Hello {
    fn validate(&self, ctx: &ReceiverCtx) -> (r: Result<(), IpcViolation>)
        ensures
            r == hello_verdict(*self, *ctx),
    {
        if self.protocol_version != PROTOCOL_VERSION {
            return Err(
                IpcViolation::VersionMismatch {
                    got: self.protocol_version,
                    expected: PROTOCOL_VERSION,
                },
            );
        }
        if self.process_type != ctx.expected_process_type {
            return Err(
                IpcViolation::ProcessTypeMismatch {
                    claimed: self.process_type,
                    expected: ctx.expected_process_type,
                },
            );
        }
        if let Some(expected) = ctx.expected_pid {
            if self.pid != expected {
                return Err(IpcViolation::PidMismatch { claimed: self.pid, expected });
            }
        }
        Ok(())
    }
}

impl Validate for ToBrowser {
    fn validate(&self, ctx: &ReceiverCtx) -> (r: Result<(), IpcViolation>)
        ensures
            r == match *self {
                ToBrowser::Hello(h) => hello_verdict(h, *ctx),
                ToBrowser::Pong(_) => Ok(()),
            },
    {
        match self {
            ToBrowser::Hello(h) => h.validate(ctx),
            ToBrowser::Pong(_) => Ok(()),
        }
    }
}

impl Validate for ToChild {
    fn validate(&self, _ctx: &ReceiverCtx) -> (r: Result<(), IpcViolation>)
        ensures
            r == Ok::<(), IpcViolation>(()),
    {
        match self {
            ToChild::HelloAck { .. } => Ok(()),
            ToChild::Ping(_) => Ok(()),
            ToChild::Shutdown => Ok(()),
        }
    }
}

/// A `Hello` passes validation exactly when it carries our protocol version, the process
/// type that was spawned, and (where the receiver knows it) the spawned pid.
pub proof fn lemma_hello_accepted_iff_matches(h: Hello, ctx: ReceiverCtx)
    ensures
        hello_verdict(h, ctx) is Ok <==> (h.protocol_version == PROTOCOL_VERSION && h.process_type
            == ctx.expected_process_type && (ctx.expected_pid matches Some(p) ==> h.pid == p)),
{
}

} // verus!
