//! The messages that cross a process boundary.
use vstd::prelude::*;

verus! {

/// The wire protocol version; bumped on any wire-incompatible change and checked in
/// [`Hello`].
pub const PROTOCOL_VERSION: u32 = 1;

/// The role a process plays.
#[derive(Debug, Clone, Copy, PartialEq, Eq, Structural, Hash)]
pub enum ProcessType {
    /// The browser (parent) process.
    Browser,
    /// A renderer child.
    Renderer,
    /// The GPU child.
    Gpu,
}

/// A role's command-line name.
pub open spec fn process_type_name(p: ProcessType) -> Seq<char> {
    match p {
        ProcessType::Browser => "browser"@,
        ProcessType::Renderer => "renderer"@,
        ProcessType::Gpu => "gpu"@,
    }
}

impl ProcessType {
    /// The role's command-line name.
    pub fn name(&self) -> (r: &'static str)
        ensures
            r@ == process_type_name(*self),
    {
        match self {
            ProcessType::Browser => "browser",
            ProcessType::Renderer => "renderer",
            ProcessType::Gpu => "gpu",
        }
    }
}

/// The first message from a child after bootstrap.
#[derive(Debug, Clone, Copy, PartialEq, Eq, Structural)]
pub struct Hello {
    /// Must equal [`PROTOCOL_VERSION`].
    pub protocol_version: u32,
    /// What the child claims to be; cross-checked against what the browser spawned.
    pub process_type: ProcessType,
    /// The child's own pid; cross-checked against the spawned pid.
    pub pid: u32,
}

/// Child to browser.
#[derive(Debug, Clone, Copy, PartialEq, Eq, Structural)]
pub enum ToBrowser {
    /// Handshake opener.
    Hello(Hello),
    /// Reply to [`ToChild::Ping`], carrying the same nonce.
    Pong(u64),
}

/// Browser to child.
#[derive(Debug, Clone, Copy, PartialEq, Eq, Structural)]
pub enum ToChild {
    /// Handshake answer; `false` means the child must exit immediately.
    HelloAck {
        /// Whether the child was accepted.
        accepted: bool,
    },
    /// Liveness probe with a nonce.
    Ping(u64),
    /// Orderly exit request.
    Shutdown,
}

} // verus!
