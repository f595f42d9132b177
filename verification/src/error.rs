//! What can go wrong with RTT.

use vstd::prelude::*;
use crate::text::owned;

verus! {

/// Why an RTT operation failed.
#[derive(Debug)]
pub enum RttError {
    /// The connection, the server or a socket failed; the text of the error.
    Transport(String),
    /// A read returned fewer bytes than were asked for.
    ShortRead,
    /// No search region was set up.
    SetupNotRun,
    /// The search region holds no control block.
    NotFound,
    /// The port has a server already.
    PortInUse,
}

impl RttError {
    /// The text shown to the user.
    pub open spec fn text(self) -> Seq<char> {
        match self {
            RttError::Transport(text) => text@,
            RttError::ShortRead => "short memory read"@,
            RttError::SetupNotRun => "rtt setup not run"@,
            RttError::NotFound => "RTT control block not found"@,
            RttError::PortInUse => "port already serving"@,
        }
    }

    /// The text shown to the user.
    pub fn message(&self) -> (r: String)
        ensures
            r@ == self.text(),
    {
        match self {
            RttError::Transport(text) => text.clone(),
            RttError::ShortRead => owned("short memory read"),
            RttError::SetupNotRun => owned("rtt setup not run"),
            RttError::NotFound => owned("RTT control block not found"),
            RttError::PortInUse => owned("port already serving"),
        }
    }
}

} // verus!
