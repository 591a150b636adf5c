//! The logical wire schema of the command handshake and the master's
//! representation of a submitted build command.

use vstd::prelude::*;
use crate::cap::CapSet;

verus! {

/// Sent by a slave to the master over the command socket.
#[allow(non_camel_case_types)]
pub enum Request {
    /// The slave is ready to receive a command and declares the capability
    /// set it can serve.
    IDLE(CapSet),
}

/// Sent by the master to a slave over the command socket.
#[allow(non_camel_case_types)]
#[derive(Clone, Copy, Debug, PartialEq, Eq, Structural)]
pub enum Response {
    /// The slave must execute the command just assigned to it.
    COMMAND,
}

/// A build command submitted to the master: the capabilities its execution
/// requires and the command text to run on the selected slave.
pub struct PendingCommand {
    pub required: CapSet,
    pub payload: String,
}

} // verus!
