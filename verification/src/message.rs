//! The requests that the control server sends to the mixer.
//!
//! The wire form of these messages is JSON; it is read and written by the
//! caller, which converts to and from these types.

use uuid::Uuid;
use vstd::prelude::*;

verus! {

#[verifier::external_type_specification]
#[verifier::external_body]
pub struct ExUuid(Uuid);

/// What the control server asks of the mixer.
#[allow(non_camel_case_types)]
#[derive(Debug)]
pub enum MessageRequest {
    /// Set up a mixer.
    createFrameAudioMixer { hello: String },
    /// Tear a mixer down.
    destroyFrameAudioMixer {},
}

/// A request as it arrives, with the node and websocket it came through.
#[derive(Debug)]
pub enum RequestMessage {
    IncomingServer { node: Option<Uuid>, wsid: Option<String>, message: MessageRequest },
}

} // verus!
