//! What the mixer does on each event of its control connection: when it
//! connects, when a request arrives, and when the heartbeat timer fires.
//!
//! The connection, the timer and the media pipelines are driven by the
//! caller, which performs the action decided here and reports the next
//! event.

use crate::config::Config;
use crate::message::MessageRequest;
use vstd::prelude::*;

verus! {

/// Seconds between two heartbeats.
pub const HEARTBEAT_SECS: u64 = 10;

/// A message for the control server. A server-load report carries a load
/// figure as well, which is always zero and is filled in by the caller.
#[derive(Debug)]
pub enum Reply {
    RegisterMixingServer { mode: String, region: String },
    ServerLoad { mode: String, region: String },
    CreatedFrameAudioMixer,
    DestroyedFrameAudioMixer,
}

/// The session that a mixer request sets up: its pool of ports, its name,
/// how many input ports it takes, and where the mix is sent.
#[derive(Debug)]
pub struct MixerPlan {
    pub port_range: (u16, u16),
    pub session_id: String,
    pub num_input_ports: usize,
    pub destination_ip: String,
    pub destination_port: u16,
}

/// What to do about a request.
#[derive(Debug)]
pub enum RequestAction {
    /// Set up the planned session and start running it; what to send is
    /// decided by `on_mixer_event` as the session reports back.
    StartMixer { plan: MixerPlan },
    /// Send the reply.
    Reply { reply: Reply },
}

/// What a session that a mixer request started reports.
#[derive(Debug, Clone, Copy, PartialEq, Eq, Structural)]
pub enum MixerEvent {
    /// The session is set up and its input ports are open: the sender of
    /// the media may start sending.
    InputPortsOpen,
    /// The session's run is over.
    RunEnded,
}

/// The message that registers the mixer, sent as soon as it is connected:
/// its mode, in the region `local`.
pub fn on_connect(config: &Config) -> (r: Reply)
    ensures
        r matches Reply::RegisterMixingServer { mode, region } && mode@ == config.mode@ && region@
            == "local"@,
{
    Reply::RegisterMixingServer { mode: config.mode.clone(), region: String::from_str("local") }
}

/// The heartbeat, sent each time the timer fires: the mixer's mode, given
/// as its region too.
pub fn on_heartbeat(config: &Config) -> (r: Reply)
    ensures
        r matches Reply::ServerLoad { mode, region } && mode@ == config.mode@ && region@
            == config.mode@,
{
    Reply::ServerLoad { mode: config.mode.clone(), region: config.mode.clone() }
}

/// The answer to a request: a mixer request starts the session `session1`
/// with two input ports from the ports 5000 to 5100, mixed to
/// 127.0.0.1:6000; a teardown request is acknowledged as torn down.
pub fn on_request(message: &MessageRequest) -> (a: RequestAction)
    ensures
        match message {
            MessageRequest::createFrameAudioMixer { .. } => a matches RequestAction::StartMixer {
                plan,
            } && plan.port_range == (5000u16, 5100u16) && plan.session_id@ == "session1"@
                && plan.num_input_ports == 2 && plan.destination_ip@ == "127.0.0.1"@
                && plan.destination_port == 6000,
            MessageRequest::destroyFrameAudioMixer {  } => a matches RequestAction::Reply { reply }
                && reply is DestroyedFrameAudioMixer,
        },
{
    match message {
        MessageRequest::createFrameAudioMixer { .. } => RequestAction::StartMixer {
            plan: MixerPlan {
                port_range: (5000, 5100),
                session_id: String::from_str("session1"),
                num_input_ports: 2,
                destination_ip: String::from_str("127.0.0.1"),
                destination_port: 6000,
            },
        },
        MessageRequest::destroyFrameAudioMixer {  } => RequestAction::Reply {
            reply: Reply::DestroyedFrameAudioMixer,
        },
    }
}

/// The answer to what a started session reports: the mixer is announced
/// as created as soon as its input ports are open, since the sender of the
/// media only starts sending on that announcement; the end of the run,
/// which comes only when the media stops, is answered with nothing.
pub fn on_mixer_event(event: MixerEvent) -> (r: Option<Reply>)
    ensures
        event == MixerEvent::InputPortsOpen ==> (r matches Some(reply) && reply is CreatedFrameAudioMixer),
        event == MixerEvent::RunEnded ==> r is None,
{
    match event {
        MixerEvent::InputPortsOpen => Some(Reply::CreatedFrameAudioMixer),
        MixerEvent::RunEnded => None,
    }
}

} // verus!
