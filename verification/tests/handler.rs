use frame_gmix::config::Config;
use frame_gmix::handler::{
    on_connect, on_heartbeat, on_mixer_event, on_request, MixerEvent, Reply, RequestAction, HEARTBEAT_SECS,
};
use uuid::Uuid;
use frame_gmix::message::MessageRequest;

#[test]
fn config_mode_is_audio_mixer() {
    let c = Config::init();
    assert_eq!(c.mode, "audioMixer");
    let d = Config::init();
    assert_ne!(c.node, d.node);
    assert_eq!(Uuid::from_u128(c.node).get_version_num(), 4);
    assert_eq!((c.node >> 76) & 0xf, 4);
    assert_eq!((c.node >> 62) & 0x3, 2);
}

#[test]
fn registers_in_local_region() {
    let c = Config::init();
    match on_connect(&c) {
        Reply::RegisterMixingServer { mode, region } => {
            assert_eq!(mode, "audioMixer");
            assert_eq!(region, "local");
        }
        other => panic!("unexpected {:?}", other),
    }
}

#[test]
fn heartbeat_gives_mode_as_region() {
    let c = Config::init();
    match on_heartbeat(&c) {
        Reply::ServerLoad { mode, region } => {
            assert_eq!(mode, "audioMixer");
            assert_eq!(region, "audioMixer");
        }
        other => panic!("unexpected {:?}", other),
    }
    assert_eq!(HEARTBEAT_SECS, 10);
}

#[test]
fn create_request_starts_session_one() {
    let req = MessageRequest::createFrameAudioMixer { hello: "hi".to_string() };
    match on_request(&req) {
        RequestAction::StartMixer { plan } => {
            assert_eq!(plan.port_range, (5000, 5100));
            assert_eq!(plan.session_id, "session1");
            assert_eq!(plan.num_input_ports, 2);
            assert_eq!(plan.destination_ip, "127.0.0.1");
            assert_eq!(plan.destination_port, 6000);
        }
        other => panic!("unexpected {:?}", other),
    }
}

#[test]
fn destroy_request_is_acknowledged() {
    let req = MessageRequest::destroyFrameAudioMixer {};
    match on_request(&req) {
        RequestAction::Reply { reply } => assert!(matches!(reply, Reply::DestroyedFrameAudioMixer)),
        other => panic!("unexpected {:?}", other),
    }
}

#[test]
fn created_is_announced_when_ports_open_not_at_run_end() {
    assert!(matches!(on_mixer_event(MixerEvent::InputPortsOpen), Some(Reply::CreatedFrameAudioMixer)));
    assert!(on_mixer_event(MixerEvent::RunEnded).is_none());
}
