use frame_gmix::pipeline::{caps_for_payload_type, standalone_caps_for_payload_type, linked_payload_type, on_bus_event, BusAction, BusEvent, PadError};

#[test]
fn opus_caps_for_type_100() {
    let c = caps_for_payload_type(100).unwrap();
    assert_eq!(c.media, "audio");
    assert_eq!(c.clock_rate, 48000);
    assert_eq!(c.encoding_name, "OPUS");
}

#[test]
fn vp8_caps_for_type_106() {
    let c = caps_for_payload_type(106).unwrap();
    assert_eq!(c.media, "video");
    assert_eq!(c.clock_rate, 90000);
    assert_eq!(c.encoding_name, "VP8");
}

#[test]
fn no_caps_for_other_types() {
    assert!(caps_for_payload_type(96).is_none());
    assert!(caps_for_payload_type(0).is_none());
}

#[test]
fn opus_pad_is_linked() {
    assert_eq!(linked_payload_type("recv_rtp_src_0_1234567_100"), Ok(100));
    assert_eq!(linked_payload_type("recv_rtp_src_0_1_+100_extra"), Ok(100));
}

#[test]
fn other_payload_type_is_refused() {
    assert_eq!(
        linked_payload_type("recv_rtp_src_0_1234567_106"),
        Err(PadError::UnknownPayloadType(106))
    );
    assert_eq!(
        linked_payload_type("a_b_c_d_e_4294967295"),
        Err(PadError::UnknownPayloadType(4294967295))
    );
}

#[test]
fn malformed_payload_type_is_refused() {
    assert_eq!(linked_payload_type("a_b_c_d_e_"), Err(PadError::InvalidPayloadType));
    assert_eq!(linked_payload_type("a_b_c_d_e_+"), Err(PadError::InvalidPayloadType));
    assert_eq!(linked_payload_type("a_b_c_d_e_1x"), Err(PadError::InvalidPayloadType));
    assert_eq!(linked_payload_type("a_b_c_d_e_-1"), Err(PadError::InvalidPayloadType));
    assert_eq!(linked_payload_type("a_b_c_d_e_4294967296"), Err(PadError::InvalidPayloadType));
}

#[test]
fn matches_std_parsing() {
    for s in ["0", "00100", "+7", "", "+", "x", "4294967295", "4294967296", "99999999999"] {
        let name = format!("a_b_c_d_e_{}", s);
        let expected = match s.parse::<u32>() {
            Err(_) => Err(PadError::InvalidPayloadType),
            Ok(100) => Ok(100),
            Ok(pt) => Err(PadError::UnknownPayloadType(pt)),
        };
        assert_eq!(linked_payload_type(&name), expected, "{}", s);
    }
}

#[test]
fn bus_decisions() {
    assert_eq!(on_bus_event(BusEvent::EndOfStream), BusAction::Finish);
    assert_eq!(on_bus_event(BusEvent::Error), BusAction::Fail);
    assert_eq!(
        on_bus_event(BusEvent::StateChanged { is_pipeline: true, now_playing: true }),
        BusAction::DumpGraph
    );
    assert_eq!(
        on_bus_event(BusEvent::StateChanged { is_pipeline: false, now_playing: true }),
        BusAction::Continue
    );
    assert_eq!(
        on_bus_event(BusEvent::StateChanged { is_pipeline: true, now_playing: false }),
        BusAction::Continue
    );
    assert_eq!(on_bus_event(BusEvent::Other), BusAction::Continue);
}

#[test]
fn standalone_caps() {
    let a = standalone_caps_for_payload_type(100).unwrap();
    assert_eq!((a.media.as_str(), a.clock_rate, a.encoding_name.as_str()), ("audio", 48000, "OPUS"));
    let v = standalone_caps_for_payload_type(96).unwrap();
    assert_eq!((v.media.as_str(), v.clock_rate, v.encoding_name.as_str()), ("video", 90000, "VP8"));
    assert!(standalone_caps_for_payload_type(106).is_none());
}
