use frame_gmix::session_manager::{MixerSessionManager, SessionError};

#[test]
fn create_and_find_a_session() {
    let mut m: MixerSessionManager<&'static str> = MixerSessionManager::new((5000, 5100));
    let ports = m.allocate_input_ports(2).unwrap();
    assert_eq!(ports, vec![5000, 5001]);
    m.insert_session("session1".to_string(), "pipeline-1");
    assert_eq!(m.get_session("session1"), Ok(&"pipeline-1"));
    assert_eq!(m.get_session("session2"), Err(SessionError::NotFound));
}

#[test]
fn too_few_ports_for_a_session() {
    let mut m: MixerSessionManager<u8> = MixerSessionManager::new((1, 2));
    assert_eq!(m.allocate_input_ports(3), Err(SessionError::NotEnoughPorts));
    assert_eq!(m.allocate_input_ports(2), Ok(vec![1, 2]));
}

#[test]
fn removing_a_session_frees_its_ports() {
    let mut m: MixerSessionManager<u8> = MixerSessionManager::new((1, 3));
    let ports = m.allocate_input_ports(2).unwrap();
    m.insert_session("a".to_string(), 0);
    assert_eq!(m.remove_session("a"), Ok(()));
    assert_eq!(m.get_session("a"), Err(SessionError::NotFound));
    assert_eq!(m.allocate_input_ports(3), Ok(vec![3, 1, 2]));
}

#[test]
fn removing_an_unknown_session_fails() {
    let mut m: MixerSessionManager<u8> = MixerSessionManager::new((1, 3));
    assert_eq!(m.remove_session("nope"), Err(SessionError::NotFound));
    assert_eq!(m.allocate_input_ports(3), Ok(vec![1, 2, 3]));
}

#[test]
fn a_session_name_used_again_replaces_the_session() {
    let mut m: MixerSessionManager<u8> = MixerSessionManager::new((1, 4));
    let first = m.allocate_input_ports(2).unwrap();
    m.insert_session("s".to_string(), 1);
    let second = m.allocate_input_ports(2).unwrap();
    m.insert_session("s".to_string(), 2);
    assert_eq!(m.get_session("s"), Ok(&2));
    assert_eq!(m.remove_session("s"), Ok(()));
    // Only the second session's ports come back; the first one's stay in use.
    assert_eq!(m.allocate_input_ports(2), Ok(vec![3, 4]));
    assert_eq!(m.allocate_input_ports(1), Err(SessionError::NotEnoughPorts));
}

#[test]
fn sessions_are_independent() {
    let mut m: MixerSessionManager<u8> = MixerSessionManager::new((10, 19));
    let a = m.allocate_input_ports(1).unwrap();
    m.insert_session("a".to_string(), 1);
    let b = m.allocate_input_ports(1).unwrap();
    m.insert_session("b".to_string(), 2);
    assert_eq!(m.remove_session("a"), Ok(()));
    assert_eq!(m.get_session("b"), Ok(&2));
    assert_eq!(m.remove_session("a"), Err(SessionError::NotFound));
}

#[test]
fn error_texts() {
    assert_eq!(SessionError::NotFound.message("session7"), "Session session7 not found");
    assert_eq!(SessionError::NotEnoughPorts.message("x"), "Not enough available ports");
}

#[test]
fn a_session_without_allocation_holds_no_ports() {
    let mut m: MixerSessionManager<u8> = MixerSessionManager::new((1, 2));
    m.insert_session("empty".to_string(), 0);
    assert_eq!(m.remove_session("empty"), Ok(()));
    assert_eq!(m.allocate_input_ports(2), Ok(vec![1, 2]));
}

#[test]
fn a_failed_set_up_keeps_its_ports_in_use() {
    let mut m: MixerSessionManager<u8> = MixerSessionManager::new((1, 3));
    let _ = m.allocate_input_ports(2).unwrap();
    // The pipeline of that session was never built; a second attempt takes new ports.
    assert_eq!(m.allocate_input_ports(1), Ok(vec![3]));
    m.insert_session("s".to_string(), 9);
    assert_eq!(m.remove_session("s"), Ok(()));
    assert_eq!(m.allocate_input_ports(2), Err(SessionError::NotEnoughPorts));
    assert_eq!(m.allocate_input_ports(1), Ok(vec![3]));
}
