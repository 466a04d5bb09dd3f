use frame_gmix::port_range_manager::{PortRangeError, PortRangeManager};

#[test]
fn allocates_lowest_ports_first() {
    let mut m = PortRangeManager::new(5000, 5004);
    assert_eq!(m.allocate_ports(2), Ok(vec![5000, 5001]));
    assert_eq!(m.allocate_ports(3), Ok(vec![5002, 5003, 5004]));
}

#[test]
fn refuses_when_too_few_ports_are_free() {
    let mut m = PortRangeManager::new(5000, 5002);
    assert_eq!(m.allocate_ports(4), Err(PortRangeError::NotEnoughPorts));
    // A refusal changes nothing.
    assert_eq!(m.allocate_ports(3), Ok(vec![5000, 5001, 5002]));
    assert_eq!(m.allocate_ports(1), Err(PortRangeError::NotEnoughPorts));
}

#[test]
fn zero_ports_always_succeed() {
    let mut m = PortRangeManager::new(10, 9);
    assert_eq!(m.allocate_ports(0), Ok(vec![]));
    assert_eq!(m.allocate_ports(1), Err(PortRangeError::NotEnoughPorts));
}

#[test]
fn single_port_range() {
    let mut m = PortRangeManager::new(7, 7);
    assert_eq!(m.allocate_ports(1), Ok(vec![7]));
}

#[test]
fn range_up_to_the_last_port() {
    let mut m = PortRangeManager::new(65534, 65535);
    assert_eq!(m.allocate_ports(2), Ok(vec![65534, 65535]));
}

#[test]
fn released_ports_go_to_the_back() {
    let mut m = PortRangeManager::new(1, 4);
    let a = m.allocate_ports(2).unwrap();
    assert_eq!(a, vec![1, 2]);
    m.deallocate_ports(&a);
    assert_eq!(m.allocate_ports(4), Ok(vec![3, 4, 1, 2]));
}

#[test]
fn releasing_a_free_or_foreign_port_is_ignored() {
    let mut m = PortRangeManager::new(1, 3);
    m.deallocate_ports(&[1, 99]);
    assert_eq!(m.allocate_ports(3), Ok(vec![1, 2, 3]));
    assert_eq!(m.allocate_ports(1), Err(PortRangeError::NotEnoughPorts));
}

#[test]
fn releasing_a_port_twice_frees_it_once() {
    let mut m = PortRangeManager::new(1, 3);
    let a = m.allocate_ports(3).unwrap();
    m.deallocate_ports(&[a[1], a[1]]);
    assert_eq!(m.allocate_ports(1), Ok(vec![2]));
    assert_eq!(m.allocate_ports(1), Err(PortRangeError::NotEnoughPorts));
}

#[test]
fn allocate_then_release_restores_the_pool() {
    let mut m = PortRangeManager::new(100, 109);
    let a = m.allocate_ports(4).unwrap();
    m.deallocate_ports(&a);
    let mut all = m.allocate_ports(10).unwrap();
    all.sort();
    assert_eq!(all, (100..=109).collect::<Vec<u16>>());
}

#[test]
fn refusal_text() {
    assert_eq!(PortRangeError::NotEnoughPorts.message(), "Not enough available ports");
}
