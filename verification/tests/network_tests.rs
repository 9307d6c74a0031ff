use elevator::{generateIDs, get_ip, is_own_message, NetInterface, BroadcastMessage, ElevatorState, HeartbeatMonitor, DIRN_STOP, DIRN_UP};

fn state(floor: u8, dir: u8) -> ElevatorState {
    ElevatorState {
        current_floor: floor,
        prev_floor: floor,
        current_direction: dir,
        prev_direction: DIRN_STOP,
        emergency_stop: false,
        obstruction: false,
        door_open: false,
    }
}

const MS: u64 = 1_000_000;

fn alive_of(m: &HeartbeatMonitor, id: &str) -> Option<bool> {
    m.alive_dead_info.to_id_bool_map().into_iter().find(|(k, _)| k == id).map(|(_, v)| v)
}

fn beat_of(m: &HeartbeatMonitor, id: &str) -> Option<u64> {
    m.alive_dead_info.last_heartbeat.iter().find(|(k, _)| k == id).map(|(_, v)| *v)
}

#[test]
fn identifier_is_fixed() {
    assert_eq!(generateIDs(Some("10.0.0.7".to_string())), Some("2".to_string()));
    assert_eq!(generateIDs(Some("192.168.1.1".to_string())), Some("2".to_string()));
}

#[test]
fn own_messages_are_recognised() {
    let m = BroadcastMessage::new(0, "2".to_string());
    assert!(is_own_message(&m, &"2".to_string()));
    assert!(!is_own_message(&m, &"3".to_string()));
}

#[test]
fn heard_peer_is_alive_with_a_heartbeat() {
    let mut h = HeartbeatMonitor::new(5000 * MS);
    let mut m = BroadcastMessage::new(0, "B".to_string());
    m.states.push(("B".to_string(), state(1, DIRN_UP)));
    h.on_message(&m, 100 * MS);
    assert_eq!(alive_of(&h, "B"), Some(true));
    assert_eq!(beat_of(&h, "B"), Some(100 * MS));
    assert_eq!(h.last_seen_floor, vec![("B".to_string(), (1, 100 * MS))]);
    assert_eq!(h.alive_dead_info.elevators[0].1.id, "B");
}

#[test]
fn silent_peer_expires() {
    let mut h = HeartbeatMonitor::new(5000 * MS);
    h.heard_from(&"B".to_string(), None, 1000 * MS);
    h.heard_from(&"C".to_string(), None, 4000 * MS);
    h.expire(6500 * MS);
    assert_eq!(alive_of(&h, "B"), Some(false));
    assert_eq!(alive_of(&h, "C"), Some(true));
    assert_eq!(beat_of(&h, "B"), None);
    assert_eq!(beat_of(&h, "C"), Some(4000 * MS));
    let b = h.alive_dead_info.elevators.iter().find(|(k, _)| k == "B").unwrap();
    assert_eq!((b.1.id.as_str(), b.1.is_alive), ("B", false));
    // Heard from again: alive once more.
    h.heard_from(&"B".to_string(), None, 7000 * MS);
    assert_eq!(alive_of(&h, "B"), Some(true));
}

#[test]
fn elevator_stuck_while_moving_is_taken_for_dead() {
    let mut h = HeartbeatMonitor::new(100_000 * MS);
    let b = "B".to_string();
    h.heard_from(&b, Some(state(2, DIRN_UP)), 0);
    h.heard_from(&b, Some(state(2, DIRN_UP)), 10_000 * MS);
    assert_eq!(alive_of(&h, "B"), Some(true));
    h.heard_from(&b, Some(state(2, DIRN_UP)), 16_000 * MS);
    assert_eq!(alive_of(&h, "B"), Some(false));
    assert_eq!(beat_of(&h, "B"), Some(16_000 * MS));
    // Standing still drops the heartbeat first, so the peer counts as alive again.
    h.heard_from(&b, Some(state(2, DIRN_STOP)), 17_000 * MS);
    assert_eq!(alive_of(&h, "B"), Some(true));
    assert_eq!(h.last_seen_floor, vec![("B".to_string(), (2, 17_000 * MS))]);
}

#[test]
fn moving_to_a_new_floor_resets_the_stuck_timer() {
    let mut h = HeartbeatMonitor::new(100_000 * MS);
    let b = "B".to_string();
    h.heard_from(&b, Some(state(1, DIRN_UP)), 0);
    h.heard_from(&b, Some(state(2, DIRN_UP)), 14_000 * MS);
    h.heard_from(&b, Some(state(2, DIRN_UP)), 20_000 * MS);
    assert_eq!(alive_of(&h, "B"), Some(true));
}

#[test]
fn stuck_limit_is_fifteen_seconds() {
    let b = "B".to_string();
    let mut h = HeartbeatMonitor::new(100_000 * MS);
    h.heard_from(&b, Some(state(2, DIRN_UP)), 0);
    h.heard_from(&b, Some(state(2, DIRN_UP)), 15_000 * MS);
    assert_eq!(alive_of(&h, "B"), Some(true));
    h.heard_from(&b, Some(state(2, DIRN_UP)), 15_000 * MS + 1);
    assert_eq!(alive_of(&h, "B"), Some(false));
}

#[test]
fn first_lan_ipv4_address_is_taken() {
    let ifaces = vec![
        NetInterface { is_loopback: true, is_ipv4: true, ip: "127.0.0.1".to_string() },
        NetInterface { is_loopback: false, is_ipv4: false, ip: "fe80::1".to_string() },
        NetInterface { is_loopback: false, is_ipv4: true, ip: "10.0.0.7".to_string() },
        NetInterface { is_loopback: false, is_ipv4: true, ip: "10.0.0.8".to_string() },
    ];
    assert_eq!(get_ip(&ifaces), Some("10.0.0.7".to_string()));
    assert_eq!(get_ip(&ifaces[..2].to_vec()), None);
}
