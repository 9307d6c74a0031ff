use elevator::{AliveDeadInfo, BroadcastMessage, IdSet};

#[test]
fn broadcast_message_starts_empty() {
    let m = BroadcastMessage::new(5, "2".to_string());
    assert_eq!(m.source_id, "2");
    assert_eq!(m.version, 5);
    assert!(m.orders.is_empty());
    assert!(m.states.is_empty());
}

#[test]
fn alive_status_reads_back() {
    let mut info = AliveDeadInfo::new();
    info.update_elevator_status("x".to_string(), true);
    info.update_elevator_status("y".to_string(), true);
    info.update_elevator_status("x".to_string(), false);
    assert_eq!(info.to_id_bool_map(), vec![("x".to_string(), false), ("y".to_string(), true)]);
    assert_eq!(info.elevators[0].1.id, "x");
    assert!(info.last_heartbeat.is_empty());
}

#[test]
fn id_sets_behave_as_sets() {
    let mut s = IdSet::new();
    s.insert("a".to_string());
    s.insert("a".to_string());
    assert_eq!(s.to_vec(), vec!["a".to_string()]);
    let mut t = IdSet::from_vec(vec!["b".to_string(), "a".to_string()]);
    t.union_with(&s);
    assert!(t.contains(&"b".to_string()));
    assert_eq!(t.to_vec().len(), 2);
    t.clear();
    assert!(!t.contains(&"a".to_string()));
}
