use elevator::{
    merge_status, AliveDeadInfo, BroadcastMessage, Decision, DecisionEvent, ElevatorState, IdSet, Order,
    OrderStatus, DIRN_DOWN, DIRN_STOP, DIRN_UP,
};
use elevator::{AssignerError, Behaviour, Directions};

fn ids(v: &[&str]) -> IdSet {
    IdSet::from_vec(v.iter().map(|s| s.to_string()).collect())
}

fn sorted(set: &IdSet) -> Vec<String> {
    let mut v = set.to_vec();
    v.sort();
    v.dedup();
    v
}

fn order(call: u8, floor: u8, status: OrderStatus, barrier: &[&str], source: &[&str]) -> Order {
    Order { call, floor, status, barrier: ids(barrier), source_id: ids(source) }
}

fn state(floor: u8, dir: u8, door_open: bool) -> ElevatorState {
    ElevatorState {
        current_floor: floor,
        prev_floor: floor,
        current_direction: dir,
        prev_direction: DIRN_STOP,
        emergency_stop: false,
        obstruction: false,
        door_open,
    }
}

fn decision(local: &str) -> Decision {
    Decision::new(local.to_string(), local.to_string())
}

fn entry<'a>(d: &'a Decision, id: &str) -> &'a Vec<Order> {
    &d.local_broadcastmessage.orders.iter().find(|(k, _)| k == id).expect("entry").1
}

fn total(d: &Decision) -> usize {
    d.local_broadcastmessage.orders.iter().map(|(_, l)| l.len()).sum()
}

fn alive(d: &mut Decision, entries: &[(&str, bool)]) {
    let mut info = AliveDeadInfo::new();
    for (id, a) in entries {
        info.update_elevator_status(id.to_string(), *a);
    }
    d.update_dead_alive_status(&info);
}

#[test]
fn new_hall_order_is_added_with_local_barrier() {
    let mut d = decision("A");
    d.handle_new_order(order(0, 2, OrderStatus::Requested, &[], &["A"]));
    let l = entry(&d, "A");
    assert_eq!(l.len(), 1);
    assert_eq!(l[0].floor, 2);
    assert_eq!(l[0].status, OrderStatus::Requested);
    assert_eq!(sorted(&l[0].barrier), vec!["A".to_string()]);
}

#[test]
fn known_hall_order_without_order_is_requested_again() {
    let mut d = decision("A");
    d.local_broadcastmessage.orders.push(("B".to_string(), vec![order(1, 3, OrderStatus::Noorder, &[], &["B"])]));
    d.handle_new_order(order(1, 3, OrderStatus::Requested, &[], &["A"]));
    assert_eq!(d.local_broadcastmessage.orders.len(), 1);
    let l = entry(&d, "B");
    assert_eq!(l.len(), 1);
    assert_eq!(l[0].status, OrderStatus::Requested);
    assert_eq!(sorted(&l[0].barrier), vec!["A".to_string()]);
}

#[test]
fn known_confirmed_hall_order_is_left_alone() {
    let mut d = decision("A");
    d.local_broadcastmessage.orders.push(("B".to_string(), vec![order(1, 3, OrderStatus::Confirmed, &[], &["B"])]));
    d.handle_new_order(order(1, 3, OrderStatus::Requested, &[], &["A"]));
    let l = entry(&d, "B");
    assert_eq!(l[0].status, OrderStatus::Confirmed);
    assert!(l[0].barrier.to_vec().is_empty());
}

#[test]
fn cab_order_of_another_elevator_does_not_count() {
    let mut d = decision("A");
    d.local_broadcastmessage.orders.push(("B".to_string(), vec![order(2, 1, OrderStatus::Confirmed, &[], &["B"])]));
    d.handle_new_order(order(2, 1, OrderStatus::Requested, &[], &["A"]));
    assert_eq!(entry(&d, "A").len(), 1);
    assert_eq!(entry(&d, "B").len(), 1);
}

#[test]
fn unknown_call_is_always_added() {
    let mut d = decision("A");
    d.handle_new_order(order(3, 0, OrderStatus::Requested, &[], &["A"]));
    d.handle_new_order(order(3, 0, OrderStatus::Requested, &[], &["A"]));
    assert_eq!(entry(&d, "A").len(), 2);
}

#[test]
fn completed_floor_completes_local_confirmed_orders() {
    let mut d = decision("A");
    d.local_broadcastmessage.orders.push((
        "A".to_string(),
        vec![
            order(0, 1, OrderStatus::Confirmed, &["X"], &["A"]),
            order(2, 1, OrderStatus::Requested, &["X"], &["A"]),
            order(1, 2, OrderStatus::Confirmed, &[], &["A"]),
        ],
    ));
    d.local_broadcastmessage.orders.push(("B".to_string(), vec![order(1, 1, OrderStatus::Confirmed, &[], &["B"])]));
    d.handle_order_completed(1);
    let l = entry(&d, "A");
    assert_eq!(l[0].status, OrderStatus::Completed);
    assert_eq!(sorted(&l[0].barrier), vec!["A".to_string()]);
    assert_eq!(l[1].status, OrderStatus::Requested);
    assert_eq!(l[2].status, OrderStatus::Confirmed);
    assert_eq!(entry(&d, "B")[0].status, OrderStatus::Confirmed);
}

#[test]
fn barrier_confirms_request_seen_by_all_alive() {
    let mut d = decision("A");
    alive(&mut d, &[("B", true), ("C", false)]);
    d.local_broadcastmessage.orders.push((
        "A".to_string(),
        vec![
            order(0, 1, OrderStatus::Requested, &["A", "B"], &["A"]),
            order(1, 2, OrderStatus::Requested, &["A"], &["A"]),
        ],
    ));
    assert!(d.handle_barrier());
    let l = entry(&d, "A");
    assert_eq!(l[0].status, OrderStatus::Confirmed);
    assert!(l[0].barrier.to_vec().is_empty());
    assert_eq!(l[1].status, OrderStatus::Requested);
}

#[test]
fn barrier_is_idempotent() {
    let mut d = decision("A");
    alive(&mut d, &[("B", true)]);
    d.local_broadcastmessage.orders.push((
        "A".to_string(),
        vec![
            order(0, 1, OrderStatus::Requested, &["A", "B"], &["A"]),
            order(2, 3, OrderStatus::Completed, &["A", "B"], &["A"]),
        ],
    ));
    assert!(d.handle_barrier());
    assert_eq!(entry(&d, "A")[1].status, OrderStatus::Noorder);
    assert!(!d.handle_barrier());
    assert_eq!(entry(&d, "A")[0].status, OrderStatus::Confirmed);
    assert_eq!(entry(&d, "A")[1].status, OrderStatus::Noorder);
}

#[test]
fn cab_requests_are_confirmed_only_for_the_local_elevator() {
    let mut d = decision("A");
    alive(&mut d, &[]);
    d.local_broadcastmessage.orders.push(("B".to_string(), vec![order(2, 0, OrderStatus::Requested, &["A"], &["B"])]));
    d.local_broadcastmessage.orders.push(("A".to_string(), vec![order(2, 0, OrderStatus::Requested, &["A"], &["A"])]));
    assert!(d.handle_barrier());
    assert_eq!(entry(&d, "B")[0].status, OrderStatus::Requested);
    assert_eq!(entry(&d, "A")[0].status, OrderStatus::Confirmed);
}

#[test]
fn dead_alive_report_is_read_back() {
    let mut d = decision("A");
    let mut info = AliveDeadInfo::new();
    info.update_elevator_status("B".to_string(), true);
    info.update_elevator_status("C".to_string(), false);
    assert!(d.update_dead_alive_status(&info));
    assert_eq!(
        d.dead_elev,
        vec![("A".to_string(), false), ("B".to_string(), false), ("C".to_string(), true)]
    );
    assert!(!d.update_dead_alive_status(&info));
    info.update_elevator_status("B".to_string(), false);
    assert!(d.update_dead_alive_status(&info));
    assert_eq!(d.dead_elev[1], ("B".to_string(), true));
}

#[test]
fn merge_status_only_moves_forward() {
    let all = [OrderStatus::Noorder, OrderStatus::Requested, OrderStatus::Confirmed, OrderStatus::Completed];
    let expected = [
        [OrderStatus::Noorder, OrderStatus::Requested, OrderStatus::Confirmed, OrderStatus::Noorder],
        [OrderStatus::Requested, OrderStatus::Requested, OrderStatus::Confirmed, OrderStatus::Completed],
        [OrderStatus::Confirmed, OrderStatus::Confirmed, OrderStatus::Confirmed, OrderStatus::Completed],
        [OrderStatus::Noorder, OrderStatus::Completed, OrderStatus::Completed, OrderStatus::Completed],
    ];
    for (i, l) in all.iter().enumerate() {
        for (j, r) in all.iter().enumerate() {
            assert_eq!(merge_status(*l, *r), expected[i][j], "{:?} {:?}", l, r);
        }
    }
}

fn message(source: &str, orders: Vec<(&str, Vec<Order>)>, states: Vec<(&str, ElevatorState)>) -> BroadcastMessage {
    BroadcastMessage {
        source_id: source.to_string(),
        version: 7,
        orders: orders.into_iter().map(|(k, v)| (k.to_string(), v)).collect(),
        states: states.into_iter().map(|(k, v)| (k.to_string(), v)).collect(),
    }
}

#[test]
fn received_confirmation_is_trusted() {
    let mut d = decision("A");
    d.local_broadcastmessage.orders.push(("A".to_string(), vec![order(0, 2, OrderStatus::Requested, &["A"], &["A"])]));
    let m = message("B", vec![("B", vec![order(0, 2, OrderStatus::Confirmed, &[], &["A"])])], vec![]);
    let (conf, comp) = d.handle_recv_broadcast(&m);
    let l = entry(&d, "A");
    assert_eq!(l[0].status, OrderStatus::Confirmed);
    assert!(l[0].barrier.to_vec().is_empty());
    assert!(conf.is_empty());
    assert!(comp.is_empty());
    assert_eq!(d.local_broadcastmessage.orders.len(), 1);
}

#[test]
fn received_completion_does_not_revive_no_order() {
    let mut d = decision("A");
    d.local_broadcastmessage.orders.push(("A".to_string(), vec![order(1, 2, OrderStatus::Noorder, &["A"], &["A"])]));
    let m = message("B", vec![("B", vec![order(1, 2, OrderStatus::Completed, &["B"], &["B"])])], vec![]);
    d.handle_recv_broadcast(&m);
    let l = entry(&d, "A");
    assert_eq!(l[0].status, OrderStatus::Noorder);
    assert!(l[0].barrier.to_vec().is_empty());
}

#[test]
fn requests_merge_barriers() {
    let mut d = decision("A");
    d.local_broadcastmessage.orders.push(("A".to_string(), vec![order(0, 1, OrderStatus::Requested, &["A"], &["A"])]));
    let m = message("B", vec![("B", vec![order(0, 1, OrderStatus::Requested, &["C"], &["B"])])], vec![]);
    d.handle_recv_broadcast(&m);
    let l = entry(&d, "A");
    assert_eq!(l[0].status, OrderStatus::Requested);
    assert_eq!(sorted(&l[0].barrier), vec!["A".to_string(), "B".to_string(), "C".to_string()]);
}

#[test]
fn unknown_received_orders_are_adopted() {
    let mut d = decision("A");
    let m = message(
        "B",
        vec![(
            "B",
            vec![
                order(1, 0, OrderStatus::Completed, &[], &["B"]),
                order(0, 3, OrderStatus::Requested, &["B"], &["B"]),
                order(5, 3, OrderStatus::Requested, &["B"], &["B"]),
            ],
        )],
        vec![],
    );
    d.handle_recv_broadcast(&m);
    let l = entry(&d, "B");
    assert_eq!(l.len(), 2);
    assert_eq!(sorted(&l[0].barrier), vec!["A".to_string(), "B".to_string()]);
    assert_eq!(sorted(&l[1].barrier), vec!["B".to_string()]);
}

#[test]
fn notices_for_orders_from_the_local_elevator() {
    let mut d = decision("A");
    d.local_broadcastmessage.orders.push((
        "A".to_string(),
        vec![order(0, 1, OrderStatus::Confirmed, &[], &["A"]), order(1, 2, OrderStatus::Completed, &["A"], &["A"])],
    ));
    let m = message(
        "B",
        vec![(
            "B",
            vec![order(0, 1, OrderStatus::Confirmed, &[], &["A"]), order(1, 2, OrderStatus::Noorder, &[], &["A"])],
        )],
        vec![],
    );
    let (conf, comp) = d.handle_recv_broadcast(&m);
    assert_eq!(conf.len(), 1);
    assert_eq!(conf[0].floor, 1);
    assert_eq!(comp.len(), 1);
    assert_eq!(comp[0].floor, 2);
    assert_eq!(entry(&d, "A")[1].status, OrderStatus::Noorder);
}

#[test]
fn own_cab_orders_keep_their_status() {
    let mut d = decision("A");
    d.local_broadcastmessage.orders.push(("A".to_string(), vec![order(2, 1, OrderStatus::Confirmed, &[], &["A"])]));
    let m = message("B", vec![("A", vec![order(2, 1, OrderStatus::Completed, &[], &["A"])])], vec![]);
    d.handle_recv_broadcast(&m);
    let l = entry(&d, "A");
    assert_eq!(l[0].status, OrderStatus::Confirmed);
    // The received order matched no order that follows it, so it is added as well.
    assert_eq!(l.len(), 2);
    assert_eq!(l[1].status, OrderStatus::Completed);
}

#[test]
fn received_states_are_taken_in() {
    let mut d = decision("A");
    d.local_broadcastmessage.states.push(("A".to_string(), state(0, DIRN_STOP, false)));
    let m = message("B", vec![], vec![("B", state(2, DIRN_UP, false)), ("A", state(3, DIRN_DOWN, true))]);
    d.handle_recv_broadcast(&m);
    assert_eq!(
        d.local_broadcastmessage.states,
        vec![("A".to_string(), state(3, DIRN_DOWN, true)), ("B".to_string(), state(2, DIRN_UP, false))]
    );
}

#[test]
fn assigner_input_lists_requests_and_alive_elevators() {
    let mut d = decision("A");
    alive(&mut d, &[("B", false), ("C", true)]);
    d.local_broadcastmessage.orders.push((
        "A".to_string(),
        vec![
            order(0, 1, OrderStatus::Confirmed, &[], &["A"]),
            order(1, 3, OrderStatus::Requested, &[], &["A"]),
            order(2, 4, OrderStatus::Confirmed, &[], &["A"]),
        ],
    ));
    d.local_broadcastmessage.states.push(("A".to_string(), state(1, DIRN_UP, false)));
    d.local_broadcastmessage.states.push(("B".to_string(), state(0, DIRN_STOP, false)));
    d.local_broadcastmessage.states.push(("C".to_string(), state(2, DIRN_DOWN, true)));
    assert!(d.hall_floors_in_range());
    let input = d.hall_assigner_input();
    assert_eq!(
        input.hall_requests,
        vec![vec![false, false], vec![true, false], vec![false, false], vec![false, false]]
    );
    let names: Vec<&str> = input.states.iter().map(|(k, _)| k.as_str()).collect();
    assert_eq!(names, vec!["A", "C"]);
    let a = &input.states[0].1;
    assert_eq!(a.behaviour, Behaviour::moving);
    assert_eq!(a.direction, Directions::up);
    assert_eq!(a.floor, 1);
    assert_eq!(a.cab_requests, vec![false, false, false, true]);
    let c = &input.states[1].1;
    assert_eq!(c.behaviour, Behaviour::doorOpen);
    assert_eq!(c.direction, Directions::down);
}

#[test]
fn hall_floor_out_of_range_is_detected() {
    let mut d = decision("A");
    d.local_broadcastmessage.orders.push(("A".to_string(), vec![order(0, 4, OrderStatus::Confirmed, &[], &["A"])]));
    assert!(!d.hall_floors_in_range());
}

#[test]
fn assignment_moves_orders_and_keeps_their_number() {
    let mut d = decision("A");
    d.local_broadcastmessage.orders.push((
        "B".to_string(),
        vec![order(0, 1, OrderStatus::Confirmed, &["X"], &["B"]), order(2, 2, OrderStatus::Confirmed, &[], &["B"])],
    ));
    let before = total(&d);
    let answer = vec![
        ("A".to_string(), vec![vec![false, false], vec![true, false], vec![false, false], vec![false, false]]),
        ("B".to_string(), vec![vec![false, false], vec![false, false], vec![false, false], vec![false, false]]),
    ];
    let assigned = d.hall_order_assigner(Some(answer));
    assert_eq!(total(&d), before);
    assert_eq!(entry(&d, "B").len(), 1);
    assert_eq!(entry(&d, "A").len(), 1);
    assert_eq!(entry(&d, "A")[0].floor, 1);
    // No order for that slot is left in place, so the barrier is kept.
    assert_eq!(sorted(&entry(&d, "A")[0].barrier), vec!["X".to_string()]);
    assert_eq!(assigned.len(), 1);
    assert_eq!(assigned[0].floor, 1);
}

#[test]
fn assignment_fixes_barriers_against_orders_left_in_place() {
    let mut d = decision("A");
    d.local_broadcastmessage.orders.push((
        "B".to_string(),
        vec![order(0, 1, OrderStatus::Requested, &["X"], &["B"]), order(0, 1, OrderStatus::Requested, &["Y"], &["B"])],
    ));
    let answer = vec![("A".to_string(), vec![vec![false, false], vec![true, false]])];
    let assigned = d.hall_order_assigner(Some(answer));
    // Both passes over floor 1 take one order each.
    assert_eq!(entry(&d, "A").len(), 2);
    assert_eq!(entry(&d, "B").len(), 0);
    assert!(assigned.is_empty());
}

#[test]
fn failed_assignment_keeps_the_book() {
    let mut d = decision("A");
    d.local_broadcastmessage.orders.push((
        "A".to_string(),
        vec![order(0, 1, OrderStatus::Confirmed, &[], &["A"]), order(1, 1, OrderStatus::Requested, &[], &["A"])],
    ));
    let assigned = d.hall_order_assigner(None);
    assert_eq!(entry(&d, "A").len(), 2);
    assert_eq!(assigned.len(), 1);
    assert_eq!(assigned[0].call, 0);
}

#[test]
fn step_dispatches_events() {
    let mut d = decision("A");
    let out = d.step(DecisionEvent::NewOrder(order(0, 1, OrderStatus::Requested, &[], &["A"])));
    assert!(out.reassign);
    let out = d.step(DecisionEvent::NewState(state(2, DIRN_STOP, false)));
    assert!(!out.reassign);
    assert_eq!(d.local_broadcastmessage.states, vec![("A".to_string(), state(2, DIRN_STOP, false))]);
    let out = d.step(DecisionEvent::Broadcasts(vec![
        message("B", vec![], vec![("B", state(0, DIRN_STOP, false))]),
        message("C", vec![], vec![("C", state(3, DIRN_STOP, false))]),
    ]));
    assert!(out.reassign);
    assert_eq!(d.local_broadcastmessage.states.len(), 3);
    let out = d.step(DecisionEvent::OrderCompleted(1));
    assert!(!out.reassign);
    let out = d.step(DecisionEvent::AliveDead(AliveDeadInfo::new()));
    assert!(!out.reassign);
    assert_eq!(d.dead_elev, vec![("A".to_string(), false)]);
    let out = d.step(DecisionEvent::Closed);
    assert!(!out.reassign);
}

#[test]
fn cost_counts_distance_and_direction() {
    let s = state(1, 0, false);
    assert_eq!(Decision::cost_fn(&s, &order(0, 3, OrderStatus::Requested, &[], &[])), 4);
    assert_eq!(Decision::cost_fn(&s, &order(1, 0, OrderStatus::Requested, &[], &[])), 3);
    let s = state(3, 1, false);
    assert_eq!(Decision::cost_fn(&s, &order(1, 0, OrderStatus::Requested, &[], &[])), 6);
}

#[test]
fn reporting_an_order_twice_holds_it_once() {
    let mut d = decision("A");
    d.handle_new_order(order(0, 2, OrderStatus::Requested, &[], &["A"]));
    d.handle_new_order(order(2, 1, OrderStatus::Requested, &[], &["A"]));
    assert_eq!(total(&d), 2);
    d.handle_new_order(order(0, 2, OrderStatus::Requested, &[], &["A"]));
    d.handle_new_order(order(2, 1, OrderStatus::Requested, &[], &["A"]));
    assert_eq!(total(&d), 2);
}

fn book_with_b_orders() -> Decision {
    let mut d = decision("A");
    d.local_broadcastmessage.orders.push((
        "B".to_string(),
        vec![order(0, 1, OrderStatus::Confirmed, &["X"], &["B"]), order(2, 2, OrderStatus::Confirmed, &[], &["B"])],
    ));
    d
}

#[test]
fn assigner_output_is_parsed_and_applied() {
    let mut d = book_with_b_orders();
    let out = br#"{"A":[[false,false],[true,false],[false,false],[false,false]],"B":[[false,false],[false,false],[false,false],[false,false]]}"#;
    let assigned = d.take_assigner_output(true, out).unwrap();
    assert_eq!(entry(&d, "A").len(), 1);
    assert_eq!(entry(&d, "A")[0].floor, 1);
    assert_eq!(entry(&d, "B").len(), 1);
    assert_eq!(assigned.len(), 1);
    assert_eq!(assigned[0].floor, 1);
}

#[test]
fn failed_assigner_run_moves_nothing() {
    let mut d = book_with_b_orders();
    let assigned = d.take_assigner_output(false, b"garbage").unwrap();
    assert_eq!(entry(&d, "B").len(), 2);
    assert!(assigned.is_empty());
}

#[test]
fn unreadable_assigner_output_is_refused() {
    let mut d = book_with_b_orders();
    assert_eq!(d.take_assigner_output(true, &[0xff, 0xfe]).unwrap_err(), AssignerError::InvalidUtf8);
    assert_eq!(d.take_assigner_output(true, b"[1,2]").unwrap_err(), AssignerError::Unparsable);
    assert_eq!(d.take_assigner_output(true, br#"{"A":[[true]]}"#).unwrap_err(), AssignerError::ShortRow);
    assert_eq!(entry(&d, "B").len(), 2);
}

#[test]
fn round_with_reassignment_runs_consensus_between_the_assignments() {
    let mut d = decision("A");
    alive(&mut d, &[]);
    let (out, q) = d.begin_round(DecisionEvent::NewOrder(order(0, 1, OrderStatus::Requested, &[], &["A"])));
    assert!(out.reassign);
    // Not yet confirmed: the question has no hall request.
    assert_eq!(q.unwrap().hall_requests[1], vec![false, false]);
    let (assigned, q) = d.continue_round(true, br#"{"A":[[false,false],[false,false],[false,false],[false,false]]}"#).unwrap();
    assert!(assigned.is_empty());
    // The consensus step confirmed the request seen by the only alive elevator.
    assert_eq!(entry(&d, "A")[0].status, OrderStatus::Confirmed);
    assert_eq!(q.hall_requests[1], vec![true, false]);
    let (assigned, msg) = d.end_round(true, br#"{"A":[[false,false],[true,false],[false,false],[false,false]]}"#).unwrap();
    assert_eq!(assigned.len(), 1);
    assert_eq!(msg.source_id, "A");
    assert_eq!(msg.orders.len(), d.local_broadcastmessage.orders.len());
    assert_eq!(msg.orders[0].1.len(), 1);
}

#[test]
fn round_without_reassignment_settles_first() {
    let mut d = decision("A");
    alive(&mut d, &[]);
    d.local_broadcastmessage.orders.push(("A".to_string(), vec![order(1, 2, OrderStatus::Requested, &["A"], &["A"])]));
    let (out, q) = d.begin_round(DecisionEvent::Closed);
    assert!(!out.reassign);
    assert_eq!(entry(&d, "A")[0].status, OrderStatus::Confirmed);
    assert_eq!(q.unwrap().hall_requests[2], vec![false, true]);
    let (assigned, _msg) = d.end_round(false, b"").unwrap();
    assert_eq!(assigned.len(), 1);
    assert_eq!(assigned[0].floor, 2);
}

#[test]
fn round_refuses_a_hall_order_beyond_the_known_floors() {
    let mut d = decision("A");
    d.local_broadcastmessage.orders.push(("A".to_string(), vec![order(0, 7, OrderStatus::Confirmed, &[], &["A"])]));
    let (_, q) = d.begin_round(DecisionEvent::Closed);
    assert_eq!(q.unwrap_err(), AssignerError::FloorOutOfRange);
}
