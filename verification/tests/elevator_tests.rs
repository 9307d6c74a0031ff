use elevator::{ElevatorAction, ElevatorController, IdSet, Order, OrderStatus, DIRN_DOWN, DIRN_STOP, DIRN_UP};

fn order(call: u8, floor: u8) -> Order {
    Order { call, floor, status: OrderStatus::Confirmed, barrier: IdSet::new(), source_id: IdSet::new() }
}

fn is_motor(a: &ElevatorAction, d: u8) -> bool {
    matches!(a, ElevatorAction::MotorDirection(x) if *x == d)
}

#[test]
fn starts_with_lights_off_and_motor_down() {
    let c = ElevatorController::new(4);
    assert_eq!(c.state.current_floor, u8::MAX);
    assert_eq!(c.state.current_direction, DIRN_DOWN);
    let a = c.startup_actions();
    assert_eq!(a.len(), 14);
    assert!(matches!(a[5], ElevatorAction::CallButtonLight { floor: 1, call: 2, on: false }));
    assert!(matches!(a[12], ElevatorAction::DoorLight(false)));
    assert!(is_motor(&a[13], DIRN_DOWN));
}

#[test]
fn call_button_reports_a_requested_order() {
    let c = ElevatorController::new(4);
    let a = c.on_call_button(2, 1, "2".to_string());
    assert_eq!(a.len(), 1);
    match &a[0] {
        ElevatorAction::NewOrder(o) => {
            assert_eq!((o.floor, o.call, o.status), (2, 1, OrderStatus::Requested));
            assert_eq!(o.source_id.to_vec(), vec!["2".to_string()]);
            assert!(o.barrier.to_vec().is_empty());
        },
        _ => panic!("expected a new order"),
    }
}

#[test]
fn stops_at_the_bottom_and_top_floor() {
    let mut c = ElevatorController::new(4);
    c.add_order(vec![order(2, 3)]);
    c.state.current_direction = DIRN_DOWN;
    let a = c.on_floor_sensor(0);
    assert_eq!(c.state.current_direction, DIRN_STOP);
    assert!(matches!(a[0], ElevatorAction::FloorIndicator(0)));
    assert!(is_motor(&a[1], DIRN_STOP));
    c.state.current_direction = DIRN_UP;
    c.on_floor_sensor(3);
    assert_eq!(c.state.current_direction, DIRN_STOP);
    assert_eq!(c.state.prev_floor, 0);
}

#[test]
fn stops_and_serves_a_floor_with_orders() {
    let mut c = ElevatorController::new(4);
    c.add_order(vec![order(0, 2), order(2, 1), order(1, 2)]);
    c.state.current_floor = 1;
    c.state.current_direction = DIRN_UP;
    let a = c.on_floor_sensor(2);
    assert_eq!(c.state.current_direction, DIRN_STOP);
    assert_eq!(c.state.prev_direction, DIRN_UP);
    assert_eq!(c.queue.len(), 1);
    assert_eq!(c.queue[0].floor, 1);
    assert_eq!(a.len(), 8);
    assert!(is_motor(&a[1], DIRN_STOP));
    assert!(matches!(a[2], ElevatorAction::OrderCompleted(2)));
    assert!(matches!(a[6], ElevatorAction::DoorSignal(false)));
    assert!(matches!(a[7], ElevatorAction::RestartDoorTimer));
}

#[test]
fn passes_a_floor_without_orders() {
    let mut c = ElevatorController::new(4);
    c.add_order(vec![order(2, 3)]);
    c.state.current_direction = DIRN_UP;
    let a = c.on_floor_sensor(1);
    assert_eq!(c.state.current_direction, DIRN_UP);
    assert_eq!(a.len(), 1);
}

#[test]
fn door_does_not_close_while_obstructed() {
    let mut c = ElevatorController::new(4);
    assert!(c.on_obstruction(true).is_empty());
    c.on_door_signal(true);
    assert!(c.state.door_open);
    let a = c.on_obstruction(false);
    assert!(matches!(a[0], ElevatorAction::RestartDoorTimer));
    let a = c.on_door_signal(true);
    assert!(!c.state.door_open);
    assert!(matches!(a[0], ElevatorAction::DoorLight(false)));
    c.on_door_signal(false);
    assert!(c.state.door_open);
}

#[test]
fn removing_orders_reports_whether_any_was_there() {
    let mut c = ElevatorController::new(4);
    c.add_order(vec![order(0, 1), order(1, 2)]);
    let mut a = Vec::new();
    assert!(c.remove_order(1, &mut a));
    assert_eq!(c.queue.len(), 1);
    assert_eq!(a.len(), 4);
    assert!(!c.remove_order(1, &mut a));
    assert_eq!(a.len(), 8);
}

#[test]
fn logic_drives_toward_the_first_order() {
    let mut c = ElevatorController::new(4);
    c.state.current_floor = 1;
    c.state.current_direction = DIRN_STOP;
    c.add_order(vec![order(0, 3)]);
    let a = c.step_logic();
    assert_eq!(c.state.current_direction, DIRN_UP);
    assert!(is_motor(&a[0], DIRN_UP));
    assert!(matches!(a[1], ElevatorAction::PublishState(_)));
    c.state.current_direction = DIRN_STOP;
    c.add_order(vec![order(0, 0)]);
    c.step_logic();
    assert_eq!(c.state.current_direction, DIRN_DOWN);
}

#[test]
fn logic_opens_the_door_at_the_ordered_floor() {
    let mut c = ElevatorController::new(4);
    c.state.current_floor = 2;
    c.state.current_direction = DIRN_STOP;
    c.add_order(vec![order(2, 2)]);
    let a = c.step_logic();
    assert!(c.queue.is_empty());
    assert_eq!(a.len(), 7);
    assert!(matches!(a[4], ElevatorAction::DoorSignal(false)));
}

#[test]
fn logic_waits_while_the_door_is_open() {
    let mut c = ElevatorController::new(4);
    c.state.current_floor = 1;
    c.state.current_direction = DIRN_STOP;
    c.state.door_open = true;
    c.add_order(vec![order(0, 3)]);
    let a = c.step_logic();
    assert_eq!(c.state.current_direction, DIRN_STOP);
    assert_eq!(a.len(), 1);
}

#[test]
fn stop_button_stops() {
    let mut c = ElevatorController::new(4);
    let a = c.on_stop_button(true);
    assert!(c.state.emergency_stop);
    assert_eq!(c.state.current_direction, DIRN_STOP);
    assert!(is_motor(&a[0], DIRN_STOP));
}

#[test]
fn order_lights_follow_the_orders() {
    let c = ElevatorController::new(4);
    let a = c.order_lights(&vec![order(1, 3), order(2, 0)], true);
    assert!(matches!(a[0], ElevatorAction::CallButtonLight { floor: 3, call: 1, on: true }));
    assert!(matches!(a[1], ElevatorAction::CallButtonLight { floor: 0, call: 2, on: true }));
}
