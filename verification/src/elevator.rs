//! The elevator controller: its state, its order queue, and the actions it takes on each
//! event from the hardware, the door timer and the decision module.
use vstd::prelude::*;
use crate::common::{orders_seq, ElevatorState, Order, OrderStatus, OrderView, DIRN_DOWN, DIRN_STOP, DIRN_UP};
use crate::ids::IdSet;

verus! {

/// Something the controller asks its surroundings to do.
#[derive(Clone, Debug)]
pub enum ElevatorAction {
    /// Drive the motor (down: 255, stop: 0, up: 1).
    MotorDirection(u8),
    /// Show the floor on the floor indicator.
    FloorIndicator(u8),
    /// Switch a call button light.
    CallButtonLight { floor: u8, call: u8, on: bool },
    /// Switch the door light.
    DoorLight(bool),
    /// Report a button press to the decision module.
    NewOrder(Order),
    /// Report a served floor to the decision module.
    OrderCompleted(u8),
    /// Send on the door channel: `false` opens the door, `true` asks to close it.
    DoorSignal(bool),
    /// Stop the running door timer and start a new one, which sends `DoorSignal(true)` after 3 s.
    RestartDoorTimer,
    /// Publish the state to the decision module.
    PublishState(ElevatorState),
}

/// The controller of one elevator.
pub struct ElevatorController {
    pub state: ElevatorState,
    pub queue: Vec<Order>,
    pub num_of_floors: u8,
}

/// The mathematical value of a controller.
pub struct ControllerView {
    pub state: ElevatorState,
    pub queue: Seq<OrderView>,
    pub num_of_floors: u8,
}

impl View for ElevatorController {
    type V = ControllerView;

    open spec fn view(&self) -> ControllerView {
        ControllerView { state: self.state, queue: orders_seq(self.queue@), num_of_floors: self.num_of_floors }
    }
}

/// The state a controller starts in: floor unknown, going down, nothing else set.
pub open spec fn initial_state() -> ElevatorState {
    ElevatorState {
        current_floor: u8::MAX,
        prev_floor: u8::MAX,
        current_direction: DIRN_DOWN,
        prev_direction: DIRN_STOP,
        emergency_stop: false,
        obstruction: false,
        door_open: false,
    }
}

/// The light switches that turn off every call button light of the first `n` floors.
pub open spec fn lights_off(n: nat) -> Seq<ElevatorAction>
    decreases n,
{
    if n == 0 {
        Seq::empty()
    } else {
        lights_off((n - 1) as nat) + floor_lights_off((n - 1) as u8)
    }
}

/// The light switches that turn off the three call button lights of `floor`.
pub open spec fn floor_lights_off(floor: u8) -> Seq<ElevatorAction> {
    seq![
        ElevatorAction::CallButtonLight { floor, call: 0, on: false },
        ElevatorAction::CallButtonLight { floor, call: 1, on: false },
        ElevatorAction::CallButtonLight { floor, call: 2, on: false },
    ]
}

/// The queue without the orders at `floor`, in order.
pub open spec fn without_floor(q: Seq<OrderView>, floor: u8) -> Seq<OrderView>
    decreases q.len(),
{
    if q.len() == 0 {
        q
    } else if q.last().floor == floor {
        without_floor(q.drop_last(), floor)
    } else {
        without_floor(q.drop_last(), floor).push(q.last())
    }
}

/// Some order of the queue is at `floor`.
pub open spec fn has_floor(q: Seq<OrderView>, floor: u8) -> bool {
    exists|i: int| 0 <= i < q.len() && (#[trigger] q[i]).floor == floor
}

/// What serving `floor` does: report it, turn its lights off (the queue loses its orders).
pub open spec fn removal_actions(floor: u8) -> Seq<ElevatorAction> {
    seq![ElevatorAction::OrderCompleted(floor)] + floor_lights_off(floor)
}

/// The controller after the floor sensor reports `floor`, with the actions taken.
pub open spec fn floor_reached(c: ControllerView, floor: u8) -> (ControllerView, Seq<ElevatorAction>) {
    let at_end = floor == 0 || floor == c.num_of_floors - 1;
    let d1 = if at_end { DIRN_STOP } else { c.state.current_direction };
    let empty = c.queue.len() == 0;
    let d2 = if empty { DIRN_STOP } else { d1 };
    let stop = has_floor(c.queue, floor);
    let state = ElevatorState {
        current_floor: floor,
        prev_floor: c.state.current_floor,
        current_direction: if stop { DIRN_STOP } else { d2 },
        prev_direction: if stop { d2 } else { c.state.prev_direction },
        ..c.state
    };
    let actions = seq![ElevatorAction::FloorIndicator(floor)] + (if at_end {
        seq![ElevatorAction::MotorDirection(DIRN_STOP)]
    } else {
        Seq::empty()
    }) + (if empty {
        seq![ElevatorAction::MotorDirection(DIRN_STOP)]
    } else {
        Seq::empty()
    }) + (if stop {
        seq![ElevatorAction::MotorDirection(DIRN_STOP)] + removal_actions(floor) + seq![
            ElevatorAction::DoorSignal(false),
            ElevatorAction::RestartDoorTimer,
        ]
    } else {
        Seq::empty()
    });
    (
        ControllerView {
            state,
            queue: if stop { without_floor(c.queue, floor) } else { c.queue },
            num_of_floors: c.num_of_floors,
        },
        actions,
    )
}

/// The state after a door signal: it closes only on a close request without obstruction.
pub open spec fn door_after(s: ElevatorState, closing: bool) -> ElevatorState {
    ElevatorState { door_open: !(closing && !s.obstruction), ..s }
}

/// The controller's decision when it is idle: serve the first order in the queue.
pub open spec fn logic_step(c: ControllerView) -> (ControllerView, Seq<ElevatorAction>) {
    if c.state.current_direction == DIRN_STOP && c.queue.len() > 0 && !c.state.door_open {
        let order = c.queue[0];
        if order.floor == c.state.current_floor {
            (
                ControllerView { queue: without_floor(c.queue, order.floor), ..c },
                removal_actions(order.floor) + seq![
                    ElevatorAction::DoorSignal(false),
                    ElevatorAction::RestartDoorTimer,
                    ElevatorAction::PublishState(c.state),
                ],
            )
        } else {
            let dirn = if order.floor > c.state.current_floor { DIRN_UP } else { DIRN_DOWN };
            let state = ElevatorState {
                prev_direction: c.state.current_direction,
                current_direction: dirn,
                ..c.state
            };
            (
                ControllerView { state, ..c },
                seq![ElevatorAction::MotorDirection(dirn), ElevatorAction::PublishState(state)],
            )
        }
    } else {
        (c, seq![ElevatorAction::PublishState(c.state)])
    }
}

/// The controller with another state.
pub open spec fn with_state(c: ControllerView, s: ElevatorState) -> ControllerView {
    ControllerView { state: s, ..c }
}

/// The controller with another queue.
pub open spec fn with_queue(c: ControllerView, q: Seq<OrderView>) -> ControllerView {
    ControllerView { queue: q, ..c }
}

/// The state after the stop button: emergency stop, direction stop.
pub open spec fn stop_pressed(s: ElevatorState) -> ElevatorState {
    ElevatorState { emergency_stop: true, current_direction: DIRN_STOP, ..s }
}

/// The state with the obstruction flag set to `obstr`.
pub open spec fn obstruction_set(s: ElevatorState, obstr: bool) -> ElevatorState {
    ElevatorState { obstruction: obstr, ..s }
}

/// The door timer restarts when the obstruction clears.
pub open spec fn obstruction_actions(obstr: bool) -> Seq<ElevatorAction> {
    if obstr {
        Seq::empty()
    } else {
        seq![ElevatorAction::RestartDoorTimer]
    }
}

/// A call button light switch.
pub open spec fn light(floor: u8, call: u8, on: bool) -> ElevatorAction {
    ElevatorAction::CallButtonLight { floor, call, on }
}

/// The order a call button press reports.
pub open spec fn pressed_order(floor: u8, call: u8, source: Seq<char>) -> OrderView {
    OrderView {
        call,
        floor,
        status: OrderStatus::Requested,
        barrier: Set::empty(),
        source_id: Set::empty().insert(source),
    }
}

/// The action reports `o` to the decision module.
pub open spec fn reports(a: ElevatorAction, o: OrderView) -> bool {
    match a {
        ElevatorAction::NewOrder(x) => x@ == o,
        _ => false,
    }
}

impl ElevatorController {
    /// The controller serves at least one floor.
    pub open spec fn wf(&self) -> bool {
        self.num_of_floors >= 1
    }

    /// A controller for `num_of_floors` floors in its initial state with an empty queue.
    pub fn new(num_of_floors: u8) -> (r: ElevatorController)
        ensures
            r.state == initial_state(),
            r.queue@.len() == 0,
            r.num_of_floors == num_of_floors,
    {
        ElevatorController {
            state: ElevatorState {
                current_floor: u8::MAX,
                prev_floor: u8::MAX,
                current_direction: DIRN_DOWN,
                prev_direction: DIRN_STOP,
                emergency_stop: false,
                door_open: false,
                obstruction: false,
            },
            queue: Vec::new(),
            num_of_floors,
        }
    }

    /// What the controller does when it starts: all call button lights off, the door light
    /// off, the motor in the current direction.
    pub fn startup_actions(&self) -> (actions: Vec<ElevatorAction>)
        ensures
            actions@ == lights_off(self.num_of_floors as nat) + seq![
                ElevatorAction::DoorLight(false),
                ElevatorAction::MotorDirection(self.state.current_direction),
            ],
    {
        let mut actions: Vec<ElevatorAction> = Vec::new();
        for i in 0..self.num_of_floors
            invariant
                actions@ == lights_off(i as nat),
        {
            for j in 0..3u8
                invariant
                    actions@ == lights_off(i as nat) + floor_lights_off(i).take(j as int),
            {
                actions.push(ElevatorAction::CallButtonLight { floor: i, call: j, on: false });
                assert(floor_lights_off(i).take(j + 1) =~= floor_lights_off(i).take(j as int).push(
                    ElevatorAction::CallButtonLight { floor: i, call: j, on: false },
                ));
            }
            assert(floor_lights_off(i).take(3) =~= floor_lights_off(i));
        }
        actions.push(ElevatorAction::DoorLight(false));
        actions.push(ElevatorAction::MotorDirection(self.state.current_direction));
        actions
    }

    /// A call button was pressed: report a requested order from `source` to the decision module.
    pub fn on_call_button(&self, floor: u8, call: u8, source: String) -> (actions: Vec<ElevatorAction>)
        ensures
            actions@.len() == 1,
            reports(actions@[0], pressed_order(floor, call, source@)),
    {
        let mut source_id = IdSet::new();
        source_id.insert(source);
        let order = Order { call, floor, status: OrderStatus::Requested, barrier: IdSet::new(), source_id };
        let mut actions: Vec<ElevatorAction> = Vec::new();
        actions.push(ElevatorAction::NewOrder(order));
        actions
    }

    /// Removes every order at `floor` from the queue, reports the floor as served and turns its
    /// lights off; reports whether some order was removed.
    pub fn remove_order(&mut self, floor: u8, actions: &mut Vec<ElevatorAction>) -> (removed: bool)
        ensures
            final(self)@ == with_queue(old(self)@, without_floor(old(self)@.queue, floor)),
            removed == has_floor(old(self)@.queue, floor),
            final(actions)@ == old(actions)@ + removal_actions(floor),
    {
        actions.push(ElevatorAction::OrderCompleted(floor));
        for i in 0..3u8
            invariant
                actions@ == old(actions)@ + seq![ElevatorAction::OrderCompleted(floor)] + floor_lights_off(floor).take(i as int),
        {
            actions.push(ElevatorAction::CallButtonLight { floor, call: i, on: false });
            assert(floor_lights_off(floor).take(i + 1) =~= floor_lights_off(floor).take(i as int).push(
                ElevatorAction::CallButtonLight { floor, call: i, on: false },
            ));
        }
        assert(floor_lights_off(floor).take(3) =~= floor_lights_off(floor));
        assert(actions@ =~= old(actions)@ + removal_actions(floor));
        let original_len = self.queue.len();
        let ghost q0 = orders_seq(self.queue@);
        let mut kept: Vec<Order> = Vec::new();
        let mut queue: Vec<Order> = Vec::new();
        std::mem::swap(&mut queue, &mut self.queue);
        let n = queue.len();
        for i in 0..n
            invariant
                n == queue@.len(),
                q0 == orders_seq(queue@),
                orders_seq(kept@) == without_floor(q0.take(i as int), floor),
                kept@.len() <= i,
                kept@.len() == i ==> !has_floor(q0.take(i as int), floor),
                kept@.len() < i ==> has_floor(q0.take(i as int), floor),
        {
            assert(q0.take(i + 1).drop_last() =~= q0.take(i as int));
            assert(q0.take(i + 1).last() == queue@[i as int]@);
            if queue[i].floor != floor {
                let ghost before = orders_seq(kept@);
                kept.push(queue[i].duplicate());
                assert(orders_seq(kept@) =~= before.push(queue@[i as int]@));
            }
            proof {
                if has_floor(q0.take(i as int), floor) {
                    let w = choose|w: int| 0 <= w < q0.take(i as int).len() && (#[trigger] q0.take(i as int)[w]).floor == floor;
                    assert(q0.take(i + 1)[w] == q0.take(i as int)[w]);
                }
                if has_floor(q0.take(i + 1), floor) && !has_floor(q0.take(i as int), floor) {
                    let w = choose|w: int| 0 <= w < q0.take(i + 1).len() && (#[trigger] q0.take(i + 1)[w]).floor == floor;
                    if w < i {
                        assert(q0.take(i as int)[w] == q0.take(i + 1)[w]);
                    }
                }
                if queue@[i as int].floor == floor {
                    assert(q0.take(i + 1)[i as int].floor == floor);
                }
            }
        }
        assert(q0.take(n as int) =~= q0);
        self.queue = kept;
        self.queue.len() < original_len
    }

    /// The floor sensor reports `floor` (see `floor_reached`).
    pub fn on_floor_sensor(&mut self, floor: u8) -> (actions: Vec<ElevatorAction>)
        requires
            old(self).wf(),
        ensures
            final(self).wf(),
            (final(self)@, actions@) == floor_reached(old(self)@, floor),
    {
        let mut actions: Vec<ElevatorAction> = Vec::new();
        actions.push(ElevatorAction::FloorIndicator(floor));
        self.state.prev_floor = self.state.current_floor;
        self.state.current_floor = floor;
        if self.state.current_floor == 0 {
            self.state.current_direction = DIRN_STOP;
            actions.push(ElevatorAction::MotorDirection(DIRN_STOP));
        } else if self.state.current_floor == self.num_of_floors - 1 {
            self.state.current_direction = DIRN_STOP;
            actions.push(ElevatorAction::MotorDirection(DIRN_STOP));
        }
        if self.queue.len() == 0 {
            self.state.current_direction = DIRN_STOP;
            actions.push(ElevatorAction::MotorDirection(DIRN_STOP));
        }
        let mut should_stop = false;
        let n = self.queue.len();
        for i in 0..n
            invariant
                n == self.queue@.len(),
                should_stop == exists|k: int| 0 <= k < i && (#[trigger] self.queue@[k]).floor == floor,
        {
            if self.queue[i].floor == floor {
                should_stop = true;
            }
        }
        proof {
            let q = orders_seq(self.queue@);
            if should_stop {
                let k = choose|k: int| 0 <= k < n && (#[trigger] self.queue@[k]).floor == floor;
                assert(q[k].floor == floor);
            }
            if has_floor(q, floor) {
                let k = choose|k: int| 0 <= k < q.len() && (#[trigger] q[k]).floor == floor;
                assert(self.queue@[k].floor == floor);
            }
        }
        if should_stop {
            actions.push(ElevatorAction::MotorDirection(DIRN_STOP));
            self.state.prev_direction = self.state.current_direction;
            self.state.current_direction = DIRN_STOP;
        }
        if should_stop {
            let _removed = self.remove_order(floor, &mut actions);
            actions.push(ElevatorAction::DoorSignal(false));
            actions.push(ElevatorAction::RestartDoorTimer);
        }
        assert(actions@ =~= floor_reached(old(self)@, floor).1);
        actions
    }

    /// The stop button was pressed: emergency stop.
    pub fn on_stop_button(&mut self, stop: bool) -> (actions: Vec<ElevatorAction>)
        ensures
            final(self)@ == with_state(old(self)@, stop_pressed(old(self).state)),
            actions@ == seq![ElevatorAction::MotorDirection(DIRN_STOP)],
    {
        self.state.emergency_stop = true;
        self.state.current_direction = DIRN_STOP;
        let mut actions: Vec<ElevatorAction> = Vec::new();
        actions.push(ElevatorAction::MotorDirection(DIRN_STOP));
        actions
    }

    /// The obstruction switch changed; when it clears, the door timer starts again.
    pub fn on_obstruction(&mut self, obstr: bool) -> (actions: Vec<ElevatorAction>)
        ensures
            final(self)@ == with_state(old(self)@, obstruction_set(old(self).state, obstr)),
            actions@ == obstruction_actions(obstr),
    {
        self.state.obstruction = obstr;
        let mut actions: Vec<ElevatorAction> = Vec::new();
        if !self.state.obstruction {
            actions.push(ElevatorAction::RestartDoorTimer);
        }
        assert(actions@ =~= obstruction_actions(obstr));
        actions
    }

    /// A door signal arrived: a close request closes the door unless it is obstructed;
    /// anything else opens it. The door light follows.
    pub fn on_door_signal(&mut self, door_closing: bool) -> (actions: Vec<ElevatorAction>)
        ensures
            final(self)@ == with_state(old(self)@, door_after(old(self).state, door_closing)),
            actions@ == seq![ElevatorAction::DoorLight(door_after(old(self).state, door_closing).door_open)],
    {
        if door_closing && !self.state.obstruction {
            self.state.door_open = false;
        } else {
            self.state.door_open = true;
        }
        let mut actions: Vec<ElevatorAction> = Vec::new();
        actions.push(ElevatorAction::DoorLight(self.state.door_open));
        actions
    }

    /// The decision module assigned `orders`: they become the queue.
    pub fn add_order(&mut self, orders: Vec<Order>)
        ensures
            final(self)@ == with_queue(old(self)@, orders_seq(orders@)),
    {
        self.queue = orders;
    }

    /// Lights for orders the decision module reports: on for confirmed ones, off for ones
    /// completed by another elevator.
    pub fn order_lights(&self, orders: &Vec<Order>, on: bool) -> (actions: Vec<ElevatorAction>)
        ensures
            actions@.len() == orders@.len(),
            forall|i: int| 0 <= i < orders@.len() ==> #[trigger] actions@[i] == light(orders@[i].floor, orders@[i].call, on),
    {
        let mut actions: Vec<ElevatorAction> = Vec::new();
        let n = orders.len();
        for i in 0..n
            invariant
                n == orders@.len(),
                actions@.len() == i,
                forall|k: int| 0 <= k < i ==> #[trigger] actions@[k] == light(orders@[k].floor, orders@[k].call, on),
        {
            actions.push(ElevatorAction::CallButtonLight { floor: orders[i].floor, call: orders[i].call, on });
        }
        actions
    }

    /// The movement logic (see `logic_step`), ending with the state being published.
    pub fn step_logic(&mut self) -> (actions: Vec<ElevatorAction>)
        ensures
            (final(self)@, actions@) == logic_step(old(self)@),
            final(self).num_of_floors == old(self).num_of_floors,
    {
        let mut actions: Vec<ElevatorAction> = Vec::new();
        let mut door_should_open = false;
        let mut should_change_direction = false;
        let mut dirn = DIRN_STOP;
        if self.state.current_direction == DIRN_STOP && self.queue.len() > 0 {
            if !self.state.door_open {
                let order_floor = self.queue[0].floor;
                if order_floor == self.state.current_floor {
                    let _removed = self.remove_order(order_floor, &mut actions);
                    door_should_open = true;
                } else if order_floor > self.state.current_floor {
                    dirn = DIRN_UP;
                    should_change_direction = true;
                } else if order_floor < self.state.current_floor {
                    dirn = DIRN_DOWN;
                    should_change_direction = true;
                }
            }
        }
        if door_should_open {
            actions.push(ElevatorAction::DoorSignal(false));
            actions.push(ElevatorAction::RestartDoorTimer);
        }
        if should_change_direction {
            self.state.prev_direction = self.state.current_direction;
            self.state.current_direction = dirn;
            actions.push(ElevatorAction::MotorDirection(dirn));
        }
        actions.push(ElevatorAction::PublishState(self.state));
        assert(actions@ =~= logic_step(old(self)@).1);
        actions
    }
}

} // verus!
