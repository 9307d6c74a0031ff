//! The data exchanged between the elevator, the decision module and the network.
use vstd::prelude::*;
use crate::ids::IdSet;

verus! {

/// The number of floors served.
pub const NUM_OF_FLOORS: u8 = 4;

/// Motor direction code for moving down (the driver's `DIRN_DOWN`).
pub const DIRN_DOWN: u8 = 255;

/// Motor direction code for standing still (the driver's `DIRN_STOP`).
pub const DIRN_STOP: u8 = 0;

/// Motor direction code for moving up (the driver's `DIRN_UP`).
pub const DIRN_UP: u8 = 1;

/// What one elevator reports about itself.
#[derive(Clone, Copy, Debug, PartialEq, Eq, Structural)]
pub struct ElevatorState {
    pub current_floor: u8,
    pub prev_floor: u8,
    /// down: 255, stop: 0, up: 1
    pub current_direction: u8,
    pub prev_direction: u8,
    pub emergency_stop: bool,
    pub obstruction: bool,
    pub door_open: bool,
}

/// The life cycle of an order: no order, requested, confirmed by all alive peers, completed.
#[derive(Clone, Copy, Debug, PartialEq, Eq, Structural)]
pub enum OrderStatus {
    Noorder,
    Requested,
    Confirmed,
    Completed,
}

/// A hall order (call 0: up, 1: down) or a cab order (call 2) at a floor.
#[derive(Clone, Debug)]
pub struct Order {
    pub call: u8,
    pub floor: u8,
    pub status: OrderStatus,
    /// The peers that have seen the current status (the consensus barrier).
    pub barrier: IdSet,
    /// The elevators the order came from.
    pub source_id: IdSet,
}

/// The mathematical value of an order.
pub struct OrderView {
    pub call: u8,
    pub floor: u8,
    pub status: OrderStatus,
    pub barrier: Set<Seq<char>>,
    pub source_id: Set<Seq<char>>,
}

impl View for Order {
    type V = OrderView;

    open spec fn view(&self) -> OrderView {
        OrderView {
            call: self.call,
            floor: self.floor,
            status: self.status,
            barrier: self.barrier@,
            source_id: self.source_id@,
        }
    }
}

impl Order {
    /// A copy of the order.
    pub fn duplicate(&self) -> (r: Order)
        ensures
            r@ == self@,
    {
        Order {
            call: self.call,
            floor: self.floor,
            status: self.status,
            barrier: self.barrier.duplicate(),
            source_id: self.source_id.duplicate(),
        }
    }
}

/// The views of a list of orders.
pub open spec fn orders_seq(v: Seq<Order>) -> Seq<OrderView> {
    v.map_values(|o: Order| o@)
}

/// The views of the order lists of all elevators.
pub open spec fn book_view(e: Seq<(String, Vec<Order>)>) -> Seq<(Seq<char>, Seq<OrderView>)> {
    e.map_values(|p: (String, Vec<Order>)| (p.0@, orders_seq(p.1@)))
}

/// The message every peer broadcasts: its orders per elevator and the known elevator states.
#[derive(Clone, Debug)]
pub struct BroadcastMessage {
    pub source_id: String,
    /// Like an order identifier, but for the whole message.
    pub version: u64,
    /// Orders per elevator identifier.
    pub orders: Vec<(String, Vec<Order>)>,
    /// States per elevator identifier.
    pub states: Vec<(String, ElevatorState)>,
}

/// The mathematical value of a broadcast message.
pub struct MessageView {
    pub source_id: Seq<char>,
    pub version: u64,
    pub orders: Seq<(Seq<char>, Seq<OrderView>)>,
    pub states: Seq<(Seq<char>, ElevatorState)>,
}

impl View for BroadcastMessage {
    type V = MessageView;

    open spec fn view(&self) -> MessageView {
        MessageView {
            source_id: self.source_id@,
            version: self.version,
            orders: book_view(self.orders@),
            states: crate::assoc::key_view(self.states@),
        }
    }
}

impl BroadcastMessage {
    /// An empty message from `source_id` with the given version.
    pub fn new(version: u64, source_id: String) -> (r: BroadcastMessage)
        ensures
            r.source_id == source_id,
            r.version == version,
            r.orders@.len() == 0,
            r.states@.len() == 0,
    {
        BroadcastMessage { source_id, version, orders: Vec::new(), states: Vec::new() }
    }

    /// A copy of the message.
    pub fn duplicate(&self) -> (r: BroadcastMessage)
        ensures
            r@ == self@,
    {
        let mut orders: Vec<(String, Vec<Order>)> = Vec::new();
        let n = self.orders.len();
        for i in 0..n
            invariant
                n == self.orders@.len(),
                orders@.len() == i,
                forall|k: int| 0 <= k < i ==> #[trigger] book_view(orders@)[k] == book_view(self.orders@)[k],
        {
            let mut l: Vec<Order> = Vec::new();
            let m = self.orders[i].1.len();
            for j in 0..m
                invariant
                    0 <= i < n,
                    n == self.orders@.len(),
                    m == self.orders@[i as int].1@.len(),
                    l@.len() == j,
                    forall|k: int| 0 <= k < j ==> (#[trigger] l@[k])@ == self.orders@[i as int].1@[k]@,
            {
                l.push(self.orders[i].1[j].duplicate());
            }
            assert(orders_seq(l@) =~= orders_seq(self.orders@[i as int].1@));
            let ghost before = orders@;
            let ghost lv = l@;
            let key = self.orders[i].0.clone();
            orders.push((key, l));
            assert forall|k: int| 0 <= k < i + 1 implies #[trigger] book_view(orders@)[k] == book_view(self.orders@)[k] by {
                if k < i {
                    assert(orders@[k] == before[k]);
                    assert(book_view(before)[k] == book_view(self.orders@)[k]);
                } else {
                    assert(orders@[k].1@ == lv);
                    assert(orders@[k].0 == self.orders@[k].0);
                }
            }
        }
        let mut states: Vec<(String, ElevatorState)> = Vec::new();
        let n = self.states.len();
        for i in 0..n
            invariant
                n == self.states@.len(),
                states@.len() == i,
                forall|k: int| 0 <= k < i ==> #[trigger] states@[k] == self.states@[k],
        {
            states.push((self.states[i].0.clone(), self.states[i].1));
        }
        let r = BroadcastMessage { source_id: self.source_id.clone(), version: self.version, orders, states };
        assert(book_view(r.orders@) =~= book_view(self.orders@));
        assert(crate::assoc::key_view(r.states@) =~= crate::assoc::key_view(self.states@));
        r
    }
}

/// The input of the hall request assigner (hall requests per floor, and the elevator states).
#[derive(Clone, Debug)]
#[allow(non_snake_case)]
pub struct ElevatorSystem {
    pub hallRequests: Vec<Vec<bool>>,
    pub states: Vec<(String, ElevatorState)>,
}

/// Motion directions as the hall request assigner names them.
#[derive(Clone, Copy, Debug, PartialEq, Eq, Structural)]
#[allow(non_camel_case_types)]
pub enum Directions {
    up,
    down,
    stop,
}

/// Elevator behaviours as the hall request assigner names them.
#[derive(Clone, Copy, Debug, PartialEq, Eq, Structural)]
#[allow(non_camel_case_types)]
pub enum Behaviour {
    idle,
    moving,
    doorOpen,
}

/// Whether one elevator is alive.
#[derive(Clone, Debug)]
pub struct ElevatorStatus {
    pub id: String,
    pub is_alive: bool,
}

/// Alive/dead status per elevator, with the time (in nanoseconds) of its last heartbeat.
#[derive(Clone, Debug)]
pub struct AliveDeadInfo {
    pub elevators: Vec<(String, ElevatorStatus)>,
    pub last_heartbeat: Vec<(String, u64)>,
}

/// The alive flag per elevator, keyed by the view of the identifier.
pub open spec fn alive_view(e: Seq<(String, ElevatorStatus)>) -> Seq<(Seq<char>, bool)> {
    e.map_values(|p: (String, ElevatorStatus)| (p.0@, p.1.is_alive))
}

impl AliveDeadInfo {
    /// Identifiers are unique among the statuses and among the heartbeats, and every status
    /// carries the identifier it is kept under.
    pub open spec fn wf(&self) -> bool {
        &&& crate::assoc::keys_unique(alive_view(self.elevators@))
        &&& crate::assoc::keys_unique(crate::assoc::key_view(self.last_heartbeat@))
        &&& forall|i: int| 0 <= i < self.elevators@.len() ==> (#[trigger] self.elevators@[i]).1.id@ == self.elevators@[i].0@
    }

    /// No elevator known.
    pub fn new() -> (r: AliveDeadInfo)
        ensures
            r.wf(),
            r.elevators@.len() == 0,
            r.last_heartbeat@.len() == 0,
    {
        AliveDeadInfo { elevators: Vec::new(), last_heartbeat: Vec::new() }
    }

    /// Records whether elevator `id` is alive; an existing entry keeps its key and gets the new status.
    pub fn update_elevator_status(&mut self, id: String, is_alive: bool)
        requires
            old(self).wf(),
        ensures
            final(self).wf(),
            alive_view(final(self).elevators@) == crate::assoc::put(alive_view(old(self).elevators@), id@, is_alive),
            final(self).last_heartbeat == old(self).last_heartbeat,
            match crate::assoc::find_key_spec(old(self).elevators@, id@) {
                Some(k) => final(self).elevators@ == old(self).elevators@.update(
                    k,
                    (old(self).elevators@[k].0, ElevatorStatus { id, is_alive }),
                ),
                None => final(self).elevators@ == old(self).elevators@.push(
                    (id, ElevatorStatus { id, is_alive }),
                ),
            },
    {
        let ghost b = alive_view(self.elevators@);
        let ghost idv = id@;
        proof {
            crate::assoc::lemma_find_key_spec(self.elevators@, id@);
        }
        match crate::assoc::find_key(&self.elevators, &id) {
            Some(k) => {
                let key = self.elevators[k].0.clone();
                self.elevators.set(k, (key, ElevatorStatus { id, is_alive }));
                proof {
                    assert(b[k as int].0 == idv);
                    assert forall|i: int| 0 <= i < b.len() && i != k implies b[i].0 != idv by {}
                    assert(alive_view(self.elevators@) =~= crate::assoc::put(b, idv, is_alive));
                }
            },
            None => {
                let key = id.clone();
                let ghost before = self.elevators@;
                self.elevators.push((key, ElevatorStatus { id, is_alive }));
                proof {
                    assert forall|i: int| 0 <= i < b.len() implies b[i].0 != idv by {
                        assert((before[i]).0@ != idv);
                    }
                    assert(alive_view(self.elevators@) =~= b.push((idv, is_alive)));
                }
            },
        }
    }

    /// The alive flag of every known elevator, in entry order.
    pub fn to_id_bool_map(&self) -> (r: Vec<(String, bool)>)
        ensures
            crate::assoc::key_view(r@) == alive_view(self.elevators@),
            r@.len() == self.elevators@.len(),
            forall|i: int|
                0 <= i < r@.len() ==> (#[trigger] r@[i]).0 == self.elevators@[i].0 && r@[i].1
                    == self.elevators@[i].1.is_alive,
    {
        let mut r: Vec<(String, bool)> = Vec::new();
        let n = self.elevators.len();
        for i in 0..n
            invariant
                n == self.elevators@.len(),
                r@.len() == i,
                forall|j: int|
                    0 <= j < i ==> (#[trigger] r@[j]).0 == self.elevators@[j].0 && r@[j].1
                        == self.elevators@[j].1.is_alive,
        {
            r.push((self.elevators[i].0.clone(), self.elevators[i].1.is_alive));
        }
        assert(crate::assoc::key_view(r@) =~= alive_view(self.elevators@));
        r
    }
}

} // verus!
