//! Decision, elevator-control and heartbeat logic of a networked elevator system.
//!
//! Every peer keeps a book of orders per elevator and broadcasts it. Orders move through
//! no order, requested, confirmed and completed; a request is confirmed, and a completion
//! retired, once every alive peer has seen it. An external assigner decides which elevator
//! serves which hall order; the elevator controller serves its queue.
mod assigner;
mod assoc;
mod common;
mod decision;
mod elevator;
mod ids;
mod laws;
mod network;
mod pairing;
mod round;

pub use assigner::{HraElevator, HraInput, MAX_FLOORS};
pub use assoc::{find_key, keys_unique};
pub use common::{
    AliveDeadInfo, Behaviour, BroadcastMessage, Directions, ElevatorState, ElevatorStatus,
    ElevatorSystem, MessageView, Order, OrderStatus, OrderView, DIRN_DOWN, DIRN_STOP, DIRN_UP,
    NUM_OF_FLOORS,
};
pub use decision::{merge_status, Decision, DecisionEvent, StepOutput};
pub use elevator::{ElevatorAction, ElevatorController};
pub use ids::IdSet;
pub use network::{generateIDs, get_ip, is_own_message, HeartbeatMonitor, NetInterface, STUCK_NS};
pub use pairing::{Pairing, PairingAction};
pub use round::AssignerError;
