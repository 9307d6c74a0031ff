//! Hall order assignment: the input handed to the external assigner, and how its answer
//! redistributes the orders between the elevators.
use vstd::prelude::*;
use crate::assoc::{find_key, keys_unique, lemma_find_key_spec};
use crate::common::{book_view, orders_seq, Behaviour, Directions, ElevatorState, Order, OrderStatus, OrderView, DIRN_DOWN, DIRN_STOP, DIRN_UP};
use crate::decision::{dead_view, push_order, push_to_entry, same_slot, BookView, Decision};

verus! {

/// The number of floors the assigner is told about.
pub const MAX_FLOORS: usize = 4;

/// One elevator as the assigner sees it.
#[derive(Clone, Debug)]
pub struct HraElevator {
    pub behaviour: Behaviour,
    pub floor: u8,
    pub direction: Directions,
    /// Per floor 1 to 4: whether a confirmed cab order is known there.
    pub cab_requests: Vec<bool>,
}

/// What the assigner is asked: hall requests per floor and direction, and the alive elevators.
#[derive(Clone, Debug)]
pub struct HraInput {
    pub hall_requests: Vec<Vec<bool>>,
    pub states: Vec<(String, HraElevator)>,
}

/// The mathematical value of an elevator as the assigner sees it.
pub struct HraElevatorView {
    pub behaviour: Behaviour,
    pub floor: u8,
    pub direction: Directions,
    pub cab_requests: Seq<bool>,
}

/// The view of an elevator as the assigner sees it.
pub open spec fn hra_elevator_view(h: HraElevator) -> HraElevatorView {
    HraElevatorView { behaviour: h.behaviour, floor: h.floor, direction: h.direction, cab_requests: h.cab_requests@ }
}

/// Some order anywhere in the book is for `floor` and `call` and has status `st`.
pub open spec fn slot_has_status(e: BookView, floor: int, call: int, st: OrderStatus) -> bool {
    exists|i: int, j: int|
        0 <= i < e.len() && 0 <= j < e[i].1.len() && (#[trigger] e[i].1[j]).floor == floor && e[i].1[j].call == call
            && e[i].1[j].status == st
}

/// Behaviour of an elevator: door open, else moving when the direction is not stop, else idle.
pub open spec fn behaviour_of(s: ElevatorState) -> Behaviour {
    if s.door_open {
        Behaviour::doorOpen
    } else if s.current_direction != DIRN_STOP {
        Behaviour::moving
    } else {
        Behaviour::idle
    }
}

/// Direction of an elevator: down, up, else stop.
pub open spec fn direction_of(s: ElevatorState) -> Directions {
    if s.current_direction == DIRN_DOWN {
        Directions::down
    } else if s.current_direction == DIRN_UP {
        Directions::up
    } else {
        Directions::stop
    }
}

/// How the assigner sees an elevator in state `s`: cab requests are the confirmed cab orders
/// at floors 1 to 4 of any elevator.
pub open spec fn hra_elevator(s: ElevatorState, e: BookView) -> HraElevatorView {
    HraElevatorView {
        behaviour: behaviour_of(s),
        floor: s.current_floor,
        direction: direction_of(s),
        cab_requests: Seq::new(MAX_FLOORS as nat, |f: int| slot_has_status(e, f + 1, 2, OrderStatus::Confirmed)),
    }
}

/// Elevator `id` is marked dead.
pub open spec fn is_dead(d: Seq<(Seq<char>, bool)>, id: Seq<char>) -> bool {
    exists|k: int| 0 <= k < d.len() && #[trigger] d[k].0 == id && d[k].1
}

/// The elevators handed to the assigner among the first `n` states: those not marked dead.
pub open spec fn hra_states(s: Seq<(Seq<char>, ElevatorState)>, d: Seq<(Seq<char>, bool)>, e: BookView, n: nat) -> Seq<(Seq<char>, HraElevatorView)>
    decreases n,
{
    if n == 0 || n > s.len() {
        Seq::empty()
    } else {
        let prev = hra_states(s, d, e, (n - 1) as nat);
        if is_dead(d, s[n - 1].0) {
            prev
        } else {
            prev.push((s[n - 1].0, hra_elevator(s[n - 1].1, e)))
        }
    }
}

/// Every confirmed hall order is at a floor the assigner knows.
pub open spec fn hall_floors_known(e: BookView) -> bool {
    forall|i: int, j: int|
        0 <= i < e.len() && 0 <= j < e[i].1.len() && (#[trigger] e[i].1[j]).status == OrderStatus::Confirmed
            && e[i].1[j].call < 2 ==> e[i].1[j].floor < MAX_FLOORS
}

/// Whether some order is for `floor` and `call` and has status `st`.
fn slot_has_status_exec(e: &Vec<(String, Vec<Order>)>, floor: u8, call: u8, st: OrderStatus) -> (r: bool)
    ensures
        r == slot_has_status(book_view(e@), floor as int, call as int, st),
{
    let ghost b = book_view(e@);
    let n = e.len();
    for i in 0..n
        invariant
            n == e@.len(),
            b == book_view(e@),
            forall|k: int, j: int|
                0 <= k < i && 0 <= j < b[k].1.len() ==> !((#[trigger] b[k].1[j]).floor == floor && b[k].1[j].call == call
                    && b[k].1[j].status == st),
    {
        let m = e[i].1.len();
        assert(b[i as int].1 == orders_seq(e@[i as int].1@));
        for j in 0..m
            invariant
                n == e@.len(),
                0 <= i < n,
                b == book_view(e@),
                m == e@[i as int].1@.len(),
                b[i as int].1 == orders_seq(e@[i as int].1@),
                forall|k: int, jj: int|
                    0 <= k < i && 0 <= jj < b[k].1.len() ==> !((#[trigger] b[k].1[jj]).floor == floor && b[k].1[jj].call == call
                        && b[k].1[jj].status == st),
                forall|jj: int|
                    0 <= jj < j ==> !((#[trigger] b[i as int].1[jj]).floor == floor && b[i as int].1[jj].call == call
                        && b[i as int].1[jj].status == st),
        {
            if e[i].1[j].floor == floor && e[i].1[j].call == call && e[i].1[j].status == st {
                assert(b[i as int].1[j as int] == e@[i as int].1@[j as int]@);
                return true;
            }
        }
    }
    false
}

/// Whether elevator `id` is marked dead.
fn is_dead_exec(d: &Vec<(String, bool)>, id: &String) -> (r: bool)
    requires
        keys_unique(dead_view(d@)),
    ensures
        r == is_dead(dead_view(d@), id@),
{
    let ghost b = dead_view(d@);
    proof {
        lemma_find_key_spec(d@, id@);
    }
    match find_key(d, id) {
        Some(k) => {
            proof {
                assert(b[k as int].0 == id@);
                if is_dead(b, id@) {
                    let i = choose|i: int| 0 <= i < b.len() && #[trigger] b[i].0 == id@ && b[i].1;
                    assert(i == k);
                }
            }
            d[k].1
        },
        None => {
            assert forall|i: int| 0 <= i < b.len() implies #[trigger] b[i].0 != id@ by {
                assert((d@[i]).0@ != id@);
            }
            false
        },
    }
}

/// How the assigner sees an elevator in state `s`.
fn hra_elevator_exec(s: &ElevatorState, e: &Vec<(String, Vec<Order>)>) -> (r: HraElevator)
    ensures
        hra_elevator_view(r) == hra_elevator(*s, book_view(e@)),
{
    let mut cab_requests: Vec<bool> = Vec::new();
    for floor in 1..(MAX_FLOORS as u8) + 1
        invariant
            cab_requests@.len() == floor - 1,
            1 <= floor,
            forall|f: int| 0 <= f < cab_requests@.len() ==> #[trigger] cab_requests@[f] == slot_has_status(book_view(e@), f + 1, 2, OrderStatus::Confirmed),
    {
        cab_requests.push(slot_has_status_exec(e, floor, 2, OrderStatus::Confirmed));
    }
    let behaviour = if s.door_open {
        Behaviour::doorOpen
    } else if s.current_direction != DIRN_STOP {
        Behaviour::moving
    } else {
        Behaviour::idle
    };
    let direction = if s.current_direction == DIRN_DOWN {
        Directions::down
    } else if s.current_direction == DIRN_UP {
        Directions::up
    } else {
        Directions::stop
    };
    let r = HraElevator { behaviour, floor: s.current_floor, direction, cab_requests };
    assert(hra_elevator_view(r).cab_requests =~= hra_elevator(*s, book_view(e@)).cab_requests);
    r
}

/// The view of the elevators handed to the assigner.
pub open spec fn hra_states_view(v: Seq<(String, HraElevator)>) -> Seq<(Seq<char>, HraElevatorView)> {
    v.map_values(|p: (String, HraElevator)| (p.0@, hra_elevator_view(p.1)))
}

/// The index of the first order of `l` at or after `j` for `floor` and `call`.
pub open spec fn first_in_list(l: Seq<OrderView>, floor: u8, call: u8, j: int) -> Option<int>
    decreases l.len() - j,
{
    if j < 0 || j >= l.len() {
        None
    } else if same_slot(l[j], floor, call) {
        Some(j)
    } else {
        first_in_list(l, floor, call, j + 1)
    }
}

/// The position of the first order for `floor` and `call`, searching the entries from `i` on.
pub open spec fn first_in_book(e: BookView, floor: u8, call: u8, i: int) -> Option<(int, int)>
    decreases e.len() - i,
{
    if i < 0 || i >= e.len() {
        None
    } else {
        match first_in_list(e[i].1, floor, call, 0) {
            Some(j) => Some((i, j)),
            None => first_in_book(e, floor, call, i + 1),
        }
    }
}

/// The book and the newly assigned orders after the assigner gives `floor` and `call` to
/// elevator `id`: the first order for that slot moves from the book to `id`'s new orders.
pub open spec fn assign_one(s: (BookView, BookView), id: Seq<char>, floor: u8, call: u8) -> (BookView, BookView) {
    match first_in_book(s.0, floor, call, 0) {
        Some((i, j)) => (
            s.0.update(i, (s.0[i].0, s.0[i].1.remove(j))),
            push_to_entry(s.1, id, s.0[i].1[j]),
        ),
        None => s,
    }
}

/// One pass over the first `n` buttons of floor `f` assigned to `id`.
pub open spec fn assign_pass(s: (BookView, BookView), id: Seq<char>, f: int, row: Seq<bool>, n: nat) -> (BookView, BookView)
    decreases n,
{
    if n == 0 || n > row.len() {
        s
    } else {
        let p = assign_pass(s, id, f, row, (n - 1) as nat);
        if row[n - 1] {
            assign_one(p, id, f as u8, (n - 1) as u8)
        } else {
            p
        }
    }
}

/// Floor `f` of the answer for `id`: all its buttons, taken twice.
pub open spec fn assign_row(s: (BookView, BookView), id: Seq<char>, f: int, row: Seq<bool>) -> (BookView, BookView) {
    assign_pass(assign_pass(s, id, f, row, row.len()), id, f, row, row.len())
}

/// The first `n` floors of the answer for `id`.
pub open spec fn assign_rows(s: (BookView, BookView), id: Seq<char>, rows: Seq<Seq<bool>>, n: nat) -> (BookView, BookView)
    decreases n,
{
    if n == 0 || n > rows.len() {
        s
    } else {
        assign_row(assign_rows(s, id, rows, (n - 1) as nat), id, n - 1, rows[n - 1])
    }
}

/// The first `n` elevators of the answer.
pub open spec fn assign_all(s: (BookView, BookView), out: Seq<(Seq<char>, Seq<Seq<bool>>)>, n: nat) -> (BookView, BookView)
    decreases n,
{
    if n == 0 || n > out.len() {
        s
    } else {
        let p = assign_all(s, out, (n - 1) as nat);
        assign_rows(p, out[n - 1].0, out[n - 1].1, out[n - 1].1.len())
    }
}

/// The last order among the first `n` of `l` for `floor` and `call`.
pub open spec fn last_in_list(l: Seq<OrderView>, floor: u8, call: u8, n: nat) -> Option<OrderView>
    decreases n,
{
    if n == 0 || n > l.len() {
        None
    } else if same_slot(l[n - 1], floor, call) {
        Some(l[n - 1])
    } else {
        last_in_list(l, floor, call, (n - 1) as nat)
    }
}

/// The last order among the first `n` entries for `floor` and `call`.
pub open spec fn last_in_book(e: BookView, floor: u8, call: u8, n: nat) -> Option<OrderView>
    decreases n,
{
    if n == 0 || n > e.len() {
        None
    } else {
        match last_in_list(e[n - 1].1, floor, call, e[n - 1].1.len()) {
            Some(o) => Some(o),
            None => last_in_book(e, floor, call, (n - 1) as nat),
        }
    }
}

/// A newly assigned order takes the barrier of the last remaining order for the same slot
/// when it is requested or completed; with such an order left and another status its barrier
/// is emptied; with none it is kept.
pub open spec fn fix_barrier(lo: OrderView, e: BookView) -> OrderView {
    match last_in_book(e, lo.floor, lo.call, e.len()) {
        None => lo,
        Some(ro) => OrderView {
            call: lo.call,
            floor: lo.floor,
            status: lo.status,
            barrier: if lo.status == OrderStatus::Requested || lo.status == OrderStatus::Completed {
                ro.barrier
            } else {
                Set::empty()
            },
            source_id: lo.source_id,
        },
    }
}

/// The book after appending the orders of the first `n` entries of `new`, in order.
pub open spec fn merge_new(e: BookView, new: BookView, n: nat) -> BookView
    decreases n,
{
    if n == 0 || n > new.len() {
        e
    } else {
        merge_list_into(merge_new(e, new, (n - 1) as nat), new[n - 1].0, new[n - 1].1, new[n - 1].1.len())
    }
}

/// The book after appending the first `n` orders of `l` to the entry of `id`.
pub open spec fn merge_list_into(e: BookView, id: Seq<char>, l: Seq<OrderView>, n: nat) -> BookView
    decreases n,
{
    if n == 0 || n > l.len() {
        e
    } else {
        push_to_entry(merge_list_into(e, id, l, (n - 1) as nat), id, l[n - 1])
    }
}

/// The first `n` orders of `l` with status confirmed.
pub open spec fn confirmed_prefix(l: Seq<OrderView>, n: nat) -> Seq<OrderView>
    decreases n,
{
    if n == 0 || n > l.len() {
        Seq::empty()
    } else if l[n - 1].status == OrderStatus::Confirmed {
        confirmed_prefix(l, (n - 1) as nat).push(l[n - 1])
    } else {
        confirmed_prefix(l, (n - 1) as nat)
    }
}

/// The confirmed orders of elevator `id`, in order.
pub open spec fn confirmed_of(e: BookView, id: Seq<char>) -> Seq<OrderView> {
    if exists|i: int| 0 <= i < e.len() && #[trigger] e[i].0 == id {
        let i = choose|i: int| 0 <= i < e.len() && #[trigger] e[i].0 == id;
        confirmed_prefix(e[i].1, e[i].1.len())
    } else {
        Seq::empty()
    }
}

/// The view of the assigner's answer: per elevator, per floor, the assigned buttons.
pub open spec fn answer_view(out: Seq<(String, Vec<Vec<bool>>)>) -> Seq<(Seq<char>, Seq<Seq<bool>>)> {
    out.map_values(|p: (String, Vec<Vec<bool>>)| (p.0@, p.1@.map_values(|r: Vec<bool>| r@)))
}

/// Every floor of the answer has at least two buttons.
pub open spec fn answer_well_formed(out: Seq<(String, Vec<Vec<bool>>)>) -> bool {
    forall|i: int, f: int| 0 <= i < out.len() && 0 <= f < out[i].1@.len() ==> (#[trigger] out[i].1@[f])@.len() >= 2
}

/// The book after taking in the assigner's answer (none when it failed): the assigned orders
/// move to their new elevators with their barriers fixed (see `fix_barrier`), appended after
/// the orders left in place.
pub open spec fn book_after_assignment(e: BookView, answer: Option<Seq<(Seq<char>, Seq<Seq<bool>>)>>) -> BookView {
    let s = match answer {
        Some(out) => assign_all((e, Seq::empty()), out, out.len()),
        None => (e, Seq::empty()),
    };
    let fixed = s.1.map_values(
        |p: (Seq<char>, Seq<OrderView>)| (p.0, p.1.map_values(|lo: OrderView| fix_barrier(lo, s.0))),
    );
    merge_new(s.0, fixed, fixed.len())
}

/// The first order of `l` for `floor` and `call`, as found by the search.
pub proof fn lemma_first_in_list(l: Seq<OrderView>, floor: u8, call: u8, j: int)
    requires
        0 <= j,
    ensures
        match first_in_list(l, floor, call, j) {
            Some(k) => j <= k < l.len() && same_slot(l[k], floor, call) && forall|m: int|
                j <= m < k ==> !same_slot(#[trigger] l[m], floor, call),
            None => forall|m: int| j <= m < l.len() ==> !same_slot(#[trigger] l[m], floor, call),
        },
    decreases l.len() - j,
{
    if j < l.len() && !same_slot(l[j], floor, call) {
        lemma_first_in_list(l, floor, call, j + 1);
    }
}

/// Takes the first order for `floor` and `call` out of the book, if any.
fn take_first(e: &mut Vec<(String, Vec<Order>)>, floor: u8, call: u8) -> (r: Option<Order>)
    requires
        keys_unique(book_view(old(e)@)),
    ensures
        keys_unique(book_view(final(e)@)),
        match first_in_book(book_view(old(e)@), floor, call, 0) {
            Some((i, j)) => r is Some && r->0@ == book_view(old(e)@)[i].1[j] && book_view(final(e)@)
                == book_view(old(e)@).update(i, (book_view(old(e)@)[i].0, book_view(old(e)@)[i].1.remove(j))),
            None => r is None && book_view(final(e)@) == book_view(old(e)@),
        },
{
    let ghost b = book_view(e@);
    let n = e.len();
    for i in 0..n
        invariant
            n == e@.len(),
            e@ == old(e)@,
            b == book_view(e@),
            keys_unique(b),
            first_in_book(b, floor, call, 0) == first_in_book(b, floor, call, i as int),
    {
        assert(b[i as int].1 == orders_seq(e@[i as int].1@));
        let m = e[i].1.len();
        for j in 0..m
            invariant
                n == e@.len(),
                0 <= i < n,
                e@ == old(e)@,
                b == book_view(e@),
                m == e@[i as int].1@.len(),
                b[i as int].1 == orders_seq(e@[i as int].1@),
                keys_unique(b),
                first_in_book(b, floor, call, 0) == first_in_book(b, floor, call, i as int),
                first_in_list(b[i as int].1, floor, call, 0) == first_in_list(b[i as int].1, floor, call, j as int),
        {
            assert(b[i as int].1[j as int] == e@[i as int].1@[j as int]@);
            if e[i].1[j].floor == floor && e[i].1[j].call == call {
                assert(first_in_list(b[i as int].1, floor, call, j as int) == Some(j as int));
                assert(first_in_book(b, floor, call, i as int) == Some((i as int, j as int)));
                let o = e[i].1.remove(j);
                proof {
                    let nb = book_view(e@);
                    assert(orders_seq(e@[i as int].1@) =~= b[i as int].1.remove(j as int));
                    assert forall|k: int| 0 <= k < n && k != i implies #[trigger] nb[k] == b[k] by {
                        assert(e@[k] == old(e)@[k]);
                    }
                    assert(nb =~= b.update(i as int, (b[i as int].0, b[i as int].1.remove(j as int))));
                    assert forall|k: int| 0 <= k < nb.len() implies #[trigger] nb[k].0 == b[k].0 by {}
                }
                return Some(o);
            }
        }
        proof {
            assert(first_in_list(b[i as int].1, floor, call, m as int) is None);
            assert(first_in_book(b, floor, call, i as int) == first_in_book(b, floor, call, i + 1));
        }
    }
    None
}

/// The assigner gives `floor` and `call` to elevator `id`.
fn assign_one_exec(e: &mut Vec<(String, Vec<Order>)>, new: &mut Vec<(String, Vec<Order>)>, id: &String, floor: u8, call: u8)
    requires
        keys_unique(book_view(old(e)@)),
        keys_unique(book_view(old(new)@)),
    ensures
        keys_unique(book_view(final(e)@)),
        keys_unique(book_view(final(new)@)),
        (book_view(final(e)@), book_view(final(new)@)) == assign_one(
            (book_view(old(e)@), book_view(old(new)@)),
            id@,
            floor,
            call,
        ),
{
    if let Some(order) = take_first(e, floor, call) {
        push_order(new, id, order);
    }
}

/// One pass over the buttons of floor `f` of the answer for `id`.
fn assign_pass_exec(e: &mut Vec<(String, Vec<Order>)>, new: &mut Vec<(String, Vec<Order>)>, id: &String, f: usize, row: &Vec<bool>)
    requires
        keys_unique(book_view(old(e)@)),
        keys_unique(book_view(old(new)@)),
    ensures
        keys_unique(book_view(final(e)@)),
        keys_unique(book_view(final(new)@)),
        (book_view(final(e)@), book_view(final(new)@)) == assign_pass(
            (book_view(old(e)@), book_view(old(new)@)),
            id@,
            f as int,
            row@,
            row@.len(),
        ),
{
    let n = row.len();
    for c in 0..n
        invariant
            n == row@.len(),
            keys_unique(book_view(e@)),
            keys_unique(book_view(new@)),
            (book_view(e@), book_view(new@)) == assign_pass(
                (book_view(old(e)@), book_view(old(new)@)),
                id@,
                f as int,
                row@,
                c as nat,
            ),
    {
        if row[c] {
            assign_one_exec(e, new, id, f as u8, c as u8);
        }
    }
}

/// The answer for elevator `id`: every floor, all buttons taken twice.
fn assign_rows_exec(e: &mut Vec<(String, Vec<Order>)>, new: &mut Vec<(String, Vec<Order>)>, id: &String, rows: &Vec<Vec<bool>>)
    requires
        keys_unique(book_view(old(e)@)),
        keys_unique(book_view(old(new)@)),
        forall|f: int| 0 <= f < rows@.len() ==> (#[trigger] rows@[f])@.len() >= 2,
    ensures
        keys_unique(book_view(final(e)@)),
        keys_unique(book_view(final(new)@)),
        (book_view(final(e)@), book_view(final(new)@)) == assign_rows(
            (book_view(old(e)@), book_view(old(new)@)),
            id@,
            rows@.map_values(|r: Vec<bool>| r@),
            rows@.len(),
        ),
{
    let ghost rv = rows@.map_values(|r: Vec<bool>| r@);
    let n = rows.len();
    for f in 0..n
        invariant
            n == rows@.len(),
            rv == rows@.map_values(|r: Vec<bool>| r@),
            keys_unique(book_view(e@)),
            keys_unique(book_view(new@)),
            (book_view(e@), book_view(new@)) == assign_rows(
                (book_view(old(e)@), book_view(old(new)@)),
                id@,
                rv,
                f as nat,
            ),
    {
        let buttons = &rows[f];
        assert(rv[f as int] == buttons@);
        // The answer is read twice per floor, once per button of the two hall calls.
        let mut k: usize = 0;
        while k < 2
            invariant
                0 <= k <= 2,
                rv[f as int] == buttons@,
                keys_unique(book_view(e@)),
                keys_unique(book_view(new@)),
                (book_view(e@), book_view(new@)) == if k == 0 {
                    assign_rows((book_view(old(e)@), book_view(old(new)@)), id@, rv, f as nat)
                } else if k == 1 {
                    assign_pass(assign_rows((book_view(old(e)@), book_view(old(new)@)), id@, rv, f as nat), id@, f as int, buttons@, buttons@.len())
                } else {
                    assign_row(assign_rows((book_view(old(e)@), book_view(old(new)@)), id@, rv, f as nat), id@, f as int, buttons@)
                },
            decreases 2 - k,
        {
            assign_pass_exec(e, new, id, f, buttons);
            k = k + 1;
        }
    }
}

/// The last remaining order for `floor` and `call`: its entry and position.
fn last_match(e: &Vec<(String, Vec<Order>)>, floor: u8, call: u8) -> (r: Option<(usize, usize)>)
    ensures
        match r {
            Some((i, j)) => i < e@.len() && j < e@[i as int].1@.len() && last_in_book(book_view(e@), floor, call, e@.len())
                == Some(book_view(e@)[i as int].1[j as int]),
            None => last_in_book(book_view(e@), floor, call, e@.len()) is None,
        },
{
    let ghost b = book_view(e@);
    let n = e.len();
    let mut i = n;
    while i > 0
        invariant
            n == e@.len(),
            b == book_view(e@),
            i <= n,
            last_in_book(b, floor, call, n as nat) == last_in_book(b, floor, call, i as nat),
        decreases i,
    {
        let k = i - 1;
        assert(b[k as int].1 == orders_seq(e@[k as int].1@));
        let mut j = e[k].1.len();
        while j > 0
            invariant
                n == e@.len(),
                b == book_view(e@),
                k < n,
                i == k + 1,
                j <= e@[k as int].1@.len(),
                b[k as int].1 == orders_seq(e@[k as int].1@),
                last_in_list(b[k as int].1, floor, call, b[k as int].1.len()) == last_in_list(b[k as int].1, floor, call, j as nat),
                last_in_book(b, floor, call, n as nat) == last_in_book(b, floor, call, i as nat),
            decreases j,
        {
            if e[k].1[j - 1].floor == floor && e[k].1[j - 1].call == call {
                assert(b[k as int].1[j - 1] == e@[k as int].1@[j - 1]@);
                return Some((k, j - 1));
            }
            j = j - 1;
        }
        i = k;
    }
    None
}

/// Fixes the barriers of the newly assigned orders against the orders left in the book.
fn fix_barriers(new: &mut Vec<(String, Vec<Order>)>, e: &Vec<(String, Vec<Order>)>)
    ensures
        book_view(final(new)@) == book_view(old(new)@).map_values(
            |p: (Seq<char>, Seq<OrderView>)| (p.0, p.1.map_values(|lo: OrderView| fix_barrier(lo, book_view(e@)))),
        ),
{
    let ghost b = book_view(e@);
    let ghost ob = book_view(old(new)@);
    let n = new.len();
    for i in 0..n
        invariant
            n == new@.len(),
            n == old(new)@.len(),
            b == book_view(e@),
            ob == book_view(old(new)@),
            forall|k: int|
                0 <= k < i ==> #[trigger] book_view(new@)[k] == (ob[k].0, ob[k].1.map_values(|lo: OrderView| fix_barrier(lo, b))),
            forall|k: int| i <= k < n ==> #[trigger] new@[k] == old(new)@[k],
    {
        let ghost prev = new@;
        let m = new[i].1.len();
        assert(ob[i as int].1 == orders_seq(old(new)@[i as int].1@));
        for j in 0..m
            invariant
                n == new@.len(),
                0 <= i < n,
                b == book_view(e@),
                ob == book_view(old(new)@),
                m == old(new)@[i as int].1@.len(),
                new@[i as int].1@.len() == m,
                new@[i as int].0 == old(new)@[i as int].0,
                ob[i as int].1 == orders_seq(old(new)@[i as int].1@),
                forall|k: int| 0 <= k < n && k != i ==> #[trigger] new@[k] == prev[k],
                forall|jj: int| 0 <= jj < j ==> (#[trigger] new@[i as int].1@[jj])@ == fix_barrier(ob[i as int].1[jj], b),
                forall|jj: int| j <= jj < m ==> #[trigger] new@[i as int].1@[jj] == old(new)@[i as int].1@[jj],
        {
            let ghost lo = new@[i as int].1@[j as int]@;
            assert(lo == ob[i as int].1[j as int]);
            match last_match(e, new[i].1[j].floor, new[i].1[j].call) {
                Some((k, l)) => {
                    if new[i].1[j].status == OrderStatus::Requested || new[i].1[j].status == OrderStatus::Completed {
                        let bar = e[k].1[l].barrier.duplicate();
                        new[i].1[j].barrier = bar;
                    } else {
                        new[i].1[j].barrier.clear();
                    }
                },
                None => {},
            }
            assert(new@[i as int].1@[j as int]@ == fix_barrier(lo, b));
        }
        proof {
            assert(orders_seq(new@[i as int].1@) =~= ob[i as int].1.map_values(|lo: OrderView| fix_barrier(lo, b)));
            assert forall|k: int| 0 <= k < n && k != i implies #[trigger] book_view(new@)[k] == book_view(prev)[k] by {}
        }
    }
    assert(book_view(new@) =~= ob.map_values(
        |p: (Seq<char>, Seq<OrderView>)| (p.0, p.1.map_values(|lo: OrderView| fix_barrier(lo, b))),
    ));
}

/// Appends every newly assigned order to the entry of its elevator.
fn merge_new_exec(e: &mut Vec<(String, Vec<Order>)>, new: &Vec<(String, Vec<Order>)>)
    requires
        keys_unique(book_view(old(e)@)),
    ensures
        keys_unique(book_view(final(e)@)),
        book_view(final(e)@) == merge_new(book_view(old(e)@), book_view(new@), new@.len()),
{
    let ghost nb = book_view(new@);
    let n = new.len();
    for i in 0..n
        invariant
            n == new@.len(),
            nb == book_view(new@),
            keys_unique(book_view(e@)),
            book_view(e@) == merge_new(book_view(old(e)@), nb, i as nat),
    {
        let ghost start = book_view(e@);
        assert(nb[i as int] == (new@[i as int].0@, orders_seq(new@[i as int].1@)));
        let m = new[i].1.len();
        for j in 0..m
            invariant
                n == new@.len(),
                0 <= i < n,
                nb == book_view(new@),
                m == new@[i as int].1@.len(),
                nb[i as int] == (new@[i as int].0@, orders_seq(new@[i as int].1@)),
                keys_unique(book_view(e@)),
                book_view(e@) == merge_list_into(start, nb[i as int].0, nb[i as int].1, j as nat),
        {
            let o = new[i].1[j].duplicate();
            push_order(e, &new[i].0, o);
        }
    }
}

/// The confirmed orders of elevator `id`, in order.
fn confirmed_orders(e: &Vec<(String, Vec<Order>)>, id: &String) -> (r: Vec<Order>)
    requires
        keys_unique(book_view(e@)),
    ensures
        orders_seq(r@) == confirmed_of(book_view(e@), id@),
{
    let ghost b = book_view(e@);
    let mut r: Vec<Order> = Vec::new();
    proof {
        lemma_find_key_spec(e@, id@);
    }
    match find_key(e, id) {
        Some(k) => {
            assert(b[k as int].0 == id@);
            assert(b[k as int].1 == orders_seq(e@[k as int].1@));
            let m = e[k].1.len();
            for j in 0..m
                invariant
                    m == e@[k as int].1@.len(),
                    k < e@.len(),
                    b == book_view(e@),
                    b[k as int].1 == orders_seq(e@[k as int].1@),
                    orders_seq(r@) == confirmed_prefix(b[k as int].1, j as nat),
            {
                if e[k].1[j].status == OrderStatus::Confirmed {
                    let ghost before = orders_seq(r@);
                    r.push(e[k].1[j].duplicate());
                    assert(orders_seq(r@) =~= before.push(b[k as int].1[j as int]));
                }
            }
            proof {
                let i = choose|i: int| 0 <= i < b.len() && #[trigger] b[i].0 == id@;
                assert(i == k);
            }
        },
        None => {
            assert forall|i: int| 0 <= i < b.len() implies #[trigger] b[i].0 != id@ by {
                assert((e@[i]).0@ != id@);
            }
            assert(orders_seq(r@) =~= Seq::<OrderView>::empty());
        },
    }
    r
}

impl Decision {
    /// Whether every confirmed hall order is at a floor the assigner knows (the assigner's
    /// input can be built).
    pub fn hall_floors_in_range(&self) -> (r: bool)
        ensures
            r == hall_floors_known(self.local_broadcastmessage@.orders),
    {
        let ghost b = self.local_broadcastmessage@.orders;
        let e = &self.local_broadcastmessage.orders;
        let n = e.len();
        for i in 0..n
            invariant
                n == e@.len(),
                b == book_view(e@),
                b == self.local_broadcastmessage@.orders,
                forall|k: int, j: int|
                    0 <= k < i && 0 <= j < b[k].1.len() && (#[trigger] b[k].1[j]).status == OrderStatus::Confirmed
                        && b[k].1[j].call < 2 ==> b[k].1[j].floor < MAX_FLOORS,
        {
            assert(b[i as int].1 == orders_seq(e@[i as int].1@));
            let m = e[i].1.len();
            for j in 0..m
                invariant
                    n == e@.len(),
                    0 <= i < n,
                    b == book_view(e@),
                    b == self.local_broadcastmessage@.orders,
                    m == e@[i as int].1@.len(),
                    b[i as int].1 == orders_seq(e@[i as int].1@),
                    forall|k: int, jj: int|
                        0 <= k < i && 0 <= jj < b[k].1.len() && (#[trigger] b[k].1[jj]).status == OrderStatus::Confirmed
                            && b[k].1[jj].call < 2 ==> b[k].1[jj].floor < MAX_FLOORS,
                    forall|jj: int|
                        0 <= jj < j && (#[trigger] b[i as int].1[jj]).status == OrderStatus::Confirmed
                            && b[i as int].1[jj].call < 2 ==> b[i as int].1[jj].floor < MAX_FLOORS,
            {
                assert(b[i as int].1[j as int] == e@[i as int].1@[j as int]@);
                if e[i].1[j].status == OrderStatus::Confirmed && e[i].1[j].call < 2 && e[i].1[j].floor as usize >= MAX_FLOORS {
                    assert(b[i as int].1[j as int].floor >= MAX_FLOORS && b[i as int].1[j as int].call < 2);
                    assert(!hall_floors_known(b));
                    return false;
                }
            }
        }
        true
    }

    /// The question for the hall request assigner: per floor 0 to 3 and call 0 (up) and 1
    /// (down), whether a confirmed hall order is known; and every elevator whose state is known
    /// and that is not marked dead, as the assigner sees it (see `hra_elevator`).
    pub fn hall_assigner_input(&self) -> (r: HraInput)
        requires
            self.wf(),
            hall_floors_known(self.local_broadcastmessage@.orders),
        ensures
            r.hall_requests@.len() == MAX_FLOORS,
            forall|f: int, c: int|
                0 <= f < MAX_FLOORS && 0 <= c < 2 ==> #[trigger] r.hall_requests@[f]@[c] == slot_has_status(
                    self.local_broadcastmessage@.orders,
                    f,
                    c,
                    OrderStatus::Confirmed,
                ),
            forall|f: int| 0 <= f < MAX_FLOORS ==> (#[trigger] r.hall_requests@[f])@.len() == 2,
            hra_states_view(r.states@) == hra_states(
                self.local_broadcastmessage@.states,
                dead_view(self.dead_elev@),
                self.local_broadcastmessage@.orders,
                self.local_broadcastmessage@.states.len(),
            ),
    {
        let ghost b = self.local_broadcastmessage@.orders;
        let mut hall_requests: Vec<Vec<bool>> = Vec::new();
        for floor in 0..MAX_FLOORS
            invariant
                hall_requests@.len() == floor,
                b == self.local_broadcastmessage@.orders,
                forall|f: int| 0 <= f < floor ==> (#[trigger] hall_requests@[f])@.len() == 2,
                forall|f: int, c: int|
                    0 <= f < floor && 0 <= c < 2 ==> #[trigger] hall_requests@[f]@[c] == slot_has_status(b, f, c, OrderStatus::Confirmed),
        {
            let mut row: Vec<bool> = Vec::new();
            row.push(slot_has_status_exec(&self.local_broadcastmessage.orders, floor as u8, 0, OrderStatus::Confirmed));
            row.push(slot_has_status_exec(&self.local_broadcastmessage.orders, floor as u8, 1, OrderStatus::Confirmed));
            hall_requests.push(row);
        }
        let ghost s = self.local_broadcastmessage@.states;
        let ghost d = dead_view(self.dead_elev@);
        let mut states: Vec<(String, HraElevator)> = Vec::new();
        let n = self.local_broadcastmessage.states.len();
        for i in 0..n
            invariant
                n == s.len(),
                s == self.local_broadcastmessage@.states,
                d == dead_view(self.dead_elev@),
                b == self.local_broadcastmessage@.orders,
                keys_unique(dead_view(self.dead_elev@)),
                hra_states_view(states@) == hra_states(s, d, b, i as nat),
        {
            let id = &self.local_broadcastmessage.states[i].0;
            assert(s[i as int] == (self.local_broadcastmessage.states@[i as int].0@, self.local_broadcastmessage.states@[i as int].1));
            if !is_dead_exec(&self.dead_elev, id) {
                let h = hra_elevator_exec(&self.local_broadcastmessage.states[i].1, &self.local_broadcastmessage.orders);
                let ghost before = states@;
                states.push((id.clone(), h));
                assert(hra_states_view(states@) =~= hra_states_view(before).push((id@, hra_elevator_view(h))));
            }
        }
        HraInput { hall_requests, states }
    }
    /// Takes in the assigner's answer (`None` when the assigner failed): orders move to the
    /// elevators the answer names (see `book_after_assignment`). Returns the confirmed orders
    /// of the local elevator, for the elevator to serve.
    pub fn hall_order_assigner(&mut self, answer: Option<Vec<(String, Vec<Vec<bool>>)>>) -> (assigned: Vec<Order>)
        requires
            old(self).wf(),
            answer matches Some(out) ==> answer_well_formed(out@),
        ensures
            final(self).wf(),
            final(self).only_orders_changed(old(self)),
            final(self).local_broadcastmessage@.orders == book_after_assignment(
                old(self).local_broadcastmessage@.orders,
                match answer {
                    Some(out) => Some(answer_view(out@)),
                    None => None,
                },
            ),
            orders_seq(assigned@) == confirmed_of(final(self).local_broadcastmessage@.orders, old(self).local_id@),
    {
        let ghost b0 = self.local_broadcastmessage@.orders;
        let mut new_orders: Vec<(String, Vec<Order>)> = Vec::new();
        assert(book_view(new_orders@) =~= Seq::<(Seq<char>, Seq<OrderView>)>::empty());
        match answer {
            Some(out) => {
                let ghost ov = answer_view(out@);
                let n = out.len();
                for i in 0..n
                    invariant
                        n == out@.len(),
                        ov == answer_view(out@),
                        answer_well_formed(out@),
                        keys_unique(book_view(self.local_broadcastmessage.orders@)),
                        keys_unique(book_view(new_orders@)),
                        (book_view(self.local_broadcastmessage.orders@), book_view(new_orders@)) == assign_all(
                            (b0, Seq::empty()), ov, i as nat),
                        self.only_orders_changed(old(self)),
                {
                    assert(ov[i as int] == (out@[i as int].0@, out@[i as int].1@.map_values(|r: Vec<bool>| r@)));
                    assert forall|f: int| 0 <= f < out@[i as int].1@.len() implies (#[trigger] out@[i as int].1@[f])@.len() >= 2 by {}
                    assign_rows_exec(&mut self.local_broadcastmessage.orders, &mut new_orders, &out[i].0, &out[i].1);
                }
            },
            None => {},
        }
        fix_barriers(&mut new_orders, &self.local_broadcastmessage.orders);
        merge_new_exec(&mut self.local_broadcastmessage.orders, &new_orders);
        confirmed_orders(&self.local_broadcastmessage.orders, &self.local_id)
    }
}

} // verus!
