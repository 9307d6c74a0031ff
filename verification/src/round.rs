//! One round of the decision module: the event, a reassignment when the event asks for one,
//! the consensus step, the closing reassignment, and the message to broadcast. The hall request
//! assigner runs outside the library; the round hands out its question and takes its output.
use vstd::prelude::*;
use crate::assigner::{
    answer_view, answer_well_formed, book_after_assignment, confirmed_of, hall_floors_known, hra_states,
    hra_states_view, slot_has_status, HraInput, MAX_FLOORS,
};
use crate::assoc::{keys_unique, put};
use crate::common::{orders_seq, BroadcastMessage, MessageView, OrderStatus, OrderView};
use crate::decision::{
    after_broadcasts, alive_ids, apply_alive, book_after_new_order, broadcasts_notices, complete_order,
    map_entry_orders, settle_book, with_local, BookView, Decision, DecisionEvent, DecisionView, StepOutput,
};

verus! {

/// The UTF-8 encoding of one character.
pub open spec fn char_utf8(c: char) -> Seq<u8> {
    let u = c as u32;
    if u < 0x80 {
        seq![u as u8]
    } else if u < 0x800 {
        seq![(0xc0 + u / 0x40) as u8, (0x80 + u % 0x40) as u8]
    } else if u < 0x10000 {
        seq![(0xe0 + u / 0x1000) as u8, (0x80 + (u / 0x40) % 0x40) as u8, (0x80 + u % 0x40) as u8]
    } else {
        seq![
            (0xf0 + u / 0x40000) as u8,
            (0x80 + (u / 0x1000) % 0x40) as u8,
            (0x80 + (u / 0x40) % 0x40) as u8,
            (0x80 + u % 0x40) as u8,
        ]
    }
}

/// The UTF-8 encoding of a text.
pub open spec fn utf8_encode(s: Seq<char>) -> Seq<u8>
    decreases s.len(),
{
    if s.len() == 0 {
        Seq::empty()
    } else {
        utf8_encode(s.drop_last()) + char_utf8(s.last())
    }
}

/// The text that `bytes` encode in UTF-8; `None` when they are not valid UTF-8.
pub uninterp spec fn utf8_text(bytes: Seq<u8>) -> Option<Seq<char>>;

/// Calls `std::str::from_utf8` and copies the text: `Some` exactly when the bytes are valid
/// UTF-8 (then the text is `utf8_text(bytes)`, and it encodes back to the bytes); `None` when
/// they are not, and then no text encodes to them.
#[verifier::external_body]
fn utf8_decode(bytes: &[u8]) -> (r: Option<String>)
    ensures
        r is Some <==> utf8_text(bytes@) is Some,
        r matches Some(s) ==> s@ == utf8_text(bytes@)->0 && utf8_encode(s@) == bytes@,
        r is None ==> forall|s: Seq<char>| #[trigger] utf8_encode(s) != bytes@,
{
    match std::str::from_utf8(bytes) {
        Ok(s) => Some(s.to_owned()),
        Err(_) => None,
    }
}

/// The hall request assigner's answer read from JSON text: per elevator identifier, per floor,
/// the buttons assigned to it; `None` when the text is not a JSON object of that shape.
pub uninterp spec fn hra_answer(text: Seq<char>) -> Option<Map<Seq<char>, Seq<Seq<bool>>>>;

/// `rows` lists the entries of `m`, each once, in some order.
pub open spec fn answer_matches(rows: Seq<(Seq<char>, Seq<Seq<bool>>)>, m: Map<Seq<char>, Seq<Seq<bool>>>) -> bool {
    &&& keys_unique(rows)
    &&& forall|i: int| 0 <= i < rows.len() ==> m.contains_pair(#[trigger] rows[i].0, rows[i].1)
    &&& forall|id: Seq<char>| #[trigger] m.dom().contains(id) ==> exists|i: int| 0 <= i < rows.len() && #[trigger] rows[i].0 == id
}

/// Calls `serde_json::from_str` into a `HashMap<String, Vec<Vec<bool>>>` and lists its
/// entries: `Some` exactly when the text parses, and then the list holds every entry of the
/// parsed answer once. The order of the list is the map's walking order and is not stated.
#[verifier::external_body]
fn parse_assigner_answer(text: &str) -> (r: Option<Vec<(String, Vec<Vec<bool>>)>>)
    ensures
        r is Some <==> hra_answer(text@) is Some,
        r matches Some(rows) ==> answer_matches(answer_view(rows@), hra_answer(text@)->0),
{
    match serde_json::from_str::<std::collections::HashMap<String, Vec<Vec<bool>>>>(text) {
        Ok(m) => Some(m.into_iter().collect()),
        Err(_) => None,
    }
}

/// Why the assigner's output, or a question for it, cannot be taken.
#[derive(Clone, Copy, Debug, PartialEq, Eq, Structural)]
pub enum AssignerError {
    /// The output is not valid UTF-8.
    InvalidUtf8,
    /// The output is not a JSON object of button rows per elevator.
    Unparsable,
    /// Some floor of the answer has fewer than two buttons.
    ShortRow,
    /// A confirmed hall order lies beyond the floors the assigner knows.
    FloorOutOfRange,
}

/// Some floor of some elevator in the answer has fewer than two buttons.
pub open spec fn has_short_row(m: Map<Seq<char>, Seq<Seq<bool>>>) -> bool {
    exists|id: Seq<char>, f: int| m.dom().contains(id) && 0 <= f < m[id].len() && (#[trigger] m[id][f]).len() < 2
}

/// The decision module with another order book.
pub open spec fn with_orders(d: DecisionView, b: BookView) -> DecisionView {
    DecisionView { msg: MessageView { orders: b, ..d.msg }, ..d }
}

/// The decision module after the consensus step.
pub open spec fn settled(d: DecisionView) -> DecisionView {
    with_orders(d, settle_book(d.msg.orders, d.local, alive_ids(d.dead)))
}

/// Taking in the assigner's output takes `d` to `e` with result `r` (the local elevator's
/// confirmed orders, or why the output was refused). A failed run moves nothing; output that is
/// not UTF-8, not an answer, or has a floor with fewer than two buttons is refused and changes
/// nothing; otherwise the answer's entries, in the order they were listed, move the orders.
pub open spec fn takes_output(
    d: DecisionView,
    succeeded: bool,
    stdout: Seq<u8>,
    e: DecisionView,
    r: Result<Seq<OrderView>, AssignerError>,
) -> bool {
    if !succeeded {
        &&& e == with_orders(d, book_after_assignment(d.msg.orders, None))
        &&& r == Ok::<Seq<OrderView>, AssignerError>(confirmed_of(e.msg.orders, d.local))
    } else {
        match utf8_text(stdout) {
            None => e == d && r == Err::<Seq<OrderView>, AssignerError>(AssignerError::InvalidUtf8),
            Some(t) => match hra_answer(t) {
                None => e == d && r == Err::<Seq<OrderView>, AssignerError>(AssignerError::Unparsable),
                Some(m) => if has_short_row(m) {
                    e == d && r == Err::<Seq<OrderView>, AssignerError>(AssignerError::ShortRow)
                } else {
                    exists|rows: Seq<(Seq<char>, Seq<Seq<bool>>)>|
                        #[trigger] answer_matches(rows, m) && e == with_orders(d, book_after_assignment(d.msg.orders, Some(rows)))
                            && r == Ok::<Seq<OrderView>, AssignerError>(confirmed_of(e.msg.orders, d.local))
                },
            },
        }
    }
}

/// `q` is the question for the assigner about `d` (see `Decision::hall_assigner_input`).
pub open spec fn asks(q: HraInput, d: DecisionView) -> bool {
    &&& q.hall_requests@.len() == MAX_FLOORS
    &&& forall|f: int, c: int|
        0 <= f < MAX_FLOORS && 0 <= c < 2 ==> #[trigger] q.hall_requests@[f]@[c] == slot_has_status(
            d.msg.orders,
            f,
            c,
            OrderStatus::Confirmed,
        )
    &&& forall|f: int| 0 <= f < MAX_FLOORS ==> (#[trigger] q.hall_requests@[f])@.len() == 2
    &&& hra_states_view(q.states@) == hra_states(d.msg.states, d.dead, d.msg.orders, d.msg.states.len())
}

/// What the event part of a round does (see `Decision::step`): `d` becomes `e`, with output `out`.
pub open spec fn step_spec(d: DecisionView, ev: DecisionEvent, e: DecisionView, out: StepOutput) -> bool {
    match ev {
        DecisionEvent::NewOrder(o) => {
            &&& e == with_orders(d, book_after_new_order(d.msg.orders, o@, d.local))
            &&& out.reassign
            &&& out.confirmed@.len() == 0 && out.completed@.len() == 0
        },
        DecisionEvent::OrderCompleted(f) => {
            &&& e == with_orders(d, map_entry_orders(d.msg.orders, d.local, |o: OrderView| complete_order(o, f, d.local)))
            &&& !out.reassign
            &&& out.confirmed@.len() == 0 && out.completed@.len() == 0
        },
        DecisionEvent::NewState(st) => {
            &&& e == DecisionView { msg: MessageView { states: put(d.msg.states, d.local, st), ..d.msg }, ..d }
            &&& !out.reassign
            &&& out.confirmed@.len() == 0 && out.completed@.len() == 0
        },
        DecisionEvent::Broadcasts(msgs) => {
            let rs = msgs@.map_values(|m: BroadcastMessage| m@);
            &&& e == after_broadcasts(d, rs, rs.len())
            &&& orders_seq(out.confirmed@) == broadcasts_notices(d, rs, OrderStatus::Confirmed, rs.len())
            &&& orders_seq(out.completed@) == broadcasts_notices(d, rs, OrderStatus::Completed, rs.len())
            &&& out.reassign
        },
        DecisionEvent::AliveDead(info) => {
            &&& e == DecisionView {
                dead: apply_alive(with_local(d.dead, d.local), crate::common::alive_view(info.elevators@), info.elevators@.len()),
                ..d
            }
            &&& !out.reassign
            &&& out.confirmed@.len() == 0 && out.completed@.len() == 0
        },
        DecisionEvent::Closed => {
            &&& e == d
            &&& !out.reassign
            &&& out.confirmed@.len() == 0 && out.completed@.len() == 0
        },
    }
}

/// The view of a result of confirmed orders.
pub open spec fn result_view(r: Result<Vec<crate::common::Order>, AssignerError>) -> Result<Seq<OrderView>, AssignerError> {
    match r {
        Ok(v) => Ok(orders_seq(v@)),
        Err(x) => Err(x),
    }
}

/// Whether every floor of every elevator in the answer has at least two buttons.
fn rows_well_formed(rows: &Vec<(String, Vec<Vec<bool>>)>) -> (r: bool)
    ensures
        r == answer_well_formed(rows@),
{
    let n = rows.len();
    for i in 0..n
        invariant
            n == rows@.len(),
            forall|k: int, f: int| 0 <= k < i && 0 <= f < rows@[k].1@.len() ==> (#[trigger] rows@[k].1@[f])@.len() >= 2,
    {
        let m = rows[i].1.len();
        for f in 0..m
            invariant
                0 <= i < n,
                n == rows@.len(),
                m == rows@[i as int].1@.len(),
                forall|k: int, g: int| 0 <= k < i && 0 <= g < rows@[k].1@.len() ==> (#[trigger] rows@[k].1@[g])@.len() >= 2,
                forall|g: int| 0 <= g < f ==> (#[trigger] rows@[i as int].1@[g])@.len() >= 2,
        {
            if rows[i].1[f].len() < 2 {
                assert(!answer_well_formed(rows@)) by {
                    assert(rows@[i as int].1@[f as int]@.len() < 2);
                }
                return false;
            }
        }
    }
    true
}

/// Listing the entries of a parsed answer: its floors all have two buttons exactly when the
/// answer has no short row.
proof fn lemma_rows_short(rows: Seq<(String, Vec<Vec<bool>>)>, m: Map<Seq<char>, Seq<Seq<bool>>>)
    requires
        answer_matches(answer_view(rows), m),
    ensures
        answer_well_formed(rows) <==> !has_short_row(m),
{
    let a = answer_view(rows);
    if !answer_well_formed(rows) {
        let (i, f) = choose|i: int, f: int| 0 <= i < rows.len() && 0 <= f < rows[i].1@.len() && (#[trigger] rows[i].1@[f])@.len() < 2;
        assert(a[i] == (rows[i].0@, rows[i].1@.map_values(|r: Vec<bool>| r@)));
        assert(m.contains_pair(a[i].0, a[i].1));
        assert(m[a[i].0][f] == rows[i].1@[f]@);
        assert(has_short_row(m));
    }
    if has_short_row(m) {
        let (id, f) = choose|id: Seq<char>, f: int| m.dom().contains(id) && 0 <= f < m[id].len() && (#[trigger] m[id][f]).len() < 2;
        let i = choose|i: int| 0 <= i < a.len() && #[trigger] a[i].0 == id;
        assert(a[i] == (rows[i].0@, rows[i].1@.map_values(|r: Vec<bool>| r@)));
        assert(m.contains_pair(a[i].0, a[i].1));
        assert(rows[i].1@[f]@.len() < 2);
    }
}

impl Decision {
    /// The question for the assigner about the current book, or `FloorOutOfRange` when a
    /// confirmed hall order lies beyond the floors it knows.
    pub fn ask_assigner(&self) -> (r: Result<HraInput, AssignerError>)
        requires
            self.wf(),
        ensures
            r is Ok <==> hall_floors_known(self@.msg.orders),
            r matches Ok(q) ==> asks(q, self@),
            r matches Err(x) ==> x == AssignerError::FloorOutOfRange,
    {
        if self.hall_floors_in_range() {
            Ok(self.hall_assigner_input())
        } else {
            Err(AssignerError::FloorOutOfRange)
        }
    }

    /// Takes in the assigner's output: whether it ran successfully, and what it printed. A failed
    /// run moves nothing; printed text that is not UTF-8, not an answer, or has a floor with
    /// fewer than two buttons is refused and changes nothing; an answer moves the orders (see
    /// `hall_order_assigner`). Returns the local elevator's confirmed orders.
    pub fn take_assigner_output(&mut self, succeeded: bool, stdout: &[u8]) -> (r: Result<Vec<crate::common::Order>, AssignerError>)
        requires
            old(self).wf(),
        ensures
            final(self).wf(),
            final(self).only_orders_changed(old(self)),
            takes_output(old(self)@, succeeded, stdout@, final(self)@, result_view(r)),
            r is Err ==> *final(self) == *old(self),
    {
        let ghost d = self@;
        if !succeeded {
            let assigned = self.hall_order_assigner(None);
            assert(self@ == with_orders(d, book_after_assignment(d.msg.orders, None)));
            return Ok(assigned);
        }
        let text = match utf8_decode(stdout) {
            Some(t) => t,
            None => {
                return Err(AssignerError::InvalidUtf8);
            },
        };
        let rows = match parse_assigner_answer(text.as_str()) {
            Some(rows) => rows,
            None => {
                return Err(AssignerError::Unparsable);
            },
        };
        let ghost m = hra_answer(text@)->0;
        proof {
            lemma_rows_short(rows@, m);
        }
        if !rows_well_formed(&rows) {
            return Err(AssignerError::ShortRow);
        }
        let ghost rv = answer_view(rows@);
        let assigned = self.hall_order_assigner(Some(rows));
        assert(self@ == with_orders(d, book_after_assignment(d.msg.orders, Some(rv))));
        assert(answer_matches(rv, m));
        Ok(assigned)
    }

    /// Starts a round on event `ev` (see `Decision::step`). When the event asks for a
    /// reassignment, the question returned is for it; otherwise the consensus step runs and the
    /// question is for the closing reassignment. `FloorOutOfRange` when the question cannot be
    /// asked.
    pub fn begin_round(&mut self, ev: DecisionEvent) -> (r: (StepOutput, Result<HraInput, AssignerError>))
        requires
            old(self).wf(),
        ensures
            final(self).wf(),
            exists|mid: DecisionView|
                #[trigger] step_spec(old(self)@, ev, mid, r.0) && final(self)@ == if r.0.reassign {
                    mid
                } else {
                    settled(mid)
                },
            r.1 is Ok <==> hall_floors_known(final(self)@.msg.orders),
            r.1 matches Ok(q) ==> asks(q, final(self)@),
            r.1 matches Err(x) ==> x == AssignerError::FloorOutOfRange,
    {
        let ghost d = self@;
        let ghost e = ev;
        let out = self.step(ev);
        let ghost mid = self@;
        assert(step_spec(d, e, mid, out));
        if !out.reassign {
            self.handle_barrier();
            assert(self@ == settled(mid));
        }
        let q = self.ask_assigner();
        let r = (out, q);
        assert(step_spec(d, e, mid, r.0));
        assert(self@ == if r.0.reassign { mid } else { settled(mid) });
        r
    }

    /// The reassignment asked for by the event ran: takes its output (see
    /// `take_assigner_output`); when it is taken, the consensus step runs and the question for
    /// the closing reassignment is returned with the local elevator's confirmed orders.
    pub fn continue_round(&mut self, succeeded: bool, stdout: &[u8]) -> (r: Result<(Vec<crate::common::Order>, HraInput), AssignerError>)
        requires
            old(self).wf(),
        ensures
            final(self).wf(),
            exists|mid: DecisionView, t: Result<Seq<OrderView>, AssignerError>|
                #[trigger] takes_output(old(self)@, succeeded, stdout@, mid, t) && match t {
                    Err(x) => final(self)@ == mid && r == Err::<(Vec<crate::common::Order>, HraInput), AssignerError>(x),
                    Ok(a) => {
                        &&& final(self)@ == settled(mid)
                        &&& match r {
                            Ok((v, q)) => orders_seq(v@) == a && asks(q, final(self)@) && hall_floors_known(final(self)@.msg.orders),
                            Err(x) => x == AssignerError::FloorOutOfRange && !hall_floors_known(final(self)@.msg.orders),
                        }
                    },
                },
    {
        let ghost d = self@;
        let taken = self.take_assigner_output(succeeded, stdout);
        let ghost mid = self@;
        let ghost t = result_view(taken);
        assert(takes_output(d, succeeded, stdout@, mid, t));
        match taken {
            Err(x) => Err(x),
            Ok(assigned) => {
                self.handle_barrier();
                assert(self@ == settled(mid));
                match self.ask_assigner() {
                    Ok(q) => Ok((assigned, q)),
                    Err(x) => Err(x),
                }
            },
        }
    }

    /// The closing reassignment ran: takes its output (see `take_assigner_output`); when it is
    /// taken, returns the local elevator's confirmed orders and the message to broadcast (the
    /// local message as it now stands).
    pub fn end_round(&mut self, succeeded: bool, stdout: &[u8]) -> (r: Result<(Vec<crate::common::Order>, BroadcastMessage), AssignerError>)
        requires
            old(self).wf(),
        ensures
            final(self).wf(),
            exists|t: Result<Seq<OrderView>, AssignerError>|
                #[trigger] takes_output(old(self)@, succeeded, stdout@, final(self)@, t) && match t {
                    Err(x) => r == Err::<(Vec<crate::common::Order>, BroadcastMessage), AssignerError>(x),
                    Ok(a) => r matches Ok((v, m)) && orders_seq(v@) == a && m@ == final(self).local_broadcastmessage@,
                },
    {
        let ghost d = self@;
        let taken = self.take_assigner_output(succeeded, stdout);
        let ghost t = result_view(taken);
        assert(takes_output(d, succeeded, stdout@, self@, t));
        match taken {
            Err(x) => Err(x),
            Ok(assigned) => Ok((assigned, self.local_broadcastmessage.duplicate())),
        }
    }
}

} // verus!
