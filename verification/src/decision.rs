//! The decision module: order bookkeeping and consensus between peers.
use vstd::prelude::*;
use crate::assoc::{find_key, keys_unique, lemma_find_key_spec, put, put_entry};
use crate::common::{book_view, orders_seq, AliveDeadInfo, BroadcastMessage, ElevatorState, MessageView, Order, OrderStatus, OrderView};
use crate::ids::IdSet;

verus! {

/// Orders per elevator, as mathematical values.
pub type BookView = Seq<(Seq<char>, Seq<OrderView>)>;

/// Applies `f` to every order of the entry with key `key`.
pub open spec fn map_entry_orders(
    e: BookView,
    key: Seq<char>,
    f: spec_fn(OrderView) -> OrderView,
) -> BookView {
    e.map_values(
        |p: (Seq<char>, Seq<OrderView>)|
            if p.0 == key {
                (p.0, p.1.map_values(f))
            } else {
                p
            },
    )
}

/// A confirmed order at `floor` becomes completed, seen only by `local`.
pub open spec fn complete_order(o: OrderView, floor: u8, local: Seq<char>) -> OrderView {
    if o.floor == floor && o.status == OrderStatus::Confirmed {
        OrderView {
            call: o.call,
            floor: o.floor,
            status: OrderStatus::Completed,
            barrier: Set::empty().insert(local),
            source_id: o.source_id,
        }
    } else {
        o
    }
}

/// Marks the confirmed orders at `floor` in `list` as completed.
fn complete_list(list: &mut Vec<Order>, floor: u8, local: &String)
    ensures
        orders_seq(final(list)@) == orders_seq(old(list)@).map_values(
            |o: OrderView| complete_order(o, floor, local@),
        ),
{
    let n = list.len();
    for j in 0..n
        invariant
            list@.len() == n,
            n == old(list)@.len(),
            forall|i: int|
                0 <= i < j ==> (#[trigger] list@[i])@ == complete_order(old(list)@[i]@, floor, local@),
            forall|i: int| j <= i < n ==> #[trigger] list@[i] == old(list)@[i],
    {
        if list[j].floor == floor && list[j].status == OrderStatus::Confirmed {
            list[j].status = OrderStatus::Completed;
            list[j].barrier.clear();
            list[j].barrier.insert(local.clone());
        }
    }
    assert(orders_seq(list@) =~= orders_seq(old(list)@).map_values(
        |o: OrderView| complete_order(o, floor, local@),
    ));
}

/// Applies `f` to every order of every entry.
pub open spec fn map_all_orders(e: BookView, f: spec_fn(OrderView) -> OrderView) -> BookView {
    e.map_values(|p: (Seq<char>, Seq<OrderView>)| (p.0, p.1.map_values(f)))
}

/// The order is for `floor` and `call`.
pub open spec fn same_slot(o: OrderView, floor: u8, call: u8) -> bool {
    o.floor == floor && o.call == call
}

/// Some order in `l` is for `floor` and `call`.
pub open spec fn list_has_slot(l: Seq<OrderView>, floor: u8, call: u8) -> bool {
    exists|j: int| 0 <= j < l.len() && same_slot(#[trigger] l[j], floor, call)
}

/// Some order of some elevator is for `floor` and `call`.
pub open spec fn book_has_slot(e: BookView, floor: u8, call: u8) -> bool {
    exists|i: int| 0 <= i < e.len() && list_has_slot(#[trigger] e[i].1, floor, call)
}

/// The entry of elevator `key` holds an order for `floor` and `call`.
pub open spec fn entry_has_slot(e: BookView, key: Seq<char>, floor: u8, call: u8) -> bool {
    exists|i: int| 0 <= i < e.len() && #[trigger] e[i].0 == key && list_has_slot(e[i].1, floor, call)
}

/// Whether a new order is already known: hall orders (call 0 or 1) anywhere, cab orders
/// (call 2) among the local elevator's orders; other calls never.
pub open spec fn order_exists(e: BookView, order: OrderView, local: Seq<char>) -> bool {
    if order.call == 0 || order.call == 1 {
        book_has_slot(e, order.floor, order.call)
    } else if order.call == 2 {
        entry_has_slot(e, local, order.floor, order.call)
    } else {
        false
    }
}

/// An order for the same slot that has no order becomes requested again, seen by `local`.
pub open spec fn rerequest(o: OrderView, floor: u8, call: u8, local: Seq<char>) -> OrderView {
    if same_slot(o, floor, call) && o.status == OrderStatus::Noorder {
        OrderView {
            call: o.call,
            floor: o.floor,
            status: OrderStatus::Requested,
            barrier: o.barrier.insert(local),
            source_id: o.source_id,
        }
    } else {
        o
    }
}

/// Appends `o` to the orders of elevator `key`, adding the entry if there is none.
pub open spec fn push_to_entry(e: BookView, key: Seq<char>, o: OrderView) -> BookView {
    if exists|i: int| 0 <= i < e.len() && #[trigger] e[i].0 == key {
        e.map_values(
            |p: (Seq<char>, Seq<OrderView>)|
                if p.0 == key {
                    (p.0, p.1.push(o))
                } else {
                    p
                },
        )
    } else {
        e.push((key, seq![o]))
    }
}

/// The order book after the local elevator reports `order`.
pub open spec fn book_after_new_order(e: BookView, order: OrderView, local: Seq<char>) -> BookView {
    if !order_exists(e, order, local) {
        push_to_entry(
            e,
            local,
            OrderView {
                call: order.call,
                floor: order.floor,
                status: order.status,
                barrier: order.barrier.insert(local),
                source_id: order.source_id,
            },
        )
    } else if order.call == 0 || order.call == 1 {
        map_all_orders(e, |o: OrderView| rerequest(o, order.floor, order.call, local))
    } else {
        map_entry_orders(e, local, |o: OrderView| rerequest(o, order.floor, order.call, local))
    }
}

/// The elevators that are not marked dead.
pub open spec fn alive_ids(dead: Seq<(Seq<char>, bool)>) -> Set<Seq<char>> {
    Set::new(|s: Seq<char>| exists|k: int| 0 <= k < dead.len() && #[trigger] dead[k].0 == s && !dead[k].1)
}

/// Every alive elevator has seen the order's current status.
pub open spec fn barrier_complete(o: OrderView, alive: Set<Seq<char>>) -> bool {
    alive.subset_of(o.barrier)
}

/// A requested hall order, or a requested cab order of the local elevator, can be confirmed.
pub open spec fn can_confirm(o: OrderView, owner: Seq<char>, local: Seq<char>, alive: Set<Seq<char>>) -> bool {
    &&& o.status == OrderStatus::Requested
    &&& barrier_complete(o, alive)
    &&& (o.call == 0 || o.call == 1 || (o.call == 2 && owner == local))
}

/// The order with a new status and an empty barrier.
pub open spec fn with_status(o: OrderView, status: OrderStatus) -> OrderView {
    OrderView { call: o.call, floor: o.floor, status, barrier: Set::empty(), source_id: o.source_id }
}

/// The consensus step of one order: confirm a fully seen request, retire a fully seen completion.
pub open spec fn settle(o: OrderView, owner: Seq<char>, local: Seq<char>, alive: Set<Seq<char>>) -> OrderView {
    let p = if can_confirm(o, owner, local, alive) {
        with_status(o, OrderStatus::Confirmed)
    } else {
        o
    };
    if p.status == OrderStatus::Completed && barrier_complete(p, alive) {
        with_status(p, OrderStatus::Noorder)
    } else {
        p
    }
}

/// The consensus step of all orders.
pub open spec fn settle_book(e: BookView, local: Seq<char>, alive: Set<Seq<char>>) -> BookView {
    e.map_values(
        |p: (Seq<char>, Seq<OrderView>)|
            (p.0, p.1.map_values(|o: OrderView| settle(o, p.0, local, alive))),
    )
}

/// Some order can be confirmed.
pub open spec fn some_confirmable(e: BookView, local: Seq<char>, alive: Set<Seq<char>>) -> bool {
    exists|i: int, j: int|
        0 <= i < e.len() && 0 <= j < e[i].1.len() && can_confirm(#[trigger] e[i].1[j], e[i].0, local, alive)
}

/// The dead/alive flags keyed by the views of the identifiers.
pub open spec fn dead_view(d: Seq<(String, bool)>) -> Seq<(Seq<char>, bool)> {
    crate::assoc::key_view(d)
}

/// Whether some order of `l` is for `floor` and `call`.
fn slot_in_list(l: &Vec<Order>, floor: u8, call: u8) -> (r: bool)
    ensures
        r == list_has_slot(orders_seq(l@), floor, call),
{
    let n = l.len();
    for j in 0..n
        invariant
            n == l@.len(),
            forall|i: int| 0 <= i < j ==> !same_slot(#[trigger] orders_seq(l@)[i], floor, call),
    {
        if l[j].floor == floor && l[j].call == call {
            assert(same_slot(orders_seq(l@)[j as int], floor, call));
            return true;
        }
    }
    false
}

/// Whether some order of some elevator is for `floor` and `call`.
fn slot_in_book(e: &Vec<(String, Vec<Order>)>, floor: u8, call: u8) -> (r: bool)
    ensures
        r == book_has_slot(book_view(e@), floor, call),
{
    let n = e.len();
    for i in 0..n
        invariant
            n == e@.len(),
            forall|k: int| 0 <= k < i ==> !list_has_slot(#[trigger] book_view(e@)[k].1, floor, call),
    {
        if slot_in_list(&e[i].1, floor, call) {
            assert(list_has_slot(book_view(e@)[i as int].1, floor, call));
            return true;
        }
    }
    false
}

/// Whether the entry of elevator `key` holds an order for `floor` and `call`.
fn slot_in_entry(e: &Vec<(String, Vec<Order>)>, key: &String, floor: u8, call: u8) -> (r: bool)
    requires
        keys_unique(book_view(e@)),
    ensures
        r == entry_has_slot(book_view(e@), key@, floor, call),
{
    proof {
        lemma_find_key_spec(e@, key@);
    }
    match find_key(e, key) {
        Some(k) => {
            let r = slot_in_list(&e[k].1, floor, call);
            proof {
                let b = book_view(e@);
                assert(b[k as int].0 == key@);
                assert(b[k as int].1 == orders_seq(e@[k as int].1@));
                if entry_has_slot(b, key@, floor, call) {
                    let i = choose|i: int| 0 <= i < b.len() && #[trigger] b[i].0 == key@ && list_has_slot(b[i].1, floor, call);
                    assert(i == k);
                }
                if r {
                    assert(list_has_slot(b[k as int].1, floor, call));
                }
            }
            r
        },
        None => {
            let ghost b = book_view(e@);
            assert forall|i: int| 0 <= i < b.len() implies #[trigger] b[i].0 != key@ by {
                assert((e@[i]).0@ != key@);
            }
            false
        },
    }
}

/// Appends `o` to the orders of elevator `key`, adding the entry if there is none.
pub fn push_order(e: &mut Vec<(String, Vec<Order>)>, key: &String, o: Order)
    requires
        keys_unique(book_view(old(e)@)),
    ensures
        keys_unique(book_view(final(e)@)),
        book_view(final(e)@) == push_to_entry(book_view(old(e)@), key@, o@),
{
    let ghost b = book_view(e@);
    proof {
        lemma_find_key_spec(e@, key@);
    }
    match find_key(e, key) {
        Some(k) => {
            let ghost before = e@;
            e[k].1.push(o);
            proof {
                assert(b[k as int].0 == key@);
                assert forall|i: int| 0 <= i < b.len() && i != k implies b[i].0 != key@ by {}
                assert(orders_seq(e@[k as int].1@) =~= orders_seq(before[k as int].1@).push(o@));
                assert(book_view(e@) =~= push_to_entry(b, key@, o@));
            }
        },
        None => {
            let ghost before = e@;
            let mut l: Vec<Order> = Vec::new();
            l.push(o);
            e.push((key.clone(), l));
            proof {
                assert forall|i: int| 0 <= i < b.len() implies b[i].0 != key@ by {
                    assert((before[i]).0@ != key@);
                }
                assert(orders_seq(l@) =~= seq![o@]);
                assert(book_view(e@) =~= b.push((key@, seq![o@])));
            }
        },
    }
}

/// Requests again the orders of `l` for the slot that have no order.
fn rerequest_list(l: &mut Vec<Order>, floor: u8, call: u8, local: &String)
    ensures
        orders_seq(final(l)@) == orders_seq(old(l)@).map_values(
            |o: OrderView| rerequest(o, floor, call, local@),
        ),
{
    let n = l.len();
    for j in 0..n
        invariant
            l@.len() == n,
            n == old(l)@.len(),
            forall|i: int|
                0 <= i < j ==> (#[trigger] l@[i])@ == rerequest(old(l)@[i]@, floor, call, local@),
            forall|i: int| j <= i < n ==> #[trigger] l@[i] == old(l)@[i],
    {
        if l[j].floor == floor && l[j].call == call && l[j].status == OrderStatus::Noorder {
            l[j].status = OrderStatus::Requested;
            l[j].barrier.insert(local.clone());
        }
    }
    assert(orders_seq(l@) =~= orders_seq(old(l)@).map_values(
        |o: OrderView| rerequest(o, floor, call, local@),
    ));
}

/// Whether every alive elevator (not marked dead) is in `barrier`.
fn alive_seen(barrier: &IdSet, dead: &Vec<(String, bool)>) -> (r: bool)
    ensures
        r == alive_ids(dead_view(dead@)).subset_of(barrier@),
{
    let ghost d = dead_view(dead@);
    let n = dead.len();
    for k in 0..n
        invariant
            n == dead@.len(),
            d == dead_view(dead@),
            forall|i: int| 0 <= i < k && !(#[trigger] d[i]).1 ==> barrier@.contains(d[i].0),
    {
        if !dead[k].1 && !barrier.contains(&dead[k].0) {
            proof {
                assert(d[k as int].0 == dead@[k as int].0@);
                assert(alive_ids(d).contains(d[k as int].0));
            }
            return false;
        }
    }
    assert(alive_ids(d).subset_of(barrier@)) by {
        assert forall|s: Seq<char>| alive_ids(d).contains(s) implies barrier@.contains(s) by {
            let k = choose|k: int| 0 <= k < d.len() && #[trigger] d[k].0 == s && !d[k].1;
        }
    }
    true
}

/// One consensus step over the orders of elevator `owner`; reports whether one was confirmed.
fn settle_list(l: &mut Vec<Order>, owner: &String, local: &String, dead: &Vec<(String, bool)>) -> (changed: bool)
    ensures
        orders_seq(final(l)@) == orders_seq(old(l)@).map_values(
            |o: OrderView| settle(o, owner@, local@, alive_ids(dead_view(dead@))),
        ),
        changed == exists|j: int|
            0 <= j < old(l)@.len() && can_confirm(
                #[trigger] orders_seq(old(l)@)[j],
                owner@,
                local@,
                alive_ids(dead_view(dead@)),
            ),
{
    let ghost alive = alive_ids(dead_view(dead@));
    let mut changed = false;
    let n = l.len();
    // Requested orders seen by every alive elevator become confirmed.
    for j in 0..n
        invariant
            l@.len() == n,
            n == old(l)@.len(),
            alive == alive_ids(dead_view(dead@)),
            forall|i: int|
                0 <= i < j ==> (#[trigger] l@[i])@ == if can_confirm(old(l)@[i]@, owner@, local@, alive) {
                    with_status(old(l)@[i]@, OrderStatus::Confirmed)
                } else {
                    old(l)@[i]@
                },
            forall|i: int| j <= i < n ==> #[trigger] l@[i] == old(l)@[i],
            changed == exists|i: int| 0 <= i < j && can_confirm(#[trigger] orders_seq(old(l)@)[i], owner@, local@, alive),
    {
        let ghost o = l@[j as int]@;
        if l[j].status == OrderStatus::Requested && (l[j].call == 1 || l[j].call == 0) && alive_seen(&l[j].barrier, dead) {
            l[j].status = OrderStatus::Confirmed;
            l[j].barrier.clear();
            changed = true;
        }
        if l[j].status == OrderStatus::Requested && l[j].call == 2 && *owner == *local && alive_seen(&l[j].barrier, dead) {
            l[j].status = OrderStatus::Confirmed;
            l[j].barrier.clear();
            changed = true;
        }
        assert(l@[j as int]@ == if can_confirm(o, owner@, local@, alive) {
            with_status(o, OrderStatus::Confirmed)
        } else {
            o
        });
        assert(orders_seq(old(l)@)[j as int] == o);
    }
    let ghost mid = l@;
    // Completed orders seen by every alive elevator have no order any more.
    for j in 0..n
        invariant
            l@.len() == n,
            mid.len() == n,
            alive == alive_ids(dead_view(dead@)),
            forall|i: int|
                0 <= i < j ==> (#[trigger] l@[i])@ == if mid[i]@.status == OrderStatus::Completed
                    && barrier_complete(mid[i]@, alive) {
                    with_status(mid[i]@, OrderStatus::Noorder)
                } else {
                    mid[i]@
                },
            forall|i: int| j <= i < n ==> #[trigger] l@[i] == mid[i],
    {
        if l[j].status == OrderStatus::Completed && alive_seen(&l[j].barrier, dead) {
            l[j].status = OrderStatus::Noorder;
            l[j].barrier.clear();
        }
    }
    assert(orders_seq(l@) =~= orders_seq(old(l)@).map_values(
        |o: OrderView| settle(o, owner@, local@, alive),
    ));
    changed
}

/// Changing only the entry with key `key` of a book with unique keys, by mapping its orders.
proof fn lemma_map_one_entry(before: BookView, after: BookView, k: int, key: Seq<char>, f: spec_fn(OrderView) -> OrderView)
    requires
        keys_unique(before),
        0 <= k < before.len(),
        before[k].0 == key,
        after == before.update(k, (key, before[k].1.map_values(f))),
    ensures
        after == map_entry_orders(before, key, f),
{
    assert forall|i: int| 0 <= i < before.len() && i != k implies before[i].0 != key by {}
    assert(after =~= map_entry_orders(before, key, f));
}

/// With no entry keyed `key`, mapping its orders changes nothing.
proof fn lemma_map_no_entry(before: BookView, key: Seq<char>, f: spec_fn(OrderView) -> OrderView)
    requires
        forall|i: int| 0 <= i < before.len() ==> #[trigger] before[i].0 != key,
    ensures
        before == map_entry_orders(before, key, f),
{
    assert(before =~= map_entry_orders(before, key, f));
}

/// Requests again, in every entry, the orders for the slot that have no order.
fn rerequest_book(e: &mut Vec<(String, Vec<Order>)>, floor: u8, call: u8, local: &String)
    ensures
        book_view(final(e)@) == map_all_orders(
            book_view(old(e)@),
            |o: OrderView| rerequest(o, floor, call, local@),
        ),
{
    let n = e.len();
    for i in 0..n
        invariant
            e@.len() == n,
            n == old(e)@.len(),
            forall|k: int|
                0 <= k < i ==> #[trigger] book_view(e@)[k] == (
                    book_view(old(e)@)[k].0,
                    book_view(old(e)@)[k].1.map_values(|o: OrderView| rerequest(o, floor, call, local@)),
                ),
            forall|k: int| i <= k < n ==> #[trigger] e@[k] == old(e)@[k],
    {
        let ghost prev = e@;
        rerequest_list(&mut e[i].1, floor, call, local);
        assert forall|k: int| 0 <= k < n && k != i implies #[trigger] book_view(e@)[k] == book_view(prev)[k] by {
            assert(e@[k] == prev[k]);
        }
        assert(book_view(e@)[i as int] == (
            book_view(old(e)@)[i as int].0,
            book_view(old(e)@)[i as int].1.map_values(|o: OrderView| rerequest(o, floor, call, local@)),
        ));
    }
    assert(book_view(e@) =~= map_all_orders(
        book_view(old(e)@),
        |o: OrderView| rerequest(o, floor, call, local@),
    ));
}

/// One consensus step over all orders; reports whether some order was confirmed.
fn settle_book_exec(e: &mut Vec<(String, Vec<Order>)>, local: &String, dead: &Vec<(String, bool)>) -> (changed: bool)
    ensures
        book_view(final(e)@) == settle_book(book_view(old(e)@), local@, alive_ids(dead_view(dead@))),
        changed == some_confirmable(book_view(old(e)@), local@, alive_ids(dead_view(dead@))),
{
    let ghost alive = alive_ids(dead_view(dead@));
    let ghost ob = book_view(old(e)@);
    let mut changed = false;
    let n = e.len();
    for i in 0..n
        invariant
            e@.len() == n,
            n == old(e)@.len(),
            ob == book_view(old(e)@),
            alive == alive_ids(dead_view(dead@)),
            forall|k: int|
                0 <= k < i ==> #[trigger] book_view(e@)[k] == (
                    ob[k].0,
                    ob[k].1.map_values(|o: OrderView| settle(o, ob[k].0, local@, alive)),
                ),
            forall|k: int| i <= k < n ==> #[trigger] e@[k] == old(e)@[k],
            changed == exists|k: int, j: int|
                0 <= k < i && 0 <= j < ob[k].1.len() && can_confirm(#[trigger] ob[k].1[j], ob[k].0, local@, alive),
    {
        let owner = e[i].0.clone();
        let ghost prev = e@;
        let c = settle_list(&mut e[i].1, &owner, local, dead);
        proof {
            assert forall|k: int| 0 <= k < n && k != i implies #[trigger] book_view(e@)[k] == book_view(prev)[k] by {
                assert(e@[k] == prev[k]);
            }
            assert(book_view(e@)[i as int] == (
                ob[i as int].0,
                ob[i as int].1.map_values(|o: OrderView| settle(o, ob[i as int].0, local@, alive)),
            ));
            if c {
                let j = choose|j: int| 0 <= j < old(e)@[i as int].1@.len() && can_confirm(
                    #[trigger] orders_seq(old(e)@[i as int].1@)[j], owner@, local@, alive);
                assert(can_confirm(ob[i as int].1[j], ob[i as int].0, local@, alive));
            }
            if changed || c {
            } else {
                assert forall|k: int, j: int| 0 <= k < i + 1 && 0 <= j < ob[k].1.len()
                    implies !can_confirm(#[trigger] ob[k].1[j], ob[k].0, local@, alive) by {
                    if k == i {
                        assert(orders_seq(old(e)@[i as int].1@)[j] == ob[k].1[j]);
                    }
                }
            }
        }
        changed = changed || c;
    }
    assert(book_view(e@) =~= settle_book(ob, local@, alive));
    changed
}

/// Sets the flag of `id`, adding the entry if there is none.
pub open spec fn set_flag(d: Seq<(Seq<char>, bool)>, id: Seq<char>, v: bool) -> Seq<(Seq<char>, bool)> {
    if exists|i: int| 0 <= i < d.len() && #[trigger] d[i].0 == id {
        d.map_values(|p: (Seq<char>, bool)| if p.0 == id { (p.0, v) } else { p })
    } else {
        d.push((id, v))
    }
}

/// Setting the flag of `id` to `v` changes the list: `id` is absent or has another flag.
pub open spec fn flag_differs(d: Seq<(Seq<char>, bool)>, id: Seq<char>, v: bool) -> bool {
    (forall|i: int| 0 <= i < d.len() ==> #[trigger] d[i].0 != id) || (exists|i: int|
        0 <= i < d.len() && #[trigger] d[i].0 == id && d[i].1 != v)
}

/// Sets the flag of `id` to `v`, adding the entry if there is none; reports whether it changed.
fn set_dead_flag(d: &mut Vec<(String, bool)>, id: &String, v: bool) -> (changed: bool)
    requires
        keys_unique(dead_view(old(d)@)),
    ensures
        keys_unique(dead_view(final(d)@)),
        dead_view(final(d)@) == set_flag(dead_view(old(d)@), id@, v),
        changed == flag_differs(dead_view(old(d)@), id@, v),
{
    let ghost b = dead_view(d@);
    proof {
        lemma_find_key_spec(d@, id@);
    }
    match find_key(d, id) {
        Some(k) => {
            assert(b[k as int].0 == id@);
            assert forall|i: int| 0 <= i < b.len() && i != k implies b[i].0 != id@ by {}
            if d[k].1 != v {
                let key = d[k].0.clone();
                d.set(k, (key, v));
                assert(dead_view(d@) =~= set_flag(b, id@, v));
                true
            } else {
                assert(dead_view(d@) =~= set_flag(b, id@, v));
                false
            }
        },
        None => {
            let ghost before = d@;
            d.push((id.clone(), v));
            proof {
                assert forall|i: int| 0 <= i < b.len() implies b[i].0 != id@ by {
                    assert((before[i]).0@ != id@);
                }
                assert(dead_view(d@) =~= b.push((id@, v)));
            }
            true
        },
    }
}

/// The dead flags after adding the local elevator (alive) if missing.
pub open spec fn with_local(d: Seq<(Seq<char>, bool)>, local: Seq<char>) -> Seq<(Seq<char>, bool)> {
    if exists|i: int| 0 <= i < d.len() && #[trigger] d[i].0 == local {
        d
    } else {
        d.push((local, false))
    }
}

/// The dead flags after taking in the first `n` alive flags of `info` (dead is not alive).
pub open spec fn apply_alive(d: Seq<(Seq<char>, bool)>, info: Seq<(Seq<char>, bool)>, n: nat) -> Seq<(Seq<char>, bool)>
    decreases n,
{
    if n == 0 || n > info.len() {
        d
    } else {
        set_flag(apply_alive(d, info, (n - 1) as nat), info[n - 1].0, !info[n - 1].1)
    }
}

/// Whether taking in the first `n` alive flags of `info` changed some flag.
pub open spec fn alive_changes(d: Seq<(Seq<char>, bool)>, info: Seq<(Seq<char>, bool)>, n: nat) -> bool
    decreases n,
{
    if n == 0 || n > info.len() {
        false
    } else {
        alive_changes(d, info, (n - 1) as nat) || flag_differs(
            apply_alive(d, info, (n - 1) as nat),
            info[n - 1].0,
            !info[n - 1].1,
        )
    }
}

/// The status a local order takes when a peer reports status `recv` for the same slot: it
/// follows the peer only forward along no order, requested, confirmed, completed, no order.
pub open spec fn merge_status_spec(local: OrderStatus, recv: OrderStatus) -> OrderStatus {
    match local {
        OrderStatus::Noorder => if recv == OrderStatus::Requested {
            OrderStatus::Requested
        } else if recv == OrderStatus::Confirmed {
            OrderStatus::Confirmed
        } else {
            OrderStatus::Noorder
        },
        OrderStatus::Requested => if recv == OrderStatus::Confirmed {
            OrderStatus::Confirmed
        } else if recv == OrderStatus::Completed {
            OrderStatus::Completed
        } else {
            OrderStatus::Requested
        },
        OrderStatus::Confirmed => if recv == OrderStatus::Completed {
            OrderStatus::Completed
        } else {
            OrderStatus::Confirmed
        },
        OrderStatus::Completed => if recv == OrderStatus::Noorder {
            OrderStatus::Noorder
        } else {
            OrderStatus::Completed
        },
    }
}

/// Who takes part in merging a received order: the local identifier, the source of the local
/// broadcast message, and the source of the received message.
pub struct MergeCtx {
    pub local: Seq<char>,
    pub source: Seq<char>,
    pub sender: Seq<char>,
}

/// Local order `lo` of elevator `owner` follows the status of received order `ro`: same
/// slot, and a hall order or a cab order of another elevator than the local message's source.
pub open spec fn merges(lo: OrderView, owner: Seq<char>, ro: OrderView, ctx: MergeCtx) -> bool {
    same_slot(lo, ro.floor, ro.call) && (lo.call == 0 || lo.call == 1 || (lo.call == 2 && owner != ctx.source))
}

/// Local order `lo` of elevator `owner` after merging received order `ro`: the status merges
/// (see `merges`), and the barrier is the union of both barriers with both peers when both
/// orders are requested or both completed, and empty otherwise.
pub open spec fn merge_local(lo: OrderView, owner: Seq<char>, ro: OrderView, ctx: MergeCtx) -> OrderView {
    if !same_slot(lo, ro.floor, ro.call) {
        lo
    } else {
        let st = if merges(lo, owner, ro, ctx) {
            merge_status_spec(lo.status, ro.status)
        } else {
            lo.status
        };
        let keep = (st == OrderStatus::Requested && ro.status == OrderStatus::Requested) || (st
            == OrderStatus::Completed && ro.status == OrderStatus::Completed);
        OrderView {
            call: lo.call,
            floor: lo.floor,
            status: st,
            barrier: if keep {
                lo.barrier.union(ro.barrier).insert(ctx.sender).insert(ctx.local)
            } else {
                Set::empty()
            },
            source_id: lo.source_id,
        }
    }
}

/// Merging `ro` into the local order `lo` tells the elevator about it: `lo` has status
/// `st` (confirmed: light on; completed: light off) and `ro` came from the local elevator.
pub open spec fn notifies(lo: OrderView, owner: Seq<char>, ro: OrderView, ctx: MergeCtx, st: OrderStatus) -> bool {
    merges(lo, owner, ro, ctx) && lo.status == st && ro.source_id.contains(ctx.local)
}

/// How many of the first `n` orders of `l` notify with status `st`.
pub open spec fn list_notices(l: Seq<OrderView>, owner: Seq<char>, ro: OrderView, ctx: MergeCtx, st: OrderStatus, n: nat) -> nat
    decreases n,
{
    if n == 0 || n > l.len() {
        0
    } else {
        list_notices(l, owner, ro, ctx, st, (n - 1) as nat) + if notifies(l[n - 1], owner, ro, ctx, st) {
            1nat
        } else {
            0nat
        }
    }
}

/// How many orders of the first `n` entries notify with status `st`.
pub open spec fn book_notices(e: BookView, ro: OrderView, ctx: MergeCtx, st: OrderStatus, n: nat) -> nat
    decreases n,
{
    if n == 0 || n > e.len() {
        0
    } else {
        book_notices(e, ro, ctx, st, (n - 1) as nat) + list_notices(e[n - 1].1, e[n - 1].0, ro, ctx, st, e[n - 1].1.len())
    }
}

/// `n` copies of `o`.
pub open spec fn repeat(o: OrderView, n: nat) -> Seq<OrderView> {
    Seq::new(n, |i: int| o)
}

/// Every local order after merging `ro`.
pub open spec fn merge_book(e: BookView, ro: OrderView, ctx: MergeCtx) -> BookView {
    e.map_values(
        |p: (Seq<char>, Seq<OrderView>)|
            (p.0, p.1.map_values(|lo: OrderView| merge_local(lo, p.0, ro, ctx))),
    )
}

/// Some local order follows the status of `ro`.
pub open spec fn found_in_book(e: BookView, ro: OrderView, ctx: MergeCtx) -> bool {
    exists|i: int, j: int| 0 <= i < e.len() && 0 <= j < e[i].1.len() && merges(#[trigger] e[i].1[j], e[i].0, ro, ctx)
}

/// A received order that no local order follows is added as it came; a completed one with
/// both peers in its barrier.
pub open spec fn adopted(ro: OrderView, ctx: MergeCtx) -> OrderView {
    if ro.status == OrderStatus::Completed {
        OrderView {
            call: ro.call,
            floor: ro.floor,
            status: ro.status,
            barrier: ro.barrier.insert(ctx.sender).insert(ctx.local),
            source_id: ro.source_id,
        }
    } else {
        ro
    }
}

/// The local book after taking in order `ro` that elevator `owner` holds in a received message
/// (calls above 2 are ignored).
pub open spec fn receive_order(e: BookView, owner: Seq<char>, ro: OrderView, ctx: MergeCtx) -> BookView {
    if ro.call > 2 {
        e
    } else if found_in_book(e, ro, ctx) {
        merge_book(e, ro, ctx)
    } else {
        push_to_entry(merge_book(e, ro, ctx), owner, adopted(ro, ctx))
    }
}

/// The notices (copies of `ro`) that taking in `ro` gives for status `st`.
pub open spec fn receive_notices(e: BookView, ro: OrderView, ctx: MergeCtx, st: OrderStatus) -> Seq<OrderView> {
    if ro.call > 2 {
        Seq::empty()
    } else {
        repeat(ro, book_notices(e, ro, ctx, st, e.len()))
    }
}

/// The local book after the first `n` orders that `owner` holds in a received message.
pub open spec fn receive_list(e: BookView, owner: Seq<char>, l: Seq<OrderView>, ctx: MergeCtx, n: nat) -> BookView
    decreases n,
{
    if n == 0 || n > l.len() {
        e
    } else {
        receive_order(receive_list(e, owner, l, ctx, (n - 1) as nat), owner, l[n - 1], ctx)
    }
}

/// The notices for status `st` given by the first `n` orders that `owner` holds.
pub open spec fn list_receive_notices(e: BookView, owner: Seq<char>, l: Seq<OrderView>, ctx: MergeCtx, st: OrderStatus, n: nat) -> Seq<OrderView>
    decreases n,
{
    if n == 0 || n > l.len() {
        Seq::empty()
    } else {
        list_receive_notices(e, owner, l, ctx, st, (n - 1) as nat) + receive_notices(
            receive_list(e, owner, l, ctx, (n - 1) as nat),
            l[n - 1],
            ctx,
            st,
        )
    }
}

/// The local book after the first `n` entries of a received book.
pub open spec fn receive_book(e: BookView, r: BookView, ctx: MergeCtx, n: nat) -> BookView
    decreases n,
{
    if n == 0 || n > r.len() {
        e
    } else {
        let prev = receive_book(e, r, ctx, (n - 1) as nat);
        receive_list(prev, r[n - 1].0, r[n - 1].1, ctx, r[n - 1].1.len())
    }
}

/// The notices for status `st` given by the first `n` entries of a received book.
pub open spec fn book_receive_notices(e: BookView, r: BookView, ctx: MergeCtx, st: OrderStatus, n: nat) -> Seq<OrderView>
    decreases n,
{
    if n == 0 || n > r.len() {
        Seq::empty()
    } else {
        let prev = receive_book(e, r, ctx, (n - 1) as nat);
        book_receive_notices(e, r, ctx, st, (n - 1) as nat) + list_receive_notices(
            prev,
            r[n - 1].0,
            r[n - 1].1,
            ctx,
            st,
            r[n - 1].1.len(),
        )
    }
}

/// The status a local order takes when a peer reports status `recv` for the same slot.
pub fn merge_status(local: OrderStatus, recv: OrderStatus) -> (r: OrderStatus)
    ensures
        r == merge_status_spec(local, recv),
{
    match local {
        OrderStatus::Noorder => if recv == OrderStatus::Requested {
            OrderStatus::Requested
        } else if recv == OrderStatus::Confirmed {
            OrderStatus::Confirmed
        } else {
            OrderStatus::Noorder
        },
        OrderStatus::Requested => if recv == OrderStatus::Confirmed {
            OrderStatus::Confirmed
        } else if recv == OrderStatus::Completed {
            OrderStatus::Completed
        } else {
            OrderStatus::Requested
        },
        OrderStatus::Confirmed => if recv == OrderStatus::Completed {
            OrderStatus::Completed
        } else {
            OrderStatus::Confirmed
        },
        OrderStatus::Completed => if recv == OrderStatus::Noorder {
            OrderStatus::Noorder
        } else {
            OrderStatus::Completed
        },
    }
}

/// Merges received order `ro` into the orders `l` of elevator `owner`; appends the notices to
/// `conf` (confirmed orders) and `comp` (completed orders); reports whether some order followed.
fn merge_list(
    l: &mut Vec<Order>,
    owner: &String,
    ro: &Order,
    local: &String,
    source: &String,
    sender: &String,
    conf: &mut Vec<Order>,
    comp: &mut Vec<Order>,
) -> (found: bool)
    ensures
        ({
            let ctx = MergeCtx { local: local@, source: source@, sender: sender@ };
            &&& orders_seq(final(l)@) == orders_seq(old(l)@).map_values(|lo: OrderView| merge_local(lo, owner@, ro@, ctx))
            &&& found == exists|j: int| 0 <= j < old(l)@.len() && merges(#[trigger] orders_seq(old(l)@)[j], owner@, ro@, ctx)
            &&& orders_seq(final(conf)@) == orders_seq(old(conf)@) + repeat(ro@, list_notices(orders_seq(old(l)@), owner@, ro@, ctx, OrderStatus::Confirmed, old(l)@.len()))
            &&& orders_seq(final(comp)@) == orders_seq(old(comp)@) + repeat(ro@, list_notices(orders_seq(old(l)@), owner@, ro@, ctx, OrderStatus::Completed, old(l)@.len()))
        }),
{
    let ghost ctx = MergeCtx { local: local@, source: source@, sender: sender@ };
    let ghost ol = orders_seq(old(l)@);
    let mut found = false;
    let n = l.len();
    for j in 0..n
        invariant
            l@.len() == n,
            n == old(l)@.len(),
            ol == orders_seq(old(l)@),
            ctx == (MergeCtx { local: local@, source: source@, sender: sender@ }),
            forall|i: int| 0 <= i < j ==> (#[trigger] l@[i])@ == merge_local(ol[i], owner@, ro@, ctx),
            forall|i: int| j <= i < n ==> #[trigger] l@[i] == old(l)@[i],
            found == exists|i: int| 0 <= i < j && merges(#[trigger] ol[i], owner@, ro@, ctx),
            orders_seq(conf@) == orders_seq(old(conf)@) + repeat(ro@, list_notices(ol, owner@, ro@, ctx, OrderStatus::Confirmed, j as nat)),
            orders_seq(comp@) == orders_seq(old(comp)@) + repeat(ro@, list_notices(ol, owner@, ro@, ctx, OrderStatus::Completed, j as nat)),
    {
        let ghost lo = l@[j as int]@;
        let ghost conf0 = orders_seq(conf@);
        let ghost comp0 = orders_seq(comp@);
        assert(ol[j as int] == lo);
        if l[j].floor == ro.floor && l[j].call == ro.call {
            if l[j].call == 1 || l[j].call == 0 || (l[j].call == 2 && *owner != *source) {
                found = true;
                match l[j].status {
                    OrderStatus::Noorder => {
                        if ro.status == OrderStatus::Requested {
                            l[j].status = OrderStatus::Requested;
                        } else if ro.status == OrderStatus::Confirmed {
                            l[j].status = OrderStatus::Confirmed;
                            l[j].barrier.clear();
                        } else {
                            l[j].barrier.clear();
                        }
                    },
                    OrderStatus::Requested => {
                        if ro.status == OrderStatus::Confirmed {
                            l[j].status = OrderStatus::Confirmed;
                            l[j].barrier.clear();
                        } else if ro.status == OrderStatus::Completed {
                            l[j].status = OrderStatus::Completed;
                        }
                    },
                    OrderStatus::Confirmed => {
                        if ro.source_id.contains(local) {
                            conf.push(ro.duplicate());
                        }
                        if ro.status == OrderStatus::Completed {
                            l[j].status = OrderStatus::Completed;
                        }
                    },
                    OrderStatus::Completed => {
                        if ro.source_id.contains(local) {
                            comp.push(ro.duplicate());
                        }
                        if ro.status == OrderStatus::Noorder {
                            l[j].status = OrderStatus::Noorder;
                        }
                    },
                }
            }
            if l[j].status == OrderStatus::Requested && ro.status == OrderStatus::Requested {
                l[j].barrier.union_with(&ro.barrier);
                l[j].barrier.insert(sender.clone());
                l[j].barrier.insert(local.clone());
            } else if l[j].status == OrderStatus::Completed && ro.status == OrderStatus::Completed {
                l[j].barrier.union_with(&ro.barrier);
                l[j].barrier.insert(sender.clone());
                l[j].barrier.insert(local.clone());
            } else {
                l[j].barrier.clear();
            }
        }
        proof {
            assert(l@[j as int]@ == merge_local(lo, owner@, ro@, ctx));
            let c1 = list_notices(ol, owner@, ro@, ctx, OrderStatus::Confirmed, j as nat);
            let c2 = list_notices(ol, owner@, ro@, ctx, OrderStatus::Completed, j as nat);
            if notifies(lo, owner@, ro@, ctx, OrderStatus::Confirmed) {
                assert(orders_seq(conf@) =~= conf0.push(ro@));
                assert(orders_seq(conf@) =~= orders_seq(old(conf)@) + repeat(ro@, c1 + 1));
            } else {
                assert(orders_seq(conf@) =~= conf0);
            }
            if notifies(lo, owner@, ro@, ctx, OrderStatus::Completed) {
                assert(orders_seq(comp@) =~= comp0.push(ro@));
                assert(orders_seq(comp@) =~= orders_seq(old(comp)@) + repeat(ro@, c2 + 1));
            } else {
                assert(orders_seq(comp@) =~= comp0);
            }
        }
    }
    assert(orders_seq(l@) =~= ol.map_values(|lo: OrderView| merge_local(lo, owner@, ro@, ctx)));
    found
}

/// Merges received order `ro` into every local order; appends the notices; reports whether
/// some local order followed.
fn merge_book_exec(
    e: &mut Vec<(String, Vec<Order>)>,
    ro: &Order,
    local: &String,
    source: &String,
    sender: &String,
    conf: &mut Vec<Order>,
    comp: &mut Vec<Order>,
) -> (found: bool)
    ensures
        ({
            let ctx = MergeCtx { local: local@, source: source@, sender: sender@ };
            let ob = book_view(old(e)@);
            &&& book_view(final(e)@) == merge_book(ob, ro@, ctx)
            &&& found == found_in_book(ob, ro@, ctx)
            &&& orders_seq(final(conf)@) == orders_seq(old(conf)@) + repeat(ro@, book_notices(ob, ro@, ctx, OrderStatus::Confirmed, ob.len()))
            &&& orders_seq(final(comp)@) == orders_seq(old(comp)@) + repeat(ro@, book_notices(ob, ro@, ctx, OrderStatus::Completed, ob.len()))
        }),
{
    let ghost ctx = MergeCtx { local: local@, source: source@, sender: sender@ };
    let ghost ob = book_view(old(e)@);
    let mut found = false;
    let n = e.len();
    for i in 0..n
        invariant
            e@.len() == n,
            n == old(e)@.len(),
            ob == book_view(old(e)@),
            ctx == (MergeCtx { local: local@, source: source@, sender: sender@ }),
            forall|k: int|
                0 <= k < i ==> #[trigger] book_view(e@)[k] == (
                    ob[k].0,
                    ob[k].1.map_values(|lo: OrderView| merge_local(lo, ob[k].0, ro@, ctx)),
                ),
            forall|k: int| i <= k < n ==> #[trigger] e@[k] == old(e)@[k],
            found == exists|k: int, j: int|
                0 <= k < i && 0 <= j < ob[k].1.len() && merges(#[trigger] ob[k].1[j], ob[k].0, ro@, ctx),
            orders_seq(conf@) == orders_seq(old(conf)@) + repeat(ro@, book_notices(ob, ro@, ctx, OrderStatus::Confirmed, i as nat)),
            orders_seq(comp@) == orders_seq(old(comp)@) + repeat(ro@, book_notices(ob, ro@, ctx, OrderStatus::Completed, i as nat)),
    {
        let owner = e[i].0.clone();
        let ghost prev = e@;
        let ghost conf0 = orders_seq(conf@);
        let ghost comp0 = orders_seq(comp@);
        let f = merge_list(&mut e[i].1, &owner, ro, local, source, sender, conf, comp);
        proof {
            assert forall|k: int| 0 <= k < n && k != i implies #[trigger] book_view(e@)[k] == book_view(prev)[k] by {
                assert(e@[k] == prev[k]);
            }
            assert(ob[i as int].1 == orders_seq(old(e)@[i as int].1@));
            assert(book_view(e@)[i as int] == (
                ob[i as int].0,
                ob[i as int].1.map_values(|lo: OrderView| merge_local(lo, ob[i as int].0, ro@, ctx)),
            ));
            if f {
                let j = choose|j: int| 0 <= j < old(e)@[i as int].1@.len() && merges(
                    #[trigger] orders_seq(old(e)@[i as int].1@)[j], owner@, ro@, ctx);
                assert(merges(ob[i as int].1[j], ob[i as int].0, ro@, ctx));
            }
            if !found && !f {
                assert forall|k: int, j: int| 0 <= k < i + 1 && 0 <= j < ob[k].1.len()
                    implies !merges(#[trigger] ob[k].1[j], ob[k].0, ro@, ctx) by {
                    if k == i {
                        assert(orders_seq(old(e)@[i as int].1@)[j] == ob[k].1[j]);
                    }
                }
            }
            let a1 = book_notices(ob, ro@, ctx, OrderStatus::Confirmed, i as nat);
            let b1 = list_notices(ob[i as int].1, ob[i as int].0, ro@, ctx, OrderStatus::Confirmed, ob[i as int].1.len());
            assert(orders_seq(conf@) =~= orders_seq(old(conf)@) + repeat(ro@, a1 + b1));
            let a2 = book_notices(ob, ro@, ctx, OrderStatus::Completed, i as nat);
            let b2 = list_notices(ob[i as int].1, ob[i as int].0, ro@, ctx, OrderStatus::Completed, ob[i as int].1.len());
            assert(orders_seq(comp@) =~= orders_seq(old(comp)@) + repeat(ro@, a2 + b2));
        }
        found = found || f;
    }
    assert(book_view(e@) =~= merge_book(ob, ro@, ctx));
    found
}

/// Takes in order `ro` that elevator `owner` holds in a received message; appends the notices.
fn receive_order_exec(
    e: &mut Vec<(String, Vec<Order>)>,
    owner: &String,
    ro: &Order,
    local: &String,
    source: &String,
    sender: &String,
    conf: &mut Vec<Order>,
    comp: &mut Vec<Order>,
)
    requires
        keys_unique(book_view(old(e)@)),
    ensures
        ({
            let ctx = MergeCtx { local: local@, source: source@, sender: sender@ };
            let ob = book_view(old(e)@);
            &&& keys_unique(book_view(final(e)@))
            &&& book_view(final(e)@) == receive_order(ob, owner@, ro@, ctx)
            &&& orders_seq(final(conf)@) == orders_seq(old(conf)@) + receive_notices(ob, ro@, ctx, OrderStatus::Confirmed)
            &&& orders_seq(final(comp)@) == orders_seq(old(comp)@) + receive_notices(ob, ro@, ctx, OrderStatus::Completed)
        }),
{
    let ghost ctx = MergeCtx { local: local@, source: source@, sender: sender@ };
    let ghost ob = book_view(e@);
    if ro.call == 0 || ro.call == 1 || ro.call == 2 {
        let found = merge_book_exec(e, ro, local, source, sender, conf, comp);
        proof {
            assert forall|i: int| 0 <= i < ob.len() implies (#[trigger] book_view(e@)[i]).0 == ob[i].0 by {}
        }
        if !found {
            let mut order = ro.duplicate();
            if order.status == OrderStatus::Completed {
                order.barrier.insert(sender.clone());
                order.barrier.insert(local.clone());
            }
            push_order(e, owner, order);
        }
    } else {
        assert(orders_seq(conf@) =~= orders_seq(old(conf)@) + receive_notices(ob, ro@, ctx, OrderStatus::Confirmed));
        assert(orders_seq(comp@) =~= orders_seq(old(comp)@) + receive_notices(ob, ro@, ctx, OrderStatus::Completed));
    }
}

/// The states after putting the first `n` received states, skipping key `skip` when `skipping`.
pub open spec fn put_states(
    s: Seq<(Seq<char>, ElevatorState)>,
    r: Seq<(Seq<char>, ElevatorState)>,
    skipping: bool,
    skip: Seq<char>,
    n: nat,
) -> Seq<(Seq<char>, ElevatorState)>
    decreases n,
{
    if n == 0 || n > r.len() {
        s
    } else {
        let prev = put_states(s, r, skipping, skip, (n - 1) as nat);
        if skipping && r[n - 1].0 == skip {
            prev
        } else {
            put(prev, r[n - 1].0, r[n - 1].1)
        }
    }
}

/// Puts the received states into `s` (all of them, or all but the one keyed `skip`).
fn put_states_exec(s: &mut Vec<(String, ElevatorState)>, r: &Vec<(String, ElevatorState)>, skipping: bool, skip: &String)
    requires
        keys_unique(crate::assoc::key_view(old(s)@)),
    ensures
        keys_unique(crate::assoc::key_view(final(s)@)),
        crate::assoc::key_view(final(s)@) == put_states(
            crate::assoc::key_view(old(s)@),
            crate::assoc::key_view(r@),
            skipping,
            skip@,
            r@.len(),
        ),
{
    let ghost rv = crate::assoc::key_view(r@);
    let n = r.len();
    for i in 0..n
        invariant
            n == r@.len(),
            rv == crate::assoc::key_view(r@),
            keys_unique(crate::assoc::key_view(s@)),
            crate::assoc::key_view(s@) == put_states(crate::assoc::key_view(old(s)@), rv, skipping, skip@, i as nat),
    {
        assert(rv[i as int] == (r@[i as int].0@, r@[i as int].1));
        if !(skipping && r[i].0 == *skip) {
            put_entry(s, &r[i].0, r[i].1);
        }
    }
}

/// The mathematical value of a decision module.
pub struct DecisionView {
    pub local: Seq<char>,
    pub msg: MessageView,
    pub dead: Seq<(Seq<char>, bool)>,
}

/// The decision module after taking in received message `r` (see `Decision::handle_recv_broadcast`).
pub open spec fn after_broadcast(d: DecisionView, r: MessageView) -> DecisionView {
    let ctx = MergeCtx { local: d.local, source: d.msg.source_id, sender: r.source_id };
    DecisionView {
        local: d.local,
        dead: d.dead,
        msg: MessageView {
            source_id: d.msg.source_id,
            version: d.msg.version,
            orders: receive_book(d.msg.orders, r.orders, ctx, r.orders.len()),
            states: put_states(
                put_states(d.msg.states, r.states, true, d.local, r.states.len()),
                r.states,
                false,
                d.local,
                r.states.len(),
            ),
        },
    }
}

/// The notices for status `st` that taking in received message `r` gives.
pub open spec fn broadcast_notices(d: DecisionView, r: MessageView, st: OrderStatus) -> Seq<OrderView> {
    let ctx = MergeCtx { local: d.local, source: d.msg.source_id, sender: r.source_id };
    book_receive_notices(d.msg.orders, r.orders, ctx, st, r.orders.len())
}

/// The decision module after taking in the first `n` received messages in turn.
pub open spec fn after_broadcasts(d: DecisionView, rs: Seq<MessageView>, n: nat) -> DecisionView
    decreases n,
{
    if n == 0 || n > rs.len() {
        d
    } else {
        after_broadcast(after_broadcasts(d, rs, (n - 1) as nat), rs[n - 1])
    }
}

/// The notices for status `st` given by the first `n` received messages.
pub open spec fn broadcasts_notices(d: DecisionView, rs: Seq<MessageView>, st: OrderStatus, n: nat) -> Seq<OrderView>
    decreases n,
{
    if n == 0 || n > rs.len() {
        Seq::empty()
    } else {
        broadcasts_notices(d, rs, st, (n - 1) as nat) + broadcast_notices(
            after_broadcasts(d, rs, (n - 1) as nat),
            rs[n - 1],
            st,
        )
    }
}

/// What wakes the decision module up.
pub enum DecisionEvent {
    /// The local elevator reports a button press.
    NewOrder(Order),
    /// The local elevator served a floor.
    OrderCompleted(u8),
    /// The local elevator has a new state.
    NewState(ElevatorState),
    /// Messages from peers: the first one received and the ones queued behind it.
    Broadcasts(Vec<BroadcastMessage>),
    /// The network's alive/dead report.
    AliveDead(AliveDeadInfo),
    /// An input channel was closed.
    Closed,
}

/// What the caller must do after a step.
pub struct StepOutput {
    /// Run the hall request assigner once now (before the consensus step).
    pub reassign: bool,
    /// Received orders to light up (matched a local confirmed order, came from here).
    pub confirmed: Vec<Order>,
    /// Received orders to light off (matched a local completed order, came from here).
    pub completed: Vec<Order>,
}

/// The local view of the system that one peer keeps and broadcasts.
pub struct Decision {
    pub local_id: String,
    pub local_broadcastmessage: BroadcastMessage,
    /// Per elevator identifier: whether the elevator is dead.
    pub dead_elev: Vec<(String, bool)>,
}

impl View for Decision {
    type V = DecisionView;

    open spec fn view(&self) -> DecisionView {
        DecisionView {
            local: self.local_id@,
            msg: self.local_broadcastmessage@,
            dead: dead_view(self.dead_elev@),
        }
    }
}

impl Decision {
    /// Identifiers are unique in the order book, the state list and the dead/alive list.
    pub open spec fn wf(&self) -> bool {
        &&& keys_unique(self.local_broadcastmessage@.orders)
        &&& keys_unique(self.local_broadcastmessage@.states)
        &&& keys_unique(crate::assoc::key_view(self.dead_elev@))
    }

    /// A decision module for elevator `local_id` whose broadcast messages come from `source_id`.
    pub fn new(local_id: String, source_id: String) -> (r: Decision)
        ensures
            r.wf(),
            r.local_id == local_id,
            r.local_broadcastmessage.source_id == source_id,
            r.local_broadcastmessage.version == 0,
            r.local_broadcastmessage.orders@.len() == 0,
            r.local_broadcastmessage.states@.len() == 0,
            r.dead_elev@.len() == 0,
    {
        Decision {
            local_id,
            local_broadcastmessage: BroadcastMessage::new(0, source_id),
            dead_elev: Vec::new(),
        }
    }

    /// Everything but the order book is unchanged.
    pub open spec fn only_orders_changed(&self, other: &Decision) -> bool {
        &&& self.local_id == other.local_id
        &&& self.dead_elev == other.dead_elev
        &&& self.local_broadcastmessage.source_id == other.local_broadcastmessage.source_id
        &&& self.local_broadcastmessage.version == other.local_broadcastmessage.version
        &&& self.local_broadcastmessage.states == other.local_broadcastmessage.states
    }

    /// The local elevator reports `order`: an unknown order is added to the local elevator's
    /// orders with the local identifier in its barrier; a known one without an order is
    /// requested again (see `book_after_new_order`).
    pub fn handle_new_order(&mut self, order: Order)
        requires
            old(self).wf(),
        ensures
            final(self).wf(),
            final(self).only_orders_changed(old(self)),
            final(self).local_broadcastmessage@.orders == book_after_new_order(
                old(self).local_broadcastmessage@.orders,
                order@,
                old(self).local_id@,
            ),
    {
        let ghost old_book = self.local_broadcastmessage@.orders;
        let ghost local = self.local_id@;
        let ghost ov = order@;
        let exists = if order.call == 0 || order.call == 1 {
            slot_in_book(&self.local_broadcastmessage.orders, order.floor, order.call)
        } else if order.call == 2 {
            slot_in_entry(&self.local_broadcastmessage.orders, &self.local_id, order.floor, order.call)
        } else {
            false
        };
        assert(exists == order_exists(old_book, ov, local));
        if !exists {
            let mut new_order = order;
            new_order.barrier.insert(self.local_id.clone());
            push_order(&mut self.local_broadcastmessage.orders, &self.local_id, new_order);
        } else if order.call == 0 || order.call == 1 {
            rerequest_book(&mut self.local_broadcastmessage.orders, order.floor, order.call, &self.local_id);
            proof {
                assert forall|i: int| 0 <= i < old_book.len() implies (#[trigger] self.local_broadcastmessage@.orders[i]).0 == old_book[i].0 by {}
            }
        } else {
            proof {
                lemma_find_key_spec(self.local_broadcastmessage.orders@, local);
            }
            match find_key(&self.local_broadcastmessage.orders, &self.local_id) {
                Some(k) => {
                    rerequest_list(&mut self.local_broadcastmessage.orders[k].1, order.floor, order.call, &self.local_id);
                    proof {
                        let f = |o: OrderView| rerequest(o, ov.floor, ov.call, local);
                        let nb = self.local_broadcastmessage@.orders;
                        assert(nb[k as int].1 == old_book[k as int].1.map_values(f));
                        assert forall|i: int| 0 <= i < nb.len() && i != k implies nb[i] == old_book[i] by {
                            assert(self.local_broadcastmessage.orders@[i] == old(self).local_broadcastmessage.orders@[i]);
                        }
                        assert(nb =~= old_book.update(k as int, (local, old_book[k as int].1.map_values(f))));
                        lemma_map_one_entry(old_book, self.local_broadcastmessage@.orders, k as int, local,
                            |o: OrderView| rerequest(o, ov.floor, ov.call, local));
                    }
                },
                None => {
                    proof {
                        assert forall|i: int| 0 <= i < old_book.len() implies #[trigger] old_book[i].0 != local by {
                            assert((old(self).local_broadcastmessage.orders@[i]).0@ != local);
                        }
                        lemma_map_no_entry(old_book, local, |o: OrderView| rerequest(o, ov.floor, ov.call, local));
                    }
                },
            }
        }
    }

    /// The consensus step: requested hall orders (and requested cab orders of the local
    /// elevator) that every alive elevator has seen become confirmed, completed orders that
    /// every alive elevator has seen have no order any more; both with an empty barrier.
    /// Reports whether some order was confirmed.
    pub fn handle_barrier(&mut self) -> (changed: bool)
        requires
            old(self).wf(),
        ensures
            final(self).wf(),
            final(self).only_orders_changed(old(self)),
            final(self).local_broadcastmessage@.orders == settle_book(
                old(self).local_broadcastmessage@.orders,
                old(self).local_id@,
                alive_ids(dead_view(old(self).dead_elev@)),
            ),
            changed == some_confirmable(
                old(self).local_broadcastmessage@.orders,
                old(self).local_id@,
                alive_ids(dead_view(old(self).dead_elev@)),
            ),
    {
        let ghost old_book = self.local_broadcastmessage@.orders;
        let changed = settle_book_exec(&mut self.local_broadcastmessage.orders, &self.local_id, &self.dead_elev);
        proof {
            assert forall|i: int| 0 <= i < old_book.len() implies (#[trigger] self.local_broadcastmessage@.orders[i]).0 == old_book[i].0 by {}
        }
        changed
    }

    /// Takes in the alive/dead report of the network: the local elevator is added as alive if
    /// unknown, then every reported elevator is marked dead exactly when it is not alive.
    /// Reports whether some flag changed.
    pub fn update_dead_alive_status(&mut self, deadalive: &crate::common::AliveDeadInfo) -> (modified: bool)
        requires
            old(self).wf(),
        ensures
            final(self).wf(),
            final(self).local_id == old(self).local_id,
            final(self).local_broadcastmessage == old(self).local_broadcastmessage,
            dead_view(final(self).dead_elev@) == apply_alive(
                with_local(dead_view(old(self).dead_elev@), old(self).local_id@),
                crate::common::alive_view(deadalive.elevators@),
                deadalive.elevators@.len(),
            ),
            modified == (!(exists|i: int|
                0 <= i < old(self).dead_elev@.len() && #[trigger] dead_view(old(self).dead_elev@)[i].0
                    == old(self).local_id@) || alive_changes(
                with_local(dead_view(old(self).dead_elev@), old(self).local_id@),
                crate::common::alive_view(deadalive.elevators@),
                deadalive.elevators@.len(),
            )),
    {
        let ghost d0 = dead_view(self.dead_elev@);
        let ghost info = crate::common::alive_view(deadalive.elevators@);
        let ghost local = self.local_id@;
        let mut modified = false;
        let present = find_key(&self.dead_elev, &self.local_id);
        proof {
            lemma_find_key_spec(self.dead_elev@, local);
        }
        if present.is_none() {
            let ghost before = self.dead_elev@;
            let id = self.local_id.clone();
            self.dead_elev.push((id, false));
            modified = true;
            proof {
                assert forall|i: int| 0 <= i < d0.len() implies #[trigger] d0[i].0 != local by {
                    assert((before[i]).0@ != local);
                }
                assert(dead_view(self.dead_elev@) =~= d0.push((local, false)));
            }
        } else {
            proof {
                let k = present->0 as int;
                assert(d0[k].0 == local);
            }
        }
        let ghost d1 = dead_view(self.dead_elev@);
        assert(d1 == with_local(d0, local));
        let n = deadalive.elevators.len();
        for i in 0..n
            invariant
                n == deadalive.elevators@.len(),
                info == crate::common::alive_view(deadalive.elevators@),
                keys_unique(dead_view(self.dead_elev@)),
                dead_view(self.dead_elev@) == apply_alive(d1, info, i as nat),
                modified == (!(exists|j: int| 0 <= j < d0.len() && #[trigger] d0[j].0 == local) || alive_changes(d1, info, i as nat)),
                self.local_id@ == local,
                self.local_broadcastmessage == old(self).local_broadcastmessage,
                self.local_id == old(self).local_id,
        {
            let c = set_dead_flag(&mut self.dead_elev, &deadalive.elevators[i].0, !deadalive.elevators[i].1.is_alive);
            assert(info[i as int] == (deadalive.elevators@[i as int].0@, deadalive.elevators@[i as int].1.is_alive));
            modified = modified || c;
        }
        modified
    }

    /// Takes in a message received from a peer: its states are put into the local states
    /// (first all but the local one, then all), and each of its orders is merged into the local
    /// orders in turn (see `receive_order`). Returns the notices for the elevator: the received
    /// orders that matched a local confirmed order, and those that matched a local completed
    /// order, each once per matching local order, when they came from the local elevator.
    pub fn handle_recv_broadcast(&mut self, recvd: &BroadcastMessage) -> (notices: (Vec<Order>, Vec<Order>))
        requires
            old(self).wf(),
        ensures
            final(self).wf(),
            final(self).local_id == old(self).local_id,
            final(self).dead_elev == old(self).dead_elev,
            final(self).local_broadcastmessage.source_id == old(self).local_broadcastmessage.source_id,
            final(self).local_broadcastmessage.version == old(self).local_broadcastmessage.version,
            ({
                let ctx = MergeCtx {
                    local: old(self).local_id@,
                    source: old(self).local_broadcastmessage.source_id@,
                    sender: recvd.source_id@,
                };
                let ob = old(self).local_broadcastmessage@.orders;
                let r = recvd@.orders;
                &&& final(self).local_broadcastmessage@.orders == receive_book(ob, r, ctx, r.len())
                &&& orders_seq(notices.0@) == book_receive_notices(ob, r, ctx, OrderStatus::Confirmed, r.len())
                &&& orders_seq(notices.1@) == book_receive_notices(ob, r, ctx, OrderStatus::Completed, r.len())
            }),
            final(self)@ == after_broadcast(old(self)@, recvd@),
            orders_seq(notices.0@) == broadcast_notices(old(self)@, recvd@, OrderStatus::Confirmed),
            orders_seq(notices.1@) == broadcast_notices(old(self)@, recvd@, OrderStatus::Completed),
            final(self).local_broadcastmessage@.states == put_states(
                put_states(
                    old(self).local_broadcastmessage@.states,
                    recvd@.states,
                    true,
                    old(self).local_id@,
                    recvd@.states.len(),
                ),
                recvd@.states,
                false,
                old(self).local_id@,
                recvd@.states.len(),
            ),
    {
        let ghost ctx = MergeCtx {
            local: self.local_id@,
            source: self.local_broadcastmessage.source_id@,
            sender: recvd.source_id@,
        };
        let ghost b0 = self.local_broadcastmessage@.orders;
        let ghost r = recvd@.orders;
        // The states of the other elevators first.
        put_states_exec(&mut self.local_broadcastmessage.states, &recvd.states, true, &self.local_id);
        let mut conf: Vec<Order> = Vec::new();
        let mut comp: Vec<Order> = Vec::new();
        let source = self.local_broadcastmessage.source_id.clone();
        let n = recvd.orders.len();
        for i in 0..n
            invariant
                n == recvd.orders@.len(),
                r == recvd@.orders,
                ctx == (MergeCtx { local: self.local_id@, source: source@, sender: recvd.source_id@ }),
                self.local_id == old(self).local_id,
                self.dead_elev == old(self).dead_elev,
                self.local_broadcastmessage.source_id == old(self).local_broadcastmessage.source_id,
                self.local_broadcastmessage.version == old(self).local_broadcastmessage.version,
                source@ == old(self).local_broadcastmessage.source_id@,
                keys_unique(self.local_broadcastmessage@.orders),
                keys_unique(self.local_broadcastmessage@.states),
                self.local_broadcastmessage@.states == put_states(
                    old(self).local_broadcastmessage@.states, recvd@.states, true, old(self).local_id@, recvd@.states.len()),
                self.local_broadcastmessage@.orders == receive_book(b0, r, ctx, i as nat),
                orders_seq(conf@) == book_receive_notices(b0, r, ctx, OrderStatus::Confirmed, i as nat),
                orders_seq(comp@) == book_receive_notices(b0, r, ctx, OrderStatus::Completed, i as nat),
        {
            let ghost prev = receive_book(b0, r, ctx, i as nat);
            let ghost conf_i = orders_seq(conf@);
            let ghost comp_i = orders_seq(comp@);
            assert(r[i as int].0 == recvd.orders@[i as int].0@);
            assert(r[i as int].1 == orders_seq(recvd.orders@[i as int].1@));
            let m = recvd.orders[i].1.len();
            for j in 0..m
                invariant
                    n == recvd.orders@.len(),
                    0 <= i < n,
                    m == recvd.orders@[i as int].1@.len(),
                    r == recvd@.orders,
                    r[i as int].0 == recvd.orders@[i as int].0@,
                    r[i as int].1 == orders_seq(recvd.orders@[i as int].1@),
                    ctx == (MergeCtx { local: self.local_id@, source: source@, sender: recvd.source_id@ }),
                    self.local_id == old(self).local_id,
                    self.dead_elev == old(self).dead_elev,
                    self.local_broadcastmessage.source_id == old(self).local_broadcastmessage.source_id,
                    self.local_broadcastmessage.version == old(self).local_broadcastmessage.version,
                    source@ == old(self).local_broadcastmessage.source_id@,
                    keys_unique(self.local_broadcastmessage@.orders),
                    keys_unique(self.local_broadcastmessage@.states),
                    self.local_broadcastmessage@.states == put_states(
                        old(self).local_broadcastmessage@.states, recvd@.states, true, old(self).local_id@, recvd@.states.len()),
                    prev == receive_book(b0, r, ctx, i as nat),
                    self.local_broadcastmessage@.orders == receive_list(prev, r[i as int].0, r[i as int].1, ctx, j as nat),
                    orders_seq(conf@) == conf_i + list_receive_notices(prev, r[i as int].0, r[i as int].1, ctx, OrderStatus::Confirmed, j as nat),
                    orders_seq(comp@) == comp_i + list_receive_notices(prev, r[i as int].0, r[i as int].1, ctx, OrderStatus::Completed, j as nat),
            {
                let ghost cur = self.local_broadcastmessage@.orders;
                receive_order_exec(
                    &mut self.local_broadcastmessage.orders,
                    &recvd.orders[i].0,
                    &recvd.orders[i].1[j],
                    &self.local_id,
                    &source,
                    &recvd.source_id,
                    &mut conf,
                    &mut comp,
                );
                proof {
                    assert(r[i as int].1[j as int] == recvd.orders@[i as int].1@[j as int]@);
                    assert(orders_seq(conf@) =~= conf_i + list_receive_notices(prev, r[i as int].0, r[i as int].1, ctx, OrderStatus::Confirmed, (j + 1) as nat));
                    assert(orders_seq(comp@) =~= comp_i + list_receive_notices(prev, r[i as int].0, r[i as int].1, ctx, OrderStatus::Completed, (j + 1) as nat));
                }
            }
            proof {
                assert(orders_seq(conf@) =~= book_receive_notices(b0, r, ctx, OrderStatus::Confirmed, (i + 1) as nat));
                assert(orders_seq(comp@) =~= book_receive_notices(b0, r, ctx, OrderStatus::Completed, (i + 1) as nat));
            }
        }
        // Then every received state.
        put_states_exec(&mut self.local_broadcastmessage.states, &recvd.states, false, &self.local_id);
        (conf, comp)
    }

    /// One step of the decision module on event `ev`: a new order is added (see
    /// `handle_new_order`) and asks for reassignment; a served floor completes orders (see
    /// `handle_order_completed`); a new local state is put at the local identifier; received
    /// messages are taken in in turn (see `handle_recv_broadcast`) and ask for reassignment;
    /// an alive/dead report updates the dead flags (see `update_dead_alive_status`).
    pub fn step(&mut self, ev: DecisionEvent) -> (out: StepOutput)
        requires
            old(self).wf(),
        ensures
            final(self).wf(),
            match ev {
                DecisionEvent::NewOrder(o) => {
                    &&& final(self).only_orders_changed(old(self))
                    &&& final(self)@.msg.orders == book_after_new_order(old(self)@.msg.orders, o@, old(self)@.local)
                    &&& out.reassign
                    &&& out.confirmed@.len() == 0 && out.completed@.len() == 0
                },
                DecisionEvent::OrderCompleted(f) => {
                    &&& final(self).only_orders_changed(old(self))
                    &&& final(self)@.msg.orders == map_entry_orders(
                        old(self)@.msg.orders,
                        old(self)@.local,
                        |o: OrderView| complete_order(o, f, old(self)@.local),
                    )
                    &&& !out.reassign
                    &&& out.confirmed@.len() == 0 && out.completed@.len() == 0
                },
                DecisionEvent::NewState(st) => {
                    &&& final(self)@ == DecisionView {
                        msg: MessageView { states: put(old(self)@.msg.states, old(self)@.local, st), ..old(self)@.msg },
                        ..old(self)@
                    }
                    &&& !out.reassign
                    &&& out.confirmed@.len() == 0 && out.completed@.len() == 0
                },
                DecisionEvent::Broadcasts(msgs) => {
                    let rs = msgs@.map_values(|m: BroadcastMessage| m@);
                    &&& final(self)@ == after_broadcasts(old(self)@, rs, rs.len())
                    &&& orders_seq(out.confirmed@) == broadcasts_notices(old(self)@, rs, OrderStatus::Confirmed, rs.len())
                    &&& orders_seq(out.completed@) == broadcasts_notices(old(self)@, rs, OrderStatus::Completed, rs.len())
                    &&& out.reassign
                },
                DecisionEvent::AliveDead(info) => {
                    &&& final(self)@ == DecisionView {
                        dead: apply_alive(
                            with_local(old(self)@.dead, old(self)@.local),
                            crate::common::alive_view(info.elevators@),
                            info.elevators@.len(),
                        ),
                        ..old(self)@
                    }
                    &&& !out.reassign
                    &&& out.confirmed@.len() == 0 && out.completed@.len() == 0
                },
                DecisionEvent::Closed => {
                    &&& *final(self) == *old(self)
                    &&& !out.reassign
                    &&& out.confirmed@.len() == 0 && out.completed@.len() == 0
                },
            },
    {
        let mut out = StepOutput { reassign: false, confirmed: Vec::new(), completed: Vec::new() };
        match ev {
            DecisionEvent::NewOrder(order) => {
                self.handle_new_order(order);
                out.reassign = true;
            },
            DecisionEvent::OrderCompleted(floor) => {
                self.handle_order_completed(floor);
            },
            DecisionEvent::NewState(state) => {
                put_entry(&mut self.local_broadcastmessage.states, &self.local_id, state);
            },
            DecisionEvent::Broadcasts(msgs) => {
                let ghost rs = msgs@.map_values(|m: BroadcastMessage| m@);
                let ghost d0 = self@;
                let n = msgs.len();
                for i in 0..n
                    invariant
                        n == msgs@.len(),
                        rs == msgs@.map_values(|m: BroadcastMessage| m@),
                        self.wf(),
                        self@ == after_broadcasts(d0, rs, i as nat),
                        orders_seq(out.confirmed@) == broadcasts_notices(d0, rs, OrderStatus::Confirmed, i as nat),
                        orders_seq(out.completed@) == broadcasts_notices(d0, rs, OrderStatus::Completed, i as nat),
                {
                    let ghost before = self@;
                    let ghost c0 = orders_seq(out.confirmed@);
                    let ghost k0 = orders_seq(out.completed@);
                    let (mut c, mut k) = self.handle_recv_broadcast(&msgs[i]);
                    let ghost cv = orders_seq(c@);
                    let ghost kv = orders_seq(k@);
                    out.confirmed.append(&mut c);
                    out.completed.append(&mut k);
                    proof {
                        assert(rs[i as int] == msgs@[i as int]@);
                        assert(orders_seq(out.confirmed@) =~= c0 + cv);
                        assert(orders_seq(out.completed@) =~= k0 + kv);
                    }
                }
                out.reassign = true;
            },
            DecisionEvent::AliveDead(info) => {
                self.update_dead_alive_status(&info);
            },
            DecisionEvent::Closed => {},
        }
        out
    }

    /// A cost of serving `order` with an elevator in `state`: twice the floor distance, plus
    /// one unless the call is up (0) with the elevator still (0) or down (1) with direction 1.
    pub fn cost_fn(state: &ElevatorState, order: &Order) -> (r: u32)
        ensures
            r == 2 * (if state.current_floor >= order.floor {
                state.current_floor - order.floor
            } else {
                order.floor - state.current_floor
            }) + if (order.call == 0 && state.current_direction == 0) || (order.call == 1
                && state.current_direction == 1) {
                0int
            } else {
                1int
            },
    {
        let floor_diff: u32 = if state.current_floor >= order.floor {
            (state.current_floor - order.floor) as u32
        } else {
            (order.floor - state.current_floor) as u32
        };
        let direction_match = (order.call == 0 && state.current_direction == 0) || (order.call == 1
            && state.current_direction == 1);
        let direction_penalty: u32 = if direction_match { 0 } else { 1 };
        floor_diff * 2 + direction_penalty
    }

    /// The local elevator finished at `completed_floor`: its confirmed orders there become
    /// completed, with a barrier holding only the local identifier.
    pub fn handle_order_completed(&mut self, completed_floor: u8)
        requires
            old(self).wf(),
        ensures
            final(self).wf(),
            final(self).local_id == old(self).local_id,
            final(self).dead_elev == old(self).dead_elev,
            final(self).local_broadcastmessage.source_id == old(self).local_broadcastmessage.source_id,
            final(self).local_broadcastmessage.version == old(self).local_broadcastmessage.version,
            final(self).local_broadcastmessage.states == old(self).local_broadcastmessage.states,
            final(self).local_broadcastmessage@.orders == map_entry_orders(
                old(self).local_broadcastmessage@.orders,
                old(self).local_id@,
                |o: OrderView| complete_order(o, completed_floor, old(self).local_id@),
            ),
    {
        let ghost old_book = self.local_broadcastmessage@.orders;
        let ghost local = self.local_id@;
        proof {
            lemma_find_key_spec(self.local_broadcastmessage.orders@, local);
        }
        match find_key(&self.local_broadcastmessage.orders, &self.local_id) {
            Some(k) => {
                let ghost before = self.local_broadcastmessage.orders@;
                complete_list(&mut self.local_broadcastmessage.orders[k].1, completed_floor, &self.local_id);
                let ghost after = self.local_broadcastmessage.orders@;
                assert(after.len() == before.len());
                assert(after[k as int].0 == before[k as int].0);
                assert forall|i: int| 0 <= i < after.len() && i != k implies after[i] == before[i] by {}
                assert forall|i: int| 0 <= i < old_book.len() && i != k implies old_book[i].0 != local by {
                    assert(old_book[k as int].0 == local);
                }
                assert(self.local_broadcastmessage@.orders =~= map_entry_orders(
                    old_book,
                    local,
                    |o: OrderView| complete_order(o, completed_floor, local),
                ));
            },
            None => {
                assert(self.local_broadcastmessage@.orders =~= map_entry_orders(
                    old_book,
                    local,
                    |o: OrderView| complete_order(o, completed_floor, local),
                ));
            },
        }
    }
}

} // verus!
