//! Properties of the library as a whole, proved over the specifications of its functions.
use vstd::prelude::*;
use crate::assigner::{
    confirmed_of, confirmed_prefix, assign_all, assign_one, assign_pass, assign_rows, book_after_assignment, first_in_book, fix_barrier,
    hra_states, is_dead, lemma_first_in_list, merge_list_into, merge_new,
};
use crate::assoc::{keys_unique, put};
use crate::common::{alive_view, AliveDeadInfo, ElevatorState, OrderStatus, OrderView, DIRN_STOP};
use crate::decision::{entry_has_slot, book_has_slot, list_has_slot};
use crate::decision::{
    alive_changes, apply_alive, barrier_complete, book_after_new_order, can_confirm, complete_order,
    flag_differs, map_all_orders, map_entry_orders, merge_local, merge_status_spec, merges, order_exists,
    push_to_entry, put_states, rerequest, same_slot, set_flag, settle, settle_book, some_confirmable, with_local,
    receive_order, BookView, MergeCtx,
};
use crate::elevator::{removal_actions, ElevatorAction, door_after, floor_reached, has_floor, logic_step, without_floor, ControllerView};
use crate::network::{drop_key, elapsed, expire_prefix, heard, lookup, MonitorView};

verus! {

/// The next status in the life cycle of an order.
pub open spec fn next_status(s: OrderStatus) -> OrderStatus {
    match s {
        OrderStatus::Noorder => OrderStatus::Requested,
        OrderStatus::Requested => OrderStatus::Confirmed,
        OrderStatus::Confirmed => OrderStatus::Completed,
        OrderStatus::Completed => OrderStatus::Noorder,
    }
}

/// `b` is `a` or at most two steps after it in the life cycle.
pub open spec fn forward(a: OrderStatus, b: OrderStatus) -> bool {
    b == a || b == next_status(a) || b == next_status(next_status(a))
}

/// Merging a peer's status never moves an order backwards: the result is the local status or
/// the peer's, and at most two steps ahead of the local one; equal statuses stay as they are.
pub proof fn law_merge_status_forward(local: OrderStatus, recv: OrderStatus)
    ensures
        forward(local, merge_status_spec(local, recv)),
        merge_status_spec(local, recv) == local || merge_status_spec(local, recv) == recv,
        merge_status_spec(local, local) == local,
{
}

/// A local order that follows a received one keeps its slot and moves only forward, to its own
/// status or to the received one.
pub proof fn law_merge_local_forward(lo: OrderView, owner: Seq<char>, ro: OrderView, ctx: MergeCtx)
    ensures
        merge_local(lo, owner, ro, ctx).floor == lo.floor,
        merge_local(lo, owner, ro, ctx).call == lo.call,
        forward(lo.status, merge_local(lo, owner, ro, ctx).status),
        merge_local(lo, owner, ro, ctx).status == lo.status || (merges(lo, owner, ro, ctx)
            && merge_local(lo, owner, ro, ctx).status == ro.status),
{
}

/// An order becomes confirmed by the consensus step only when every alive elevator has seen
/// the request, and the step moves a status at most one step forward.
pub proof fn law_confirm_needs_barrier(o: OrderView, owner: Seq<char>, local: Seq<char>, alive: Set<Seq<char>>)
    ensures
        settle(o, owner, local, alive).status == OrderStatus::Confirmed && o.status != OrderStatus::Confirmed
            ==> o.status == OrderStatus::Requested && barrier_complete(o, alive),
        settle(o, owner, local, alive).status == o.status || settle(o, owner, local, alive).status == next_status(o.status),
        settle(o, owner, local, alive).floor == o.floor && settle(o, owner, local, alive).call == o.call,
{
}

/// The consensus step reaches a fixpoint at once: after it nothing can be confirmed, and
/// running it again changes nothing.
pub proof fn law_barrier_idempotent(e: BookView, local: Seq<char>, alive: Set<Seq<char>>)
    ensures
        !some_confirmable(settle_book(e, local, alive), local, alive),
        settle_book(settle_book(e, local, alive), local, alive) == settle_book(e, local, alive),
{
    let s = settle_book(e, local, alive);
    assert forall|i: int, j: int| 0 <= i < s.len() && 0 <= j < s[i].1.len()
        implies !can_confirm(#[trigger] s[i].1[j], s[i].0, local, alive) by {
        assert(s[i].1[j] == settle(e[i].1[j], e[i].0, local, alive));
    }
    assert forall|i: int| 0 <= i < s.len() implies #[trigger] settle_book(s, local, alive)[i] == s[i] by {
        assert forall|j: int| 0 <= j < s[i].1.len() implies #[trigger] settle(s[i].1[j], s[i].0, local, alive) == s[i].1[j] by {
            assert(s[i].1[j] == settle(e[i].1[j], e[i].0, local, alive));
        }
        assert(s[i].1.map_values(|o: OrderView| settle(o, s[i].0, local, alive)) =~= s[i].1);
    }
    assert(settle_book(s, local, alive) =~= s);
}

/// Once the local elevator reports an order with a known call (hall or cab), the order is known.
pub proof fn law_new_order_known(e: BookView, o: OrderView, local: Seq<char>)
    requires
        o.call <= 2,
        keys_unique(e),
    ensures
        order_exists(book_after_new_order(e, o, local), o, local),
{
    let r = book_after_new_order(e, o, local);
    let w: (int, int) = if !order_exists(e, o, local) {
        let o2 = OrderView {
            call: o.call,
            floor: o.floor,
            status: o.status,
            barrier: o.barrier.insert(local),
            source_id: o.source_id,
        };
        if exists|i: int| 0 <= i < e.len() && #[trigger] e[i].0 == local {
            let i = choose|i: int| 0 <= i < e.len() && #[trigger] e[i].0 == local;
            assert(r[i] == (local, e[i].1.push(o2)));
            assert(same_slot(r[i].1[e[i].1.len() as int], o.floor, o.call));
            assert(crate::decision::list_has_slot(r[i].1, o.floor, o.call));
            (i, e[i].1.len() as int)
        } else {
            assert(r[e.len() as int] == (local, seq![o2]));
            assert(same_slot(r[e.len() as int].1[0], o.floor, o.call));
            assert(crate::decision::list_has_slot(r[e.len() as int].1, o.floor, o.call));
            (e.len() as int, 0)
        }
    } else if o.call == 0 || o.call == 1 {
        let i = choose|i: int| 0 <= i < e.len() && crate::decision::list_has_slot(#[trigger] e[i].1, o.floor, o.call);
        let j = choose|j: int| 0 <= j < e[i].1.len() && same_slot(#[trigger] e[i].1[j], o.floor, o.call);
        assert(same_slot(r[i].1[j], o.floor, o.call));
        assert(crate::decision::list_has_slot(r[i].1, o.floor, o.call));
        (i, j)
    } else {
        let i = choose|i: int| 0 <= i < e.len() && #[trigger] e[i].0 == local && crate::decision::list_has_slot(e[i].1, o.floor, o.call);
        let j = choose|j: int| 0 <= j < e[i].1.len() && same_slot(#[trigger] e[i].1[j], o.floor, o.call);
        assert(same_slot(r[i].1[j], o.floor, o.call));
        assert(r[i].0 == local);
        assert(crate::decision::list_has_slot(r[i].1, o.floor, o.call));
        (i, j)
    };
    assert(0 <= w.0 < r.len() && r[w.0].0 == local || (o.call == 0 || o.call == 1));
    assert(crate::decision::list_has_slot(r[w.0].1, o.floor, o.call));
    if o.call == 0 || o.call == 1 {
        assert(crate::decision::book_has_slot(r, o.floor, o.call));
    } else {
        assert(crate::decision::entry_has_slot(r, local, o.floor, o.call));
    }
}

/// A keyed list reads back what was put: the key put has the value put, other keys keep theirs.
pub proof fn law_put_lookup<V>(d: Seq<(Seq<char>, V)>, id: Seq<char>, v: V, other: Seq<char>)
    requires
        keys_unique(d),
    ensures
        keys_unique(put(d, id, v)),
        lookup(put(d, id, v), id) == Some(v),
        other != id ==> lookup(put(d, id, v), other) == lookup(d, other),
{
    let p = put(d, id, v);
    if exists|i: int| 0 <= i < d.len() && #[trigger] d[i].0 == id {
        let w = choose|i: int| 0 <= i < d.len() && #[trigger] d[i].0 == id;
        assert(p[w].0 == id);
        assert forall|x: int, y: int| 0 <= x < p.len() && 0 <= y < p.len() && x != y implies #[trigger] p[x].0 != #[trigger] p[y].0 by {
            assert(p[x].0 == d[x].0);
            assert(p[y].0 == d[y].0);
        }
        let c = choose|i: int| 0 <= i < p.len() && #[trigger] p[i].0 == id;
        assert(p[c] == (id, v));
        if other != id {
            if exists|i: int| 0 <= i < d.len() && #[trigger] d[i].0 == other {
                let u = choose|i: int| 0 <= i < d.len() && #[trigger] d[i].0 == other;
                assert(p[u].0 == other);
                let c2 = choose|i: int| 0 <= i < p.len() && #[trigger] p[i].0 == other;
                assert(c2 == u);
            } else {
                assert forall|i: int| 0 <= i < p.len() implies #[trigger] p[i].0 != other by {
                    assert(p[i].0 == d[i].0);
                }
            }
        }
    } else {
        assert(p == d.push((id, v)));
        assert(p[d.len() as int].0 == id);
        assert forall|x: int, y: int| 0 <= x < p.len() && 0 <= y < p.len() && x != y implies #[trigger] p[x].0 != #[trigger] p[y].0 by {}
        let c = choose|i: int| 0 <= i < p.len() && #[trigger] p[i].0 == id;
        assert(c == d.len());
        if other != id {
            if exists|i: int| 0 <= i < d.len() && #[trigger] d[i].0 == other {
                let u = choose|i: int| 0 <= i < d.len() && #[trigger] d[i].0 == other;
                assert(p[u].0 == other);
                let c2 = choose|i: int| 0 <= i < p.len() && #[trigger] p[i].0 == other;
                assert(c2 == u);
            } else {
                assert forall|i: int| 0 <= i < p.len() implies #[trigger] p[i].0 != other by {
                    if i < d.len() {
                        assert(p[i] == d[i]);
                    }
                }
            }
        }
    }
}

/// The door never closes while obstructed; without obstruction it follows the signal.
pub proof fn law_door_obstruction(s: ElevatorState, closing: bool)
    ensures
        s.obstruction ==> door_after(s, closing).door_open,
        !s.obstruction ==> door_after(s, closing).door_open == !closing,
{
}

/// Serving a floor removes exactly its orders: none is left at that floor, every other order
/// stays, in order.
pub proof fn law_remove_floor(q: Seq<OrderView>, floor: u8)
    ensures
        !has_floor(without_floor(q, floor), floor),
        forall|i: int| 0 <= i < q.len() && q[i].floor != floor ==> without_floor(q, floor).contains(#[trigger] q[i]),
        without_floor(q, floor).len() <= q.len(),
        without_floor(q, floor).len() == q.len() <==> !has_floor(q, floor),
    decreases q.len(),
{
    if q.len() > 0 {
        let p = q.drop_last();
        law_remove_floor(p, floor);
        let w = without_floor(p, floor);
        assert forall|i: int| 0 <= i < q.len() && q[i].floor != floor implies without_floor(q, floor).contains(#[trigger] q[i]) by {
            if i < q.len() - 1 {
                assert(q[i] == p[i]);
                let k = choose|k: int| 0 <= k < w.len() && w[k] == p[i];
                if q.last().floor != floor {
                    assert(without_floor(q, floor)[k] == w[k]);
                }
            } else {
                assert(without_floor(q, floor)[w.len() as int] == q.last());
            }
        }
        if has_floor(without_floor(q, floor), floor) {
            let k = choose|k: int| 0 <= k < without_floor(q, floor).len() && (#[trigger] without_floor(q, floor)[k]).floor == floor;
            if q.last().floor != floor && k == w.len() {
            } else {
                assert(without_floor(q, floor)[k] == w[k]);
            }
        }
        if has_floor(q, floor) && q.last().floor != floor {
            let k = choose|k: int| 0 <= k < q.len() && (#[trigger] q[k]).floor == floor;
            assert(p[k] == q[k]);
        }
        if has_floor(p, floor) {
            let k = choose|k: int| 0 <= k < p.len() && (#[trigger] p[k]).floor == floor;
            assert(q[k] == p[k]);
        }
        if q.last().floor == floor {
            assert(q[q.len() - 1].floor == floor);
        }
    }
}

/// An elevator reaching the bottom or the top floor stops.
pub proof fn law_stops_at_ends(c: ControllerView, floor: u8)
    requires
        c.num_of_floors >= 1,
        floor == 0 || floor == c.num_of_floors - 1,
    ensures
        floor_reached(c, floor).0.state.current_direction == DIRN_STOP,
{
}

/// The movement logic starts the motor only with the door closed, and toward the first order.
pub proof fn law_moves_with_door_closed(c: ControllerView)
    ensures
        logic_step(c).0.state.current_direction != c.state.current_direction ==> {
            &&& !c.state.door_open
            &&& c.queue.len() > 0
            &&& (logic_step(c).0.state.current_direction == crate::common::DIRN_UP <==> c.queue[0].floor > c.state.current_floor)
        },
{
}

/// A keyed list is left unchanged by putting the value it already holds.
pub proof fn lemma_put_same<V>(d: Seq<(Seq<char>, V)>, id: Seq<char>, v: V)
    requires
        keys_unique(d),
        lookup(d, id) == Some(v),
    ensures
        put(d, id, v) == d,
{
    let w = choose|i: int| 0 <= i < d.len() && #[trigger] d[i].0 == id;
    assert forall|i: int| 0 <= i < d.len() && d[i].0 == id implies i == w by {}
    assert(put(d, id, v) =~= d);
}

/// Setting a dead flag is putting it.
proof fn lemma_set_flag_is_put(d: Seq<(Seq<char>, bool)>, id: Seq<char>, v: bool)
    ensures
        set_flag(d, id, v) == put(d, id, v),
{
    assert(set_flag(d, id, v) =~= put(d, id, v));
}

/// After taking in the first `n` alive flags, each of them reads back as its dead flag.
proof fn lemma_apply_alive_reads(d: Seq<(Seq<char>, bool)>, info: Seq<(Seq<char>, bool)>, n: nat)
    requires
        keys_unique(d),
        keys_unique(info),
        n <= info.len(),
    ensures
        keys_unique(apply_alive(d, info, n)),
        forall|k: int| 0 <= k < n ==> lookup(apply_alive(d, info, n), (#[trigger] info[k]).0) == Some(!info[k].1),
        forall|x: Seq<char>| (forall|k: int| 0 <= k < n ==> (#[trigger] info[k]).0 != x) ==> lookup(apply_alive(d, info, n), x) == lookup(d, x),
    decreases n,
{
    if n > 0 {
        let m = (n - 1) as nat;
        lemma_apply_alive_reads(d, info, m);
        let p = apply_alive(d, info, m);
        lemma_set_flag_is_put(p, info[m as int].0, !info[m as int].1);
        law_put_lookup(p, info[m as int].0, !info[m as int].1, info[m as int].0);
        assert forall|k: int| 0 <= k < n implies lookup(apply_alive(d, info, n), (#[trigger] info[k]).0) == Some(!info[k].1) by {
            if k < m {
                assert(info[k].0 != info[m as int].0);
                law_put_lookup(p, info[m as int].0, !info[m as int].1, info[k].0);
            }
        }
        assert forall|x: Seq<char>| (forall|k: int| 0 <= k < n ==> (#[trigger] info[k]).0 != x) implies lookup(apply_alive(d, info, n), x) == lookup(d, x) by {
            assert(info[m as int].0 != x);
            law_put_lookup(p, info[m as int].0, !info[m as int].1, x);
        }
    }
}

/// Taking in alive flags that are already held changes nothing and reports no change.
proof fn lemma_apply_alive_stable(a: Seq<(Seq<char>, bool)>, info: Seq<(Seq<char>, bool)>, n: nat)
    requires
        keys_unique(a),
        n <= info.len(),
        forall|k: int| 0 <= k < info.len() ==> lookup(a, (#[trigger] info[k]).0) == Some(!info[k].1),
    ensures
        apply_alive(a, info, n) == a,
        !alive_changes(a, info, n),
    decreases n,
{
    if n > 0 {
        let m = (n - 1) as nat;
        lemma_apply_alive_stable(a, info, m);
        let id = info[m as int].0;
        let v = !info[m as int].1;
        assert(lookup(a, id) == Some(v));
        lemma_set_flag_is_put(a, id, v);
        lemma_put_same(a, id, v);
        let w = choose|i: int| 0 <= i < a.len() && #[trigger] a[i].0 == id;
        assert(!flag_differs(a, id, v)) by {
            assert(a[w].0 == id);
            assert forall|i: int| 0 <= i < a.len() && #[trigger] a[i].0 == id implies a[i].1 == v by {
                assert(i == w);
            }
        }
    }
}

/// The alive/dead report is read back exactly: after taking it in, every reported elevator is
/// dead exactly when reported not alive, the local elevator is known, and taking in the same
/// report again changes nothing and reports no change.
pub proof fn law_alive_report(d: Seq<(Seq<char>, bool)>, local: Seq<char>, info: Seq<(Seq<char>, bool)>)
    requires
        keys_unique(d),
        keys_unique(info),
    ensures
        ({
            let after = apply_alive(with_local(d, local), info, info.len());
            &&& forall|k: int| 0 <= k < info.len() ==> lookup(after, (#[trigger] info[k]).0) == Some(!info[k].1)
            &&& lookup(after, local) is Some
            &&& with_local(after, local) == after
            &&& apply_alive(with_local(after, local), info, info.len()) == after
            &&& !alive_changes(with_local(after, local), info, info.len())
        }),
{
    let d1 = with_local(d, local);
    if !(exists|i: int| 0 <= i < d.len() && #[trigger] d[i].0 == local) {
        assert(d1 == d.push((local, false)));
        assert forall|x: int, y: int| 0 <= x < d1.len() && 0 <= y < d1.len() && x != y implies #[trigger] d1[x].0 != #[trigger] d1[y].0 by {}
        assert(d1[d.len() as int].0 == local);
    } else {
        let w = choose|i: int| 0 <= i < d.len() && #[trigger] d[i].0 == local;
        assert(d1[w].0 == local);
    }
    assert(exists|i: int| 0 <= i < d1.len() && #[trigger] d1[i].0 == local);
    lemma_apply_alive_reads(d1, info, info.len());
    let after = apply_alive(d1, info, info.len());
    if exists|k: int| 0 <= k < info.len() && (#[trigger] info[k]).0 == local {
        let k = choose|k: int| 0 <= k < info.len() && (#[trigger] info[k]).0 == local;
        assert(lookup(after, info[k].0) == Some(!info[k].1));
    } else {
        assert(lookup(after, local) == lookup(d1, local));
    }
    assert(exists|i: int| 0 <= i < after.len() && #[trigger] after[i].0 == local);
    lemma_apply_alive_stable(after, info, info.len());
}

/// Dropping a key keeps keys unique and leaves no entry with that key.
pub proof fn lemma_drop_key<V>(d: Seq<(Seq<char>, V)>, id: Seq<char>)
    requires
        keys_unique(d),
    ensures
        keys_unique(drop_key(d, id)),
        lookup(drop_key(d, id), id) is None,
        forall|i: int| 0 <= i < drop_key(d, id).len() ==> d.contains(#[trigger] drop_key(d, id)[i]),
    decreases d.len(),
{
    if d.len() > 0 {
        let p = d.drop_last();
        assert(keys_unique(p)) by {
            assert forall|x: int, y: int| 0 <= x < p.len() && 0 <= y < p.len() && x != y implies #[trigger] p[x].0 != #[trigger] p[y].0 by {
                assert(p[x] == d[x]);
                assert(p[y] == d[y]);
            }
        }
        lemma_drop_key(p, id);
        let r = drop_key(p, id);
        assert forall|i: int| 0 <= i < r.len() implies d.contains(#[trigger] r[i]) by {
            let k = choose|k: int| 0 <= k < p.len() && p[k] == r[i];
            assert(d[k] == p[k]);
        }
        if d.last().0 != id {
            let q = r.push(d.last());
            assert(d[d.len() - 1] == d.last());
            assert forall|i: int| 0 <= i < q.len() implies d.contains(#[trigger] q[i]) by {
                if i < r.len() {
                    assert(q[i] == r[i]);
                } else {
                    assert(q[i] == d[d.len() - 1]);
                }
            }
            assert forall|x: int, y: int| 0 <= x < q.len() && 0 <= y < q.len() && x != y implies #[trigger] q[x].0 != #[trigger] q[y].0 by {
                if x == r.len() {
                    let k = choose|k: int| 0 <= k < p.len() && p[k] == q[y];
                    assert(d[k] == p[k]);
                } else if y == r.len() {
                    let k = choose|k: int| 0 <= k < p.len() && p[k] == q[x];
                    assert(d[k] == p[k]);
                } else {
                    assert(q[x] == r[x]);
                    assert(q[y] == r[y]);
                }
            }
            assert forall|i: int| 0 <= i < q.len() implies #[trigger] q[i].0 != id by {
                if i < r.len() {
                    assert(q[i] == r[i]);
                    if r[i].0 == id {
                        assert(lookup(r, id) is Some);
                    }
                }
            }
        }
    }
}

/// A peer heard from has its heartbeat at that time; one that had no heartbeat is alive.
pub proof fn law_heard_heartbeat(m: MonitorView, id: Seq<char>, st: Option<ElevatorState>, now: u64)
    requires
        keys_unique(m.beats),
        keys_unique(m.alive),
    ensures
        lookup(heard(m, id, st, now).beats, id) == Some(now),
        lookup(m.beats, id) is None ==> lookup(heard(m, id, st, now).alive, id) == Some(true),
        (st matches Some(s) && s.current_direction == 0 && !s.obstruction) ==> lookup(heard(m, id, st, now).alive, id) == Some(true),
{
    let h = heard(m, id, st, now);
    lemma_drop_key(m.beats, id);
    let beats = match st {
        None => m.beats,
        Some(s) => if s.current_direction != 0 || s.obstruction { m.beats } else { drop_key(m.beats, id) },
    };
    law_put_lookup(beats, id, now, id);
    let alive = match st {
        None => m.alive,
        Some(s) => {
            let e0 = match lookup(m.seen, id) {
                Some(e) => e,
                None => (s.current_floor, now),
            };
            if (s.current_direction != 0 || s.obstruction) && s.current_floor == e0.0 && elapsed(now, e0.1) > crate::network::STUCK_NS {
                put(m.alive, id, false)
            } else {
                m.alive
            }
        },
    };
    law_put_lookup(m.alive, id, false, id);
    law_put_lookup(alive, id, true, id);
}

/// Expiring heartbeats keeps only fresh ones, and marks every peer whose heartbeat expired as
/// not alive.
pub proof fn law_expire(alive: Seq<(Seq<char>, bool)>, beats: Seq<(Seq<char>, u64)>, now: u64, timeout: u64, n: nat)
    requires
        keys_unique(alive),
        n <= beats.len(),
    ensures
        keys_unique(expire_prefix(alive, beats, now, timeout, n).0),
        forall|k: int| 0 <= k < expire_prefix(alive, beats, now, timeout, n).1.len()
            ==> elapsed(now, (#[trigger] expire_prefix(alive, beats, now, timeout, n).1[k]).1) <= timeout,
        forall|j: int| 0 <= j < n && elapsed(now, (#[trigger] beats[j]).1) > timeout
            ==> lookup(expire_prefix(alive, beats, now, timeout, n).0, beats[j].0) == Some(false),
    decreases n,
{
    if n > 0 {
        let m = (n - 1) as nat;
        law_expire(alive, beats, now, timeout, m);
        let p = expire_prefix(alive, beats, now, timeout, m);
        if elapsed(now, beats[m as int].1) > timeout {
            law_put_lookup(p.0, beats[m as int].0, false, beats[m as int].0);
            assert forall|j: int| 0 <= j < n && elapsed(now, (#[trigger] beats[j]).1) > timeout
                implies lookup(expire_prefix(alive, beats, now, timeout, n).0, beats[j].0) == Some(false) by {
                law_put_lookup(p.0, beats[m as int].0, false, beats[j].0);
            }
        }
    }
}

/// The assigner is never told about an elevator marked dead.
pub proof fn law_assigner_skips_dead(s: Seq<(Seq<char>, ElevatorState)>, d: Seq<(Seq<char>, bool)>, e: BookView, n: nat)
    ensures
        forall|k: int| 0 <= k < hra_states(s, d, e, n).len() ==> !is_dead(d, (#[trigger] hra_states(s, d, e, n)[k]).0),
    decreases n,
{
    if n > 0 && n <= s.len() {
        let m = (n - 1) as nat;
        law_assigner_skips_dead(s, d, e, m);
        let p = hra_states(s, d, e, m);
        let r = hra_states(s, d, e, n);
        assert forall|k: int| 0 <= k < r.len() implies !is_dead(d, (#[trigger] r[k]).0) by {
            if k < p.len() {
                assert(r[k] == p[k]);
            }
        }
    }
}

/// The number of orders held in a book.
pub open spec fn total(e: BookView) -> nat
    decreases e.len(),
{
    if e.len() == 0 {
        0
    } else {
        total(e.drop_last()) + e.last().1.len()
    }
}

/// Replacing one entry changes the number of orders by the difference of the list lengths.
proof fn lemma_total_update(e: BookView, i: int, x: (Seq<char>, Seq<OrderView>))
    requires
        0 <= i < e.len(),
    ensures
        total(e.update(i, x)) + e[i].1.len() == total(e) + x.1.len(),
    decreases e.len(),
{
    let u = e.update(i, x);
    if i == e.len() - 1 {
        assert(u.drop_last() =~= e.drop_last());
    } else {
        lemma_total_update(e.drop_last(), i, x);
        assert(u.drop_last() =~= e.drop_last().update(i, x));
    }
}

/// Appending an entry adds its orders.
proof fn lemma_total_push(e: BookView, x: (Seq<char>, Seq<OrderView>))
    ensures
        total(e.push(x)) == total(e) + x.1.len(),
{
    assert(e.push(x).drop_last() =~= e);
}

/// Books whose entries have lists of the same lengths hold the same number of orders.
proof fn lemma_total_same_lengths(a: BookView, b: BookView)
    requires
        a.len() == b.len(),
        forall|i: int| 0 <= i < a.len() ==> (#[trigger] a[i]).1.len() == b[i].1.len(),
    ensures
        total(a) == total(b),
    decreases a.len(),
{
    if a.len() > 0 {
        lemma_total_same_lengths(a.drop_last(), b.drop_last());
    }
}

/// Adding an order to an entry (or a new entry) adds one order and keeps keys unique.
proof fn lemma_total_push_to_entry(e: BookView, key: Seq<char>, o: OrderView)
    requires
        keys_unique(e),
    ensures
        keys_unique(push_to_entry(e, key, o)),
        total(push_to_entry(e, key, o)) == total(e) + 1,
{
    let r = push_to_entry(e, key, o);
    if exists|i: int| 0 <= i < e.len() && #[trigger] e[i].0 == key {
        let w = choose|i: int| 0 <= i < e.len() && #[trigger] e[i].0 == key;
        assert(r =~= e.update(w, (key, e[w].1.push(o))));
        lemma_total_update(e, w, (key, e[w].1.push(o)));
        assert forall|x: int, y: int| 0 <= x < r.len() && 0 <= y < r.len() && x != y implies #[trigger] r[x].0 != #[trigger] r[y].0 by {
            assert(r[x].0 == e[x].0);
            assert(r[y].0 == e[y].0);
        }
    } else {
        lemma_total_push(e, (key, seq![o]));
        assert forall|x: int, y: int| 0 <= x < r.len() && 0 <= y < r.len() && x != y implies #[trigger] r[x].0 != #[trigger] r[y].0 by {}
    }
}

/// Where the search for a slot lands.
proof fn lemma_first_in_book(e: BookView, floor: u8, call: u8, i: int)
    requires
        0 <= i,
    ensures
        first_in_book(e, floor, call, i) matches Some((a, b)) ==> i <= a < e.len() && 0 <= b < e[a].1.len(),
    decreases e.len() - i,
{
    if i < e.len() {
        lemma_first_in_list(e[i].1, floor, call, 0);
        lemma_first_in_book(e, floor, call, i + 1);
    }
}

/// Both books keep unique keys.
pub open spec fn pair_ok(s: (BookView, BookView)) -> bool {
    keys_unique(s.0) && keys_unique(s.1)
}

/// Moving one assigned order keeps the number of orders in both books together.
proof fn lemma_assign_one(s: (BookView, BookView), id: Seq<char>, floor: u8, call: u8)
    requires
        pair_ok(s),
    ensures
        pair_ok(assign_one(s, id, floor, call)),
        total(assign_one(s, id, floor, call).0) + total(assign_one(s, id, floor, call).1) == total(s.0) + total(s.1),
{
    lemma_first_in_book(s.0, floor, call, 0);
    match first_in_book(s.0, floor, call, 0) {
        Some((i, j)) => {
            let l = s.0[i].1.remove(j);
            lemma_total_update(s.0, i, (s.0[i].0, l));
            lemma_total_push_to_entry(s.1, id, s.0[i].1[j]);
            let u = s.0.update(i, (s.0[i].0, l));
            assert forall|x: int, y: int| 0 <= x < u.len() && 0 <= y < u.len() && x != y implies #[trigger] u[x].0 != #[trigger] u[y].0 by {
                assert(u[x].0 == s.0[x].0);
                assert(u[y].0 == s.0[y].0);
            }
        },
        None => {},
    }
}

/// One pass over a floor keeps the number of orders in both books together.
proof fn lemma_assign_pass(s: (BookView, BookView), id: Seq<char>, f: int, row: Seq<bool>, n: nat)
    requires
        pair_ok(s),
    ensures
        pair_ok(assign_pass(s, id, f, row, n)),
        total(assign_pass(s, id, f, row, n).0) + total(assign_pass(s, id, f, row, n).1) == total(s.0) + total(s.1),
    decreases n,
{
    if n > 0 && n <= row.len() {
        let m = (n - 1) as nat;
        lemma_assign_pass(s, id, f, row, m);
        if row[m as int] {
            lemma_assign_one(assign_pass(s, id, f, row, m), id, f as u8, m as u8);
        }
    }
}

/// The first `n` floors keep the number of orders in both books together.
proof fn lemma_assign_rows(s: (BookView, BookView), id: Seq<char>, rows: Seq<Seq<bool>>, n: nat)
    requires
        pair_ok(s),
    ensures
        pair_ok(assign_rows(s, id, rows, n)),
        total(assign_rows(s, id, rows, n).0) + total(assign_rows(s, id, rows, n).1) == total(s.0) + total(s.1),
    decreases n,
{
    if n > 0 && n <= rows.len() {
        let m = (n - 1) as nat;
        lemma_assign_rows(s, id, rows, m);
        let p = assign_rows(s, id, rows, m);
        let row = rows[m as int];
        lemma_assign_pass(p, id, m as int, row, row.len());
        lemma_assign_pass(assign_pass(p, id, m as int, row, row.len()), id, m as int, row, row.len());
    }
}

/// The first `n` elevators of the answer keep the number of orders in both books together.
proof fn lemma_assign_all(s: (BookView, BookView), out: Seq<(Seq<char>, Seq<Seq<bool>>)>, n: nat)
    requires
        pair_ok(s),
    ensures
        pair_ok(assign_all(s, out, n)),
        total(assign_all(s, out, n).0) + total(assign_all(s, out, n).1) == total(s.0) + total(s.1),
    decreases n,
{
    if n > 0 && n <= out.len() {
        let m = (n - 1) as nat;
        lemma_assign_all(s, out, m);
        lemma_assign_rows(assign_all(s, out, m), out[m as int].0, out[m as int].1, out[m as int].1.len());
    }
}

/// Appending the first `n` orders of a list adds `n` orders.
proof fn lemma_merge_list_into(e: BookView, id: Seq<char>, l: Seq<OrderView>, n: nat)
    requires
        keys_unique(e),
        n <= l.len(),
    ensures
        keys_unique(merge_list_into(e, id, l, n)),
        total(merge_list_into(e, id, l, n)) == total(e) + n,
    decreases n,
{
    if n > 0 {
        let m = (n - 1) as nat;
        lemma_merge_list_into(e, id, l, m);
        lemma_total_push_to_entry(merge_list_into(e, id, l, m), id, l[m as int]);
    }
}

/// Appending the orders of the first `n` entries of `new` adds all of them.
proof fn lemma_merge_new(e: BookView, new: BookView, n: nat)
    requires
        keys_unique(e),
        n <= new.len(),
    ensures
        keys_unique(merge_new(e, new, n)),
        total(merge_new(e, new, n)) == total(e) + total(new.subrange(0, n as int)),
    decreases n,
{
    if n > 0 {
        let m = (n - 1) as nat;
        lemma_merge_new(e, new, m);
        lemma_merge_list_into(merge_new(e, new, m), new[m as int].0, new[m as int].1, new[m as int].1.len());
        assert(new.subrange(0, n as int).drop_last() =~= new.subrange(0, m as int));
    } else {
        assert(new.subrange(0, 0) =~= Seq::<(Seq<char>, Seq<OrderView>)>::empty());
    }
}

/// The assigner only redistributes orders: the book holds as many orders after its answer (or
/// its failure) is taken in as before.
pub proof fn law_assignment_keeps_orders(e: BookView, answer: Option<Seq<(Seq<char>, Seq<Seq<bool>>)>>)
    requires
        keys_unique(e),
    ensures
        total(book_after_assignment(e, answer)) == total(e),
        keys_unique(book_after_assignment(e, answer)),
{
    let empty = Seq::<(Seq<char>, Seq<OrderView>)>::empty();
    assert(pair_ok((e, empty)));
    let s = match answer {
        Some(out) => assign_all((e, empty), out, out.len()),
        None => (e, empty),
    };
    match answer {
        Some(out) => lemma_assign_all((e, empty), out, out.len()),
        None => {},
    }
    let fixed = s.1.map_values(
        |p: (Seq<char>, Seq<OrderView>)| (p.0, p.1.map_values(|lo: OrderView| fix_barrier(lo, s.0))),
    );
    lemma_total_same_lengths(fixed, s.1);
    lemma_merge_new(s.0, fixed, fixed.len());
    assert(fixed.subrange(0, fixed.len() as int) =~= fixed);
}

/// Mapping every order of a book keeps its keys and the number of its orders.
proof fn lemma_map_all_shape(e: BookView, f: spec_fn(OrderView) -> OrderView)
    requires
        keys_unique(e),
    ensures
        keys_unique(map_all_orders(e, f)),
        total(map_all_orders(e, f)) == total(e),
{
    let r = map_all_orders(e, f);
    assert forall|x: int, y: int| 0 <= x < r.len() && 0 <= y < r.len() && x != y implies #[trigger] r[x].0 != #[trigger] r[y].0 by {
        assert(r[x].0 == e[x].0);
        assert(r[y].0 == e[y].0);
    }
    lemma_total_same_lengths(r, e);
}

/// Mapping the orders of one entry keeps the keys and the number of orders.
proof fn lemma_map_entry_shape(e: BookView, key: Seq<char>, f: spec_fn(OrderView) -> OrderView)
    requires
        keys_unique(e),
    ensures
        keys_unique(map_entry_orders(e, key, f)),
        total(map_entry_orders(e, key, f)) == total(e),
{
    let r = map_entry_orders(e, key, f);
    assert forall|x: int, y: int| 0 <= x < r.len() && 0 <= y < r.len() && x != y implies #[trigger] r[x].0 != #[trigger] r[y].0 by {
        assert(r[x].0 == e[x].0);
        assert(r[y].0 == e[y].0);
    }
    assert forall|i: int| 0 <= i < r.len() implies (#[trigger] r[i]).1.len() == e[i].1.len() by {}
    lemma_total_same_lengths(r, e);
}

/// A reported order is held once: reporting it adds one order when it is unknown and none
/// when it is known, so reporting the same order again adds nothing.
pub proof fn law_reported_order_held_once(e: BookView, o: OrderView, local: Seq<char>)
    requires
        keys_unique(e),
        o.call <= 2,
    ensures
        keys_unique(book_after_new_order(e, o, local)),
        total(book_after_new_order(e, o, local)) == total(e) + if order_exists(e, o, local) {
            0int
        } else {
            1int
        },
        total(book_after_new_order(book_after_new_order(e, o, local), o, local)) == total(
            book_after_new_order(e, o, local),
        ),
{
    if !order_exists(e, o, local) {
        lemma_total_push_to_entry(
            e,
            local,
            OrderView {
                call: o.call,
                floor: o.floor,
                status: o.status,
                barrier: o.barrier.insert(local),
                source_id: o.source_id,
            },
        );
    } else if o.call == 0 || o.call == 1 {
        lemma_map_all_shape(e, |x: OrderView| rerequest(x, o.floor, o.call, local));
    } else {
        lemma_map_entry_shape(e, local, |x: OrderView| rerequest(x, o.floor, o.call, local));
    }
    let a = book_after_new_order(e, o, local);
    law_new_order_known(e, o, local);
    if o.call == 0 || o.call == 1 {
        lemma_map_all_shape(a, |x: OrderView| rerequest(x, o.floor, o.call, local));
    } else {
        lemma_map_entry_shape(a, local, |x: OrderView| rerequest(x, o.floor, o.call, local));
    }
}

/// After the local elevator serves a floor, none of its orders there is still confirmed, and
/// the orders of the other elevators are untouched.
pub proof fn law_served_floor_not_confirmed(e: BookView, local: Seq<char>, floor: u8)
    ensures
        ({
            let r = map_entry_orders(e, local, |o: OrderView| complete_order(o, floor, local));
            &&& r.len() == e.len()
            &&& forall|i: int, j: int|
                0 <= i < r.len() && r[i].0 == local && 0 <= j < r[i].1.len() && (#[trigger] r[i].1[j]).floor
                    == floor ==> r[i].1[j].status != OrderStatus::Confirmed
            &&& forall|i: int| 0 <= i < r.len() && e[i].0 != local ==> #[trigger] r[i] == e[i]
        }),
{
}

/// A moving (or obstructed) elevator that still reports the floor it was seen at more than
/// `STUCK_NS` ago, and whose heartbeat is known, is taken for dead; its stuck timer keeps running.
pub proof fn law_stuck_elevator_dead(m: MonitorView, id: Seq<char>, s: ElevatorState, t: u64, now: u64)
    requires
        keys_unique(m.alive),
        keys_unique(m.seen),
        s.current_direction != 0 || s.obstruction,
        lookup(m.seen, id) == Some((s.current_floor, t)),
        elapsed(now, t) > crate::network::STUCK_NS,
        lookup(m.beats, id) is Some,
    ensures
        lookup(heard(m, id, Some(s), now).alive, id) == Some(false),
        lookup(heard(m, id, Some(s), now).seen, id) == Some((s.current_floor, t)),
{
    law_put_lookup(m.alive, id, false, id);
    law_put_lookup(m.seen, id, (s.current_floor, t), id);
}

/// Every alive/dead flag that can be read for an elevator comes from a status that names that
/// elevator: `ElevatorStatus { id, is_alive }` kept under `id`.
pub proof fn law_status_names_its_elevator(info: AliveDeadInfo, id: Seq<char>, alive: bool)
    requires
        info.wf(),
        lookup(alive_view(info.elevators@), id) == Some(alive),
    ensures
        exists|i: int|
            0 <= i < info.elevators@.len() && (#[trigger] info.elevators@[i]).0@ == id && info.elevators@[i].1.id@ == id
                && info.elevators@[i].1.is_alive == alive,
{
    let a = alive_view(info.elevators@);
    let i = choose|i: int| 0 <= i < a.len() && #[trigger] a[i].0 == id;
    assert(a[i] == (info.elevators@[i].0@, info.elevators@[i].1.is_alive));
    assert(info.elevators@[i].1.id@ == id);
}

/// Looking up in a keyed list with one more entry at the end.
proof fn lemma_lookup_push<V>(d: Seq<(Seq<char>, V)>, k: Seq<char>, v: V, id: Seq<char>)
    requires
        keys_unique(d.push((k, v))),
    ensures
        lookup(d.push((k, v)), id) == if id == k {
            Some(v)
        } else {
            lookup(d, id)
        },
{
    let p = d.push((k, v));
    assert(keys_unique(d)) by {
        assert forall|x: int, y: int| 0 <= x < d.len() && 0 <= y < d.len() && x != y implies #[trigger] d[x].0 != #[trigger] d[y].0 by {
            assert(p[x] == d[x]);
            assert(p[y] == d[y]);
        }
    }
    assert forall|i: int| 0 <= i < d.len() implies #[trigger] d[i].0 != k by {
        assert(p[i] == d[i]);
        assert(p[d.len() as int].0 == k);
    }
    assert(put(d, k, v) == p);
    law_put_lookup(d, k, v, id);
}

/// After the first `n` received states are put (skipping key `skip` when `skipping`), a key reads
/// the state received for it, or what it read before.
proof fn lemma_put_states(
    s: Seq<(Seq<char>, crate::common::ElevatorState)>,
    r: Seq<(Seq<char>, crate::common::ElevatorState)>,
    skipping: bool,
    skip: Seq<char>,
    n: nat,
)
    requires
        keys_unique(s),
        keys_unique(r),
        n <= r.len(),
    ensures
        keys_unique(put_states(s, r, skipping, skip, n)),
        forall|id: Seq<char>|
            #[trigger] lookup(put_states(s, r, skipping, skip, n), id) == if !(skipping && id == skip) && lookup(
                r.take(n as int),
                id,
            ) is Some {
                lookup(r.take(n as int), id)
            } else {
                lookup(s, id)
            },
    decreases n,
{
    if n == 0 {
        assert(r.take(0) =~= Seq::<(Seq<char>, crate::common::ElevatorState)>::empty());
    } else {
        let m = (n - 1) as nat;
        lemma_put_states(s, r, skipping, skip, m);
        let prev = put_states(s, r, skipping, skip, m);
        let key = r[m as int].0;
        let v = r[m as int].1;
        assert(r.take(n as int) =~= r.take(m as int).push((key, v)));
        assert(keys_unique(r.take(n as int))) by {
            let t = r.take(n as int);
            assert forall|x: int, y: int| 0 <= x < t.len() && 0 <= y < t.len() && x != y implies #[trigger] t[x].0 != #[trigger] t[y].0 by {
                assert(t[x] == r[x]);
                assert(t[y] == r[y]);
            }
        }
        assert forall|id: Seq<char>| #[trigger] lookup(r.take(n as int), id) == if id == key {
            Some(v)
        } else {
            lookup(r.take(m as int), id)
        } by {
            lemma_lookup_push(r.take(m as int), key, v, id);
        }
        if !(skipping && key == skip) {
            law_put_lookup(prev, key, v, key);
            assert forall|id: Seq<char>| #[trigger] lookup(put_states(s, r, skipping, skip, n), id) == if !(skipping && id == skip)
                && lookup(r.take(n as int), id) is Some {
                lookup(r.take(n as int), id)
            } else {
                lookup(s, id)
            } by {
                law_put_lookup(prev, key, v, id);
            }
        }
    }
}

/// Taking in a message's states puts every received state, the local elevator's included: each
/// received key reads its received state, every other key what it read before.
pub proof fn law_received_states_taken(
    s: Seq<(Seq<char>, crate::common::ElevatorState)>,
    r: Seq<(Seq<char>, crate::common::ElevatorState)>,
    local: Seq<char>,
)
    requires
        keys_unique(s),
        keys_unique(r),
    ensures
        ({
            let f = put_states(put_states(s, r, true, local, r.len()), r, false, local, r.len());
            &&& keys_unique(f)
            &&& forall|id: Seq<char>|
                #[trigger] lookup(f, id) == if lookup(r, id) is Some {
                    lookup(r, id)
                } else {
                    lookup(s, id)
                }
        }),
{
    let first = put_states(s, r, true, local, r.len());
    lemma_put_states(s, r, true, local, r.len());
    lemma_put_states(first, r, false, local, r.len());
    assert(r.take(r.len() as int) =~= r);
    let f = put_states(first, r, false, local, r.len());
    assert forall|id: Seq<char>| #[trigger] lookup(f, id) == if lookup(r, id) is Some {
        lookup(r, id)
    } else {
        lookup(s, id)
    } by {
        assert(lookup(f, id) == if lookup(r, id) is Some { lookup(r, id) } else { lookup(first, id) });
        assert(lookup(first, id) == if !(id == local) && lookup(r, id) is Some { lookup(r, id) } else { lookup(s, id) });
    }
}

/// Merging a peer's order for the same slot: a status one step ahead in the life cycle is
/// always taken; a status two steps ahead is taken from no order and from requested; any other
/// status leaves the local one. When both end up requested, or both completed, the barrier holds
/// both barriers and both peers; otherwise it is empty. Slot and origin are kept.
pub proof fn law_merge_follows_peer(lo: OrderView, owner: Seq<char>, ro: OrderView, ctx: MergeCtx)
    requires
        merges(lo, owner, ro, ctx),
    ensures
        ({
            let m = merge_local(lo, owner, ro, ctx);
            let one = ro.status == next_status(lo.status);
            let two = ro.status == next_status(next_status(lo.status)) && (lo.status == OrderStatus::Noorder
                || lo.status == OrderStatus::Requested);
            &&& one ==> m.status == ro.status
            &&& two ==> m.status == ro.status
            &&& !one && !two ==> m.status == lo.status
            &&& (m.status == ro.status && (ro.status == OrderStatus::Requested || ro.status == OrderStatus::Completed))
                ==> m.barrier == lo.barrier.union(ro.barrier).insert(ctx.sender).insert(ctx.local)
            &&& !(m.status == ro.status && (ro.status == OrderStatus::Requested || ro.status == OrderStatus::Completed))
                ==> m.barrier == Set::<Seq<char>>::empty()
            &&& m.floor == lo.floor && m.call == lo.call && m.source_id == lo.source_id
        }),
{
}

/// Taking in a received order with a known call merges it into every local order in place:
/// each entry keeps its key and each local order its position, becoming its merge with the
/// received order (see `law_merge_follows_peer`).
pub proof fn law_received_order_merges_in_place(e: BookView, owner: Seq<char>, ro: OrderView, ctx: MergeCtx, i: int, j: int)
    requires
        ro.call <= 2,
        0 <= i < e.len(),
        0 <= j < e[i].1.len(),
    ensures
        receive_order(e, owner, ro, ctx)[i].0 == e[i].0,
        j < receive_order(e, owner, ro, ctx)[i].1.len(),
        receive_order(e, owner, ro, ctx)[i].1[j] == merge_local(e[i].1[j], e[i].0, ro, ctx),
{
}

/// Whether an order is confirmed.
pub open spec fn is_confirmed() -> spec_fn(OrderView) -> bool {
    |o: OrderView| o.status == OrderStatus::Confirmed
}

/// The confirmed orders of the first `n` orders, in order.
proof fn lemma_confirmed_prefix_filter(l: Seq<OrderView>, n: nat)
    requires
        n <= l.len(),
    ensures
        confirmed_prefix(l, n) == l.take(n as int).filter(is_confirmed()),
    decreases n,
{
    if n > 0 {
        lemma_confirmed_prefix_filter(l, (n - 1) as nat);
        let t = l.take(n as int);
        let p = is_confirmed();
        assert(t =~= l.take(n - 1).push(l[n - 1]));
        l.take(n - 1).lemma_filter_push(l[n - 1], p);
        assert(p(l[n - 1]) == (l[n - 1].status == OrderStatus::Confirmed));
    } else {
        assert(l.take(0) =~= Seq::<OrderView>::empty());
        reveal(Seq::filter);
    }
}

/// The orders handed to the local elevator are exactly the orders of its entry whose status is
/// confirmed, whatever their call, in the entry's order; none when it has no entry.
pub proof fn law_handed_orders_are_the_confirmed_ones(e: BookView, id: Seq<char>)
    requires
        keys_unique(e),
    ensures
        forall|i: int|
            0 <= i < e.len() && #[trigger] e[i].0 == id ==> confirmed_of(e, id) == e[i].1.filter(is_confirmed()),
        forall|i: int, j: int|
            0 <= i < e.len() && e[i].0 == id && 0 <= j < e[i].1.len() && (#[trigger] e[i].1[j]).status
                == OrderStatus::Confirmed ==> confirmed_of(e, id).contains(e[i].1[j]),
        forall|k: int|
            0 <= k < confirmed_of(e, id).len() ==> (#[trigger] confirmed_of(e, id)[k]).status == OrderStatus::Confirmed,
        (forall|i: int| 0 <= i < e.len() ==> #[trigger] e[i].0 != id) ==> confirmed_of(e, id).len() == 0,
{
    let p = is_confirmed();
    if exists|i: int| 0 <= i < e.len() && #[trigger] e[i].0 == id {
        let w = choose|i: int| 0 <= i < e.len() && #[trigger] e[i].0 == id;
        lemma_confirmed_prefix_filter(e[w].1, e[w].1.len());
        assert(e[w].1.take(e[w].1.len() as int) =~= e[w].1);
        let c = confirmed_of(e, id);
        assert(c == e[w].1.filter(p));
        assert forall|i: int| 0 <= i < e.len() && #[trigger] e[i].0 == id implies i == w by {}
        assert forall|i: int, j: int|
            0 <= i < e.len() && e[i].0 == id && 0 <= j < e[i].1.len() && (#[trigger] e[i].1[j]).status
                == OrderStatus::Confirmed implies c.contains(e[i].1[j]) by {
            assert(i == w);
            e[w].1.lemma_filter_contains(p, j);
        }
        assert forall|k: int| 0 <= k < c.len() implies (#[trigger] c[k]).status == OrderStatus::Confirmed by {
            e[w].1.lemma_filter_pred(p, k);
        }
    }
}

/// The consensus step confirms every requested hall order, in any elevator's entry, and every
/// requested cab order of the local elevator, once its barrier holds every alive elevator; a
/// cab order of another elevator is left requested; a completed order whose barrier holds
/// every alive elevator has no order any more. Whenever such a request exists, the step
/// reports a confirmation.
pub proof fn law_full_barrier_settles(e: BookView, local: Seq<char>, alive: Set<Seq<char>>, i: int, j: int)
    requires
        0 <= i < e.len(),
        0 <= j < e[i].1.len(),
    ensures
        ({
            let o = e[i].1[j];
            let r = settle_book(e, local, alive)[i].1[j];
            &&& (o.status == OrderStatus::Requested && alive.subset_of(o.barrier) && (o.call == 0 || o.call == 1))
                ==> r.status == OrderStatus::Confirmed && r.barrier == Set::<Seq<char>>::empty()
                    && some_confirmable(e, local, alive)
            &&& (o.status == OrderStatus::Requested && alive.subset_of(o.barrier) && o.call == 2 && e[i].0 == local)
                ==> r.status == OrderStatus::Confirmed && some_confirmable(e, local, alive)
            &&& (o.status == OrderStatus::Requested && o.call == 2 && e[i].0 != local) ==> r == o
            &&& (o.status == OrderStatus::Requested && !alive.subset_of(o.barrier)) ==> r == o
            &&& (o.status == OrderStatus::Completed && alive.subset_of(o.barrier)) ==> r.status == OrderStatus::Noorder
                && r.barrier == Set::<Seq<char>>::empty()
            &&& settle_book(e, local, alive)[i].0 == e[i].0
        }),
{
    let o = e[i].1[j];
    if o.status == OrderStatus::Requested && alive.subset_of(o.barrier) && (o.call == 0 || o.call == 1 || (o.call == 2 && e[i].0 == local)) {
        assert(can_confirm(e[i].1[j], e[i].0, local, alive));
    }
}

/// After the local elevator reports an order with a known call and a status other than no
/// order, the book holds an order for that slot (in the local entry for a cab call) that is not
/// "no order"; and every order for that slot that had no order (in any entry for a hall call,
/// in the local entry for a cab call) is requested again, with the local elevator in its barrier.
pub proof fn law_report_requests_again(e: BookView, o: OrderView, local: Seq<char>)
    requires
        o.call <= 2,
        keys_unique(e),
    ensures
        ({
            let a = book_after_new_order(e, o, local);
            &&& forall|i: int, j: int|
                0 <= i < e.len() && 0 <= j < e[i].1.len() && same_slot(#[trigger] e[i].1[j], o.floor, o.call)
                    && (o.call < 2 || e[i].0 == local) && e[i].1[j].status == OrderStatus::Noorder ==> {
                    &&& j < a[i].1.len()
                    &&& a[i].1[j].status == OrderStatus::Requested
                    &&& a[i].1[j].barrier.contains(local)
                }
            &&& o.status != OrderStatus::Noorder ==> exists|i: int, j: int|
                0 <= i < a.len() && 0 <= j < a[i].1.len() && same_slot(#[trigger] a[i].1[j], o.floor, o.call)
                    && (o.call < 2 || a[i].0 == local) && a[i].1[j].status != OrderStatus::Noorder
        }),
{
    let a = book_after_new_order(e, o, local);
    if !order_exists(e, o, local) {
        assert forall|i: int, j: int|
            0 <= i < e.len() && 0 <= j < e[i].1.len() && same_slot(#[trigger] e[i].1[j], o.floor, o.call)
                && (o.call < 2 || e[i].0 == local) && e[i].1[j].status == OrderStatus::Noorder implies false by {
            if o.call < 2 {
                assert(list_has_slot(e[i].1, o.floor, o.call));
                assert(book_has_slot(e, o.floor, o.call));
            } else {
                assert(list_has_slot(e[i].1, o.floor, o.call));
                assert(entry_has_slot(e, local, o.floor, o.call));
            }
        }
        let o2 = OrderView {
            call: o.call,
            floor: o.floor,
            status: o.status,
            barrier: o.barrier.insert(local),
            source_id: o.source_id,
        };
        if exists|i: int| 0 <= i < e.len() && #[trigger] e[i].0 == local {
            let i = choose|i: int| 0 <= i < e.len() && #[trigger] e[i].0 == local;
            assert(a[i] == (local, e[i].1.push(o2)));
            assert(same_slot(a[i].1[e[i].1.len() as int], o.floor, o.call));
        } else {
            assert(a[e.len() as int] == (local, seq![o2]));
            assert(same_slot(a[e.len() as int].1[0], o.floor, o.call));
        }
    } else {
        if o.status != OrderStatus::Noorder {
            if o.call < 2 {
                let i = choose|i: int| 0 <= i < e.len() && list_has_slot(#[trigger] e[i].1, o.floor, o.call);
                let j = choose|j: int| 0 <= j < e[i].1.len() && same_slot(#[trigger] e[i].1[j], o.floor, o.call);
                assert(same_slot(a[i].1[j], o.floor, o.call));
            } else {
                let i = choose|i: int| 0 <= i < e.len() && #[trigger] e[i].0 == local && list_has_slot(e[i].1, o.floor, o.call);
                let j = choose|j: int| 0 <= j < e[i].1.len() && same_slot(#[trigger] e[i].1[j], o.floor, o.call);
                assert(same_slot(a[i].1[j], o.floor, o.call));
                assert(a[i].0 == local);
            }
        }
    }
}

/// When the floor sensor reports a floor, the elevator stops (direction stop, with a motor stop
/// action) if the floor is the bottom or top one, if its queue is empty, or if an order waits at
/// that floor; in the last case the floor's orders leave the queue, the floor is reported served
/// and the door opens. Otherwise the direction is kept.
pub proof fn law_floor_sensor_stops(c: ControllerView, floor: u8)
    requires
        c.num_of_floors >= 1,
    ensures
        ({
            let (n, acts) = floor_reached(c, floor);
            let must_stop = floor == 0 || floor == c.num_of_floors - 1 || c.queue.len() == 0 || has_floor(c.queue, floor);
            &&& n.state.current_floor == floor
            &&& acts[0] == ElevatorAction::FloorIndicator(floor)
            &&& must_stop ==> n.state.current_direction == DIRN_STOP && acts.contains(ElevatorAction::MotorDirection(DIRN_STOP))
            &&& !must_stop ==> n.state.current_direction == c.state.current_direction && acts == seq![ElevatorAction::FloorIndicator(floor)]
            &&& has_floor(c.queue, floor) ==> {
                &&& !has_floor(n.queue, floor)
                &&& acts.contains(ElevatorAction::OrderCompleted(floor))
                &&& acts.contains(ElevatorAction::DoorSignal(false))
            }
            &&& !has_floor(c.queue, floor) ==> n.queue == c.queue
        }),
{
    let (n, acts) = floor_reached(c, floor);
    law_remove_floor(c.queue, floor);
    let at_end = floor == 0 || floor == c.num_of_floors - 1;
    let empty = c.queue.len() == 0;
    let stop = has_floor(c.queue, floor);
    let a1: Seq<ElevatorAction> = seq![ElevatorAction::FloorIndicator(floor)];
    let a2: Seq<ElevatorAction> = if at_end { seq![ElevatorAction::MotorDirection(DIRN_STOP)] } else { Seq::empty() };
    let a3: Seq<ElevatorAction> = if empty { seq![ElevatorAction::MotorDirection(DIRN_STOP)] } else { Seq::empty() };
    let a4: Seq<ElevatorAction> = if stop {
        seq![ElevatorAction::MotorDirection(DIRN_STOP)] + removal_actions(floor) + seq![
            ElevatorAction::DoorSignal(false),
            ElevatorAction::RestartDoorTimer,
        ]
    } else {
        Seq::empty()
    };
    assert(acts == a1 + a2 + a3 + a4);
    assert(acts[0] == ElevatorAction::FloorIndicator(floor));
    if at_end {
        assert(acts[1] == ElevatorAction::MotorDirection(DIRN_STOP));
    } else if empty {
        assert(acts[1] == ElevatorAction::MotorDirection(DIRN_STOP));
    } else if stop {
        assert(acts[1] == ElevatorAction::MotorDirection(DIRN_STOP));
    } else {
        assert(acts =~= a1);
    }
    if stop {
        let k = (a1 + a2 + a3).len() as int;
        assert(acts[k + 1] == ElevatorAction::OrderCompleted(floor));
        assert(acts[k + 5] == ElevatorAction::DoorSignal(false));
    }
}

} // verus!
