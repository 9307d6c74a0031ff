//! Peer identity and the heartbeat bookkeeping that decides which peers are alive.
use vstd::prelude::*;
use crate::assoc::{find_key, key_view, keys_unique, lemma_find_key_spec, put, put_entry};
use crate::common::{alive_view, AliveDeadInfo, BroadcastMessage, ElevatorState};

verus! {

/// The lower-case hexadecimal MD5 digest of the UTF-8 bytes of `text`.
pub uninterp spec fn md5_hex(text: Seq<char>) -> Seq<char>;

/// Calls `md5::compute` on the bytes of `text` and formats the digest with `{:x}`: the result
/// is `md5_hex(text)`, 32 characters (16 bytes, two hex digits each).
#[verifier::external_body]
fn md5_hex_digest(text: &str) -> (r: String)
    ensures
        r@ == md5_hex(text@),
        r@.len() == 32,
{
    format!("{:x}", md5::compute(text))
}

/// The identifier of this peer, given its first non-loopback IPv4 address (`None` when there is
/// none, on which no identifier can be made): the address is digested, and the identifier is
/// the fixed `"2"`.
#[allow(non_snake_case)]
pub fn generateIDs(ip: Option<String>) -> (r: Option<String>)
    requires
        ip is Some,
    ensures
        r matches Some(id) && id@ == "2"@,
{
    let ip = match ip {
        Some(ip) => ip,
        None => String::new(),
    };
    let _digest = md5_hex_digest(ip.as_str());
    let id = "2".to_owned();
    Some(id)
}

/// A network interface of this machine: whether it is the loopback, whether its address is
/// IPv4, and its address as text.
#[derive(Clone, Debug)]
pub struct NetInterface {
    pub is_loopback: bool,
    pub is_ipv4: bool,
    pub ip: String,
}

/// The index of the first interface at or after `i` that is not the loopback and has an IPv4
/// address.
pub open spec fn first_lan_from(ifaces: Seq<NetInterface>, i: int) -> Option<int>
    decreases ifaces.len() - i,
{
    if i < 0 || i >= ifaces.len() {
        None
    } else if !ifaces[i].is_loopback && ifaces[i].is_ipv4 {
        Some(i)
    } else {
        first_lan_from(ifaces, i + 1)
    }
}

/// The address of the first interface that is not the loopback and has an IPv4 address.
pub fn get_ip(ifaces: &Vec<NetInterface>) -> (r: Option<String>)
    ensures
        match first_lan_from(ifaces@, 0) {
            Some(i) => r matches Some(ip) && ip@ == ifaces@[i].ip@,
            None => r is None,
        },
{
    let n = ifaces.len();
    for i in 0..n
        invariant
            n == ifaces@.len(),
            first_lan_from(ifaces@, 0) == first_lan_from(ifaces@, i as int),
    {
        if !ifaces[i].is_loopback && ifaces[i].is_ipv4 {
            return Some(ifaces[i].ip.clone());
        }
    }
    None
}

/// Whether a received message was sent by this peer itself (and is to be dropped).
pub fn is_own_message(msg: &BroadcastMessage, own_id: &String) -> (r: bool)
    ensures
        r == (msg.source_id@ == own_id@),
{
    msg.source_id == *own_id
}

/// How long (ns) a moving elevator may stay at one floor before it is taken for dead (15 s).
pub const STUCK_NS: u64 = 15_000_000_000;

/// `now - then`, or 0 when `then` is later.
pub open spec fn elapsed(now: u64, then: u64) -> u64 {
    if now >= then {
        (now - then) as u64
    } else {
        0
    }
}

/// The heartbeat bookkeeping of the network receiver.
pub struct HeartbeatMonitor {
    pub alive_dead_info: AliveDeadInfo,
    /// Per elevator: the floor it was last seen at and when (ns).
    pub last_seen_floor: Vec<(String, (u8, u64))>,
    /// How long (ns) a heartbeat stays valid.
    pub timeout_ns: u64,
}

/// The mathematical value of the heartbeat bookkeeping.
pub struct MonitorView {
    pub alive: Seq<(Seq<char>, bool)>,
    pub beats: Seq<(Seq<char>, u64)>,
    pub seen: Seq<(Seq<char>, (u8, u64))>,
    pub timeout: u64,
}

/// Expiring the first `n` heartbeats at time `now`: the alive flags (expired peers are marked
/// not alive) and the heartbeats that are kept.
pub open spec fn expire_prefix(
    alive: Seq<(Seq<char>, bool)>,
    beats: Seq<(Seq<char>, u64)>,
    now: u64,
    timeout: u64,
    n: nat,
) -> (Seq<(Seq<char>, bool)>, Seq<(Seq<char>, u64)>)
    decreases n,
{
    if n == 0 || n > beats.len() {
        (alive, Seq::empty())
    } else {
        let p = expire_prefix(alive, beats, now, timeout, (n - 1) as nat);
        if elapsed(now, beats[n - 1].1) > timeout {
            (put(p.0, beats[n - 1].0, false), p.1)
        } else {
            (p.0, p.1.push(beats[n - 1]))
        }
    }
}

/// The entries of `d` without key `id`.
pub open spec fn drop_key<V>(d: Seq<(Seq<char>, V)>, id: Seq<char>) -> Seq<(Seq<char>, V)>
    decreases d.len(),
{
    if d.len() == 0 {
        d
    } else if d.last().0 == id {
        drop_key(d.drop_last(), id)
    } else {
        drop_key(d.drop_last(), id).push(d.last())
    }
}

/// The value of the entry keyed `id`, if any.
pub open spec fn lookup<V>(d: Seq<(Seq<char>, V)>, id: Seq<char>) -> Option<V> {
    if exists|i: int| 0 <= i < d.len() && #[trigger] d[i].0 == id {
        Some(d[choose|i: int| 0 <= i < d.len() && #[trigger] d[i].0 == id].1)
    } else {
        None
    }
}

/// The bookkeeping after a message from `id` reporting state `st` (if it reported one for
/// itself) arrives at time `now`. A moving (or obstructed) elevator seen at a new floor, or a
/// still one, is seen at this floor now; a still one loses its heartbeat first. A moving one
/// stuck at its floor for more than `STUCK_NS` is marked not alive. Finally a peer without
/// heartbeat is marked alive, and the peer's heartbeat is now.
pub open spec fn heard(m: MonitorView, id: Seq<char>, st: Option<ElevatorState>, now: u64) -> MonitorView {
    let (alive, beats, seen) = match st {
        None => (m.alive, m.beats, m.seen),
        Some(s) => {
            let e0 = match lookup(m.seen, id) {
                Some(e) => e,
                None => (s.current_floor, now),
            };
            if s.current_direction != 0 || s.obstruction {
                if s.current_floor != e0.0 {
                    (m.alive, m.beats, put(m.seen, id, (s.current_floor, now)))
                } else if elapsed(now, e0.1) > STUCK_NS {
                    (put(m.alive, id, false), m.beats, put(m.seen, id, e0))
                } else {
                    (m.alive, m.beats, put(m.seen, id, e0))
                }
            } else {
                (m.alive, drop_key(m.beats, id), put(m.seen, id, (s.current_floor, now)))
            }
        },
    };
    let alive2 = if lookup(beats, id) is None {
        put(alive, id, true)
    } else {
        alive
    };
    MonitorView { alive: alive2, beats: put(beats, id, now), seen, timeout: m.timeout }
}

/// Without an entry keyed `id`, dropping the key changes nothing.
proof fn lemma_drop_absent<V>(d: Seq<(Seq<char>, V)>, id: Seq<char>)
    requires
        forall|i: int| 0 <= i < d.len() ==> #[trigger] d[i].0 != id,
    ensures
        drop_key(d, id) == d,
    decreases d.len(),
{
    if d.len() > 0 {
        lemma_drop_absent(d.drop_last(), id);
        assert(d.drop_last().push(d.last()) =~= d);
    }
}

/// With exactly the entry at `k` keyed `id`, dropping the key removes that entry.
proof fn lemma_drop_at<V>(d: Seq<(Seq<char>, V)>, id: Seq<char>, k: int)
    requires
        0 <= k < d.len(),
        d[k].0 == id,
        forall|i: int| 0 <= i < d.len() && i != k ==> #[trigger] d[i].0 != id,
    ensures
        drop_key(d, id) == d.remove(k),
    decreases d.len(),
{
    if k == d.len() - 1 {
        lemma_drop_absent(d.drop_last(), id);
        assert(d.drop_last() =~= d.remove(k));
    } else {
        lemma_drop_at(d.drop_last(), id, k);
        assert(d.drop_last().remove(k).push(d.last()) =~= d.remove(k));
    }
}

/// Removes the entry keyed `id`, if any.
fn remove_key<V>(d: &mut Vec<(String, V)>, id: &String)
    requires
        keys_unique(key_view(old(d)@)),
    ensures
        keys_unique(key_view(final(d)@)),
        key_view(final(d)@) == drop_key(key_view(old(d)@), id@),
{
    let ghost b = key_view(d@);
    proof {
        lemma_find_key_spec(d@, id@);
    }
    match find_key(d, id) {
        Some(k) => {
            proof {
                assert(b[k as int].0 == id@);
                assert forall|i: int| 0 <= i < b.len() && i != k implies #[trigger] b[i].0 != id@ by {}
                lemma_drop_at(b, id@, k as int);
            }
            let _e = d.remove(k);
            assert(key_view(d@) =~= b.remove(k as int));
        },
        None => {
            proof {
                assert forall|i: int| 0 <= i < b.len() implies #[trigger] b[i].0 != id@ by {
                    assert((d@[i]).0@ != id@);
                }
                lemma_drop_absent(b, id@);
            }
        },
    }
}

/// The value of the first entry keyed `id`, if any.
pub open spec fn first_value<V>(d: Seq<(String, V)>, id: Seq<char>) -> Option<V> {
    match crate::assoc::find_key_spec(d, id) {
        Some(k) => Some(d[k].1),
        None => None,
    }
}

/// The value of the first entry keyed `id`, if any (with unique keys: the entry keyed `id`).
fn get_entry<V: Copy>(d: &Vec<(String, V)>, id: &String) -> (r: Option<V>)
    ensures
        r == first_value(d@, id@),
        keys_unique(key_view(d@)) ==> r == lookup(key_view(d@), id@),
{
    let ghost b = key_view(d@);
    proof {
        lemma_find_key_spec(d@, id@);
    }
    match find_key(d, id) {
        Some(k) => {
            proof {
                assert(b[k as int].0 == id@);
                if keys_unique(b) {
                    let c = choose|i: int| 0 <= i < b.len() && #[trigger] b[i].0 == id@;
                    assert(c == k);
                }
            }
            Some(d[k].1)
        },
        None => {
            assert forall|i: int| 0 <= i < b.len() implies #[trigger] b[i].0 != id@ by {
                assert((d@[i]).0@ != id@);
            }
            None
        },
    }
}

impl View for HeartbeatMonitor {
    type V = MonitorView;

    open spec fn view(&self) -> MonitorView {
        MonitorView {
            alive: alive_view(self.alive_dead_info.elevators@),
            beats: key_view(self.alive_dead_info.last_heartbeat@),
            seen: key_view(self.last_seen_floor@),
            timeout: self.timeout_ns,
        }
    }
}

impl HeartbeatMonitor {
    /// Identifiers are unique in every list.
    pub open spec fn wf(&self) -> bool {
        self.alive_dead_info.wf() && keys_unique(key_view(self.last_seen_floor@))
    }

    /// No peer known yet; heartbeats last `timeout_ns` nanoseconds.
    pub fn new(timeout_ns: u64) -> (r: HeartbeatMonitor)
        ensures
            r.wf(),
            r@.alive.len() == 0,
            r@.beats.len() == 0,
            r@.seen.len() == 0,
            r@.timeout == timeout_ns,
    {
        let r = HeartbeatMonitor { alive_dead_info: AliveDeadInfo::new(), last_seen_floor: Vec::new(), timeout_ns };
        assert(r@.alive =~= Seq::<(Seq<char>, bool)>::empty());
        r
    }

    /// At time `now`, every heartbeat older than the timeout is dropped and its peer marked not
    /// alive.
    pub fn expire(&mut self, now: u64)
        requires
            old(self).wf(),
        ensures
            final(self).wf(),
            final(self)@.seen == old(self)@.seen,
            final(self)@.timeout == old(self)@.timeout,
            (final(self)@.alive, final(self)@.beats) == expire_prefix(
                old(self)@.alive,
                old(self)@.beats,
                now,
                old(self)@.timeout,
                old(self)@.beats.len(),
            ),
    {
        let ghost a0 = self@.alive;
        let ghost b0 = self@.beats;
        let mut beats: Vec<(String, u64)> = Vec::new();
        std::mem::swap(&mut beats, &mut self.alive_dead_info.last_heartbeat);
        assert(key_view(beats@) == b0);
        let mut kept: Vec<(String, u64)> = Vec::new();
        let n = beats.len();
        for i in 0..n
            invariant
                n == beats@.len(),
                b0 == key_view(beats@),
                keys_unique(b0),
                self.alive_dead_info.last_heartbeat@.len() == 0,
                crate::assoc::keys_unique(alive_view(self.alive_dead_info.elevators@)),
                forall|k: int|
                    0 <= k < self.alive_dead_info.elevators@.len() ==> (#[trigger] self.alive_dead_info.elevators@[k]).1.id@
                        == self.alive_dead_info.elevators@[k].0@,
                self.last_seen_floor == old(self).last_seen_floor,
                self.timeout_ns == old(self).timeout_ns,
                (alive_view(self.alive_dead_info.elevators@), key_view(kept@)) == expire_prefix(a0, b0, now, self.timeout_ns, i as nat),
                forall|k: int| 0 <= k < kept@.len() ==> exists|j: int| 0 <= j < i && #[trigger] key_view(kept@)[k] == b0[j],
                keys_unique(key_view(kept@)),
        {
            assert(b0[i as int] == (beats@[i as int].0@, beats@[i as int].1));
            if now.saturating_sub(beats[i].1) > self.timeout_ns {
                self.alive_dead_info.update_elevator_status(beats[i].0.clone(), false);
            } else {
                let ghost before = key_view(kept@);
                kept.push((beats[i].0.clone(), beats[i].1));
                proof {
                    assert(key_view(kept@) =~= before.push(b0[i as int]));
                    assert forall|k: int| 0 <= k < kept@.len() implies exists|j: int| 0 <= j < i + 1 && #[trigger] key_view(kept@)[k] == b0[j] by {
                        if k == kept@.len() - 1 {
                            assert(key_view(kept@)[k] == b0[i as int]);
                        } else {
                            assert(key_view(kept@)[k] == before[k]);
                        }
                    }
                    assert forall|x: int, y: int| 0 <= x < key_view(kept@).len() && 0 <= y < key_view(kept@).len() && x != y
                        implies #[trigger] key_view(kept@)[x].0 != #[trigger] key_view(kept@)[y].0 by {
                        if x == kept@.len() - 1 {
                            let j = choose|j: int| 0 <= j < i && #[trigger] key_view(kept@)[y] == b0[j];
                            assert(key_view(kept@)[y] == before[y]);
                        } else if y == kept@.len() - 1 {
                            let j = choose|j: int| 0 <= j < i && #[trigger] key_view(kept@)[x] == b0[j];
                            assert(key_view(kept@)[x] == before[x]);
                        } else {
                            assert(key_view(kept@)[x] == before[x]);
                            assert(key_view(kept@)[y] == before[y]);
                        }
                    }
                }
            }
        }
        self.alive_dead_info.last_heartbeat = kept;
    }

    /// A message from peer `source` arrived at time `now`; `state` is the state the message
    /// reports for its sender, if any (see `heard`).
    pub fn heard_from(&mut self, source: &String, state: Option<ElevatorState>, now: u64)
        requires
            old(self).wf(),
        ensures
            final(self).wf(),
            final(self)@ == heard(old(self)@, source@, state, now),
    {
        let ghost m = self@;
        match state {
            None => {},
            Some(s) => {
                let e0 = match get_entry(&self.last_seen_floor, source) {
                    Some(e) => e,
                    None => (s.current_floor, now),
                };
                if s.current_direction != 0 || s.obstruction {
                    if s.current_floor != e0.0 {
                        put_entry(&mut self.last_seen_floor, source, (s.current_floor, now));
                    } else if now.saturating_sub(e0.1) > STUCK_NS {
                        put_entry(&mut self.last_seen_floor, source, e0);
                        self.alive_dead_info.update_elevator_status(source.clone(), false);
                    } else {
                        put_entry(&mut self.last_seen_floor, source, e0);
                    }
                } else {
                    remove_key(&mut self.alive_dead_info.last_heartbeat, source);
                    put_entry(&mut self.last_seen_floor, source, (s.current_floor, now));
                }
            },
        }
        if get_entry(&self.alive_dead_info.last_heartbeat, source).is_none() {
            self.alive_dead_info.update_elevator_status(source.clone(), true);
        }
        put_entry(&mut self.alive_dead_info.last_heartbeat, source, now);
    }

    /// A message arrived at time `now`: the bookkeeping for its sender, with the state the
    /// message reports for the sender.
    pub fn on_message(&mut self, msg: &BroadcastMessage, now: u64)
        requires
            old(self).wf(),
        ensures
            final(self).wf(),
            final(self)@ == heard(old(self)@, msg.source_id@, first_value(msg.states@, msg.source_id@), now),
    {
        let state = get_entry(&msg.states, &msg.source_id);
        self.heard_from(&msg.source_id, state, now);
    }
}

} // verus!
