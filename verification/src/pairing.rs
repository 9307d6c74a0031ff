//! Pairing of peers that ask for a partner over the network.
use vstd::prelude::*;
use crate::assoc::{find_key, key_view, keys_unique, lemma_find_key_spec, put, put_entry};
use crate::network::lookup;

verus! {

/// Whether `c` has the Unicode `White_Space` property (what `char::is_whitespace` tests).
pub open spec fn is_white_space(c: char) -> bool {
    let u = c as u32;
    ||| 0x09 <= u <= 0x0d
    ||| u == 0x20
    ||| u == 0x85
    ||| u == 0xa0
    ||| u == 0x1680
    ||| 0x2000 <= u <= 0x200a
    ||| u == 0x2028
    ||| u == 0x2029
    ||| u == 0x202f
    ||| u == 0x205f
    ||| u == 0x3000
}

/// `text` without its leading whitespace.
pub open spec fn trim_start(text: Seq<char>) -> Seq<char>
    decreases text.len(),
{
    if text.len() > 0 && is_white_space(text[0]) {
        trim_start(text.drop_first())
    } else {
        text
    }
}

/// `text` without its trailing whitespace.
pub open spec fn trim_end(text: Seq<char>) -> Seq<char>
    decreases text.len(),
{
    if text.len() > 0 && is_white_space(text.last()) {
        trim_end(text.drop_last())
    } else {
        text
    }
}

/// `text` without leading and trailing whitespace.
pub open spec fn trimmed(text: Seq<char>) -> Seq<char> {
    trim_end(trim_start(text))
}

/// Calls `str::trim` (which removes leading and trailing characters with the Unicode
/// `White_Space` property) and copies the result: the result is `trimmed(text)`.
#[verifier::external_body]
fn trim_text(text: &str) -> (r: String)
    ensures
        r@ == trimmed(text@),
{
    text.trim().to_owned()
}

/// What the pairing server sends.
#[derive(Clone, Debug)]
pub enum PairingAction {
    /// Tell `to` that it is paired with `partner` ("Paired with <partner>").
    Paired { to: String, partner: String },
    /// Answer `to` with the address of its partner.
    Partner { to: String, partner: String },
}

/// The pairing server's state: the waiting clients (front first) and the pairs made.
pub struct Pairing {
    pub waiting: Vec<String>,
    pub paired: Vec<(String, String)>,
}

/// The mathematical value of a pairing server.
pub struct PairingView {
    pub waiting: Seq<Seq<char>>,
    pub paired: Seq<(Seq<char>, Seq<char>)>,
}

/// The views of a list of identifiers.
pub open spec fn ids_view(v: Seq<String>) -> Seq<Seq<char>> {
    v.map_values(|s: String| s@)
}

/// The views of a list of identifier pairs.
pub open spec fn pairs_view(v: Seq<(String, String)>) -> Seq<(Seq<char>, Seq<char>)> {
    v.map_values(|p: (String, String)| (p.0@, p.1@))
}

/// An action, as identifiers: (is it a pairing notice, to, partner).
pub open spec fn action_view(a: PairingAction) -> (bool, Seq<char>, Seq<char>) {
    match a {
        PairingAction::Paired { to, partner } => (true, to@, partner@),
        PairingAction::Partner { to, partner } => (false, to@, partner@),
    }
}

/// The server after request `t` (trimmed) from `src`, with the actions taken. A pair request
/// takes the client waiting in front and pairs both unless that client is already paired; with
/// nobody waiting, `src` waits in front. A partner request is answered with the partner if
/// `src` is paired. Anything else is ignored.
pub open spec fn on_request_spec(p: PairingView, t: Seq<char>, src: Seq<char>) -> (PairingView, Seq<(bool, Seq<char>, Seq<char>)>) {
    if t == "FIND_PAIR"@ {
        if p.waiting.len() > 0 {
            let pair = p.waiting[0];
            let rest = p.waiting.drop_first();
            if lookup(p.paired, pair) is Some {
                (PairingView { waiting: rest, paired: p.paired }, Seq::empty())
            } else {
                (
                    PairingView { waiting: rest, paired: put(put(p.paired, src, pair), pair, src) },
                    seq![(true, pair, src), (true, src, pair)],
                )
            }
        } else {
            (PairingView { waiting: seq![src] + p.waiting, paired: p.paired }, Seq::empty())
        }
    } else if t == "GET_PAIR"@ {
        match lookup(p.paired, src) {
            Some(q) => (p, seq![(false, src, q)]),
            None => (p, Seq::empty()),
        }
    } else {
        (p, Seq::empty())
    }
}

impl View for Pairing {
    type V = PairingView;

    open spec fn view(&self) -> PairingView {
        PairingView { waiting: ids_view(self.waiting@), paired: pairs_view(self.paired@) }
    }
}

/// The partner of `id`, if any.
fn partner_of(d: &Vec<(String, String)>, id: &String) -> (r: Option<String>)
    requires
        keys_unique(pairs_view(d@)),
    ensures
        match r {
            Some(s) => lookup(pairs_view(d@), id@) == Some(s@),
            None => lookup(pairs_view(d@), id@) is None,
        },
{
    let ghost b = pairs_view(d@);
    proof {
        lemma_find_key_spec(d@, id@);
    }
    match find_key(d, id) {
        Some(k) => {
            proof {
                assert(b[k as int].0 == id@);
                let c = choose|i: int| 0 <= i < b.len() && #[trigger] b[i].0 == id@;
                assert(c == k);
            }
            Some(d[k].1.clone())
        },
        None => {
            assert forall|i: int| 0 <= i < b.len() implies #[trigger] b[i].0 != id@ by {
                assert((d@[i]).0@ != id@);
            }
            None
        },
    }
}

/// Putting into string pairs: the views follow `put`.
proof fn lemma_pairs_put(before: Seq<(String, String)>, after: Seq<(String, String)>, id: Seq<char>, v: String)
    requires
        key_view(after) == put(key_view(before), id, v),
    ensures
        pairs_view(after) == put(pairs_view(before), id, v@),
{
    let kb = key_view(before);
    let pb = pairs_view(before);
    let ka = key_view(after);
    assert(forall|i: int| 0 <= i < kb.len() ==> #[trigger] kb[i].0 == pb[i].0);
    assert(forall|i: int| 0 <= i < kb.len() ==> (#[trigger] kb[i]).1 == before[i].1);
    assert(forall|i: int| 0 <= i < ka.len() ==> (#[trigger] ka[i]) == (after[i].0@, after[i].1));
    assert(ka.len() == after.len());
    if exists|i: int| 0 <= i < kb.len() && #[trigger] kb[i].0 == id {
        let w = choose|i: int| 0 <= i < kb.len() && #[trigger] kb[i].0 == id;
        assert(pb[w].0 == id);
        assert forall|i: int| 0 <= i < pb.len() implies #[trigger] pairs_view(after)[i] == (if pb[i].0 == id { (pb[i].0, v@) } else { pb[i] }) by {
            assert(ka[i] == (if kb[i].0 == id { (kb[i].0, v) } else { kb[i] }));
        }
        assert(pairs_view(after) =~= put(pb, id, v@));
    } else {
        assert forall|i: int| 0 <= i < pb.len() implies #[trigger] pb[i].0 != id by {
            assert(kb[i].0 == pb[i].0);
        }
        assert(ka == kb.push((id, v)));
        assert forall|i: int| 0 <= i < pb.len() implies #[trigger] pairs_view(after)[i] == pb[i] by {
            assert(ka[i] == kb[i]);
        }
        assert(ka[kb.len() as int] == (id, v));
        assert(pairs_view(after)[pb.len() as int] == (id, v@));
        assert(pairs_view(after) =~= put(pb, id, v@));
    }
}

impl Pairing {
    /// Each client has at most one partner entry.
    pub open spec fn wf(&self) -> bool {
        keys_unique(pairs_view(self.paired@))
    }

    /// Nobody waiting, nobody paired.
    pub fn new() -> (r: Pairing)
        ensures
            r.wf(),
            r@.waiting.len() == 0,
            r@.paired.len() == 0,
    {
        let r = Pairing { waiting: Vec::new(), paired: Vec::new() };
        assert(r@.paired =~= Seq::<(Seq<char>, Seq<char>)>::empty());
        assert(r@.waiting =~= Seq::<Seq<char>>::empty());
        r
    }

    /// Handles `request` from client `src` (see `on_request_spec`).
    pub fn on_request(&mut self, request: &str, src: String) -> (actions: Vec<PairingAction>)
        requires
            old(self).wf(),
        ensures
            final(self).wf(),
            (final(self)@, actions@.map_values(|a: PairingAction| action_view(a))) == on_request_spec(
                old(self)@,
                trimmed(request@),
                src@,
            ),
    {
        let t = trim_text(request);
        let find = "FIND_PAIR".to_owned();
        let get = "GET_PAIR".to_owned();
        let mut actions: Vec<PairingAction> = Vec::new();
        proof {
            assert(pairs_view(self.paired@) == pairs_view(old(self).paired@));
        }
        if t == find {
            if self.waiting.len() > 0 {
                let ghost w0 = self.waiting@;
                let pair = self.waiting.remove(0);
                assert(ids_view(self.waiting@) =~= ids_view(w0).drop_first());
                match partner_of(&self.paired, &pair) {
                    Some(_pair_v) => {},
                    None => {
                        assert(key_view(self.paired@) == key_view(old(self).paired@));
                        proof {
                            assert(keys_unique(key_view(self.paired@))) by {
                                let kb = key_view(self.paired@);
                                let pb = pairs_view(self.paired@);
                                assert(forall|i: int| 0 <= i < kb.len() ==> #[trigger] kb[i].0 == pb[i].0);
                            }
                        }
                        let ghost p0 = self.paired@;
                        put_entry(&mut self.paired, &src, pair.clone());
                        proof { lemma_pairs_put(p0, self.paired@, src@, pair); }
                        let ghost p1 = self.paired@;
                        put_entry(&mut self.paired, &pair, src.clone());
                        proof {
                            lemma_pairs_put(p1, self.paired@, pair@, src);
                            let kb = key_view(self.paired@);
                            let pb = pairs_view(self.paired@);
                            assert(forall|i: int| 0 <= i < kb.len() ==> #[trigger] kb[i].0 == pb[i].0);
                        }
                        actions.push(PairingAction::Paired { to: pair.clone(), partner: src.clone() });
                        actions.push(PairingAction::Paired { to: src, partner: pair });
                    },
                }
            } else {
                let ghost w0 = self.waiting@;
                self.waiting.insert(0, src);
                assert(ids_view(self.waiting@) =~= seq![src@] + ids_view(w0));
            }
        } else if t == get {
            if let Some(partner) = partner_of(&self.paired, &src) {
                actions.push(PairingAction::Partner { to: src, partner });
            }
        }
        proof {
            reveal_strlit("FIND_PAIR");
            reveal_strlit("GET_PAIR");
        }
        assert(actions@.map_values(|a: PairingAction| action_view(a)) =~= on_request_spec(old(self)@, trimmed(request@), src@).1);
        actions
    }
}

} // verus!
