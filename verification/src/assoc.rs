//! Lists of entries keyed by elevator identifier, each identifier occurring once.
use vstd::prelude::*;

verus! {

/// No two entries carry the same key.
pub open spec fn keys_unique<K, V>(e: Seq<(K, V)>) -> bool {
    forall|i: int, j: int|
        0 <= i < e.len() && 0 <= j < e.len() && i != j ==> #[trigger] e[i].0 != #[trigger] e[j].0
}

/// The keys of string-keyed entries, as character sequences.
pub open spec fn key_view<V>(e: Seq<(String, V)>) -> Seq<(Seq<char>, V)> {
    e.map_values(|p: (String, V)| (p.0@, p.1))
}

/// The index of the first entry at or after `i` whose key is `id`, if any.
pub open spec fn find_key_from<V>(e: Seq<(String, V)>, id: Seq<char>, i: int) -> Option<int>
    decreases e.len() - i,
{
    if i < 0 || i >= e.len() {
        None
    } else if e[i].0@ == id {
        Some(i)
    } else {
        find_key_from(e, id, i + 1)
    }
}

/// The index of the first entry whose key is `id`, if any.
pub open spec fn find_key_spec<V>(e: Seq<(String, V)>, id: Seq<char>) -> Option<int> {
    find_key_from(e, id, 0)
}

/// What the search from `i` finds: the first entry at or after `i` with key `id`.
pub proof fn lemma_find_key_from<V>(e: Seq<(String, V)>, id: Seq<char>, i: int)
    requires
        0 <= i,
    ensures
        match find_key_from(e, id, i) {
            Some(k) => i <= k < e.len() && e[k].0@ == id && forall|j: int|
                i <= j < k ==> (#[trigger] e[j]).0@ != id,
            None => forall|j: int| i <= j < e.len() ==> (#[trigger] e[j]).0@ != id,
        },
    decreases e.len() - i,
{
    if i < e.len() && e[i].0@ != id {
        lemma_find_key_from(e, id, i + 1);
    }
}

/// The first entry with key `id` found by the search, as a characterisation.
pub proof fn lemma_find_key_spec<V>(e: Seq<(String, V)>, id: Seq<char>)
    ensures
        match find_key_spec(e, id) {
            Some(k) => 0 <= k < e.len() && e[k].0@ == id && forall|j: int|
                0 <= j < k ==> (#[trigger] e[j]).0@ != id,
            None => forall|j: int| 0 <= j < e.len() ==> (#[trigger] e[j]).0@ != id,
        },
{
    lemma_find_key_from(e, id, 0);
}

/// The index of the first entry whose key is `id`, if any.
pub fn find_key<V>(e: &Vec<(String, V)>, id: &String) -> (r: Option<usize>)
    ensures
        r matches Some(k) ==> find_key_spec(e@, id@) == Some(k as int),
        r is None ==> find_key_spec(e@, id@) is None,
        match r {
            Some(k) => k < e@.len() && e@[k as int].0@ == id@ && forall|j: int|
                0 <= j < k ==> (#[trigger] e@[j]).0@ != id@,
            None => forall|j: int| 0 <= j < e@.len() ==> (#[trigger] e@[j]).0@ != id@,
        },
{
    let n = e.len();
    for i in 0..n
        invariant
            n == e@.len(),
            forall|j: int| 0 <= j < i ==> (#[trigger] e@[j]).0@ != id@,
            find_key_spec(e@, id@) == find_key_from(e@, id@, i as int),
    {
        if e[i].0 == *id {
            return Some(i);
        }
    }
    None
}

/// Puts value `v` at key `id`: replaces the value of an existing entry, else appends an entry.
pub open spec fn put<V>(d: Seq<(Seq<char>, V)>, id: Seq<char>, v: V) -> Seq<(Seq<char>, V)> {
    if exists|i: int| 0 <= i < d.len() && #[trigger] d[i].0 == id {
        d.map_values(|p: (Seq<char>, V)| if p.0 == id { (p.0, v) } else { p })
    } else {
        d.push((id, v))
    }
}

/// Puts value `v` at key `id`: replaces the value of an existing entry, else appends an entry.
pub fn put_entry<V>(d: &mut Vec<(String, V)>, id: &String, v: V)
    requires
        keys_unique(key_view(old(d)@)),
    ensures
        keys_unique(key_view(final(d)@)),
        key_view(final(d)@) == put(key_view(old(d)@), id@, v),
{
    let ghost b = key_view(d@);
    proof {
        lemma_find_key_spec(d@, id@);
    }
    match find_key(d, id) {
        Some(k) => {
            assert(b[k as int].0 == id@);
            assert forall|i: int| 0 <= i < b.len() && i != k implies b[i].0 != id@ by {}
            let key = d[k].0.clone();
            d.set(k, (key, v));
            assert(key_view(d@) =~= put(b, id@, v));
        },
        None => {
            let ghost before = d@;
            d.push((id.clone(), v));
            proof {
                assert forall|i: int| 0 <= i < b.len() implies b[i].0 != id@ by {
                    assert((before[i]).0@ != id@);
                }
                assert(key_view(d@) =~= b.push((id@, v)));
            }
        },
    }
}

} // verus!
