//! Sets of elevator identifiers.
use vstd::prelude::*;

verus! {

/// The identifiers held by a sequence of strings, as a set of character sequences.
pub open spec fn id_set_of(items: Seq<String>) -> Set<Seq<char>> {
    items.map_values(|s: String| s@).to_set()
}

/// A set of elevator identifiers, stored as a list of strings.
#[derive(Clone, Debug)]
pub struct IdSet {
    items: Vec<String>,
}

impl View for IdSet {
    type V = Set<Seq<char>>;

    closed spec fn view(&self) -> Set<Seq<char>> {
        id_set_of(self.items@)
    }
}

impl IdSet {
    /// The empty set.
    pub fn new() -> (r: IdSet)
        ensures
            r@ == Set::<Seq<char>>::empty(),
    {
        let r = IdSet { items: Vec::new() };
        assert(r@ =~= Set::<Seq<char>>::empty());
        r
    }

    /// The set of the identifiers in `items`.
    pub fn from_vec(items: Vec<String>) -> (r: IdSet)
        ensures
            r@ == id_set_of(items@),
    {
        IdSet { items }
    }

    /// The identifiers of the set, as a list.
    pub fn to_vec(&self) -> (r: Vec<String>)
        ensures
            id_set_of(r@) == self@,
    {
        let d = self.duplicate();
        d.items
    }

    /// Whether `id` is in the set.
    pub fn contains(&self, id: &String) -> (r: bool)
        ensures
            r == self@.contains(id@),
    {
        let n = self.items.len();
        for i in 0..n
            invariant
                n == self.items@.len(),
                forall|j: int| 0 <= j < i ==> self.items@[j]@ != id@,
        {
            if self.items[i] == *id {
                assert(self.items@.map_values(|s: String| s@)[i as int] == id@);
                return true;
            }
        }
        assert(!self.items@.map_values(|s: String| s@).contains(id@));
        false
    }

    /// Adds `id` to the set.
    pub fn insert(&mut self, id: String)
        ensures
            final(self)@ == old(self)@.insert(id@),
    {
        if !self.contains(&id) {
            let ghost before = self.items@;
            self.items.push(id);
            proof {
                assert(self.items@.map_values(|s: String| s@) =~= before.map_values(|s: String| s@).push(id@));
                before.map_values(|s: String| s@).lemma_push_to_set_commute(id@);
            }
        } else {
            assert(self@.insert(id@) =~= self@);
        }
    }

    /// A copy of the set.
    pub fn duplicate(&self) -> (r: IdSet)
        ensures
            r@ == self@,
    {
        let mut items: Vec<String> = Vec::new();
        let n = self.items.len();
        for i in 0..n
            invariant
                n == self.items@.len(),
                items@.len() == i,
                forall|j: int| 0 <= j < i ==> #[trigger] items@[j] == self.items@[j],
        {
            items.push(self.items[i].clone());
        }
        let r = IdSet { items };
        assert(r.items@ =~= self.items@);
        r
    }

    /// Adds every identifier of `other`.
    pub fn union_with(&mut self, other: &IdSet)
        ensures
            final(self)@ == old(self)@.union(other@),
    {
        let n = other.items.len();
        for i in 0..n
            invariant
                n == other.items@.len(),
                self@ == old(self)@.union(id_set_of(other.items@.subrange(0, i as int))),
        {
            let ghost before = self@;
            self.insert(other.items[i].clone());
            proof {
                let f = |s: String| s@;
                assert(other.items@.subrange(0, i + 1) =~= other.items@.subrange(0, i as int).push(other.items@[i as int]));
                assert(other.items@.subrange(0, i + 1).map_values(f) =~= other.items@.subrange(0, i as int).map_values(f).push(other.items@[i as int]@));
                other.items@.subrange(0, i as int).map_values(f).lemma_push_to_set_commute(other.items@[i as int]@);
                assert(self@ =~= old(self)@.union(id_set_of(other.items@.subrange(0, i + 1))));
            }
        }
        assert(other.items@.subrange(0, n as int) =~= other.items@);
    }

    /// Empties the set.
    pub fn clear(&mut self)
        ensures
            final(self)@ == Set::<Seq<char>>::empty(),
    {
        self.items.clear();
        assert(self@ =~= Set::<Seq<char>>::empty());
    }
}

} // verus!
