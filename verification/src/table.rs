//! A string-keyed table that remembers the order in which keys first arrived.

use vstd::hash_map::StringHashMap;
use vstd::prelude::*;

verus! {

/// A map from words to values that can be walked in first-insertion order.
#[verifier::reject_recursive_types(V)]
pub struct WordTable<V> {
    keys: Vec<String>,
    map: StringHashMap<V>,
}

impl<V: Copy> WordTable<V> {
    /// The table as a mathematical map from words to values.
    pub closed spec fn view(&self) -> Map<Seq<char>, V> {
        self.map@
    }

    /// The keys in the order of their first insertion.
    pub closed spec fn order(&self) -> Seq<Seq<char>> {
        Seq::new(self.keys@.len(), |i: int| self.keys@[i]@)
    }

    /// Every key is listed exactly once in `order`, and nothing else is.
    pub open spec fn wf(&self) -> bool {
        &&& self.order().no_duplicates()
        &&& forall|k: Seq<char>| self@.contains_key(k) <==> #[trigger] self.order().contains(k)
    }

    /// An empty table.
    pub fn new() -> (t: Self)
        ensures
            t.wf(),
            t@ == Map::<Seq<char>, V>::empty(),
            t.order() == Seq::<Seq<char>>::empty(),
    {
        let t = WordTable { keys: Vec::new(), map: StringHashMap::new() };
        assert(t.order() =~= Seq::<Seq<char>>::empty());
        t
    }

    /// The number of keys.
    pub fn len(&self) -> (n: usize)
        ensures
            n == self.order().len(),
    {
        self.keys.len()
    }

    /// The key that was inserted `i`-th.
    pub fn key_at(&self, i: usize) -> (k: &String)
        requires
            i < self.order().len(),
        ensures
            k@ == self.order()[i as int],
    {
        &self.keys[i]
    }

    /// The value bound to `k`, if any.
    pub fn get(&self, k: &str) -> (r: Option<V>)
        ensures
            r == (if self@.contains_key(k@) {
                Some(self@[k@])
            } else {
                None
            }),
    {
        match self.map.get(k) {
            Some(v) => Some(*v),
            None => None,
        }
    }

    /// Binds `k` to `v`; a key that is new goes to the end of the order.
    pub fn insert(&mut self, k: String, v: V)
        requires
            old(self).wf(),
        ensures
            final(self).wf(),
            final(self)@ == old(self)@.insert(k@, v),
            final(self).order() == (if old(self)@.contains_key(k@) {
                old(self).order()
            } else {
                old(self).order().push(k@)
            }),
    {
        let ghost before = self.order();
        let fresh = !self.map.contains_key(k.as_str());
        if fresh {
            self.keys.push(k.clone());
        }
        self.map.insert(k, v);
        proof {
            let after = self.order();
            if fresh {
                assert(after =~= before.push(k@));
                assert(!before.contains(k@));
                assert forall|i: int, j: int|
                    0 <= i < after.len() && 0 <= j < after.len() && i != j implies after[i]
                    != after[j] by {
                    if i < before.len() {
                        assert(before.contains(before[i]));
                    }
                    if j < before.len() {
                        assert(before.contains(before[j]));
                    }
                }
                assert forall|w: Seq<char>| self@.contains_key(w) <==> #[trigger] after.contains(
                    w,
                ) by {
                    if before.contains(w) {
                        let i = choose|i: int| 0 <= i < before.len() && before[i] == w;
                        assert(after[i] == w);
                    }
                    if w == k@ {
                        assert(after[before.len() as int] == w);
                    }
                    if after.contains(w) {
                        let i = choose|i: int| 0 <= i < after.len() && after[i] == w;
                        if i < before.len() {
                            assert(before.contains(before[i]));
                        }
                    }
                }
            } else {
                assert(after =~= before);
            }
        }
    }
}

} // verus!
