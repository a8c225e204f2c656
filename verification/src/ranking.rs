//! Ranking: the counted words with the highest counts, highest first.

use crate::word_counter::WordCounter;
use vstd::prelude::*;

verus! {

/// The count of the word that `counter` counted `t`-th for the first time.
pub open spec fn count_at(counter: &WordCounter, t: int) -> nat {
    counter@[counter.order()[t]]
}

/// `t` stands in one of the slots.
pub open spec fn placed(slots: Seq<usize>, t: int) -> bool {
    exists|p: int| 0 <= p < slots.len() && #[trigger] slots[p] == t
}

/// `slots` lists each of the numbers below `n` exactly once.
pub open spec fn is_arrangement(slots: Seq<usize>, n: int) -> bool {
    &&& slots.len() == n
    &&& forall|p: int| 0 <= p < n ==> #[trigger] slots[p] < n
    &&& forall|p: int, q: int| 0 <= p < q < n ==> slots[p] != slots[q]
    &&& forall|t: int| 0 <= t < n ==> #[trigger] placed(slots, t)
}

/// The first `k` slots hold counts in descending order, none of them below
/// any count that comes later.
pub open spec fn leads(counter: &WordCounter, slots: Seq<usize>, k: int) -> bool {
    forall|p: int, q: int|
        0 <= p < k && p < q < slots.len() ==> count_at(counter, slots[p] as int) >= count_at(
            counter,
            slots[q] as int,
        )
}

impl WordCounter {
    /// The `limit` words with the highest counts, highest count first, or
    /// all words where there are fewer. Which of several words with equal
    /// counts comes first, or is left out at the end, is not fixed.
    pub fn ranked(&self, limit: usize) -> (top: Vec<(String, u64)>)
        requires
            self.wf(),
        ensures
            top@.len() == (if limit <= self@.dom().len() {
                limit as int
            } else {
                self@.dom().len() as int
            }),
            forall|i: int|
                0 <= i < top@.len() ==> self@.contains_key((#[trigger] top@[i]).0@) && self@[top@[i].0@]
                    == top@[i].1,
            forall|i: int, j: int| 0 <= i < j < top@.len() ==> top@[i].1 >= top@[j].1,
            forall|i: int, j: int| 0 <= i < j < top@.len() ==> top@[i].0@ != top@[j].0@,
            forall|w: Seq<char>| #[trigger]
                self@.contains_key(w) ==> (exists|i: int|
                    0 <= i < top@.len() && (#[trigger] top@[i]).0@ == w) || (forall|i: int|
                    0 <= i < top@.len() ==> (#[trigger] top@[i]).1 >= self@[w]),
    {
        let n = self.len();
        proof {
            self.lemma_order();
        }
        let keep = if limit <= n {
            limit
        } else {
            n
        };
        let mut slots: Vec<usize> = Vec::new();
        let mut t: usize = 0;
        while t < n
            invariant
                t <= n,
                slots@.len() == t,
                forall|p: int| 0 <= p < t ==> slots@[p] == p,
            decreases n - t,
        {
            slots.push(t);
            t += 1;
        }
        assert(is_arrangement(slots@, n as int)) by {
            assert forall|t: int| 0 <= t < n implies #[trigger] placed(slots@, t) by {
                assert(slots@[t] == t);
            }
        }
        let mut k: usize = 0;
        while k < keep
            invariant
                k <= keep <= n,
                n == self.order().len(),
                self.wf(),
                is_arrangement(slots@, n as int),
                leads(self, slots@, k as int),
            decreases keep - k,
        {
            let mut best: usize = k;
            let mut best_count: u64 = self.count(self.word_at(slots[k]).as_str());
            let mut q: usize = k + 1;
            while q < n
                invariant
                    k < q <= n,
                    k <= best < q,
                    n == self.order().len(),
                    self.wf(),
                    is_arrangement(slots@, n as int),
                    best_count == count_at(self, slots@[best as int] as int),
                    forall|p: int|
                        k <= p < q ==> best_count >= count_at(self, #[trigger] slots@[p] as int),
                decreases n - q,
            {
                let c = self.count(self.word_at(slots[q]).as_str());
                if c > best_count {
                    best = q;
                    best_count = c;
                }
                q += 1;
            }
            let ghost before = slots@;
            let first = slots[k];
            let chosen = slots[best];
            slots.set(k, chosen);
            slots.set(best, first);
            proof {
                let after = slots@;
                assert forall|t: int| 0 <= t < n implies #[trigger] placed(after, t) by {
                    assert(placed(before, t));
                    let p = choose|p: int| 0 <= p < n && #[trigger] before[p] == t;
                    if p == k {
                        assert(after[best as int] == t);
                    } else if p == best {
                        assert(after[k as int] == t);
                    } else {
                        assert(after[p] == t);
                    }
                }
                assert forall|p: int, q: int| 0 <= p < k + 1 && p < q < n implies count_at(
                    self,
                    after[p] as int,
                ) >= count_at(self, after[q] as int) by {
                    let src = if q == k {
                        best as int
                    } else if q == best {
                        k as int
                    } else {
                        q
                    };
                    assert(after[q] == before[src]);
                    if p < k {
                        assert(after[p] == before[p]);
                    } else {
                        assert(after[p] == before[best as int]);
                    }
                }
            }
            k += 1;
        }
        let mut top: Vec<(String, u64)> = Vec::new();
        let mut i: usize = 0;
        while i < keep
            invariant
                i <= keep <= n,
                n == self.order().len(),
                self.wf(),
                is_arrangement(slots@, n as int),
                top@.len() == i,
                forall|a: int|
                    0 <= a < i ==> (#[trigger] top@[a]).0@ == self.order()[slots@[a] as int]
                        && top@[a].1 == count_at(self, slots@[a] as int),
            decreases keep - i,
        {
            let word = self.word_at(slots[i]);
            let count = self.count(word.as_str());
            top.push((word.clone(), count));
            i += 1;
        }
        proof {
            self.lemma_order();
            assert forall|i: int| 0 <= i < top@.len() implies self@.contains_key(
                (#[trigger] top@[i]).0@,
            ) && self@[top@[i].0@] == top@[i].1 by {
                assert(self.order().contains(self.order()[slots@[i] as int]));
            }
            assert forall|w: Seq<char>| #[trigger] self@.contains_key(w) implies (exists|i: int|
                0 <= i < top@.len() && (#[trigger] top@[i]).0@ == w) || (forall|i: int|
                0 <= i < top@.len() ==> (#[trigger] top@[i]).1 >= self@[w]) by {
                assert(self.order().contains(w));
                let t = choose|t: int| 0 <= t < n && self.order()[t] == w;
                assert(placed(slots@, t));
                let p = choose|p: int| 0 <= p < n && #[trigger] slots@[p] == t;
                if p < keep {
                    assert(top@[p].0@ == w);
                } else {
                    assert forall|i: int| 0 <= i < top@.len() implies (#[trigger] top@[i]).1
                        >= self@[w] by {
                        assert(count_at(self, slots@[i] as int) >= count_at(self, slots@[p] as int));
                    }
                }
            }
        }
        top
    }
}

} // verus!
