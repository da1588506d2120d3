//! The conflict map: a mapping from ordered pairs of order identifiers to the
//! conflict observed when the first order of the pair runs before the second.
//!
//! The map is held as a vector of key-value entries with distinct keys; its
//! mathematical view is the `Map` built by inserting the entries in order.

use vstd::prelude::*;

use crate::types::Conflict;
use crate::types::OrderId;

verus! {

/// The `Map` described by a sequence of key-value pairs, later entries winning.
pub open spec fn assoc_view<K, V>(s: Seq<(K, V)>) -> Map<K, V>
    decreases s.len(),
{
    if s.len() == 0 {
        Map::empty()
    } else {
        assoc_view(s.drop_last()).insert(s.last().0, s.last().1)
    }
}

/// No two entries of `s` carry the same key.
pub open spec fn keys_distinct<K, V>(s: Seq<(K, V)>) -> bool {
    forall|i: int, j: int| 0 <= i < j < s.len() ==> (#[trigger] s[i]).0 != (#[trigger] s[j]).0
}

/// A key is in the view exactly when some entry carries it.
pub proof fn lemma_assoc_contains<K, V>(s: Seq<(K, V)>, k: K)
    ensures
        assoc_view(s).contains_key(k) <==> exists|i: int| 0 <= i < s.len() && (#[trigger] s[i]).0 == k,
    decreases s.len(),
{
    if s.len() > 0 {
        lemma_assoc_contains(s.drop_last(), k);
        if s.last().0 == k {
            assert(s[s.len() - 1].0 == k);
            assert(assoc_view(s).contains_key(k));
        } else {
            if exists|i: int| 0 <= i < s.len() && (#[trigger] s[i]).0 == k {
                let i = choose|i: int| 0 <= i < s.len() && (#[trigger] s[i]).0 == k;
                assert(i < s.len() - 1);
                assert(s.drop_last()[i].0 == k);
                assert(assoc_view(s).contains_key(k));
            }
            if assoc_view(s).contains_key(k) {
                let i = choose|i: int|
                    0 <= i < s.drop_last().len() && (#[trigger] s.drop_last()[i]).0 == k;
                assert(s[i].0 == k);
            }
        }
    }
}

/// With distinct keys, the view maps each entry's key to that entry's value.
pub proof fn lemma_assoc_index<K, V>(s: Seq<(K, V)>, i: int)
    requires
        keys_distinct(s),
        0 <= i < s.len(),
    ensures
        assoc_view(s).contains_key(s[i].0),
        assoc_view(s)[s[i].0] == s[i].1,
    decreases s.len(),
{
    if i == s.len() - 1 {
    } else {
        assert(keys_distinct(s.drop_last())) by {
            assert(forall|a: int, b: int|
                0 <= a < b < s.drop_last().len() ==> (#[trigger] s.drop_last()[a]).0 != (
                #[trigger] s.drop_last()[b]).0);
        }
        lemma_assoc_index(s.drop_last(), i);
        assert(s.drop_last()[i] == s[i]);
        assert(s.last().0 != s[i].0);
    }
}

/// Appending one entry inserts its key-value pair into the view.
pub proof fn lemma_assoc_push<K, V>(s: Seq<(K, V)>, k: K, v: V)
    ensures
        assoc_view(s.push((k, v))) == assoc_view(s).insert(k, v),
{
    assert(s.push((k, v)).drop_last() =~= s);
    assert(s.push((k, v)).last() == (k, v));
}

/// Mapping from ordered pairs `(first, second)` of distinct order identifiers
/// to the conflict that running `first` before `second` produces. The entry
/// for `(a, b)` describes `b`'s outcome when `a` runs first, which need not
/// equal the entry for `(b, a)`.
#[derive(Clone, Debug)]
pub struct ConflictMap {
    pub entries: Vec<((OrderId, OrderId), Conflict)>,
}

impl View for ConflictMap {
    type V = Map<(OrderId, OrderId), Conflict>;

    open spec fn view(&self) -> Map<(OrderId, OrderId), Conflict> {
        assoc_view(self.entries@)
    }
}

impl ConflictMap {
    /// Entry keys are distinct, and no pair relates an order to itself.
    pub open spec fn wf(&self) -> bool {
        &&& keys_distinct(self.entries@)
        &&& forall|i: int|
            0 <= i < self.entries@.len() ==> (#[trigger] self.entries@[i]).0.0 != self.entries@[i].0.1
    }

    pub fn new() -> (r: ConflictMap)
        ensures
            r.wf(),
            r@ == Map::<(OrderId, OrderId), Conflict>::empty(),
            r.entries@.len() == 0,
    {
        ConflictMap { entries: Vec::new() }
    }

    pub fn len(&self) -> (n: usize)
        ensures
            n == self.entries@.len(),
    {
        self.entries.len()
    }

    /// Record the conflict for a pair not yet present.
    pub fn insert(&mut self, first: OrderId, second: OrderId, conflict: Conflict)
        requires
            old(self).wf(),
            first != second,
            !old(self)@.contains_key((first, second)),
        ensures
            final(self).wf(),
            final(self)@ == old(self)@.insert((first, second), conflict),
            final(self).entries@ == old(self).entries@.push(((first, second), conflict)),
    {
        proof {
            lemma_assoc_contains(self.entries@, (first, second));
            lemma_assoc_push(self.entries@, (first, second), conflict);
        }
        self.entries.push(((first, second), conflict));
    }

    /// Look up the conflict recorded for `(first, second)`, if any.
    pub fn get(&self, first: OrderId, second: OrderId) -> (r: Option<Conflict>)
        requires
            self.wf(),
        ensures
            match r {
                Some(c) => self@.contains_key((first, second)) && c == self@[(first, second)],
                None => !self@.contains_key((first, second)),
            },
    {
        let n = self.entries.len();
        let mut idx: usize = 0;
        while idx < n
            invariant
                n == self.entries@.len(),
                idx <= n,
                self.wf(),
                forall|t: int| 0 <= t < idx ==> (#[trigger] self.entries@[t]).0 != (first, second),
            decreases n - idx,
        {
            let ((a, b), c) = self.entries[idx];
            if a == first && b == second {
                proof {
                    lemma_assoc_index(self.entries@, idx as int);
                }
                return Some(c);
            }
            idx += 1;
        }
        proof {
            lemma_assoc_contains(self.entries@, (first, second));
        }
        None
    }
}

} // verus!
