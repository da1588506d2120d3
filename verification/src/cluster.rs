//! The conflict clusterer: partitions the orders that appear in some
//! non-trivial conflict into the connected components of the conflict graph.
//!
//! The conflict map is directional; clustering deliberately forgets the
//! direction and treats any non-`NoConflict` entry, in either direction, as
//! an undirected edge between its two identifiers.

use vstd::prelude::*;

use crate::conflict_map::assoc_view;
use crate::conflict_map::keys_distinct;
use crate::conflict_map::lemma_assoc_contains;
use crate::conflict_map::lemma_assoc_index;
use crate::conflict_map::ConflictMap;
use crate::types::Conflict;
use crate::types::OrderId;

verus! {

/// An undirected conflict edge: some entry for the pair, in either direction,
/// is not `NoConflict`.
pub open spec fn has_edge(m: Map<(OrderId, OrderId), Conflict>, a: OrderId, b: OrderId) -> bool {
    ||| (m.contains_key((a, b)) && m[(a, b)] != Conflict::NoConflict)
    ||| (m.contains_key((b, a)) && m[(b, a)] != Conflict::NoConflict)
}

/// The identifier appears in at least one non-`NoConflict` entry.
pub open spec fn in_conflict(m: Map<(OrderId, OrderId), Conflict>, x: OrderId) -> bool {
    exists|y: OrderId| has_edge(m, x, y)
}

/// Step `t` of `p` crosses a conflict edge.
pub open spec fn linked_at(m: Map<(OrderId, OrderId), Conflict>, p: Seq<OrderId>, t: int) -> bool {
    has_edge(m, p[t], p[t + 1])
}

/// Consecutive elements of `p` are joined by conflict edges.
pub open spec fn is_link_path(m: Map<(OrderId, OrderId), Conflict>, p: Seq<OrderId>) -> bool {
    forall|t: int| 0 <= t < p.len() - 1 ==> #[trigger] linked_at(m, p, t)
}

/// `a` and `b` are joined by some chain of conflict edges (reflexively).
pub open spec fn connected(m: Map<(OrderId, OrderId), Conflict>, a: OrderId, b: OrderId) -> bool {
    exists|p: Seq<OrderId>|
        p.len() >= 1 && p.first() == a && p.last() == b && is_link_path(m, p)
}

pub proof fn lemma_connected_refl(m: Map<(OrderId, OrderId), Conflict>, a: OrderId)
    ensures
        connected(m, a, a),
{
    let p = seq![a];
    assert(p.len() >= 1 && p.first() == a && p.last() == a && is_link_path(m, p));
}

pub proof fn lemma_edge_connected(m: Map<(OrderId, OrderId), Conflict>, a: OrderId, b: OrderId)
    requires
        has_edge(m, a, b),
    ensures
        connected(m, a, b),
{
    let p = seq![a, b];
    assert(p.first() == a && p.last() == b);
    assert forall|t: int| 0 <= t < p.len() - 1 implies #[trigger] linked_at(m, p, t) by {
        assert(t == 0);
        assert(p[0] == a && p[1] == b);
    }
}

pub proof fn lemma_connected_sym(m: Map<(OrderId, OrderId), Conflict>, a: OrderId, b: OrderId)
    requires
        connected(m, a, b),
    ensures
        connected(m, b, a),
{
    let p = choose|p: Seq<OrderId>|
        p.len() >= 1 && p.first() == a && p.last() == b && is_link_path(m, p);
    let q = p.reverse();
    assert(q.len() == p.len());
    assert(q.first() == b && q.last() == a);
    assert forall|t: int| 0 <= t < q.len() - 1 implies #[trigger] linked_at(m, q, t) by {
        let s = p.len() - 2 - t;
        assert(q[t] == p[s + 1]);
        assert(q[t + 1] == p[s]);
        assert(linked_at(m, p, s));
        assert(has_edge(m, p[s], p[s + 1]));
    }
}

pub proof fn lemma_connected_trans(
    m: Map<(OrderId, OrderId), Conflict>,
    a: OrderId,
    b: OrderId,
    c: OrderId,
)
    requires
        connected(m, a, b),
        connected(m, b, c),
    ensures
        connected(m, a, c),
{
    let p1 = choose|p: Seq<OrderId>|
        p.len() >= 1 && p.first() == a && p.last() == b && is_link_path(m, p);
    let p2 = choose|p: Seq<OrderId>|
        p.len() >= 1 && p.first() == b && p.last() == c && is_link_path(m, p);
    if p2.len() == 1 {
        assert(b == c);
    } else {
        let q = p1 + p2.drop_first();
        assert(q.len() == p1.len() + p2.len() - 1);
        assert(q.first() == p1.first());
        assert(q.last() == p2.drop_first().last());
        assert(p2.drop_first().last() == p2.last());
        assert forall|t: int| 0 <= t < q.len() - 1 implies #[trigger] linked_at(m, q, t) by {
            if t < p1.len() - 1 {
                assert(q[t] == p1[t]);
                assert(q[t + 1] == p1[t + 1]);
                assert(linked_at(m, p1, t));
                assert(has_edge(m, p1[t], p1[t + 1]));
            } else if t == p1.len() - 1 {
                assert(q[t] == p1[t]);
                assert(p1[t] == p2[0]);
                assert(q[t + 1] == p2.drop_first()[0]);
                assert(p2.drop_first()[0] == p2[1]);
                assert(linked_at(m, p2, 0));
                assert(has_edge(m, p2[0], p2[1]));
            } else {
                let s = t - p1.len() + 1;
                assert(q[t] == p2.drop_first()[s - 1]);
                assert(q[t + 1] == p2.drop_first()[s]);
                assert(p2.drop_first()[s - 1] == p2[s]);
                assert(p2.drop_first()[s] == p2[s + 1]);
                assert(linked_at(m, p2, s));
                assert(has_edge(m, p2[s], p2[s + 1]));
            }
        }
        assert(q.len() >= 1 && q.first() == a && q.last() == c && is_link_path(m, q));
    }
}

/// One conflict cluster: a set of order identifiers, held as a vector of
/// distinct elements.
#[derive(Clone, Debug)]
pub struct ConflictSet {
    pub members: Vec<OrderId>,
}

impl ConflictSet {
    /// Members are pairwise distinct.
    pub open spec fn wf(&self) -> bool {
        forall|u: int, v: int|
            0 <= u < v < self.members@.len() ==> self.members@[u] != self.members@[v]
    }

    pub fn len(&self) -> (n: usize)
        ensures
            n == self.members@.len(),
    {
        self.members.len()
    }

    pub fn contains(&self, x: OrderId) -> (b: bool)
        ensures
            b == self.members@.contains(x),
    {
        let n = self.members.len();
        let mut u: usize = 0;
        while u < n
            invariant
                n == self.members@.len(),
                u <= n,
                forall|t: int| 0 <= t < u ==> self.members@[t] != x,
            decreases n - u,
        {
            if self.members[u] == x {
                return true;
            }
            u += 1;
        }
        false
    }
}

/// What it means for `cs` to be the conflict clustering of `m`: the sets are
/// nonempty and disjoint, they cover exactly the identifiers that appear in
/// some non-`NoConflict` entry, and two covered identifiers share a set
/// exactly when they are connected in the undirected conflict graph.
pub open spec fn valid_clustering(
    m: Map<(OrderId, OrderId), Conflict>,
    cs: Seq<ConflictSet>,
) -> bool {
    &&& forall|a: int| 0 <= a < cs.len() ==> (#[trigger] cs[a]).wf() && cs[a].members@.len() > 0
    &&& forall|a: int, b: int, x: OrderId|
        0 <= a < b < cs.len() && (#[trigger] cs[a].members@.contains(x)) ==> !(#[trigger] cs[b].members@.contains(
            x,
        ))
    &&& forall|a: int, x: OrderId|
        0 <= a < cs.len() && (#[trigger] cs[a].members@.contains(x)) ==> in_conflict(m, x)
    &&& forall|x: OrderId|
        #[trigger] in_conflict(m, x) ==> exists|a: int| 0 <= a < cs.len() && cs[a].members@.contains(x)
    &&& forall|a: int, x: OrderId, y: OrderId|
        0 <= a < cs.len() && (#[trigger] cs[a].members@.contains(x)) && (
        #[trigger] cs[a].members@.contains(y)) ==> connected(m, x, y)
    &&& forall|x: OrderId, y: OrderId|
        in_conflict(m, x) && in_conflict(m, y) && #[trigger] connected(m, x, y) ==> exists|a: int|
            0 <= a < cs.len() && cs[a].members@.contains(x) && cs[a].members@.contains(y)
}

/// Sets come largest first.
pub open spec fn sorted_by_size(cs: Seq<ConflictSet>) -> bool {
    forall|a: int, b: int|
        0 <= a < b < cs.len() ==> (#[trigger] cs[a]).members@.len() >= (#[trigger] cs[b]).members@.len()
}

/// Some entry of the label table is for `x`.
pub open spec fn has_id(s: Seq<(OrderId, usize)>, x: OrderId) -> bool {
    exists|t: int| 0 <= t < s.len() && (#[trigger] s[t]).0 == x
}

/// The label the table assigns to `x` (unambiguous when keys are distinct).
pub open spec fn label_of(s: Seq<(OrderId, usize)>, x: OrderId) -> usize
    recommends
        has_id(s, x),
{
    s[choose|t: int| 0 <= t < s.len() && (#[trigger] s[t]).0 == x].1
}

proof fn lemma_label_at(s: Seq<(OrderId, usize)>, t: int)
    requires
        keys_distinct(s),
        0 <= t < s.len(),
    ensures
        has_id(s, s[t].0),
        label_of(s, s[t].0) == s[t].1,
{
    assert(has_id(s, s[t].0));
    let t2 = choose|u: int| 0 <= u < s.len() && (#[trigger] s[u]).0 == s[t].0;
    if t2 < t {
        assert(s[t2].0 != s[t].0);
    } else if t < t2 {
        assert(s[t].0 != s[t2].0);
    }
}

proof fn lemma_keys_distinct_prefix(s: Seq<(OrderId, usize)>, p: (OrderId, usize))
    requires
        keys_distinct(s.push(p)),
    ensures
        keys_distinct(s),
{
    assert forall|i: int, j: int| 0 <= i < j < s.len() implies (#[trigger] s[i]).0 != (
    #[trigger] s[j]).0 by {
        assert(s.push(p)[i] == s[i]);
        assert(s.push(p)[j] == s[j]);
    }
}

/// Pushing a fresh key leaves every present identifier's label unchanged.
proof fn lemma_label_push_stable(s: Seq<(OrderId, usize)>, p: (OrderId, usize), x: OrderId)
    requires
        keys_distinct(s.push(p)),
        has_id(s, x),
    ensures
        has_id(s.push(p), x),
        label_of(s.push(p), x) == label_of(s, x),
{
    lemma_keys_distinct_prefix(s, p);
    let t = choose|t: int| 0 <= t < s.len() && (#[trigger] s[t]).0 == x;
    assert(s.push(p)[t] == s[t]);
    lemma_label_at(s.push(p), t);
    lemma_label_at(s, t);
}

/// Rewriting every occurrence of label `l2` to `l1` relabels each identifier
/// pointwise.
proof fn lemma_label_relabel(
    s1: Seq<(OrderId, usize)>,
    s2: Seq<(OrderId, usize)>,
    l1: usize,
    l2: usize,
    x: OrderId,
)
    requires
        keys_distinct(s1),
        s2.len() == s1.len(),
        forall|t: int|
            0 <= t < s1.len() ==> (#[trigger] s2[t]).0 == s1[t].0 && s2[t].1 == (if s1[t].1 == l2 {
                l1
            } else {
                s1[t].1
            }),
        has_id(s1, x),
    ensures
        has_id(s2, x),
        label_of(s2, x) == (if label_of(s1, x) == l2 {
            l1
        } else {
            label_of(s1, x)
        }),
{
    assert(keys_distinct(s2)) by {
        assert forall|i: int, j: int| 0 <= i < j < s2.len() implies (#[trigger] s2[i]).0 != (
        #[trigger] s2[j]).0 by {
            assert(s2[i].0 == s1[i].0);
            assert(s2[j].0 == s1[j].0);
        }
    }
    let t = choose|t: int| 0 <= t < s1.len() && (#[trigger] s1[t]).0 == x;
    assert(s2[t].0 == x);
    lemma_label_at(s1, t);
    lemma_label_at(s2, t);
}

/// The identifier appears in a non-`NoConflict` entry among the first `upto`.
pub open spec fn touches(
    entries: Seq<((OrderId, OrderId), Conflict)>,
    upto: int,
    x: OrderId,
) -> bool {
    exists|t: int|
        0 <= t < upto && (#[trigger] entries[t]).1 != Conflict::NoConflict && (entries[t].0.0 == x
            || entries[t].0.1 == x)
}

/// Appearing in a non-`NoConflict` entry is the same as having an edge in the
/// map the entries describe.
proof fn lemma_touches_iff_in_conflict(entries: Seq<((OrderId, OrderId), Conflict)>, x: OrderId)
    requires
        keys_distinct(entries),
    ensures
        touches(entries, entries.len() as int, x) <==> in_conflict(assoc_view(entries), x),
{
    let m = assoc_view(entries);
    if touches(entries, entries.len() as int, x) {
        let t = choose|t: int|
            0 <= t < entries.len() && (#[trigger] entries[t]).1 != Conflict::NoConflict && (
            entries[t].0.0 == x || entries[t].0.1 == x);
        lemma_assoc_index(entries, t);
        if entries[t].0.0 == x {
            assert(has_edge(m, x, entries[t].0.1));
        } else {
            assert(has_edge(m, x, entries[t].0.0));
        }
    }
    if in_conflict(m, x) {
        let y = choose|y: OrderId| has_edge(m, x, y);
        if m.contains_key((x, y)) && m[(x, y)] != Conflict::NoConflict {
            lemma_assoc_contains(entries, (x, y));
            let t = choose|t: int| 0 <= t < entries.len() && (#[trigger] entries[t]).0 == (x, y);
            lemma_assoc_index(entries, t);
            assert(entries[t].1 != Conflict::NoConflict && entries[t].0.0 == x);
            assert(touches(entries, entries.len() as int, x));
        } else {
            lemma_assoc_contains(entries, (y, x));
            let t = choose|t: int| 0 <= t < entries.len() && (#[trigger] entries[t]).0 == (y, x);
            lemma_assoc_index(entries, t);
            assert(entries[t].1 != Conflict::NoConflict && entries[t].0.1 == x);
            assert(touches(entries, entries.len() as int, x));
        }
    }
}

/// The invariant of the union pass after consuming the first `upto` entries:
/// the label table covers exactly the identifiers touched so far, every
/// consumed edge joins two equally labelled identifiers, and equally
/// labelled identifiers are connected in the conflict graph.
pub open spec fn union_inv(
    m: Map<(OrderId, OrderId), Conflict>,
    entries: Seq<((OrderId, OrderId), Conflict)>,
    labels: Seq<(OrderId, usize)>,
    next: usize,
    upto: int,
) -> bool {
    &&& keys_distinct(labels)
    &&& forall|t: int| 0 <= t < labels.len() ==> (#[trigger] labels[t]).1 < next
    &&& forall|x: OrderId| has_id(labels, x) <==> #[trigger] touches(entries, upto, x)
    &&& forall|t: int|
        0 <= t < upto && (#[trigger] entries[t]).1 != Conflict::NoConflict ==> has_id(
            labels,
            entries[t].0.0,
        ) && has_id(labels, entries[t].0.1) && label_of(labels, entries[t].0.0) == label_of(
            labels,
            entries[t].0.1,
        )
    &&& forall|x: OrderId, y: OrderId|
        #![trigger label_of(labels, x), label_of(labels, y)]
        has_id(labels, x) && has_id(labels, y) && label_of(labels, x) == label_of(labels, y)
            ==> connected(m, x, y)
}




proof fn lemma_union_skip(
    m: Map<(OrderId, OrderId), Conflict>,
    entries: Seq<((OrderId, OrderId), Conflict)>,
    labels: Seq<(OrderId, usize)>,
    next: usize,
    upto: int,
)
    requires
        union_inv(m, entries, labels, next, upto),
        0 <= upto < entries.len(),
        entries[upto].1 == Conflict::NoConflict,
    ensures
        union_inv(m, entries, labels, next, upto + 1),
{
    assert forall|x: OrderId| has_id(labels, x) <==> #[trigger] touches(entries, upto + 1, x) by {
        if touches(entries, upto + 1, x) {
            let t = choose|t: int|
                0 <= t < upto + 1 && (#[trigger] entries[t]).1 != Conflict::NoConflict && (
                entries[t].0.0 == x || entries[t].0.1 == x);
            assert(t < upto);
            assert(touches(entries, upto, x));
        }
        if has_id(labels, x) {
            assert(touches(entries, upto, x));
            let t = choose|t: int|
                0 <= t < upto && (#[trigger] entries[t]).1 != Conflict::NoConflict && (
                entries[t].0.0 == x || entries[t].0.1 == x);
            assert(touches(entries, upto + 1, x));
        }
    }
}



proof fn lemma_union_same(
    m: Map<(OrderId, OrderId), Conflict>,
    entries: Seq<((OrderId, OrderId), Conflict)>,
    labels: Seq<(OrderId, usize)>,
    next: usize,
    upto: int,
)
    requires
        union_inv(m, entries, labels, next, upto),
        0 <= upto < entries.len(),
        entries[upto].1 != Conflict::NoConflict,
        has_id(labels, entries[upto].0.0),
        has_id(labels, entries[upto].0.1),
        label_of(labels, entries[upto].0.0) == label_of(labels, entries[upto].0.1),
    ensures
        union_inv(m, entries, labels, next, upto + 1),
{
    assert forall|x: OrderId| has_id(labels, x) <==> #[trigger] touches(entries, upto + 1, x) by {
        if touches(entries, upto + 1, x) {
            let t = choose|t: int|
                0 <= t < upto + 1 && (#[trigger] entries[t]).1 != Conflict::NoConflict && (
                entries[t].0.0 == x || entries[t].0.1 == x);
            if t < upto {
                assert(touches(entries, upto, x));
            }
        }
        if has_id(labels, x) {
            assert(touches(entries, upto, x));
            let t = choose|t: int|
                0 <= t < upto && (#[trigger] entries[t]).1 != Conflict::NoConflict && (
                entries[t].0.0 == x || entries[t].0.1 == x);
            assert(touches(entries, upto + 1, x));
        }
    }
}



proof fn lemma_union_new_set(
    m: Map<(OrderId, OrderId), Conflict>,
    entries: Seq<((OrderId, OrderId), Conflict)>,
    labels: Seq<(OrderId, usize)>,
    next: usize,
    upto: int,
)
    requires
        union_inv(m, entries, labels, next, upto),
        keys_distinct(entries),
        m == assoc_view(entries),
        0 <= upto < entries.len(),
        entries[upto].1 != Conflict::NoConflict,
        entries[upto].0.0 != entries[upto].0.1,
        !has_id(labels, entries[upto].0.0),
        !has_id(labels, entries[upto].0.1),
        next < usize::MAX,
    ensures
        union_inv(
            m,
            entries,
            labels.push((entries[upto].0.0, next)).push((entries[upto].0.1, next)),
            (next + 1) as usize,
            upto + 1,
        ),
{
    let k1 = entries[upto].0.0;
    let k2 = entries[upto].0.1;
    let s = labels.push((k1, next)).push((k2, next));
    let ln = labels.len() as int;
    assert(s[ln] == (k1, next));
    assert(s[ln + 1] == (k2, next));
    assert(keys_distinct(s)) by {
        assert forall|i: int, j: int| 0 <= i < j < s.len() implies (#[trigger] s[i]).0 != (
        #[trigger] s[j]).0 by {
            if j < ln {
                assert(s[i] == labels[i] && s[j] == labels[j]);
            } else if j == ln {
                assert(s[i] == labels[i]);
                if s[i].0 == k1 {
                    assert(has_id(labels, k1));
                }
            } else {
                if i < ln {
                    assert(s[i] == labels[i]);
                    if s[i].0 == k2 {
                        assert(has_id(labels, k2));
                    }
                }
            }
        }
    }
    lemma_assoc_index(entries, upto);
    assert(m.contains_key((k1, k2)) && m[(k1, k2)] != Conflict::NoConflict);
    assert(has_edge(m, k1, k2));
    // membership in the extended table
    assert forall|x: OrderId| #[trigger] has_id(s, x) <==> (has_id(labels, x) || x == k1 || x == k2) by {
        if has_id(s, x) {
            let t = choose|t: int| 0 <= t < s.len() && (#[trigger] s[t]).0 == x;
            if t < ln {
                assert(labels[t].0 == x);
                assert(has_id(labels, x));
            }
        }
        if has_id(labels, x) {
            let t = choose|t: int| 0 <= t < labels.len() && (#[trigger] labels[t]).0 == x;
            assert(s[t].0 == x);
        }
        if x == k1 {
            assert(s[ln].0 == x);
        }
        if x == k2 {
            assert(s[ln + 1].0 == x);
        }
    }
    assert forall|x: OrderId| has_id(s, x) <==> #[trigger] touches(entries, upto + 1, x) by {
        if has_id(s, x) {
            if has_id(labels, x) {
                assert(touches(entries, upto, x));
                let t = choose|t: int|
                    0 <= t < upto && (#[trigger] entries[t]).1 != Conflict::NoConflict && (
                    entries[t].0.0 == x || entries[t].0.1 == x);
                assert(touches(entries, upto + 1, x));
            } else {
                assert(x == k1 || x == k2);
                assert((#[trigger] entries[upto]).1 != Conflict::NoConflict);
                assert(touches(entries, upto + 1, x));
            }
        }
        if touches(entries, upto + 1, x) {
            let t = choose|t: int|
                0 <= t < upto + 1 && (#[trigger] entries[t]).1 != Conflict::NoConflict && (
                entries[t].0.0 == x || entries[t].0.1 == x);
            if t < upto {
                assert(touches(entries, upto, x));
                assert(has_id(labels, x));
            } else {
                assert(x == k1 || x == k2);
            }
        }
    }
    lemma_label_at(s, ln);
    lemma_label_at(s, ln + 1);
    assert(label_of(s, k1) == next && label_of(s, k2) == next);
    assert forall|t: int|
        0 <= t < upto + 1 && (#[trigger] entries[t]).1 != Conflict::NoConflict implies has_id(
        s,
        entries[t].0.0,
    ) && has_id(s, entries[t].0.1) && label_of(s, entries[t].0.0) == label_of(
        s,
        entries[t].0.1,
    ) by {
        if t < upto {
            lemma_label_push_stable(labels, (k1, next), entries[t].0.0);
            lemma_label_push_stable(labels.push((k1, next)), (k2, next), entries[t].0.0);
            lemma_label_push_stable(labels, (k1, next), entries[t].0.1);
            lemma_label_push_stable(labels.push((k1, next)), (k2, next), entries[t].0.1);
        }
    }
    assert forall|x: OrderId, y: OrderId|
        #![trigger label_of(s, x), label_of(s, y)]
        has_id(s, x) && has_id(s, y) && label_of(s, x) == label_of(s, y) implies connected(
        m,
        x,
        y,
    ) by {
        if has_id(labels, x) && has_id(labels, y) {
            lemma_label_push_stable(labels, (k1, next), x);
            lemma_label_push_stable(labels.push((k1, next)), (k2, next), x);
            lemma_label_push_stable(labels, (k1, next), y);
            lemma_label_push_stable(labels.push((k1, next)), (k2, next), y);
            assert(label_of(labels, x) == label_of(labels, y));
            assert(connected(m, x, y));
        } else if has_id(labels, x) && !has_id(labels, y) {
            lemma_label_push_stable(labels, (k1, next), x);
            lemma_label_push_stable(labels.push((k1, next)), (k2, next), x);
            assert(label_of(s, x) < next);
            assert(label_of(s, y) == next);
        } else if !has_id(labels, x) && has_id(labels, y) {
            lemma_label_push_stable(labels, (k1, next), y);
            lemma_label_push_stable(labels.push((k1, next)), (k2, next), y);
            assert(label_of(s, y) < next);
            assert(label_of(s, x) == next);
        } else {
            if x == y {
                lemma_connected_refl(m, x);
            } else {
                lemma_edge_connected(m, k1, k2);
                if x == k1 && y == k2 {
                } else {
                    lemma_connected_sym(m, k1, k2);
                }
            }
        }
    }
}



proof fn lemma_union_join(
    m: Map<(OrderId, OrderId), Conflict>,
    entries: Seq<((OrderId, OrderId), Conflict)>,
    labels: Seq<(OrderId, usize)>,
    next: usize,
    upto: int,
    known: OrderId,
    fresh: OrderId,
)
    requires
        union_inv(m, entries, labels, next, upto),
        keys_distinct(entries),
        m == assoc_view(entries),
        0 <= upto < entries.len(),
        entries[upto].1 != Conflict::NoConflict,
        (known == entries[upto].0.0 && fresh == entries[upto].0.1) || (known == entries[upto].0.1
            && fresh == entries[upto].0.0),
        has_id(labels, known),
        !has_id(labels, fresh),
    ensures
        union_inv(m, entries, labels.push((fresh, label_of(labels, known))), next, upto + 1),
{
    let k1 = entries[upto].0.0;
    let k2 = entries[upto].0.1;
    let lv = label_of(labels, known);
    let s = labels.push((fresh, lv));
    let ln = labels.len() as int;
    assert(s[ln] == (fresh, lv));
    assert(keys_distinct(s)) by {
        assert forall|i: int, j: int| 0 <= i < j < s.len() implies (#[trigger] s[i]).0 != (
        #[trigger] s[j]).0 by {
            if j < ln {
                assert(s[i] == labels[i] && s[j] == labels[j]);
            } else {
                assert(s[i] == labels[i]);
                if s[i].0 == fresh {
                    assert(has_id(labels, fresh));
                }
            }
        }
    }
    assert(lv < next) by {
        let t = choose|t: int| 0 <= t < labels.len() && (#[trigger] labels[t]).0 == known;
        lemma_label_at(labels, t);
    }
    lemma_assoc_index(entries, upto);
    assert(m.contains_key((k1, k2)) && m[(k1, k2)] != Conflict::NoConflict);
    assert(has_edge(m, known, fresh));
    lemma_label_at(s, ln);
    assert(label_of(s, fresh) == lv);
    lemma_label_push_stable(labels, (fresh, lv), known);
    assert(label_of(s, known) == lv);
    assert forall|x: OrderId| has_id(s, x) <==> #[trigger] touches(entries, upto + 1, x) by {
        if has_id(s, x) {
            let t = choose|t: int| 0 <= t < s.len() && (#[trigger] s[t]).0 == x;
            if t < ln {
                assert(labels[t].0 == x);
                assert(has_id(labels, x));
                assert(touches(entries, upto, x));
                let t2 = choose|t2: int|
                    0 <= t2 < upto && (#[trigger] entries[t2]).1 != Conflict::NoConflict && (
                    entries[t2].0.0 == x || entries[t2].0.1 == x);
                assert(touches(entries, upto + 1, x));
            } else {
                assert(x == fresh);
                assert((#[trigger] entries[upto]).1 != Conflict::NoConflict);
                assert(touches(entries, upto + 1, x));
            }
        }
        if touches(entries, upto + 1, x) {
            let t = choose|t: int|
                0 <= t < upto + 1 && (#[trigger] entries[t]).1 != Conflict::NoConflict && (
                entries[t].0.0 == x || entries[t].0.1 == x);
            if t < upto {
                assert(touches(entries, upto, x));
                assert(has_id(labels, x));
                let t2 = choose|t2: int| 0 <= t2 < labels.len() && (#[trigger] labels[t2]).0 == x;
                assert(s[t2].0 == x);
            } else {
                assert(x == known || x == fresh);
                if x == known {
                    let t2 = choose|t2: int|
                        0 <= t2 < labels.len() && (#[trigger] labels[t2]).0 == known;
                    assert(s[t2].0 == x);
                } else {
                    assert(s[ln].0 == x);
                }
            }
        }
    }
    assert forall|t: int|
        0 <= t < upto + 1 && (#[trigger] entries[t]).1 != Conflict::NoConflict implies has_id(
        s,
        entries[t].0.0,
    ) && has_id(s, entries[t].0.1) && label_of(s, entries[t].0.0) == label_of(
        s,
        entries[t].0.1,
    ) by {
        if t < upto {
            lemma_label_push_stable(labels, (fresh, lv), entries[t].0.0);
            lemma_label_push_stable(labels, (fresh, lv), entries[t].0.1);
        } else {
            assert(has_id(s, fresh)) by {
                assert(s[ln].0 == fresh);
            }
        }
    }
    assert forall|x: OrderId, y: OrderId|
        #![trigger label_of(s, x), label_of(s, y)]
        has_id(s, x) && has_id(s, y) && label_of(s, x) == label_of(s, y) implies connected(
        m,
        x,
        y,
    ) by {
        let x_old = has_id(labels, x);
        let y_old = has_id(labels, y);
        if !x_old {
            assert(x == fresh) by {
                let t = choose|t: int| 0 <= t < s.len() && (#[trigger] s[t]).0 == x;
                if t < ln {
                    assert(labels[t].0 == x);
                }
            }
        }
        if !y_old {
            assert(y == fresh) by {
                let t = choose|t: int| 0 <= t < s.len() && (#[trigger] s[t]).0 == y;
                if t < ln {
                    assert(labels[t].0 == y);
                }
            }
        }
        if x_old {
            lemma_label_push_stable(labels, (fresh, lv), x);
        }
        if y_old {
            lemma_label_push_stable(labels, (fresh, lv), y);
        }
        if x_old && y_old {
            assert(connected(m, x, y));
        } else if x_old && !y_old {
            assert(label_of(labels, x) == lv && label_of(labels, known) == lv);
            assert(connected(m, x, known));
            lemma_edge_connected(m, known, fresh);
            lemma_connected_trans(m, x, known, fresh);
        } else if !x_old && y_old {
            assert(label_of(labels, y) == lv && label_of(labels, known) == lv);
            assert(connected(m, known, y)) by {
                assert(connected(m, y, known));
                lemma_connected_sym(m, y, known);
            }
            lemma_edge_connected(m, known, fresh);
            lemma_connected_sym(m, known, fresh);
            lemma_connected_trans(m, fresh, known, y);
        } else {
            lemma_connected_refl(m, x);
        }
    }
}



proof fn lemma_union_merge(
    m: Map<(OrderId, OrderId), Conflict>,
    entries: Seq<((OrderId, OrderId), Conflict)>,
    labels: Seq<(OrderId, usize)>,
    labels2: Seq<(OrderId, usize)>,
    next: usize,
    upto: int,
    l1: usize,
    l2: usize,
)
    requires
        union_inv(m, entries, labels, next, upto),
        keys_distinct(entries),
        m == assoc_view(entries),
        0 <= upto < entries.len(),
        entries[upto].1 != Conflict::NoConflict,
        has_id(labels, entries[upto].0.0),
        has_id(labels, entries[upto].0.1),
        label_of(labels, entries[upto].0.0) == l1,
        label_of(labels, entries[upto].0.1) == l2,
        l1 != l2,
        labels2.len() == labels.len(),
        forall|t: int|
            0 <= t < labels.len() ==> (#[trigger] labels2[t]).0 == labels[t].0 && labels2[t].1 == (
            if labels[t].1 == l2 {
                l1
            } else {
                labels[t].1
            }),
    ensures
        union_inv(m, entries, labels2, next, upto + 1),
{
    let k1 = entries[upto].0.0;
    let k2 = entries[upto].0.1;
    assert(keys_distinct(labels2)) by {
        assert forall|i: int, j: int| 0 <= i < j < labels2.len() implies (#[trigger] labels2[i]).0
            != (#[trigger] labels2[j]).0 by {
            assert(labels2[i].0 == labels[i].0);
            assert(labels2[j].0 == labels[j].0);
        }
    }
    assert(l1 < next) by {
        let t = choose|t: int| 0 <= t < labels.len() && (#[trigger] labels[t]).0 == k1;
        lemma_label_at(labels, t);
    }
    assert forall|t: int| 0 <= t < labels2.len() implies (#[trigger] labels2[t]).1 < next by {
        assert(labels[t].1 < next);
    }
    lemma_assoc_index(entries, upto);
    assert(has_edge(m, k1, k2));
    assert forall|x: OrderId| #[trigger] has_id(labels2, x) <==> has_id(labels, x) by {
        if has_id(labels2, x) {
            let t = choose|t: int| 0 <= t < labels2.len() && (#[trigger] labels2[t]).0 == x;
            assert(labels[t].0 == x);
        }
        if has_id(labels, x) {
            let t = choose|t: int| 0 <= t < labels.len() && (#[trigger] labels[t]).0 == x;
            assert(labels2[t].0 == x);
        }
    }
    assert forall|x: OrderId| has_id(labels2, x) <==> #[trigger] touches(entries, upto + 1, x) by {
        if has_id(labels2, x) {
            assert(touches(entries, upto, x));
            let t = choose|t: int|
                0 <= t < upto && (#[trigger] entries[t]).1 != Conflict::NoConflict && (
                entries[t].0.0 == x || entries[t].0.1 == x);
            assert(touches(entries, upto + 1, x));
        }
        if touches(entries, upto + 1, x) {
            let t = choose|t: int|
                0 <= t < upto + 1 && (#[trigger] entries[t]).1 != Conflict::NoConflict && (
                entries[t].0.0 == x || entries[t].0.1 == x);
            if t < upto {
                assert(touches(entries, upto, x));
            } else {
                assert(x == k1 || x == k2);
            }
        }
    }
    assert forall|t: int|
        0 <= t < upto + 1 && (#[trigger] entries[t]).1 != Conflict::NoConflict implies has_id(
        labels2,
        entries[t].0.0,
    ) && has_id(labels2, entries[t].0.1) && label_of(labels2, entries[t].0.0) == label_of(
        labels2,
        entries[t].0.1,
    ) by {
        if t < upto {
            lemma_label_relabel(labels, labels2, l1, l2, entries[t].0.0);
            lemma_label_relabel(labels, labels2, l1, l2, entries[t].0.1);
        } else {
            lemma_label_relabel(labels, labels2, l1, l2, k1);
            lemma_label_relabel(labels, labels2, l1, l2, k2);
        }
    }
    assert forall|x: OrderId, y: OrderId|
        #![trigger label_of(labels2, x), label_of(labels2, y)]
        has_id(labels2, x) && has_id(labels2, y) && label_of(labels2, x) == label_of(labels2, y)
            implies connected(m, x, y) by {
        lemma_label_relabel(labels, labels2, l1, l2, x);
        lemma_label_relabel(labels, labels2, l1, l2, y);
        let a = label_of(labels, x);
        let b = label_of(labels, y);
        if a == b {
            assert(connected(m, x, y));
        } else {
            assert((a == l1 && b == l2) || (a == l2 && b == l1));
            lemma_edge_connected(m, k1, k2);
            if a == l1 && b == l2 {
                assert(connected(m, x, k1));
                assert(connected(m, k2, y)) by {
                    assert(connected(m, y, k2));
                    lemma_connected_sym(m, y, k2);
                }
                lemma_connected_trans(m, x, k1, k2);
                lemma_connected_trans(m, x, k2, y);
            } else {
                assert(connected(m, x, k2));
                assert(connected(m, k1, y)) by {
                    assert(connected(m, y, k1));
                    lemma_connected_sym(m, y, k1);
                }
                lemma_connected_sym(m, k1, k2);
                lemma_connected_trans(m, x, k2, k1);
                lemma_connected_trans(m, x, k1, y);
            }
        }
    }
}

/// Two sets holding exactly the same identifiers.
pub open spec fn same_members(s1: ConflictSet, s2: ConflictSet) -> bool {
    forall|x: OrderId|
        #![trigger s1.members@.contains(x)]
        #![trigger s2.members@.contains(x)]
        s1.members@.contains(x) <==> s2.members@.contains(x)
}

/// Transitivity by construction: two conflict edges that share an endpoint
/// put all three identifiers into one cluster.
pub proof fn lemma_clusters_transitive(
    m: Map<(OrderId, OrderId), Conflict>,
    cs: Seq<ConflictSet>,
    a_id: OrderId,
    b_id: OrderId,
    c_id: OrderId,
)
    requires
        valid_clustering(m, cs),
        has_edge(m, a_id, b_id),
        has_edge(m, b_id, c_id),
    ensures
        exists|i: int|
            0 <= i < cs.len() && (#[trigger] cs[i].members@.contains(a_id))
                && cs[i].members@.contains(c_id),
{
    lemma_edge_connected(m, a_id, b_id);
    lemma_edge_connected(m, b_id, c_id);
    lemma_connected_trans(m, a_id, b_id, c_id);
    assert(in_conflict(m, a_id));
    assert(in_conflict(m, c_id)) by {
        assert(has_edge(m, c_id, b_id));
    }
    assert(connected(m, a_id, c_id));
}

/// Clustering determinism: two valid clusterings of one conflict map carry
/// the same sets of identifiers, whatever order the entries were processed
/// in. Applying this in both directions identifies the two partitions up to
/// the order of the sets.
pub proof fn lemma_clustering_unique(
    m: Map<(OrderId, OrderId), Conflict>,
    cs1: Seq<ConflictSet>,
    cs2: Seq<ConflictSet>,
    i: int,
)
    requires
        valid_clustering(m, cs1),
        valid_clustering(m, cs2),
        0 <= i < cs1.len(),
    ensures
        exists|j: int| 0 <= j < cs2.len() && same_members(cs1[i], #[trigger] cs2[j]),
{
    assert(cs1[i].members@.len() > 0);
    let x0 = cs1[i].members@[0];
    assert(cs1[i].members@.contains(x0));
    assert(in_conflict(m, x0));
    let j = choose|j: int| 0 <= j < cs2.len() && cs2[j].members@.contains(x0);
    assert forall|y: OrderId|
        #![trigger cs1[i].members@.contains(y)]
        #![trigger cs2[j].members@.contains(y)]
        cs1[i].members@.contains(y) <==> cs2[j].members@.contains(y) by {
        if cs1[i].members@.contains(y) {
            assert(connected(m, x0, y));
            assert(in_conflict(m, y));
            let a = choose|a: int|
                0 <= a < cs2.len() && cs2[a].members@.contains(x0) && cs2[a].members@.contains(y);
            if a < j {
                assert(!(cs2[j].members@.contains(x0)));
                assert(false);
            } else if j < a {
                assert(!(cs2[a].members@.contains(x0)));
                assert(false);
            }
            assert(cs2[j].members@.contains(y));
        }
        if cs2[j].members@.contains(y) {
            assert(connected(m, x0, y));
            assert(in_conflict(m, y));
            let a = choose|a: int|
                0 <= a < cs1.len() && cs1[a].members@.contains(x0) && cs1[a].members@.contains(y);
            if a < i {
                assert(!(cs1[i].members@.contains(x0)));
                assert(false);
            } else if i < a {
                assert(!(cs1[a].members@.contains(x0)));
                assert(false);
            }
            assert(cs1[i].members@.contains(y));
        }
    }
    assert(same_members(cs1[i], cs2[j]));
}

/// The label assigned to `x`, if the table holds one.
fn find_label(labels: &Vec<(OrderId, usize)>, x: OrderId) -> (r: Option<usize>)
    requires
        keys_distinct(labels@),
    ensures
        r == if has_id(labels@, x) {
            Some(label_of(labels@, x))
        } else {
            None::<usize>
        },
{
    let n = labels.len();
    let mut t: usize = 0;
    while t < n
        invariant
            n == labels@.len(),
            t <= n,
            keys_distinct(labels@),
            forall|u: int| 0 <= u < t ==> (#[trigger] labels@[u]).0 != x,
        decreases n - t,
    {
        let (id, l) = labels[t];
        if id == x {
            proof {
                lemma_label_at(labels@, t as int);
            }
            return Some(l);
        }
        t += 1;
    }
    proof {
        if has_id(labels@, x) {
            let u = choose|u: int| 0 <= u < labels@.len() && (#[trigger] labels@[u]).0 == x;
            assert(false);
        }
    }
    None
}

/// When every conflict edge joins two equally labelled identifiers, the two
/// ends of any edge path carry the same label.
proof fn lemma_path_same_label(
    m: Map<(OrderId, OrderId), Conflict>,
    labels: Seq<(OrderId, usize)>,
    p: Seq<OrderId>,
)
    requires
        forall|a: OrderId, b: OrderId|
            #[trigger] has_edge(m, a, b) ==> has_id(labels, a) && has_id(labels, b) && label_of(
                labels,
                a,
            ) == label_of(labels, b),
        is_link_path(m, p),
        p.len() >= 2,
    ensures
        has_id(labels, p.first()),
        has_id(labels, p.last()),
        label_of(labels, p.first()) == label_of(labels, p.last()),
    decreases p.len(),
{
    assert(linked_at(m, p, 0));
    assert(has_edge(m, p[0], p[1]));
    if p.len() == 2 {
        assert(p.last() == p[1]);
    } else {
        let q = p.drop_first();
        assert(is_link_path(m, q)) by {
            assert forall|t: int| 0 <= t < q.len() - 1 implies #[trigger] linked_at(m, q, t) by {
                assert(q[t] == p[t + 1]);
                assert(q[t + 1] == p[t + 2]);
                assert(linked_at(m, p, t + 1));
            }
        }
        lemma_path_same_label(m, labels, q);
        assert(q.first() == p[1]);
        assert(q.last() == p.last());
    }
}

/// After the whole union pass, every conflict edge joins two identifiers the
/// table labels equally.
proof fn lemma_edge_labels(
    entries: Seq<((OrderId, OrderId), Conflict)>,
    labels: Seq<(OrderId, usize)>,
    next: usize,
)
    requires
        keys_distinct(entries),
        union_inv(assoc_view(entries), entries, labels, next, entries.len() as int),
    ensures
        forall|a: OrderId, b: OrderId|
            #[trigger] has_edge(assoc_view(entries), a, b) ==> has_id(labels, a) && has_id(
                labels,
                b,
            ) && label_of(labels, a) == label_of(labels, b),
{
    let m = assoc_view(entries);
    assert forall|a: OrderId, b: OrderId| #[trigger] has_edge(m, a, b) implies has_id(labels, a)
        && has_id(labels, b) && label_of(labels, a) == label_of(labels, b) by {
        if m.contains_key((a, b)) && m[(a, b)] != Conflict::NoConflict {
            lemma_assoc_contains(entries, (a, b));
            let t = choose|t: int| 0 <= t < entries.len() && (#[trigger] entries[t]).0 == (a, b);
            lemma_assoc_index(entries, t);
            assert(entries[t].1 != Conflict::NoConflict);
        } else {
            lemma_assoc_contains(entries, (b, a));
            let t = choose|t: int| 0 <= t < entries.len() && (#[trigger] entries[t]).0 == (b, a);
            lemma_assoc_index(entries, t);
            assert(entries[t].1 != Conflict::NoConflict);
        }
    }
}

/// Connected identifiers end the union pass with the same label.
proof fn lemma_connected_same_label(
    entries: Seq<((OrderId, OrderId), Conflict)>,
    labels: Seq<(OrderId, usize)>,
    next: usize,
    x: OrderId,
    y: OrderId,
)
    requires
        keys_distinct(entries),
        union_inv(assoc_view(entries), entries, labels, next, entries.len() as int),
        has_id(labels, x),
        has_id(labels, y),
        connected(assoc_view(entries), x, y),
    ensures
        label_of(labels, x) == label_of(labels, y),
{
    lemma_edge_labels(entries, labels, next);
    let m = assoc_view(entries);
    let p = choose|p: Seq<OrderId>|
        p.len() >= 1 && p.first() == x && p.last() == y && is_link_path(m, p);
    if p.len() == 1 {
        assert(x == y);
    } else {
        lemma_path_same_label(m, labels, p);
    }
}

/// `s` holds exactly the identifiers the table maps to label `l`.
pub open spec fn is_class(labels: Seq<(OrderId, usize)>, s: ConflictSet, l: usize) -> bool {
    &&& forall|x: OrderId|
        #[trigger] s.members@.contains(x) ==> has_id(labels, x) && label_of(labels, x) == l
    &&& forall|x: OrderId|
        has_id(labels, x) && #[trigger] label_of(labels, x) == l ==> s.members@.contains(x)
}

/// The invariant of the grouping pass after emitting the classes of every
/// label below `lbl`: `cls[a]` is the label whose class the set `cs[a]` is.
pub open spec fn group_inv(
    labels: Seq<(OrderId, usize)>,
    cs: Seq<ConflictSet>,
    cls: Seq<usize>,
    lbl: int,
) -> bool {
    &&& cls.len() == cs.len()
    &&& forall|a: int| 0 <= a < cs.len() ==> (#[trigger] cs[a]).wf() && cs[a].members@.len() > 0
    &&& forall|a: int|
        #![trigger cs[a]]
        #![trigger cls[a]]
        0 <= a < cs.len() ==> (cls[a] as int) < lbl && is_class(labels, cs[a], cls[a])
    &&& forall|a: int, b: int, x: OrderId|
        0 <= a < b < cs.len() && (#[trigger] cs[a].members@.contains(x)) ==> !(#[trigger] cs[b].members@.contains(
            x,
        ))
    &&& forall|x: OrderId|
        #![trigger label_of(labels, x)]
        has_id(labels, x) && (label_of(labels, x) as int) < lbl ==> exists|a: int|
            0 <= a < cs.len() && cs[a].members@.contains(x)
    &&& sorted_by_size(cs)
}

/// Inserting the nonempty class of the next label at its size-sorted
/// position preserves the grouping invariant.
#[verifier::rlimit(30)]
proof fn lemma_group_insert(
    labels: Seq<(OrderId, usize)>,
    cs0: Seq<ConflictSet>,
    cs1: Seq<ConflictSet>,
    cls0: Seq<usize>,
    s: ConflictSet,
    pos: int,
    lbl: usize,
)
    requires
        group_inv(labels, cs0, cls0, lbl as int),
        is_class(labels, s, lbl),
        s.wf(),
        s.members@.len() > 0,
        0 <= pos <= cs0.len(),
        cs1 == cs0.insert(pos, s),
        forall|u: int| 0 <= u < pos ==> (#[trigger] cs0[u]).members@.len() >= s.members@.len(),
        pos < cs0.len() ==> cs0[pos].members@.len() < s.members@.len(),
    ensures
        group_inv(labels, cs1, cls0.insert(pos, lbl), lbl + 1),
{
    let cls1 = cls0.insert(pos, lbl);
    cs0.insert_ensures(pos, s);
    cls0.insert_ensures(pos, lbl);
    assert(cs1.len() == cs0.len() + 1);
    assert(cls1.len() == cs1.len());
    assert(cs1[pos] == s);
    assert(cls1[pos] == lbl);
    assert forall|a: int| 0 <= a < cs1.len() implies (#[trigger] cs1[a]).wf()
        && cs1[a].members@.len() > 0 by {
        if a < pos {
            assert(cs1[a] == cs0[a]);
        } else if a > pos {
            assert(cs1[a] == cs0[a - 1]);
        }
    }
    assert forall|a: int|
        #![trigger cs1[a]]
        #![trigger cls1[a]]
        0 <= a < cs1.len() implies (cls1[a] as int) < lbl + 1 && is_class(labels, cs1[a], cls1[a]) by {
        if a < pos {
            assert(cs1[a] == cs0[a]);
            assert(cls1[a] == cls0[a]);
        } else if a == pos {
            assert(is_class(labels, cs1[a], lbl));
        } else {
            assert(cs1[a] == cs0[a - 1]);
            assert(cls1[a] == cls0[a - 1]);
        }
    }
    assert forall|a: int, b: int, x: OrderId|
        0 <= a < b < cs1.len() && (#[trigger] cs1[a].members@.contains(x)) implies !(
    #[trigger] cs1[b].members@.contains(x)) by {
        if cs1[a].members@.contains(x) && cs1[b].members@.contains(x) {
            if a == pos {
                assert(cs1[b] == cs0[b - 1]);
                let prev = cs0[b - 1];
                assert(prev.members@.contains(x));
                assert(s.members@.contains(x));
                assert(is_class(labels, prev, cls0[b - 1]));
                assert(label_of(labels, x) == cls0[b - 1]);
                assert(label_of(labels, x) == lbl);
                assert(false);
            } else if b == pos {
                assert(cs1[a] == cs0[a]);
                let prev = cs0[a];
                assert(prev.members@.contains(x));
                assert(s.members@.contains(x));
                assert(is_class(labels, prev, cls0[a]));
                assert(label_of(labels, x) == cls0[a]);
                assert(label_of(labels, x) == lbl);
                assert(false);
            } else {
                let oa: int = if a < pos { a } else { a - 1 };
                let ob: int = if b < pos { b } else { b - 1 };
                assert(cs1[a] == cs0[oa]);
                assert(cs1[b] == cs0[ob]);
                assert(oa < ob);
                assert(cs0[oa].members@.contains(x));
                assert(false);
            }
        }
    }
    assert forall|x: OrderId|
        has_id(labels, x) && (#[trigger] label_of(labels, x) as int) < lbl + 1 implies exists|a: int|
        0 <= a < cs1.len() && cs1[a].members@.contains(x) by {
        if (label_of(labels, x) as int) < lbl {
            let a = choose|a: int| 0 <= a < cs0.len() && cs0[a].members@.contains(x);
            if a < pos {
                assert(cs1[a] == cs0[a]);
                assert(cs1[a].members@.contains(x));
            } else {
                assert(cs1[a + 1] == cs0[a]);
                assert(cs1[a + 1].members@.contains(x));
            }
        } else {
            assert(label_of(labels, x) == lbl);
            assert(s.members@.contains(x));
            assert(cs1[pos].members@.contains(x));
        }
    }
    assert forall|a: int, b: int| 0 <= a < b < cs1.len() implies (#[trigger] cs1[a]).members@.len()
        >= (#[trigger] cs1[b]).members@.len() by {
        if a == pos {
            assert(cs1[b] == cs0[b - 1]);
            if pos < cs0.len() {
                assert(cs0[b - 1].members@.len() <= cs0[pos].members@.len());
            }
        } else if b == pos {
            assert(cs1[a] == cs0[a]);
        } else if a < pos && b > pos {
            assert(cs1[a] == cs0[a]);
            assert(cs1[b] == cs0[b - 1]);
            if a < b - 1 {
            } else {
                assert(a == b - 1);
                assert(a >= pos);
                assert(false);
            }
        } else if b < pos {
            assert(cs1[a] == cs0[a]);
            assert(cs1[b] == cs0[b]);
        } else {
            assert(cs1[a] == cs0[a - 1]);
            assert(cs1[b] == cs0[b - 1]);
        }
    }
}

/// After the grouping pass has emitted every label's class, the emitted sets
/// are the conflict clustering of the map the entries describe.
#[verifier::rlimit(40)]
proof fn lemma_clustering_from_groups(
    entries: Seq<((OrderId, OrderId), Conflict)>,
    labels: Seq<(OrderId, usize)>,
    next: usize,
    cs: Seq<ConflictSet>,
    cls: Seq<usize>,
)
    requires
        keys_distinct(entries),
        union_inv(assoc_view(entries), entries, labels, next, entries.len() as int),
        group_inv(labels, cs, cls, next as int),
    ensures
        valid_clustering(assoc_view(entries), cs),
{
    let m = assoc_view(entries);
    lemma_edge_labels(entries, labels, next);
    assert forall|a: int, x: OrderId|
        0 <= a < cs.len() && (#[trigger] cs[a].members@.contains(x)) implies in_conflict(m, x) by {
        assert(is_class(labels, cs[a], cls[a]));
        assert(has_id(labels, x));
        assert(touches(entries, entries.len() as int, x));
        lemma_touches_iff_in_conflict(entries, x);
    }
    assert forall|x: OrderId| #[trigger] in_conflict(m, x) implies exists|a: int|
        0 <= a < cs.len() && cs[a].members@.contains(x) by {
        lemma_touches_iff_in_conflict(entries, x);
        assert(touches(entries, entries.len() as int, x));
        assert(has_id(labels, x));
        let t = choose|t: int| 0 <= t < labels.len() && (#[trigger] labels[t]).0 == x;
        lemma_label_at(labels, t);
        assert((label_of(labels, x) as int) < next as int);
    }
    assert forall|a: int, x: OrderId, y: OrderId|
        0 <= a < cs.len() && (#[trigger] cs[a].members@.contains(x)) && (
    #[trigger] cs[a].members@.contains(y)) implies connected(m, x, y) by {
        assert(is_class(labels, cs[a], cls[a]));
        assert(has_id(labels, x) && label_of(labels, x) == cls[a]);
        assert(has_id(labels, y) && label_of(labels, y) == cls[a]);
    }
    assert forall|x: OrderId, y: OrderId|
        in_conflict(m, x) && in_conflict(m, y) && #[trigger] connected(m, x, y) implies exists|a: int|
        0 <= a < cs.len() && cs[a].members@.contains(x) && cs[a].members@.contains(y) by {
        lemma_touches_iff_in_conflict(entries, x);
        lemma_touches_iff_in_conflict(entries, y);
        assert(touches(entries, entries.len() as int, x));
        assert(touches(entries, entries.len() as int, y));
        assert(has_id(labels, x) && has_id(labels, y));
        lemma_connected_same_label(entries, labels, next, x, y);
        let t = choose|t: int| 0 <= t < labels.len() && (#[trigger] labels[t]).0 == x;
        lemma_label_at(labels, t);
        assert((label_of(labels, x) as int) < next as int);
        let a = choose|a: int| 0 <= a < cs.len() && cs[a].members@.contains(x);
        assert(is_class(labels, cs[a], cls[a]));
        assert(label_of(labels, x) == cls[a]);
        assert(label_of(labels, y) == cls[a]);
        assert(cs[a].members@.contains(y));
    }
}

/// Compute the conflict clusters of `conflicts`: the connected components of
/// the undirected graph whose edges are the non-`NoConflict` entries, in
/// either direction. The returned sets are disjoint, cover exactly the
/// identifiers involved in some non-trivial conflict, and come largest first.
pub fn get_conflict_sets(conflicts: &ConflictMap) -> (r: Vec<ConflictSet>)
    requires
        conflicts.wf(),
    ensures
        valid_clustering(conflicts@, r@),
        sorted_by_size(r@),
{
    let n = conflicts.entries.len();
    let mut labels: Vec<(OrderId, usize)> = Vec::new();
    let mut next: usize = 0;
    let mut idx: usize = 0;
    while idx < n
        invariant
            conflicts.wf(),
            n == conflicts.entries@.len(),
            idx <= n,
            next <= idx,
            union_inv(conflicts@, conflicts.entries@, labels@, next, idx as int),
        decreases n - idx,
    {
        let (pair, c) = conflicts.entries[idx];
        let k1 = pair.0;
        let k2 = pair.1;
        let is_trivial = match c {
            Conflict::NoConflict => true,
            _ => false,
        };
        if is_trivial {
            proof {
                lemma_union_skip(conflicts@, conflicts.entries@, labels@, next, idx as int);
            }
        } else {
            let l1o = find_label(&labels, k1);
            let l2o = find_label(&labels, k2);
            match (l1o, l2o) {
                (None, None) => {
                    let ghost l0 = labels@;
                    let ghost next0 = next;
                    proof {
                        lemma_union_new_set(
                            conflicts@,
                            conflicts.entries@,
                            l0,
                            next,
                            idx as int,
                        );
                    }
                    labels.push((k1, next));
                    labels.push((k2, next));
                    next = next + 1;
                },
                (Some(l1), Some(l2)) => {
                    if l1 != l2 {
                        let ghost l0 = labels@;
                        let len = labels.len();
                        let mut renamed: Vec<(OrderId, usize)> = Vec::new();
                        let mut t: usize = 0;
                        while t < len
                            invariant
                                len == l0.len(),
                                labels@ == l0,
                                t <= len,
                                renamed@.len() == t as int,
                                forall|u: int|
                                    0 <= u < t ==> (#[trigger] renamed@[u]).0 == l0[u].0
                                        && renamed@[u].1 == (if l0[u].1 == l2 {
                                        l1
                                    } else {
                                        l0[u].1
                                    }),
                            decreases len - t,
                        {
                            let (id, l) = labels[t];
                            if l == l2 {
                                renamed.push((id, l1));
                            } else {
                                renamed.push((id, l));
                            }
                            t += 1;
                        }
                        proof {
                            lemma_union_merge(
                                conflicts@,
                                conflicts.entries@,
                                l0,
                                renamed@,
                                next,
                                idx as int,
                                l1,
                                l2,
                            );
                        }
                        labels = renamed;
                    } else {
                        proof {
                            lemma_union_same(
                                conflicts@,
                                conflicts.entries@,
                                labels@,
                                next,
                                idx as int,
                            );
                        }
                    }
                },
                (Some(l1), None) => {
                    let ghost l0 = labels@;
                    proof {
                        lemma_union_join(
                            conflicts@,
                            conflicts.entries@,
                            l0,
                            next,
                            idx as int,
                            k1,
                            k2,
                        );
                    }
                    labels.push((k2, l1));
                },
                (None, Some(l2)) => {
                    let ghost l0 = labels@;
                    proof {
                        lemma_union_join(
                            conflicts@,
                            conflicts.entries@,
                            l0,
                            next,
                            idx as int,
                            k2,
                            k1,
                        );
                    }
                    labels.push((k1, l2));
                },
            }
        }
        idx += 1;
    }
    let mut result: Vec<ConflictSet> = Vec::new();
    let ghost mut class_labels: Seq<usize> = Seq::empty();
    let mut lbl: usize = 0;
    while lbl < next
        invariant
            conflicts.wf(),
            n == conflicts.entries@.len(),
            union_inv(conflicts@, conflicts.entries@, labels@, next, n as int),
            lbl <= next,
            group_inv(labels@, result@, class_labels, lbl as int),
        decreases next - lbl,
    {
        let llen = labels.len();
        let mut members: Vec<OrderId> = Vec::new();
        let mut t: usize = 0;
        while t < llen
            invariant
                llen == labels@.len(),
                t <= llen,
                keys_distinct(labels@),
                forall|u: int|
                    0 <= u < members@.len() ==> has_id(labels@, #[trigger] members@[u])
                        && label_of(labels@, members@[u]) == lbl,
                forall|t2: int|
                    0 <= t2 < t && (#[trigger] labels@[t2]).1 == lbl ==> members@.contains(
                        labels@[t2].0,
                    ),
                forall|t2: int|
                    t <= t2 < llen ==> !members@.contains((#[trigger] labels@[t2]).0),
                forall|u: int, v: int|
                    0 <= u < v < members@.len() ==> members@[u] != members@[v],
            decreases llen - t,
        {
            let (id, l) = labels[t];
            proof {
                lemma_label_at(labels@, t as int);
            }
            if l == lbl {
                let ghost old_members = members@;
                members.push(id);
                proof {
                    assert(!old_members.contains(id));
                    assert forall|u: int| 0 <= u < members@.len() implies has_id(
                        labels@,
                        #[trigger] members@[u],
                    ) && label_of(labels@, members@[u]) == lbl by {
                        if u < old_members.len() {
                            assert(members@[u] == old_members[u]);
                        } else {
                            assert(members@[u] == id);
                        }
                    }
                    assert forall|t2: int|
                        0 <= t2 < t + 1 && (#[trigger] labels@[t2]).1 == lbl implies members@.contains(
                        labels@[t2].0,
                    ) by {
                        if t2 < t {
                            let u = choose|u: int|
                                0 <= u < old_members.len() && old_members[u] == labels@[t2].0;
                            assert(members@[u] == labels@[t2].0);
                        } else {
                            assert(members@[old_members.len() as int] == id);
                        }
                    }
                    assert forall|t2: int|
                        t + 1 <= t2 < llen implies !members@.contains(
                        (#[trigger] labels@[t2]).0,
                    ) by {
                        if members@.contains(labels@[t2].0) {
                            let u = choose|u: int|
                                0 <= u < members@.len() && members@[u] == labels@[t2].0;
                            if u < old_members.len() {
                                assert(old_members[u] == labels@[t2].0);
                                assert(old_members.contains(labels@[t2].0));
                                assert(false);
                            } else {
                                assert(members@[u] == id);
                                assert(labels@[t as int].0 != labels@[t2].0);
                                assert(false);
                            }
                        }
                    }
                    assert forall|u: int, v: int|
                        0 <= u < v < members@.len() implies members@[u] != members@[v] by {
                        if v < old_members.len() {
                            assert(members@[u] == old_members[u]);
                            assert(members@[v] == old_members[v]);
                        } else {
                            assert(members@[v] == id);
                            assert(members@[u] == old_members[u]);
                            assert(old_members.contains(old_members[u]));
                        }
                    }
                }
            } else {
                proof {
                    assert forall|t2: int|
                        0 <= t2 < t + 1 && (#[trigger] labels@[t2]).1 == lbl implies members@.contains(
                        labels@[t2].0,
                    ) by {
                        assert(t2 < t);
                    }
                    assert forall|t2: int|
                        t + 1 <= t2 < llen implies !members@.contains(
                        (#[trigger] labels@[t2]).0,
                    ) by {
                        assert(t <= t2);
                    }
                }
            }
            t += 1;
        }
        if members.len() > 0 {
            let group = ConflictSet { members };
            proof {
                assert forall|x: OrderId| #[trigger] group.members@.contains(x) implies has_id(
                    labels@,
                    x,
                ) && label_of(labels@, x) == lbl by {
                    let u = choose|u: int|
                        0 <= u < group.members@.len() && group.members@[u] == x;
                    assert(group.members@[u] == x);
                }
                assert forall|x: OrderId|
                    has_id(labels@, x) && #[trigger] label_of(labels@, x) == lbl implies group.members@.contains(
                    x,
                ) by {
                    let t2 = choose|t2: int| 0 <= t2 < labels@.len() && (#[trigger] labels@[t2]).0
                        == x;
                    lemma_label_at(labels@, t2);
                    assert(labels@[t2].1 == lbl);
                }
                assert(is_class(labels@, group, lbl));
            }
            let glen = group.len();
            let mut pos: usize = 0;
            while pos < result.len() && result[pos].len() >= glen
                invariant
                    pos <= result@.len(),
                    glen == group.members@.len(),
                    forall|u: int|
                        0 <= u < pos ==> (#[trigger] result@[u]).members@.len() >= glen,
                decreases result@.len() - pos,
            {
                pos += 1;
            }
            let ghost cs0 = result@;
            let ghost cls0 = class_labels;
            let ghost position = pos as int;
            result.insert(pos, group);
            proof {
                lemma_group_insert(labels@, cs0, result@, cls0, group, position, lbl);
                class_labels = cls0.insert(position, lbl);
            }
        } else {
            proof {
                assert forall|x: OrderId|
                    has_id(labels@, x) && (#[trigger] label_of(labels@, x) as int) < lbl + 1
                    implies exists|a: int|
                    0 <= a < result@.len() && result@[a].members@.contains(x) by {
                    if label_of(labels@, x) == lbl {
                        let t2 = choose|t2: int|
                            0 <= t2 < labels@.len() && (#[trigger] labels@[t2]).0 == x;
                        lemma_label_at(labels@, t2);
                        assert(labels@[t2].1 == lbl);
                        assert(members@.contains(labels@[t2].0));
                        assert(false);
                    }
                }
            }
        }
        lbl += 1;
    }
    proof {
        lemma_clustering_from_groups(conflicts.entries@, labels@, next, result@, class_labels);
    }
    result
}

} // verus!
