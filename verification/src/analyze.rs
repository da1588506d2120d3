//! The conflict analyzer: classifies every ordered pair of individually
//! viable orders by the interference the first causes the second, given the
//! outcomes of the driver's simulations.
//!
//! Simulation (forking chain state and committing an order against it) is an
//! outside capability. The driver simulates each order alone, then each
//! ordered pair in sequence on a fresh fork from the same base state, and
//! hands every outcome in here as plain values; an infrastructure error makes
//! the driver abort before this point, so no partial analysis is produced.

use vstd::prelude::*;

use crate::conflict_map::ConflictMap;
use crate::types::Address;
use crate::types::Conflict;
use crate::types::Nonce;
use crate::types::Order;
use crate::types::OrderId;
use crate::types::PairSim;
use crate::types::SimOutcome;
use crate::types::U256;

verus! {

/// Some entry of `nonces` declares `addr`.
pub open spec fn declares(nonces: Seq<Nonce>, addr: Address) -> bool {
    exists|i: int| 0 <= i < nonces.len() && (#[trigger] nonces[i]).address == addr
}

/// The effective declaration of `nonces` for `addr`: the last one, a later
/// duplicate declaration of the same address superseding an earlier one.
pub open spec fn last_declaration(nonces: Seq<Nonce>, addr: Address) -> Nonce
    recommends
        declares(nonces, addr),
    decreases nonces.len(),
{
    if nonces.len() == 0 {
        Nonce { address: addr, optional: true }
    } else if nonces.last().address == addr {
        nonces.last()
    } else {
        last_declaration(nonces.drop_last(), addr)
    }
}

/// The declaration `n2` of the second order collides with the first order's
/// declarations: `n2` is non-optional, and the first order's effective
/// declaration of the same address is non-optional too.
pub open spec fn clashes_with(first_nonces: Seq<Nonce>, n2: Nonce) -> bool {
    &&& !n2.optional
    &&& declares(first_nonces, n2.address)
    &&& !last_declaration(first_nonces, n2.address).optional
}

/// The address of the first declaration of the second order that collides
/// with the first order's declarations, if any.
pub open spec fn first_clash(first_nonces: Seq<Nonce>, second_nonces: Seq<Nonce>) -> Option<
    Address,
>
    decreases second_nonces.len(),
{
    if second_nonces.len() == 0 {
        None
    } else if clashes_with(first_nonces, second_nonces.first()) {
        Some(second_nonces.first().address)
    } else {
        first_clash(first_nonces, second_nonces.drop_first())
    }
}

/// Classification of a simulated pair. The record for a pair is the one the
/// second order's commit leaves behind: a failure of the first order alone is
/// recorded as `Fatal` only until the second order's own record for the same
/// pair supersedes it.
pub open spec fn classify_simulated(profit_alone: U256, sim: PairSim) -> Conflict {
    match sim.second {
        SimOutcome::Failed => Conflict::Fatal,
        SimOutcome::Success { coinbase_profit, .. } => if coinbase_profit == profit_alone {
            Conflict::NoConflict
        } else {
            Conflict::DifferentProfit { profit_alone, profit_with_conflict: coinbase_profit }
        },
    }
}

/// What the analyzer records for a qualifying ordered pair: a nonce collision
/// short-circuits simulation; otherwise the pair is classified by comparing
/// the second order's simulated outcome against its baseline.
pub open spec fn pair_conflict(o1: Order, o2: Order, alone2: SimOutcome, sim: PairSim) -> Conflict {
    match first_clash(o1.nonces@, o2.nonces@) {
        Some(addr) => Conflict::Nonce(addr),
        None => classify_simulated(alone2.profit(), sim),
    }
}

/// Orders carry pairwise distinct identifiers.
pub open spec fn distinct_ids(orders: Seq<Order>) -> bool {
    forall|i: int, j: int|
        0 <= i < j < orders.len() ==> (#[trigger] orders[i]).id != (#[trigger] orders[j]).id
}

/// Indexes `i`, `j` form a qualifying ordered pair: two different orders that
/// both succeed when simulated alone.
pub open spec fn qualifies(orders: Seq<Order>, alone: Seq<SimOutcome>, i: int, j: int) -> bool {
    &&& 0 <= i < orders.len()
    &&& 0 <= j < orders.len()
    &&& orders[i].id != orders[j].id
    &&& alone[i] is Success
    &&& alone[j] is Success
}

/// The views of a table of per-pair simulation outcomes.
pub open spec fn pairs_view(pairs: Seq<Vec<PairSim>>) -> Seq<Seq<PairSim>> {
    pairs.map_values(|v: Vec<PairSim>| v@)
}

/// The analyzer's full contract: `m` holds exactly one entry per qualifying
/// ordered pair, classified per `pair_conflict`.
pub open spec fn analysis_result(
    orders: Seq<Order>,
    alone: Seq<SimOutcome>,
    pairs: Seq<Seq<PairSim>>,
    m: Map<(OrderId, OrderId), Conflict>,
) -> bool {
    &&& forall|i: int, j: int|
        #[trigger] qualifies(orders, alone, i, j) ==> m.contains_key((orders[i].id, orders[j].id))
            && m[(orders[i].id, orders[j].id)] == pair_conflict(
            orders[i],
            orders[j],
            alone[j],
            pairs[i][j],
        )
    &&& forall|k: (OrderId, OrderId)|
        #[trigger] m.contains_key(k) ==> exists|i: int, j: int|
            qualifies(orders, alone, i, j) && k == (orders[i].id, orders[j].id)
}

/// Distinct identifiers make the index of an order recoverable from its id.
pub proof fn lemma_id_injective(orders: Seq<Order>, a: int, b: int)
    requires
        distinct_ids(orders),
        0 <= a < orders.len(),
        0 <= b < orders.len(),
        orders[a].id == orders[b].id,
    ensures
        a == b,
{
    if a < b {
        assert(orders[a].id != orders[b].id);
    } else if b < a {
        assert(orders[b].id != orders[a].id);
    }
}

/// The effective (last) nonce declaration of `nonces` for `addr`, if any.
fn last_nonce_for(nonces: &Vec<Nonce>, addr: Address) -> (r: Option<Nonce>)
    ensures
        r == if declares(nonces@, addr) {
            Some(last_declaration(nonces@, addr))
        } else {
            None::<Nonce>
        },
{
    let n = nonces.len();
    let mut found: Option<Nonce> = None;
    let mut idx: usize = 0;
    while idx < n
        invariant
            n == nonces@.len(),
            idx <= n,
            found == if declares(nonces@.take(idx as int), addr) {
                Some(last_declaration(nonces@.take(idx as int), addr))
            } else {
                None::<Nonce>
            },
        decreases n - idx,
    {
        let nonce = nonces[idx];
        proof {
            assert(nonces@.take(idx + 1).drop_last() =~= nonces@.take(idx as int));
            assert(nonces@.take(idx + 1).last() == nonces@[idx as int]);
        }
        if nonce.address.hi == addr.hi && nonce.address.lo == addr.lo {
            found = Some(nonce);
            proof {
                assert(nonces@.take(idx + 1)[idx as int].address == addr);
                assert(declares(nonces@.take(idx + 1), addr));
            }
        } else {
            proof {
                if declares(nonces@.take(idx + 1), addr) {
                    let t = choose|t: int|
                        0 <= t < nonces@.take(idx + 1).len() && (#[trigger] nonces@.take(idx + 1)[t]).address
                            == addr;
                    assert(t < idx);
                    assert(nonces@.take(idx as int)[t].address == addr);
                    assert(declares(nonces@.take(idx as int), addr));
                }
            }
        }
        idx += 1;
    }
    proof {
        assert(nonces@.take(n as int) =~= nonces@);
    }
    found
}

/// The first nonce declaration of `second` that collides with `first`'s
/// declarations, per the short-circuit rule: both effective declarations
/// non-optional on the same address.
pub fn find_nonce_clash(first: &Order, second: &Order) -> (r: Option<Address>)
    ensures
        r == first_clash(first.nonces@, second.nonces@),
{
    let n = second.nonces.len();
    let mut j: usize = 0;
    proof {
        assert(second.nonces@.skip(0) =~= second.nonces@);
    }
    while j < n
        invariant
            n == second.nonces@.len(),
            j <= n,
            first_clash(first.nonces@, second.nonces@) == first_clash(
                first.nonces@,
                second.nonces@.skip(j as int),
            ),
        decreases n - j,
    {
        let n2 = second.nonces[j];
        proof {
            assert(second.nonces@.skip(j as int).first() == second.nonces@[j as int]);
            assert(second.nonces@.skip(j as int).drop_first() =~= second.nonces@.skip(j + 1));
        }
        if !n2.optional {
            match last_nonce_for(&first.nonces, n2.address) {
                Some(n1) => {
                    if !n1.optional {
                        proof {
                            assert(clashes_with(first.nonces@, n2));
                        }
                        return Some(n2.address);
                    }
                },
                None => {},
            }
        }
        proof {
            assert(!clashes_with(first.nonces@, second.nonces@[j as int]));
        }
        j += 1;
    }
    proof {
        assert(second.nonces@.skip(n as int) =~= Seq::<Nonce>::empty());
    }
    None
}

/// Classify every qualifying ordered pair of orders.
///
/// `alone[i]` is the outcome of simulating `orders[i]` alone against a fresh
/// fork of the base state; `pairs[i][j]` holds the two outcomes of simulating
/// `orders[i]` then `orders[j]` in sequence on one fresh fork from the same
/// base state. An order that fails alone has no baseline profit and is
/// excluded from every pair. A pair whose orders both effectively declare a
/// non-optional nonce dependency on one address is recorded as `Nonce`
/// without consulting the simulation; any other pair is classified from the
/// second order's outcome against its baseline profit.
pub fn find_conflict_slow(
    orders: &Vec<Order>,
    alone: &Vec<SimOutcome>,
    pairs: &Vec<Vec<PairSim>>,
) -> (r: ConflictMap)
    requires
        distinct_ids(orders@),
        alone@.len() == orders@.len(),
        pairs@.len() == orders@.len(),
        forall|i: int| 0 <= i < pairs@.len() ==> (#[trigger] pairs@[i])@.len() == orders@.len(),
    ensures
        r.wf(),
        analysis_result(orders@, alone@, pairs_view(pairs@), r@),
{
    let n = orders.len();
    let mut result = ConflictMap::new();
    let mut i: usize = 0;
    while i < n
        invariant
            n == orders@.len(),
            alone@.len() == n,
            pairs@.len() == n,
            forall|t: int| 0 <= t < pairs@.len() ==> (#[trigger] pairs@[t])@.len() == n,
            distinct_ids(orders@),
            i <= n,
            result.wf(),
            partial_result(orders@, alone@, pairs_view(pairs@), result@, i as int, 0),
        decreases n - i,
    {
        let mut j: usize = 0;
        while j < n
            invariant
                n == orders@.len(),
                alone@.len() == n,
                pairs@.len() == n,
                forall|t: int| 0 <= t < pairs@.len() ==> (#[trigger] pairs@[t])@.len() == n,
                distinct_ids(orders@),
                i < n,
                j <= n,
                result.wf(),
                partial_result(orders@, alone@, pairs_view(pairs@), result@, i as int, j as int),
            decreases n - j,
        {
            let ghost pv = pairs_view(pairs@);
            let succ_i = match alone[i] {
                SimOutcome::Success { .. } => true,
                SimOutcome::Failed => false,
            };
            let baseline_j = match alone[j] {
                SimOutcome::Success { coinbase_profit, .. } => Some(coinbase_profit),
                SimOutcome::Failed => None,
            };
            let id_i = orders[i].id();
            let id_j = orders[j].id();
            if succ_i && baseline_j.is_some() && id_i != id_j {
                proof {
                    assert(qualifies(orders@, alone@, i as int, j as int));
                    if result@.contains_key((id_i, id_j)) {
                        let (a, b) = choose|a: int, b: int|
                            qualifies(orders@, alone@, a, b) && lex_before(a, b, i as int, j as int)
                                && (id_i, id_j) == (orders@[a].id, orders@[b].id);
                        lemma_id_injective(orders@, a, i as int);
                        lemma_id_injective(orders@, b, j as int);
                        assert(false);
                    }
                }
                let recorded: Conflict = match find_nonce_clash(&orders[i], &orders[j]) {
                    Some(addr) => Conflict::Nonce(addr),
                    None => {
                        let sim = pairs[i][j];
                        let pa = baseline_j.unwrap();
                        proof {
                            assert(pv[i as int] == pairs@[i as int]@);
                            assert(pa == alone@[j as int].profit());
                        }
                        match sim.second {
                            SimOutcome::Failed => Conflict::Fatal,
                            SimOutcome::Success { coinbase_profit, .. } => {
                                if coinbase_profit == pa {
                                    Conflict::NoConflict
                                } else {
                                    Conflict::DifferentProfit {
                                        profit_alone: pa,
                                        profit_with_conflict: coinbase_profit,
                                    }
                                }
                            },
                        }
                    },
                };
                proof {
                    assert(pv[i as int] == pairs@[i as int]@);
                    assert(recorded == pair_conflict(
                        orders@[i as int],
                        orders@[j as int],
                        alone@[j as int],
                        pv[i as int][j as int],
                    ));
                }
                let ghost m0 = result@;
                result.insert(id_i, id_j, recorded);
                proof {
                    lemma_partial_step_insert(
                        orders@,
                        alone@,
                        pv,
                        m0,
                        result@,
                        i as int,
                        j as int,
                        recorded,
                    );
                }
            } else {
                proof {
                    assert(!qualifies(orders@, alone@, i as int, j as int));
                    lemma_partial_step_skip(orders@, alone@, pv, result@, i as int, j as int);
                }
            }
            j += 1;
        }
        proof {
            lemma_partial_row_done(
                orders@,
                alone@,
                pairs_view(pairs@),
                result@,
                i as int,
            );
        }
        i += 1;
    }
    proof {
        lemma_partial_complete(orders@, alone@, pairs_view(pairs@), result@);
    }
    result
}

/// Lexicographic order on pair indexes: the order in which pairs are visited.
pub open spec fn lex_before(a: int, b: int, i: int, j: int) -> bool {
    a < i || (a == i && b < j)
}

/// The analyzer's invariant after visiting every pair before `(i, j)`.
pub open spec fn partial_result(
    orders: Seq<Order>,
    alone: Seq<SimOutcome>,
    pairs: Seq<Seq<PairSim>>,
    m: Map<(OrderId, OrderId), Conflict>,
    i: int,
    j: int,
) -> bool {
    &&& forall|a: int, b: int|
        #[trigger] qualifies(orders, alone, a, b) && lex_before(a, b, i, j) ==> m.contains_key(
            (orders[a].id, orders[b].id),
        ) && m[(orders[a].id, orders[b].id)] == pair_conflict(
            orders[a],
            orders[b],
            alone[b],
            pairs[a][b],
        )
    &&& forall|k: (OrderId, OrderId)|
        #[trigger] m.contains_key(k) ==> exists|a: int, b: int|
            qualifies(orders, alone, a, b) && lex_before(a, b, i, j) && k == (
            orders[a].id,
            orders[b].id,
            )
}

proof fn lemma_partial_step_insert(
    orders: Seq<Order>,
    alone: Seq<SimOutcome>,
    pairs: Seq<Seq<PairSim>>,
    m0: Map<(OrderId, OrderId), Conflict>,
    m1: Map<(OrderId, OrderId), Conflict>,
    i: int,
    j: int,
    c: Conflict,
)
    requires
        distinct_ids(orders),
        partial_result(orders, alone, pairs, m0, i, j),
        qualifies(orders, alone, i, j),
        c == pair_conflict(orders[i], orders[j], alone[j], pairs[i][j]),
        m1 == m0.insert((orders[i].id, orders[j].id), c),
    ensures
        partial_result(orders, alone, pairs, m1, i, j + 1),
{
    assert forall|a: int, b: int|
        #[trigger] qualifies(orders, alone, a, b) && lex_before(a, b, i, j + 1) implies m1.contains_key(
        (orders[a].id, orders[b].id),
    ) && m1[(orders[a].id, orders[b].id)] == pair_conflict(
        orders[a],
        orders[b],
        alone[b],
        pairs[a][b],
    ) by {
        if a == i && b == j {
        } else {
            assert(lex_before(a, b, i, j));
            if (orders[a].id, orders[b].id) == (orders[i].id, orders[j].id) {
                lemma_id_injective(orders, a, i);
                lemma_id_injective(orders, b, j);
            }
        }
    }
    assert forall|k: (OrderId, OrderId)| #[trigger] m1.contains_key(k) implies exists|a: int, b: int|
        qualifies(orders, alone, a, b) && lex_before(a, b, i, j + 1) && k == (
        orders[a].id,
        orders[b].id,
        ) by {
        if k == (orders[i].id, orders[j].id) {
            assert(qualifies(orders, alone, i, j) && lex_before(i, j, i, j + 1) && k == (
                orders[i].id,
                orders[j].id,
            ));
        } else {
            assert(m0.contains_key(k));
            let (a, b) = choose|a: int, b: int|
                qualifies(orders, alone, a, b) && lex_before(a, b, i, j) && k == (
                orders[a].id,
                orders[b].id,
                );
            assert(qualifies(orders, alone, a, b) && lex_before(a, b, i, j + 1) && k == (
                orders[a].id,
                orders[b].id,
            ));
        }
    }
}

proof fn lemma_partial_step_skip(
    orders: Seq<Order>,
    alone: Seq<SimOutcome>,
    pairs: Seq<Seq<PairSim>>,
    m: Map<(OrderId, OrderId), Conflict>,
    i: int,
    j: int,
)
    requires
        partial_result(orders, alone, pairs, m, i, j),
        !qualifies(orders, alone, i, j),
    ensures
        partial_result(orders, alone, pairs, m, i, j + 1),
{
    assert forall|a: int, b: int|
        #[trigger] qualifies(orders, alone, a, b) && lex_before(a, b, i, j + 1) implies m.contains_key(
        (orders[a].id, orders[b].id),
    ) && m[(orders[a].id, orders[b].id)] == pair_conflict(
        orders[a],
        orders[b],
        alone[b],
        pairs[a][b],
    ) by {
        assert(!(a == i && b == j));
        assert(lex_before(a, b, i, j));
    }
}

proof fn lemma_partial_row_done(
    orders: Seq<Order>,
    alone: Seq<SimOutcome>,
    pairs: Seq<Seq<PairSim>>,
    m: Map<(OrderId, OrderId), Conflict>,
    i: int,
)
    requires
        partial_result(orders, alone, pairs, m, i, orders.len() as int),
    ensures
        partial_result(orders, alone, pairs, m, i + 1, 0),
{
    assert forall|a: int, b: int|
        #[trigger] qualifies(orders, alone, a, b) && lex_before(a, b, i + 1, 0) implies m.contains_key(
        (orders[a].id, orders[b].id),
    ) && m[(orders[a].id, orders[b].id)] == pair_conflict(
        orders[a],
        orders[b],
        alone[b],
        pairs[a][b],
    ) by {
        assert(lex_before(a, b, i, orders.len() as int));
    }
    assert forall|k: (OrderId, OrderId)| #[trigger] m.contains_key(k) implies exists|a: int, b: int|
        qualifies(orders, alone, a, b) && lex_before(a, b, i + 1, 0) && k == (
        orders[a].id,
        orders[b].id,
        ) by {
        let (a, b) = choose|a: int, b: int|
            qualifies(orders, alone, a, b) && lex_before(a, b, i, orders.len() as int) && k == (
            orders[a].id,
            orders[b].id,
            );
        assert(qualifies(orders, alone, a, b) && lex_before(a, b, i + 1, 0) && k == (
            orders[a].id,
            orders[b].id,
        ));
    }
}

/// When some declaration of the second order collides with the first order's
/// declarations, the first such declaration is found, and the address it
/// reports genuinely collides.
pub proof fn lemma_first_clash_found(first_nonces: Seq<Nonce>, second_nonces: Seq<Nonce>)
    requires
        exists|t: int|
            0 <= t < second_nonces.len() && clashes_with(first_nonces, #[trigger] second_nonces[t]),
    ensures
        match first_clash(first_nonces, second_nonces) {
            Some(addr) => exists|t: int|
                0 <= t < second_nonces.len() && clashes_with(first_nonces, #[trigger] second_nonces[t])
                    && second_nonces[t].address == addr,
            None => false,
        },
    decreases second_nonces.len(),
{
    let t0 = choose|t: int|
        0 <= t < second_nonces.len() && clashes_with(first_nonces, #[trigger] second_nonces[t]);
    if clashes_with(first_nonces, second_nonces.first()) {
        assert(second_nonces[0].address == second_nonces.first().address);
    } else {
        assert(t0 > 0);
        assert(second_nonces.drop_first()[t0 - 1] == second_nonces[t0]);
        lemma_first_clash_found(first_nonces, second_nonces.drop_first());
        let addr = first_clash(first_nonces, second_nonces.drop_first())->Some_0;
        let t1 = choose|t: int|
            0 <= t < second_nonces.drop_first().len() && clashes_with(
                first_nonces,
                #[trigger] second_nonces.drop_first()[t],
            ) && second_nonces.drop_first()[t].address == addr;
        assert(second_nonces[t1 + 1] == second_nonces.drop_first()[t1]);
    }
}

/// An order that fails when simulated alone is excluded from the analysis:
/// no entry of the map names it on either side of the key.
pub proof fn lemma_failed_alone_excluded(
    orders: Seq<Order>,
    alone: Seq<SimOutcome>,
    pairs: Seq<Seq<PairSim>>,
    m: Map<(OrderId, OrderId), Conflict>,
    x: int,
)
    requires
        distinct_ids(orders),
        analysis_result(orders, alone, pairs, m),
        0 <= x < orders.len(),
        !(alone[x] is Success),
    ensures
        forall|k: (OrderId, OrderId)|
            #[trigger] m.contains_key(k) ==> k.0 != orders[x].id && k.1 != orders[x].id,
{
    assert forall|k: (OrderId, OrderId)| #[trigger] m.contains_key(k) implies k.0 != orders[x].id
        && k.1 != orders[x].id by {
        let (a, b) = choose|a: int, b: int|
            qualifies(orders, alone, a, b) && k == (orders[a].id, orders[b].id);
        if orders[a].id == orders[x].id {
            lemma_id_injective(orders, a, x);
        }
        if orders[b].id == orders[x].id {
            lemma_id_injective(orders, b, x);
        }
    }
}

/// Every key of the map relates two distinct order identifiers.
pub proof fn lemma_pair_keys_distinct(
    orders: Seq<Order>,
    alone: Seq<SimOutcome>,
    pairs: Seq<Seq<PairSim>>,
    m: Map<(OrderId, OrderId), Conflict>,
)
    requires
        analysis_result(orders, alone, pairs, m),
    ensures
        forall|k: (OrderId, OrderId)| #[trigger] m.contains_key(k) ==> k.0 != k.1,
{
    assert forall|k: (OrderId, OrderId)| #[trigger] m.contains_key(k) implies k.0 != k.1 by {
        let (a, b) = choose|a: int, b: int|
            qualifies(orders, alone, a, b) && k == (orders[a].id, orders[b].id);
        assert(orders[a].id != orders[b].id);
    }
}

/// The nonce rule: when both orders of a qualifying pair effectively declare
/// a non-optional dependency on one address, the pair's entry is exactly
/// `Nonce` of a colliding address, whatever the simulation showed.
pub proof fn lemma_nonce_rule(
    orders: Seq<Order>,
    alone: Seq<SimOutcome>,
    pairs: Seq<Seq<PairSim>>,
    m: Map<(OrderId, OrderId), Conflict>,
    i: int,
    j: int,
)
    requires
        analysis_result(orders, alone, pairs, m),
        qualifies(orders, alone, i, j),
        exists|t: int|
            0 <= t < orders[j].nonces@.len() && clashes_with(
                orders[i].nonces@,
                #[trigger] orders[j].nonces@[t],
            ),
    ensures
        m.contains_key((orders[i].id, orders[j].id)),
        match m[(orders[i].id, orders[j].id)] {
            Conflict::Nonce(addr) => exists|t: int|
                0 <= t < orders[j].nonces@.len() && clashes_with(
                    orders[i].nonces@,
                    #[trigger] orders[j].nonces@[t],
                ) && orders[j].nonces@[t].address == addr,
            _ => false,
        },
{
    lemma_first_clash_found(orders[i].nonces@, orders[j].nonces@);
}

/// Profit rule: a `DifferentProfit` entry carries the second order's baseline
/// profit and a strictly different observed profit; a `NoConflict` entry
/// arises only when the observed profit exactly equals the baseline; a
/// `Fatal` entry only when the second order's commit failed.
pub proof fn lemma_profit_classification(
    orders: Seq<Order>,
    alone: Seq<SimOutcome>,
    pairs: Seq<Seq<PairSim>>,
    m: Map<(OrderId, OrderId), Conflict>,
    i: int,
    j: int,
)
    requires
        analysis_result(orders, alone, pairs, m),
        qualifies(orders, alone, i, j),
    ensures
        m.contains_key((orders[i].id, orders[j].id)),
        match m[(orders[i].id, orders[j].id)] {
            Conflict::DifferentProfit { profit_alone, profit_with_conflict } => {
                &&& profit_alone != profit_with_conflict
                &&& profit_alone == alone[j].profit()
                &&& pairs[i][j].second is Success
                &&& profit_with_conflict == pairs[i][j].second.profit()
            },
            Conflict::NoConflict => pairs[i][j].second is Success && pairs[i][j].second.profit()
                == alone[j].profit(),
            Conflict::Fatal => pairs[i][j].second is Failed,
            Conflict::Nonce(_) => first_clash(orders[i].nonces@, orders[j].nonces@) is Some,
        },
{
}

proof fn lemma_partial_complete(
    orders: Seq<Order>,
    alone: Seq<SimOutcome>,
    pairs: Seq<Seq<PairSim>>,
    m: Map<(OrderId, OrderId), Conflict>,
)
    requires
        partial_result(orders, alone, pairs, m, orders.len() as int, 0),
    ensures
        analysis_result(orders, alone, pairs, m),
{
    assert forall|i: int, j: int| #[trigger] qualifies(orders, alone, i, j) implies m.contains_key(
        (orders[i].id, orders[j].id),
    ) && m[(orders[i].id, orders[j].id)] == pair_conflict(
        orders[i],
        orders[j],
        alone[j],
        pairs[i][j],
    ) by {
        assert(lex_before(i, j, orders.len() as int, 0));
    }
}

} // verus!
