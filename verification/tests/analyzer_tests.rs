use order_conflict::analyze::find_conflict_slow;
use order_conflict::cluster::get_conflict_sets;
use order_conflict::types::Address;
use order_conflict::types::Conflict;
use order_conflict::types::Nonce;
use order_conflict::types::Order;
use order_conflict::types::OrderId;
use order_conflict::types::PairSim;
use order_conflict::types::SimOutcome;
use order_conflict::types::U256;

fn addr(n: u32) -> Address {
    Address { hi: n, lo: n as u128 }
}

fn id(n: u64) -> OrderId {
    OrderId { value: n }
}

fn profit(n: u128) -> U256 {
    U256 { hi: 0, lo: n }
}

fn ok(p: u128) -> SimOutcome {
    SimOutcome::Success { gas_used: 21000, blob_gas_used: 0, coinbase_profit: profit(p) }
}

fn order(i: u64, nonces: Vec<Nonce>) -> Order {
    Order { id: id(i), nonces }
}

fn nonce(a: Address, optional: bool) -> Nonce {
    Nonce { address: a, optional }
}

/// A pair table where every pair replays the outcomes observed alone.
fn neutral_pairs(alone: &Vec<SimOutcome>) -> Vec<Vec<PairSim>> {
    let n = alone.len();
    let mut rows = Vec::new();
    for i in 0..n {
        let mut row = Vec::new();
        for j in 0..n {
            row.push(PairSim { first: alone[i], second: alone[j] });
        }
        rows.push(row);
    }
    rows
}

#[test]
fn nonce_collision_short_circuits_and_clusters() {
    // A and B share a non-optional nonce on one address; C is independent.
    let a = addr(7);
    let orders = vec![
        order(1, vec![nonce(a, false)]),
        order(2, vec![nonce(a, false)]),
        order(3, vec![nonce(addr(9), false)]),
    ];
    let alone = vec![ok(10), ok(20), ok(30)];
    let pairs = neutral_pairs(&alone);
    let map = find_conflict_slow(&orders, &alone, &pairs);

    assert_eq!(map.get(id(1), id(2)), Some(Conflict::Nonce(a)));
    assert_eq!(map.get(id(2), id(1)), Some(Conflict::Nonce(a)));
    assert_eq!(map.get(id(1), id(3)), Some(Conflict::NoConflict));
    assert_eq!(map.get(id(3), id(1)), Some(Conflict::NoConflict));
    assert_eq!(map.get(id(2), id(3)), Some(Conflict::NoConflict));
    assert_eq!(map.get(id(3), id(2)), Some(Conflict::NoConflict));

    let sets = get_conflict_sets(&map);
    assert_eq!(sets.len(), 1);
    assert_eq!(sets[0].len(), 2);
    assert!(sets[0].contains(id(1)));
    assert!(sets[0].contains(id(2)));
    assert!(!sets[0].contains(id(3)));
}

#[test]
fn different_profit_carries_both_values() {
    // A runs alone with profit 100; B yields 50 alone but only 30 after A.
    let orders = vec![order(1, vec![nonce(addr(1), false)]), order(2, vec![nonce(addr(2), false)])];
    let alone = vec![ok(100), ok(50)];
    let mut pairs = neutral_pairs(&alone);
    pairs[0][1].second = ok(30);
    let map = find_conflict_slow(&orders, &alone, &pairs);

    assert_eq!(
        map.get(id(1), id(2)),
        Some(Conflict::DifferentProfit {
            profit_alone: profit(50),
            profit_with_conflict: profit(30),
        })
    );
    assert_eq!(map.get(id(2), id(1)), Some(Conflict::NoConflict));

    let sets = get_conflict_sets(&map);
    assert_eq!(sets.len(), 1);
    assert_eq!(sets[0].len(), 2);
    assert!(sets[0].contains(id(1)) && sets[0].contains(id(2)));
}

#[test]
fn fatal_is_directional() {
    // A makes B revert when run first; B before A interferes not at all.
    let orders = vec![order(1, vec![]), order(2, vec![])];
    let alone = vec![ok(5), ok(6)];
    let mut pairs = neutral_pairs(&alone);
    pairs[0][1].second = SimOutcome::Failed;
    let map = find_conflict_slow(&orders, &alone, &pairs);

    assert_eq!(map.get(id(1), id(2)), Some(Conflict::Fatal));
    assert_eq!(map.get(id(2), id(1)), Some(Conflict::NoConflict));
}

#[test]
fn order_failing_alone_is_excluded() {
    let orders = vec![order(1, vec![]), order(2, vec![]), order(3, vec![])];
    let alone = vec![ok(1), SimOutcome::Failed, ok(3)];
    let pairs = neutral_pairs(&alone);
    let map = find_conflict_slow(&orders, &alone, &pairs);

    // No key names order 2 on either side.
    assert_eq!(map.get(id(1), id(2)), None);
    assert_eq!(map.get(id(2), id(1)), None);
    assert_eq!(map.get(id(2), id(3)), None);
    assert_eq!(map.get(id(3), id(2)), None);
    // The viable pair is still present, in both directions.
    assert_eq!(map.get(id(1), id(3)), Some(Conflict::NoConflict));
    assert_eq!(map.get(id(3), id(1)), Some(Conflict::NoConflict));
    assert_eq!(map.len(), 2);
}

#[test]
fn no_pair_relates_an_order_to_itself() {
    let orders = vec![order(1, vec![]), order(2, vec![])];
    let alone = vec![ok(1), ok(2)];
    let pairs = neutral_pairs(&alone);
    let map = find_conflict_slow(&orders, &alone, &pairs);

    assert_eq!(map.get(id(1), id(1)), None);
    assert_eq!(map.get(id(2), id(2)), None);
    assert_eq!(map.len(), 2);
}

#[test]
fn optional_nonce_does_not_short_circuit() {
    // Shared address, but B's declaration is optional: the pair is simulated.
    let a = addr(4);
    let orders = vec![order(1, vec![nonce(a, false)]), order(2, vec![nonce(a, true)])];
    let alone = vec![ok(10), ok(20)];
    let pairs = neutral_pairs(&alone);
    let map = find_conflict_slow(&orders, &alone, &pairs);

    assert_eq!(map.get(id(1), id(2)), Some(Conflict::NoConflict));
    assert_eq!(map.get(id(2), id(1)), Some(Conflict::NoConflict));
}

#[test]
fn later_duplicate_declaration_supersedes() {
    // The first order declares the address non-optionally, then again
    // optionally: the later declaration is the effective one, so no nonce
    // conflict is recorded.
    let a = addr(4);
    let orders = vec![
        order(1, vec![nonce(a, false), nonce(a, true)]),
        order(2, vec![nonce(a, false)]),
    ];
    let alone = vec![ok(10), ok(20)];
    let pairs = neutral_pairs(&alone);
    let map = find_conflict_slow(&orders, &alone, &pairs);

    // With the duplicate-declaring order first, its effective declaration is
    // the optional one, so simulation decides.
    assert_eq!(map.get(id(1), id(2)), Some(Conflict::NoConflict));
    // With it second, its first declaration is non-optional and collides
    // with the other order's (non-optional) declaration.
    assert_eq!(map.get(id(2), id(1)), Some(Conflict::Nonce(a)));
}

#[test]
fn first_colliding_address_is_reported() {
    let a1 = addr(11);
    let a2 = addr(12);
    let orders = vec![
        order(1, vec![nonce(a1, false), nonce(a2, false)]),
        order(2, vec![nonce(a2, false), nonce(a1, false)]),
    ];
    let alone = vec![ok(10), ok(20)];
    let pairs = neutral_pairs(&alone);
    let map = find_conflict_slow(&orders, &alone, &pairs);

    // The first declaration of the second order that collides wins.
    assert_eq!(map.get(id(1), id(2)), Some(Conflict::Nonce(a2)));
    assert_eq!(map.get(id(2), id(1)), Some(Conflict::Nonce(a1)));
}

#[test]
fn empty_order_list_yields_empty_map() {
    let orders: Vec<Order> = Vec::new();
    let alone: Vec<SimOutcome> = Vec::new();
    let pairs: Vec<Vec<PairSim>> = Vec::new();
    let map = find_conflict_slow(&orders, &alone, &pairs);
    assert_eq!(map.len(), 0);
    let sets = get_conflict_sets(&map);
    assert_eq!(sets.len(), 0);
}

#[test]
fn first_order_failure_is_superseded_by_second_outcome() {
    // The first order fails in the pair context, but the second still runs
    // and matches its baseline: the pair's record is the second's outcome.
    let orders = vec![order(1, vec![]), order(2, vec![])];
    let alone = vec![ok(5), ok(6)];
    let mut pairs = neutral_pairs(&alone);
    pairs[0][1].first = SimOutcome::Failed;
    let map = find_conflict_slow(&orders, &alone, &pairs);
    assert_eq!(map.get(id(1), id(2)), Some(Conflict::NoConflict));
}
