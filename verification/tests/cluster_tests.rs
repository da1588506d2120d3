use order_conflict::cluster::get_conflict_sets;
use order_conflict::cluster::ConflictSet;
use order_conflict::conflict_map::ConflictMap;
use order_conflict::types::Address;
use order_conflict::types::Conflict;
use order_conflict::types::OrderId;
use order_conflict::types::U256;

fn id(n: u64) -> OrderId {
    OrderId { value: n }
}

fn set_as_sorted_values(s: &ConflictSet) -> Vec<u64> {
    let mut v: Vec<u64> = s.members.iter().map(|m| m.value).collect();
    v.sort();
    v
}

#[test]
fn map_insert_and_get() {
    let mut map = ConflictMap::new();
    assert_eq!(map.get(id(1), id(2)), None);
    map.insert(id(1), id(2), Conflict::Fatal);
    assert_eq!(map.get(id(1), id(2)), Some(Conflict::Fatal));
    assert_eq!(map.get(id(2), id(1)), None);
    assert_eq!(map.len(), 1);
}

#[test]
fn merging_two_clusters_through_a_late_edge() {
    // Edges (1,2) and (3,4) form two clusters; the edge (2,3) merges them.
    let mut map = ConflictMap::new();
    map.insert(id(1), id(2), Conflict::Fatal);
    map.insert(id(3), id(4), Conflict::Fatal);
    map.insert(id(2), id(3), Conflict::Fatal);
    let sets = get_conflict_sets(&map);
    assert_eq!(sets.len(), 1);
    assert_eq!(set_as_sorted_values(&sets[0]), vec![1, 2, 3, 4]);
}

#[test]
fn no_conflict_entries_make_no_edges() {
    let mut map = ConflictMap::new();
    map.insert(id(1), id(2), Conflict::NoConflict);
    map.insert(id(2), id(1), Conflict::NoConflict);
    let sets = get_conflict_sets(&map);
    assert_eq!(sets.len(), 0);
}

#[test]
fn either_direction_counts_as_an_edge() {
    // Only the reverse entry is a real conflict; the pair still clusters.
    let mut map = ConflictMap::new();
    map.insert(id(1), id(2), Conflict::NoConflict);
    map.insert(id(2), id(1), Conflict::Fatal);
    let sets = get_conflict_sets(&map);
    assert_eq!(sets.len(), 1);
    assert_eq!(set_as_sorted_values(&sets[0]), vec![1, 2]);
}

#[test]
fn sets_come_largest_first() {
    let mut map = ConflictMap::new();
    // A chain of three: {1, 2, 3}.
    map.insert(id(1), id(2), Conflict::Fatal);
    map.insert(id(2), id(3), Conflict::Fatal);
    // A pair: {4, 5}.
    map.insert(
        id(4),
        id(5),
        Conflict::DifferentProfit {
            profit_alone: U256 { hi: 0, lo: 50 },
            profit_with_conflict: U256 { hi: 0, lo: 30 },
        },
    );
    let sets = get_conflict_sets(&map);
    assert_eq!(sets.len(), 2);
    assert_eq!(set_as_sorted_values(&sets[0]), vec![1, 2, 3]);
    assert_eq!(set_as_sorted_values(&sets[1]), vec![4, 5]);
}

#[test]
fn nonce_edges_cluster_too() {
    let mut map = ConflictMap::new();
    let a = Address { hi: 3, lo: 3 };
    map.insert(id(1), id(2), Conflict::Nonce(a));
    map.insert(id(2), id(1), Conflict::Nonce(a));
    let sets = get_conflict_sets(&map);
    assert_eq!(sets.len(), 1);
    assert_eq!(set_as_sorted_values(&sets[0]), vec![1, 2]);
}

#[test]
fn partition_is_independent_of_entry_order() {
    // The same five entries inserted in two different orders produce the
    // same partition.
    let entries: Vec<((u64, u64), Conflict)> = vec![
        ((1, 2), Conflict::Fatal),
        ((3, 4), Conflict::Fatal),
        ((2, 3), Conflict::Fatal),
        ((5, 6), Conflict::Fatal),
        ((7, 8), Conflict::NoConflict),
    ];
    let mut forward = ConflictMap::new();
    for ((f, s), c) in entries.iter() {
        forward.insert(id(*f), id(*s), *c);
    }
    let mut backward = ConflictMap::new();
    for ((f, s), c) in entries.iter().rev() {
        backward.insert(id(*f), id(*s), *c);
    }
    let mut p1: Vec<Vec<u64>> = get_conflict_sets(&forward).iter().map(set_as_sorted_values).collect();
    let mut p2: Vec<Vec<u64>> = get_conflict_sets(&backward).iter().map(set_as_sorted_values).collect();
    p1.sort();
    p2.sort();
    assert_eq!(p1, p2);
    assert_eq!(p1.len(), 2);
}

#[test]
fn transitive_chain_lands_in_one_set() {
    // (1,2) and (2,3) conflict in some direction: all three share a set.
    let mut map = ConflictMap::new();
    map.insert(id(2), id(1), Conflict::Fatal);
    map.insert(id(3), id(2), Conflict::Fatal);
    let sets = get_conflict_sets(&map);
    assert_eq!(sets.len(), 1);
    assert_eq!(set_as_sorted_values(&sets[0]), vec![1, 2, 3]);
}
