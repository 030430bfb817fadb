//! Tests for grid coordinates, the spatial hash table and the
//! multi-radius neighbor cache.

use spatial_flow::coords::{cell_key, floor_div, get_point_spatial_hash, Position, Radius,
    SpatialHashCell};
use spatial_flow::neighbors::{build_spatial_neighbors_cache, true_distance_squared,
    SpatialNeighborsRadii};
use spatial_flow::spatial_hash::{build_spatial_hash_table, get_all_spatial_hashes_from_circle,
    SpatialAgent, SpatialAwareness};

fn agent(id: u64, x: i64, y: i64, r: i64, aw: Option<i64>) -> SpatialAgent {
    SpatialAgent {
        entity: id,
        position: Position { x, y },
        radius: Radius { r },
        awareness: aw.map(|radius| SpatialAwareness { radius }),
    }
}

#[test]
fn floor_div_rounds_toward_negative_infinity() {
    assert_eq!(floor_div(7, 2), 3);
    assert_eq!(floor_div(-7, 2), -4);
    assert_eq!(floor_div(-36, 36), -1);
    assert_eq!(floor_div(-1, 36), -1);
    assert_eq!(floor_div(0, 36), 0);
}

#[test]
fn point_hash_uses_floor_division() {
    assert_eq!(get_point_spatial_hash(Position { x: 35, y: 36 }, 36), SpatialHashCell(0, 1));
    assert_eq!(get_point_spatial_hash(Position { x: -1, y: -37 }, 36), SpatialHashCell(-1, -2));
}

#[test]
fn circle_hashes_cover_the_bounding_square() {
    let cells = get_all_spatial_hashes_from_circle(Position { x: 0, y: 0 }, 40, 36);
    assert_eq!(cells.len(), 16);
    assert!(cells.contains(&SpatialHashCell(-2, -2)));
    assert!(cells.contains(&SpatialHashCell(1, 1)));
    assert!(!cells.contains(&SpatialHashCell(2, 0)));
}

#[test]
fn cell_keys_distinguish_cells() {
    let a = cell_key(SpatialHashCell(1, -1));
    let b = cell_key(SpatialHashCell(-1, 1));
    let c = cell_key(SpatialHashCell(1, -1));
    assert_ne!(a, b);
    assert_eq!(a, c);
}

#[test]
fn overlapping_agents_share_a_bucket() {
    // Two circles whose surfaces overlap end up in the same bucket.
    let agents = vec![agent(7, 0, 0, 5000, None), agent(9, 6000, 0, 5000, None)];
    let table = build_spatial_hash_table(&agents, 36000);
    let bucket = table.table.get(&cell_key(SpatialHashCell(0, 0))).unwrap();
    assert!(bucket.contains(&7));
    assert!(bucket.contains(&9));
}

#[test]
fn agent_appears_once_per_bucket() {
    let agents = vec![agent(1, 0, 0, 40, None)];
    let table = build_spatial_hash_table(&agents, 36);
    for (_, bucket) in table.table.iter() {
        assert_eq!(bucket.iter().filter(|id| **id == 1).count(), 1);
    }
}

#[test]
fn true_distance_squared_subtracts_radii() {
    let d = true_distance_squared(
        Position { x: 0, y: 0 },
        Position { x: 3, y: 4 },
        1,
        2,
    );
    // 3*3 + 4*4 - (1+2)^2
    assert_eq!(d, 16);
    let overlapping = true_distance_squared(
        Position { x: 0, y: 0 },
        Position { x: 1, y: 0 },
        2,
        2,
    );
    assert!(overlapping < 0);
}

fn three_agent_cache_in_order(order: [u64; 3]) -> spatial_flow::neighbors::SpatialNeighborsCache {
    // Agent 1 scans narrowly (radius 10); 2 sits at distance 5 and 3 at
    // distance 50, both scanning at radius 50.
    let mut agents = Vec::new();
    for id in order {
        agents.push(match id {
            1 => agent(1, 0, 0, 0, Some(10)),
            2 => agent(2, 5, 0, 0, Some(50)),
            _ => agent(3, 50, 0, 0, Some(50)),
        });
    }
    let radii = SpatialNeighborsRadii(vec![4, 16, 64]);
    let table = build_spatial_hash_table(&agents, 4);
    build_spatial_neighbors_cache(&agents, &radii, &table)
}

fn three_agent_cache() -> spatial_flow::neighbors::SpatialNeighborsCache {
    three_agent_cache_in_order([1, 2, 3])
}

#[test]
fn neighbor_query_snaps_to_tier_and_filters() {
    let cache = three_agent_cache();
    // Radius 10 snaps to tier 16: only the agent at distance 5 qualifies.
    let near = cache.get_neighbors(1, 10).unwrap();
    assert_eq!(near, vec![2]);
    // Radius 60 snaps to tier 64: both the agents at distance 5 and 50.
    let far = cache.get_neighbors(1, 60).unwrap();
    assert_eq!(far.len(), 2);
    assert!(far.contains(&2));
    assert!(far.contains(&3));
}

#[test]
fn pair_found_by_either_scan_whatever_the_order() {
    // The wide scanner reaches the narrow one whether it is listed
    // before or after it: the snapshot order never drops a pair.
    for order in [[1, 2, 3], [3, 2, 1], [2, 3, 1], [3, 1, 2]] {
        let cache = three_agent_cache_in_order(order);
        let far = cache.get_neighbors(1, 60).unwrap();
        assert_eq!(far.len(), 2, "order {:?}", order);
        assert!(far.contains(&2));
        assert!(far.contains(&3));
        assert_eq!(cache.get_neighbors(1, 10).unwrap(), vec![2]);
    }
}

#[test]
fn neighbor_query_absent_agent_is_no_data() {
    let cache = three_agent_cache();
    assert!(cache.get_neighbors(42, 60).is_none());
}

#[test]
fn neighbor_lists_are_symmetric() {
    let cache = three_agent_cache();
    // In every tier, if (b, d) is recorded under a then (a, d) is
    // recorded under b.
    for tier in cache.vec_of_maps.iter() {
        for (a, list) in tier.iter() {
            for (b, d) in list.iter() {
                let back = tier.get(b).expect("symmetric entry missing");
                assert!(back.contains(&(*a, *d)));
            }
        }
    }
}

#[test]
fn neighbor_results_grow_with_radius() {
    let cache = three_agent_cache();
    let r1 = cache.get_neighbors(1, 10).unwrap();
    let r2 = cache.get_neighbors(1, 60).unwrap();
    for id in r1.iter() {
        assert!(r2.contains(id));
    }
}

#[test]
fn distances_are_recorded_per_qualifying_tier() {
    let cache = three_agent_cache();
    // d^2 = 25 exceeds the squared tier radius 16, so tier 0 has no entry
    // for the close pair; tiers 1 and 2 both do, with the exact distance.
    assert!(cache.vec_of_maps[0].get(&1).is_none());
    assert!(cache.vec_of_maps[1].get(&1).unwrap().contains(&(2, 25)));
    assert!(cache.vec_of_maps[2].get(&1).unwrap().contains(&(2, 25)));
}
