//! Tests for the terrain map, the wavefront integration, the flow field
//! extraction and the recomputation cadence.

use spatial_flow::coords::{Position, SpatialHashCell};
use spatial_flow::flow::{build_flow_fields, get_spatial_team_value, IntegrationFields,
    UNREACHED};
use spatial_flow::neighbors::SpatialNeighborsRadii;
use spatial_flow::team::{TeamAlignment, TeamValue};
use spatial_flow::terrain::{TerrainCell, TerrainMap};
use spatial_flow::vecmath::{isqrt, normalized_or_zero, FlowVector};
use spatial_flow::world::SpatialResources;
use spatial_flow::Clock;

fn pathable() -> TerrainCell {
    TerrainCell { pathable_mask: 1, movement_cost: 1 }
}

fn blocked() -> TerrainCell {
    TerrainCell { pathable_mask: 0, movement_cost: 0 }
}

fn open_terrain(w: i32, h: i32) -> TerrainMap {
    TerrainMap::new(SpatialHashCell(w, h), pathable(), blocked(), 1)
}

fn aligned(team: TeamValue, x: i64, y: i64) -> (TeamAlignment, Position) {
    (TeamAlignment { alignment: team, alignment_base: team }, Position { x, y })
}

fn integration_value(fields: &IntegrationFields, team: TeamValue, cell: SpatialHashCell) -> u64 {
    for (t, f) in fields.fields.iter() {
        if *t == team {
            return spatial_flow::flow::get_spatial_value(&f.values, cell);
        }
    }
    UNREACHED
}

#[test]
fn terrain_lookup_resolves_defaults_and_bounds() {
    let mut t = open_terrain(3, 1);
    assert_eq!(t.get_cell(SpatialHashCell(0, 0)), pathable());
    assert_eq!(t.get_cell(SpatialHashCell(3, 0)), blocked());
    assert_eq!(t.get_cell(SpatialHashCell(-1, 0)), blocked());
    let pricey = TerrainCell { pathable_mask: 1, movement_cost: 9 };
    t.set_tile(SpatialHashCell(1, 0), pricey);
    assert_eq!(t.get_cell(SpatialHashCell(1, 0)), pricey);
    assert_eq!(t.get_cell(SpatialHashCell(2, 0)), pathable());
}

#[test]
fn row_of_three_integrates_toward_the_enemy() {
    let terrain = open_terrain(3, 1);
    let team_a = TeamValue::Team(0);
    let team_b = TeamValue::Team(1);
    let agents = vec![aligned(team_a, 0, 0), aligned(team_b, 2, 0)];
    let (ff, integ) = build_flow_fields(&agents, &terrain, 1);
    assert_eq!(integration_value(&integ, team_a, SpatialHashCell(2, 0)), 0);
    assert_eq!(integration_value(&integ, team_a, SpatialHashCell(1, 0)), 1);
    assert_eq!(integration_value(&integ, team_a, SpatialHashCell(0, 0)), 2);
    // The flow at the far end points straight at the next cell over.
    let v = get_spatial_team_value(
        &ff.map,
        SpatialHashCell(0, 0),
        team_a,
        FlowVector { x: 0, y: 0 },
    );
    assert_eq!(v, FlowVector { x: 1000, y: 0 });
}

#[test]
fn blocked_middle_cell_leaves_the_far_end_unreached() {
    let mut terrain = open_terrain(3, 1);
    terrain.set_tile(SpatialHashCell(1, 0), blocked());
    let team_a = TeamValue::Team(0);
    let team_b = TeamValue::Team(1);
    let agents = vec![aligned(team_a, 0, 0), aligned(team_b, 2, 0)];
    let (ff, integ) = build_flow_fields(&agents, &terrain, 1);
    assert_eq!(integration_value(&integ, team_a, SpatialHashCell(0, 0)), UNREACHED);
    let v = get_spatial_team_value(
        &ff.map,
        SpatialHashCell(0, 0),
        team_a,
        FlowVector { x: 0, y: 0 },
    );
    assert_eq!(v, FlowVector { x: 0, y: 0 });
}

#[test]
fn blocked_corner_is_not_cut_diagonally() {
    // Both orthogonal neighbors of the diagonal are blocked; the diagonal
    // cell itself is pathable but must not be reached through the corner.
    let mut terrain = open_terrain(3, 3);
    terrain.set_tile(SpatialHashCell(1, 0), blocked());
    terrain.set_tile(SpatialHashCell(0, 1), blocked());
    let team_a = TeamValue::Team(0);
    let team_b = TeamValue::Team(1);
    let agents = vec![aligned(team_a, 1, 1), aligned(team_b, 0, 0)];
    let (_, integ) = build_flow_fields(&agents, &terrain, 1);
    assert_eq!(integration_value(&integ, team_a, SpatialHashCell(0, 0)), 0);
    // No path crosses the blocked corner, so the diagonal stays unreached.
    assert_eq!(integration_value(&integ, team_a, SpatialHashCell(1, 1)), UNREACHED);
    assert_eq!(integration_value(&integ, team_a, SpatialHashCell(2, 2)), UNREACHED);
}

#[test]
fn single_blocked_corner_also_forbids_the_diagonal() {
    // Only one orthogonal neighbor of the diagonal is blocked; the rule
    // still refuses the diagonal step, so the cell is reached the long
    // way round at a higher cost.
    let mut terrain = open_terrain(3, 3);
    terrain.set_tile(SpatialHashCell(1, 0), blocked());
    let team_a = TeamValue::Team(0);
    let team_b = TeamValue::Team(1);
    let agents = vec![aligned(team_a, 2, 2), aligned(team_b, 0, 0)];
    let (_, integ) = build_flow_fields(&agents, &terrain, 1);
    assert_eq!(integration_value(&integ, team_a, SpatialHashCell(0, 1)), 1);
    // Two steps through (0, 1) instead of one through the corner.
    assert_eq!(integration_value(&integ, team_a, SpatialHashCell(1, 1)), 2);
}

#[test]
fn fresh_world_populates_on_the_first_tick() {
    let terrain = open_terrain(3, 1);
    let radii = SpatialNeighborsRadii(vec![16]);
    let mut world = SpatialResources::new(36, vec![16]);
    assert!(world.flow_fields.map.is_empty());
    assert!(world.integration.fields.is_empty());
    let team_a = TeamValue::Team(0);
    let team_b = TeamValue::Team(1);
    let alignments = vec![aligned(team_a, 0, 0), aligned(team_b, 2, 0)];
    world.recompute(&Clock(0), 6, 36, &Vec::new(), &alignments, &terrain, &radii, 1);
    assert_eq!(world.flow_fields.map.len(), 2);
    assert_eq!(integration_value(&world.integration, team_a, SpatialHashCell(0, 0)), 2);
}

#[test]
fn diagonal_with_open_corner_is_reached() {
    let terrain = open_terrain(3, 3);
    let team_a = TeamValue::Team(0);
    let team_b = TeamValue::Team(1);
    let agents = vec![aligned(team_a, 2, 2), aligned(team_b, 0, 0)];
    let (_, integ) = build_flow_fields(&agents, &terrain, 1);
    // With open corners the diagonal relaxes directly.
    assert_eq!(integration_value(&integ, team_a, SpatialHashCell(1, 1)), 1);
    assert_eq!(integration_value(&integ, team_a, SpatialHashCell(2, 2)), 2);
}

#[test]
fn neutral_passive_agents_never_seed_goals() {
    let terrain = open_terrain(3, 1);
    let team_a = TeamValue::Team(0);
    let agents = vec![aligned(team_a, 0, 0), aligned(TeamValue::NeutralPassive, 2, 0)];
    let (ff, integ) = build_flow_fields(&agents, &terrain, 1);
    // The passive bystander is no goal: nothing is reached for team A.
    assert_eq!(integration_value(&integ, team_a, SpatialHashCell(2, 0)), UNREACHED);
    let v = get_spatial_team_value(
        &ff.map,
        SpatialHashCell(0, 0),
        team_a,
        FlowVector { x: 0, y: 0 },
    );
    assert_eq!(v, FlowVector { x: 0, y: 0 });
}

#[test]
fn neutral_hostile_agents_do_seed_goals() {
    let terrain = open_terrain(3, 1);
    let team_a = TeamValue::Team(0);
    let agents = vec![aligned(team_a, 0, 0), aligned(TeamValue::NeutralHostile, 2, 0)];
    let (_, integ) = build_flow_fields(&agents, &terrain, 1);
    assert_eq!(integration_value(&integ, team_a, SpatialHashCell(0, 0)), 2);
}

#[test]
fn movement_cost_weights_the_wavefront() {
    let mut terrain = open_terrain(3, 1);
    terrain.set_tile(SpatialHashCell(1, 0), TerrainCell { pathable_mask: 1, movement_cost: 5 });
    let team_a = TeamValue::Team(0);
    let team_b = TeamValue::Team(1);
    let agents = vec![aligned(team_a, 0, 0), aligned(team_b, 2, 0)];
    let (_, integ) = build_flow_fields(&agents, &terrain, 1);
    assert_eq!(integration_value(&integ, team_a, SpatialHashCell(1, 0)), 5);
    assert_eq!(integration_value(&integ, team_a, SpatialHashCell(0, 0)), 6);
}

#[test]
fn stored_flow_vectors_are_unit_or_zero() {
    let mut terrain = open_terrain(5, 5);
    terrain.set_tile(SpatialHashCell(2, 2), blocked());
    let team_a = TeamValue::Team(0);
    let team_b = TeamValue::Team(1);
    let agents = vec![aligned(team_a, 0, 0), aligned(team_b, 4, 4), aligned(team_b, 0, 4)];
    let (ff, _) = build_flow_fields(&agents, &terrain, 1);
    for (_, table) in ff.map.iter() {
        for (_, v) in table.iter() {
            let m = v.x * v.x + v.y * v.y;
            assert!(
                m == 0 || (990000 <= m && m <= 1010000),
                "magnitude out of band: {:?}",
                v
            );
        }
    }
}

#[test]
fn isqrt_rounds_down() {
    assert_eq!(isqrt(0), 0);
    assert_eq!(isqrt(15), 3);
    assert_eq!(isqrt(16), 4);
    assert_eq!(isqrt(u64::MAX), 4294967295);
}

#[test]
fn normalization_is_exact_on_axes() {
    assert_eq!(normalized_or_zero(FlowVector { x: 0, y: 0 }), FlowVector { x: 0, y: 0 });
    assert_eq!(normalized_or_zero(FlowVector { x: -5, y: 0 }), FlowVector { x: -1000, y: 0 });
    assert_eq!(normalized_or_zero(FlowVector { x: 0, y: 7 }), FlowVector { x: 0, y: 1000 });
    let d = normalized_or_zero(FlowVector { x: 3, y: 4 });
    let m = d.x * d.x + d.y * d.y;
    assert!(990000 <= m && m <= 1010000);
    assert!(d.x > 0 && d.y > d.x);
}

#[test]
fn recomputation_follows_the_interval() {
    let terrain = open_terrain(3, 1);
    let team_a = TeamValue::Team(0);
    let team_b = TeamValue::Team(1);
    let radii = SpatialNeighborsRadii(vec![4, 16, 64]);
    let mut world = SpatialResources::new(36, vec![4, 16, 64]);
    let mut observed = Vec::new();
    let mut neighbor_obs = Vec::new();
    for t in 0u64..12 {
        // The enemy stands two cells away before tick 6, one after, so
        // the two snapshots differ; likewise it walks out of scan range.
        let enemy_x = if t < 6 { 2 } else { 1 };
        let wanderer_x = if t < 6 { 5 } else { 200 };
        let agents = vec![
            spatial_flow::spatial_hash::SpatialAgent {
                entity: 1,
                position: Position { x: 0, y: 0 },
                radius: spatial_flow::coords::Radius { r: 0 },
                awareness: Some(spatial_flow::spatial_hash::SpatialAwareness { radius: 10 }),
            },
            spatial_flow::spatial_hash::SpatialAgent {
                entity: 2,
                position: Position { x: wanderer_x, y: 0 },
                radius: spatial_flow::coords::Radius { r: 0 },
                awareness: None,
            },
        ];
        let alignments = vec![aligned(team_a, 0, 0), aligned(team_b, enemy_x, 0)];
        world.recompute(&Clock(t), 6, 36, &agents, &alignments, &terrain, &radii, 1);
        observed.push(integration_value(&world.integration, team_a, SpatialHashCell(0, 0)));
        neighbor_obs.push(world.neighbors.get_neighbors(1, 10));
    }
    // Exactly two snapshots: ticks 0-5 see the tick-0 state, ticks 6-11
    // the tick-6 state.
    for t in 0..6 {
        assert_eq!(observed[t], 2);
        assert_eq!(neighbor_obs[t], Some(vec![2]));
    }
    for t in 6..12 {
        assert_eq!(observed[t], 1);
        assert_eq!(neighbor_obs[t], None);
    }
}
