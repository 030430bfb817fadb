//! Snapshot owner and recomputation cadence: one current snapshot per
//! spatial structure, replaced wholesale on rebuild ticks. The spatial
//! hash table is rebuilt every tick; the neighbor cache and the flow
//! fields only on ticks divisible by the recomputation interval, so
//! consumers read the previous cycle's snapshot in between.

use crate::coords::{Position, AGENT_LIMIT};
use crate::flow::{build_flow_fields, flow_fields_model, FlowFieldsTowardsEnemies,
    IntegrationFields};
use crate::neighbors::{build_spatial_neighbors_cache, cache_models, radii_wf,
    SpatialNeighborsCache, SpatialNeighborsRadii};
use crate::spatial_hash::{agents_wf, build_spatial_hash_table, distinct_entities, table_models,
    SpatialAgent, SpatialHashTable};
use crate::team::TeamAlignment;
use crate::terrain::TerrainMap;
use crate::Clock;
use std::collections::HashMap;
use vstd::prelude::*;

verus! {

/// The current snapshot of every spatial structure. Readers within a
/// tick borrow these; a rebuild replaces them by assignment, never by
/// mutation in place.
#[derive(Debug)]
pub struct SpatialResources {
    pub spatial_table: SpatialHashTable,
    pub neighbors: SpatialNeighborsCache,
    pub flow_fields: FlowFieldsTowardsEnemies,
    pub integration: IntegrationFields,
}

impl SpatialResources {
    /// Empty snapshots, before the first recomputation.
    pub fn new(cell_size: i64, radii: Vec<i64>) -> (w: SpatialResources)
        ensures
            w.spatial_table.cell_size == cell_size,
            w.spatial_table.table@ == Map::<u64, Vec<u64>>::empty(),
            w.neighbors.radii@ == radii@,
            w.flow_fields.map@.len() == 0,
            w.integration.fields@.len() == 0,
    {
        SpatialResources {
            spatial_table: SpatialHashTable { table: HashMap::new(), cell_size },
            neighbors: SpatialNeighborsCache::new(radii),
            flow_fields: FlowFieldsTowardsEnemies { map: Vec::new(), cell_size },
            integration: IntegrationFields { fields: Vec::new() },
        }
    }

    /// One tick's rebuild step. The spatial hash table is rebuilt from
    /// the snapshot unconditionally; the neighbor cache and the flow
    /// fields are rebuilt only when the tick counter is divisible by the
    /// interval, and otherwise stay exactly the previous snapshots.
    pub fn recompute(
        &mut self,
        clock: &Clock,
        interval: u64,
        spatial_cell_size: i64,
        agents: &Vec<SpatialAgent>,
        aligned: &Vec<(TeamAlignment, Position)>,
        terrain: &TerrainMap,
        radii: &SpatialNeighborsRadii,
        max_convolution_length: i32,
    )
        requires
            1 <= interval,
            1 <= spatial_cell_size <= AGENT_LIMIT,
            agents_wf(agents@),
            distinct_entities(agents@),
            radii_wf(radii.0@),
            terrain.wf(),
            1 <= max_convolution_length <= 64,
            forall|k: int|
                0 <= k < aligned@.len() ==> -AGENT_LIMIT <= (#[trigger] aligned@[k]).1.x
                    <= AGENT_LIMIT && -AGENT_LIMIT <= aligned@[k].1.y <= AGENT_LIMIT,
        ensures
            final(self).spatial_table.cell_size == spatial_cell_size,
            table_models(final(self).spatial_table.table@, agents@, spatial_cell_size as int),
            clock.0 % interval != 0 ==> final(self).neighbors == old(self).neighbors && final(self).flow_fields == old(self).flow_fields && final(self).integration == old(self).integration,
            clock.0 % interval == 0 ==> final(self).neighbors.radii@ == radii.0@ && cache_models(
                final(self).neighbors,
                agents@,
                spatial_cell_size as int,
            ) && final(self).flow_fields.cell_size == terrain.cell_size && flow_fields_model(
                final(self).flow_fields,
                final(self).integration,
                aligned@,
                *terrain,
            ),
    {
        self.spatial_table = build_spatial_hash_table(agents, spatial_cell_size);
        if clock.0 % interval == 0 {
            self.neighbors = build_spatial_neighbors_cache(agents, radii, &self.spatial_table);
            let (ff, integ) = build_flow_fields(aligned, terrain, max_convolution_length);
            self.flow_fields = ff;
            self.integration = integ;
        }
    }
}

} // verus!
