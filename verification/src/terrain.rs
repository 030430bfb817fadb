//! Static terrain configuration: per-cell pathability and movement cost,
//! with distinct default and out-of-bounds cells.

use std::collections::HashMap;

use crate::coords::{cell_key, cell_key_spec, lemma_cell_key_injective, SpatialHashCell,
    AGENT_LIMIT, COORD_LIMIT};
use vstd::prelude::*;

verus! {

/// One tile of terrain. A zero `pathable_mask` means impassable; the
/// movement cost (fixed-point units) is added to the integration value per
/// traversal of the tile.
#[derive(Debug, Clone, Copy, Default, PartialEq, Eq, Structural)]
pub struct TerrainCell {
    pub pathable_mask: usize,
    pub movement_cost: u64,
}

/// Whether the tile can be traversed at all.
pub open spec fn pathable_spec(c: TerrainCell) -> bool {
    c.pathable_mask != 0
}

/// Sparse tile map over `[0, max_bounds)` in both axes. Lookups outside
/// the bounds yield `out_of_bounds_cell`; lookups inside the bounds but
/// absent from the map yield `default_cell`.
#[derive(Debug, Clone)]
pub struct TerrainMap {
    pub map: HashMap<u64, TerrainCell>,
    pub max_bounds: SpatialHashCell,
    pub default_cell: TerrainCell,
    pub out_of_bounds_cell: TerrainCell,
    pub cell_size: i64,
}

impl TerrainMap {
    /// Structural bounds every user of the map relies on.
    pub open spec fn wf(self) -> bool {
        &&& 0 <= self.max_bounds.0 <= COORD_LIMIT
        &&& 0 <= self.max_bounds.1 <= COORD_LIMIT
        &&& 1 <= self.cell_size <= AGENT_LIMIT
    }

    /// The terrain cell governing a coordinate, resolving out-of-bounds
    /// and absent tiles to the configured sentinels.
    pub open spec fn cell_at(self, coords: SpatialHashCell) -> TerrainCell {
        if coords.0 < 0 || coords.1 < 0 || coords.0 >= self.max_bounds.0 || coords.1
            >= self.max_bounds.1 {
            self.out_of_bounds_cell
        } else if self.map@.contains_key(cell_key_spec(coords)) {
            self.map@[cell_key_spec(coords)]
        } else {
            self.default_cell
        }
    }

    /// Creates an empty terrain map; every in-bounds lookup resolves to
    /// the default cell.
    pub fn new(
        max_bounds: SpatialHashCell,
        default_cell: TerrainCell,
        out_of_bounds_cell: TerrainCell,
        cell_size: i64,
    ) -> (t: TerrainMap)
        requires
            0 <= max_bounds.0 <= COORD_LIMIT,
            0 <= max_bounds.1 <= COORD_LIMIT,
            1 <= cell_size <= AGENT_LIMIT,
        ensures
            t.wf(),
            t.max_bounds == max_bounds,
            t.default_cell == default_cell,
            t.out_of_bounds_cell == out_of_bounds_cell,
            t.cell_size == cell_size,
            forall|c: SpatialHashCell| #[trigger] t.cell_at(c) == if c.0 < 0 || c.1 < 0 || c.0
                >= max_bounds.0 || c.1 >= max_bounds.1 {
                out_of_bounds_cell
            } else {
                default_cell
            },
    {
        TerrainMap {
            map: HashMap::new(),
            max_bounds,
            default_cell,
            out_of_bounds_cell,
            cell_size,
        }
    }

    /// Assigns one tile. Only the addressed coordinate changes its
    /// resolved terrain cell.
    pub fn set_tile(&mut self, coords: SpatialHashCell, cell: TerrainCell)
        ensures
            final(self).wf() == old(self).wf(),
            final(self).max_bounds == old(self).max_bounds,
            final(self).default_cell == old(self).default_cell,
            final(self).out_of_bounds_cell == old(self).out_of_bounds_cell,
            final(self).cell_size == old(self).cell_size,
            forall|c: SpatialHashCell| c != coords ==> #[trigger] final(self).cell_at(c) == old(
                self,
            ).cell_at(c),
            (0 <= coords.0 < old(self).max_bounds.0 && 0 <= coords.1 < old(self).max_bounds.1)
                ==> final(self).cell_at(coords) == cell,
    {
        let k = cell_key(coords);
        self.map.insert(k, cell);
        proof {
            assert forall|c: SpatialHashCell| c != coords implies #[trigger] final(self).cell_at(c)
                == old(self).cell_at(c) by {
                if cell_key_spec(c) == cell_key_spec(coords) {
                    lemma_cell_key_injective(c, coords);
                }
            }
        }
    }

    /// Resolved lookup matching `cell_at`.
    pub fn get_cell(&self, coords: SpatialHashCell) -> (c: TerrainCell)
        ensures
            c == self.cell_at(coords),
    {
        if coords.0 < 0 || coords.1 < 0 || coords.0 >= self.max_bounds.0 || coords.1
            >= self.max_bounds.1 {
            return self.out_of_bounds_cell;
        }
        match self.map.get(&cell_key(coords)) {
            Some(terrain_cell) => *terrain_cell,
            None => self.default_cell,
        }
    }
}

} // verus!
