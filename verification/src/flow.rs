//! Flow field engine: per faction, a wavefront integration field over the
//! terrain grid (cost to the nearest enemy-occupied cell) and the
//! unit-vector flow field derived from it.

use std::collections::HashMap;

use crate::coords::{cell_key, cell_key_spec, diag_neighbor_ok, get_convolution_neighbor_cells_increment,
    get_diagonal_neighbor_cells, get_orthognal_neighbor_cells, lemma_cell_key_injective,
    orth_neighbor_ok, cell_of_point_spec, Position, SpatialHashCell, COORD_LIMIT};
use crate::team::{seeds_as_goal, seeds_as_goal_spec, TeamAlignment, TeamValue};
use crate::terrain::{pathable_spec, TerrainMap};
use crate::vecmath::{mag_sq, normalized_or_zero, unit_or_zero, FlowVector, FLOW_MAG_SQ_MIN};
use vstd::prelude::*;

verus! {

/// Sentinel integration value for cells the wavefront never reached (or
/// marked impassable).
pub const UNREACHED: u64 = 0xffff_ffff_ffff_ffff;

/// The integration value a cell map assigns to a coordinate, with the
/// sentinel for absent cells.
pub open spec fn value_at(m: Map<u64, u64>, c: SpatialHashCell) -> int {
    if m.contains_key(cell_key_spec(c)) {
        m[cell_key_spec(c)] as int
    } else {
        UNREACHED as int
    }
}

/// Per-faction integration field: the minimum accumulated movement cost
/// to the nearest goal cell, with `UNREACHED` for blocked or unreached
/// cells. `cells` lists exactly the coordinates the propagation touched.
#[derive(Debug)]
pub struct IntegrationField {
    pub values: HashMap<u64, u64>,
    pub cells: Vec<SpatialHashCell>,
}

/// An orthogonal wavefront step: the target is an enumerated orthogonal
/// neighbor and pathable.
pub open spec fn orth_step_ok(t: TerrainMap, from: SpatialHashCell, to: SpatialHashCell) -> bool {
    &&& orth_neighbor_ok(from, t.max_bounds, to)
    &&& pathable_spec(t.cell_at(to))
}

/// A diagonal wavefront step: the target is an enumerated diagonal
/// neighbor, pathable, and neither orthogonal cell sharing one of its
/// axes is an impassable enumerated neighbor (corner-cutting rule).
pub open spec fn diag_step_ok(t: TerrainMap, from: SpatialHashCell, to: SpatialHashCell) -> bool {
    &&& diag_neighbor_ok(from, t.max_bounds, to)
    &&& pathable_spec(t.cell_at(to))
    &&& !(orth_neighbor_ok(from, t.max_bounds, SpatialHashCell(to.0, from.1)) && !pathable_spec(
        t.cell_at(SpatialHashCell(to.0, from.1)),
    ))
    &&& !(orth_neighbor_ok(from, t.max_bounds, SpatialHashCell(from.0, to.1)) && !pathable_spec(
        t.cell_at(SpatialHashCell(from.0, to.1)),
    ))
}

/// Any admissible wavefront step.
pub open spec fn step_ok(t: TerrainMap, from: SpatialHashCell, to: SpatialHashCell) -> bool {
    orth_step_ok(t, from, to) || diag_step_ok(t, from, to)
}

/// The cost a step into `to` adds to the integration value.
pub open spec fn step_cost(t: TerrainMap, to: SpatialHashCell) -> int {
    t.cell_at(to).movement_cost as int
}


/// The potential one cell contributes to the termination measure: its
/// integration value if pathable (absent cells count the sentinel),
/// nothing if impassable.
spec fn cell_potential(t: TerrainMap, m: Map<u64, u64>, c: SpatialHashCell) -> int {
    if pathable_spec(t.cell_at(c)) {
        value_at(m, c)
    } else {
        0
    }
}

/// Sum of potentials along a row segment `[x0, x1) x {y}`.
spec fn row_potential(t: TerrainMap, m: Map<u64, u64>, y: int, x0: int, x1: int) -> int
    decreases x1 - x0,
{
    if x1 <= x0 {
        0
    } else {
        cell_potential(t, m, SpatialHashCell(x0 as i32, y as i32)) + row_potential(
            t,
            m,
            y,
            x0 + 1,
            x1,
        )
    }
}

/// Sum of potentials along a column segment `{x} x [y0, y1)`.
spec fn col_potential(t: TerrainMap, m: Map<u64, u64>, x: int, y0: int, y1: int) -> int
    decreases y1 - y0,
{
    if y1 <= y0 {
        0
    } else {
        cell_potential(t, m, SpatialHashCell(x as i32, y0 as i32)) + col_potential(
            t,
            m,
            x,
            y0 + 1,
            y1,
        )
    }
}

/// Sum of potentials over the rectangle `[x0, x1) x [y0, y1)`.
spec fn window_potential(t: TerrainMap, m: Map<u64, u64>, y0: int, y1: int, x0: int, x1: int) -> int
    decreases y1 - y0,
{
    if y1 <= y0 {
        0
    } else {
        row_potential(t, m, y0, x0, x1) + window_potential(t, m, y0 + 1, y1, x0, x1)
    }
}

/// Potential of the row strip, column strip and cell of one seed.
spec fn seed_cross_potential(t: TerrainMap, m: Map<u64, u64>, s: SpatialHashCell) -> int {
    row_potential(t, m, s.1 as int, -1, t.max_bounds.0 + 1) + col_potential(
        t,
        m,
        s.0 as int,
        -1,
        t.max_bounds.1 + 1,
    ) + cell_potential(t, m, s)
}

/// Sum of the cross potentials of the first `k` seeds.
spec fn seeds_potential(t: TerrainMap, m: Map<u64, u64>, seeds: Seq<SpatialHashCell>, k: int) -> int
    decreases k,
{
    if k <= 0 {
        0
    } else {
        seed_cross_potential(t, m, seeds[k - 1]) + seeds_potential(t, m, seeds, k - 1)
    }
}

/// The full termination measure: the window one cell beyond the bounds,
/// plus the row and column strips through every seed. Every cell the
/// wavefront can touch lies in at least one of these pieces, and a
/// relaxation strictly lowers each piece containing its target.
spec fn wave_potential(t: TerrainMap, m: Map<u64, u64>, seeds: Seq<SpatialHashCell>) -> int {
    window_potential(t, m, -1, t.max_bounds.1 + 1, -1, t.max_bounds.0 + 1) + seeds_potential(
        t,
        m,
        seeds,
        seeds.len() as int,
    )
}

/// Cells the wavefront can reach: the window, a seed, or a seed's row or
/// column strip.
spec fn in_wave_region(t: TerrainMap, seeds: Seq<SpatialHashCell>, c: SpatialHashCell) -> bool {
    ||| (-1 <= c.0 <= t.max_bounds.0 && -1 <= c.1 <= t.max_bounds.1)
    ||| exists|i: int| 0 <= i < seeds.len() && #[trigger] seeds[i] == c
    ||| exists|i: int|
        0 <= i < seeds.len() && (#[trigger] seeds[i]).1 == c.1 && -1 <= c.0 <= t.max_bounds.0
    ||| exists|i: int|
        0 <= i < seeds.len() && (#[trigger] seeds[i]).0 == c.0 && -1 <= c.1 <= t.max_bounds.1
}

/// The wavefront region is closed under enumerated neighbor steps.
proof fn lemma_region_closed(
    t: TerrainMap,
    seeds: Seq<SpatialHashCell>,
    node: SpatialHashCell,
    nb: SpatialHashCell,
)
    requires
        in_wave_region(t, seeds, node),
        orth_neighbor_ok(node, t.max_bounds, nb) || diag_neighbor_ok(node, t.max_bounds, nb),
    ensures
        in_wave_region(t, seeds, nb),
{
    if diag_neighbor_ok(node, t.max_bounds, nb) {
    } else if -1 <= node.0 <= t.max_bounds.0 && -1 <= node.1 <= t.max_bounds.1 {
    } else {
        if exists|i: int| 0 <= i < seeds.len() && #[trigger] seeds[i] == node {
            let i = choose|i: int| 0 <= i < seeds.len() && #[trigger] seeds[i] == node;
            if nb.1 == node.1 {
                assert(seeds[i].1 == nb.1 && -1 <= nb.0 <= t.max_bounds.0);
            } else {
                assert(seeds[i].0 == nb.0 && -1 <= nb.1 <= t.max_bounds.1);
            }
        } else if exists|i: int|
            0 <= i < seeds.len() && (#[trigger] seeds[i]).1 == node.1 && -1 <= node.0
                <= t.max_bounds.0 {
            let i = choose|i: int|
                0 <= i < seeds.len() && (#[trigger] seeds[i]).1 == node.1 && -1 <= node.0
                    <= t.max_bounds.0;
            if nb.1 == node.1 {
                assert(seeds[i].1 == nb.1 && -1 <= nb.0 <= t.max_bounds.0);
            } else {
                assert(-1 <= nb.0 <= t.max_bounds.0 && -1 <= nb.1 <= t.max_bounds.1);
            }
        } else {
            let i = choose|i: int|
                0 <= i < seeds.len() && (#[trigger] seeds[i]).0 == node.0 && -1 <= node.1
                    <= t.max_bounds.1;
            if nb.0 == node.0 {
                assert(seeds[i].0 == nb.0 && -1 <= nb.1 <= t.max_bounds.1);
            } else {
                assert(-1 <= nb.0 <= t.max_bounds.0 && -1 <= nb.1 <= t.max_bounds.1);
            }
        }
    }
}


/// Nonnegativity of the measure pieces.
proof fn lemma_row_nonneg(t: TerrainMap, m: Map<u64, u64>, y: int, x0: int, x1: int)
    ensures
        0 <= row_potential(t, m, y, x0, x1),
    decreases x1 - x0,
{
    if x1 > x0 {
        lemma_row_nonneg(t, m, y, x0 + 1, x1);
    }
}

proof fn lemma_col_nonneg(t: TerrainMap, m: Map<u64, u64>, x: int, y0: int, y1: int)
    ensures
        0 <= col_potential(t, m, x, y0, y1),
    decreases y1 - y0,
{
    if y1 > y0 {
        lemma_col_nonneg(t, m, x, y0 + 1, y1);
    }
}

proof fn lemma_window_nonneg(t: TerrainMap, m: Map<u64, u64>, y0: int, y1: int, x0: int, x1: int)
    ensures
        0 <= window_potential(t, m, y0, y1, x0, x1),
    decreases y1 - y0,
{
    if y1 > y0 {
        lemma_row_nonneg(t, m, y0, x0, x1);
        lemma_window_nonneg(t, m, y0 + 1, y1, x0, x1);
    }
}

proof fn lemma_seeds_nonneg(t: TerrainMap, m: Map<u64, u64>, seeds: Seq<SpatialHashCell>, k: int)
    ensures
        0 <= seeds_potential(t, m, seeds, k),
    decreases k,
{
    if k > 0 {
        lemma_row_nonneg(t, m, seeds[k - 1].1 as int, -1, t.max_bounds.0 + 1);
        lemma_col_nonneg(t, m, seeds[k - 1].0 as int, -1, t.max_bounds.1 + 1);
        lemma_seeds_nonneg(t, m, seeds, k - 1);
    }
}

proof fn lemma_wave_nonneg(t: TerrainMap, m: Map<u64, u64>, seeds: Seq<SpatialHashCell>)
    ensures
        0 <= wave_potential(t, m, seeds),
{
    lemma_window_nonneg(t, m, -1, t.max_bounds.1 + 1, -1, t.max_bounds.0 + 1);
    lemma_seeds_nonneg(t, m, seeds, seeds.len() as int);
}

/// Pointwise-dominated potentials sum to no more.
proof fn lemma_row_mono(
    t: TerrainMap,
    m1: Map<u64, u64>,
    m2: Map<u64, u64>,
    y: int,
    x0: int,
    x1: int,
)
    requires
        forall|c: SpatialHashCell| #[trigger] cell_potential(t, m2, c) <= cell_potential(t, m1, c),
    ensures
        row_potential(t, m2, y, x0, x1) <= row_potential(t, m1, y, x0, x1),
    decreases x1 - x0,
{
    if x1 > x0 {
        lemma_row_mono(t, m1, m2, y, x0 + 1, x1);
    }
}

proof fn lemma_col_mono(
    t: TerrainMap,
    m1: Map<u64, u64>,
    m2: Map<u64, u64>,
    x: int,
    y0: int,
    y1: int,
)
    requires
        forall|c: SpatialHashCell| #[trigger] cell_potential(t, m2, c) <= cell_potential(t, m1, c),
    ensures
        col_potential(t, m2, x, y0, y1) <= col_potential(t, m1, x, y0, y1),
    decreases y1 - y0,
{
    if y1 > y0 {
        lemma_col_mono(t, m1, m2, x, y0 + 1, y1);
    }
}

proof fn lemma_window_mono(
    t: TerrainMap,
    m1: Map<u64, u64>,
    m2: Map<u64, u64>,
    y0: int,
    y1: int,
    x0: int,
    x1: int,
)
    requires
        forall|c: SpatialHashCell| #[trigger] cell_potential(t, m2, c) <= cell_potential(t, m1, c),
    ensures
        window_potential(t, m2, y0, y1, x0, x1) <= window_potential(t, m1, y0, y1, x0, x1),
    decreases y1 - y0,
{
    if y1 > y0 {
        lemma_row_mono(t, m1, m2, y0, x0, x1);
        lemma_window_mono(t, m1, m2, y0 + 1, y1, x0, x1);
    }
}

proof fn lemma_seeds_mono(
    t: TerrainMap,
    m1: Map<u64, u64>,
    m2: Map<u64, u64>,
    seeds: Seq<SpatialHashCell>,
    k: int,
)
    requires
        forall|c: SpatialHashCell| #[trigger] cell_potential(t, m2, c) <= cell_potential(t, m1, c),
    ensures
        seeds_potential(t, m2, seeds, k) <= seeds_potential(t, m1, seeds, k),
    decreases k,
{
    if k > 0 {
        lemma_row_mono(t, m1, m2, seeds[k - 1].1 as int, -1, t.max_bounds.0 + 1);
        lemma_col_mono(t, m1, m2, seeds[k - 1].0 as int, -1, t.max_bounds.1 + 1);
        lemma_seeds_mono(t, m1, m2, seeds, k - 1);
    }
}

proof fn lemma_wave_mono(
    t: TerrainMap,
    m1: Map<u64, u64>,
    m2: Map<u64, u64>,
    seeds: Seq<SpatialHashCell>,
)
    requires
        forall|c: SpatialHashCell| #[trigger] cell_potential(t, m2, c) <= cell_potential(t, m1, c),
    ensures
        wave_potential(t, m2, seeds) <= wave_potential(t, m1, seeds),
{
    lemma_window_mono(t, m1, m2, -1, t.max_bounds.1 + 1, -1, t.max_bounds.0 + 1);
    lemma_seeds_mono(t, m1, m2, seeds, seeds.len() as int);
}

/// A strict drop at one cell of a row drops the row sum.
proof fn lemma_row_strict(
    t: TerrainMap,
    m1: Map<u64, u64>,
    m2: Map<u64, u64>,
    y: int,
    x0: int,
    x1: int,
    xw: int,
)
    requires
        forall|c: SpatialHashCell| #[trigger] cell_potential(t, m2, c) <= cell_potential(t, m1, c),
        x0 <= xw < x1,
        -0x8000_0000 <= xw < 0x8000_0000,
        -0x8000_0000 <= y < 0x8000_0000,
        cell_potential(t, m2, SpatialHashCell(xw as i32, y as i32)) <= cell_potential(
            t,
            m1,
            SpatialHashCell(xw as i32, y as i32),
        ) - 1,
    ensures
        row_potential(t, m2, y, x0, x1) <= row_potential(t, m1, y, x0, x1) - 1,
    decreases x1 - x0,
{
    if x0 == xw {
        lemma_row_mono(t, m1, m2, y, x0 + 1, x1);
    } else {
        lemma_row_strict(t, m1, m2, y, x0 + 1, x1, xw);
    }
}

proof fn lemma_col_strict(
    t: TerrainMap,
    m1: Map<u64, u64>,
    m2: Map<u64, u64>,
    x: int,
    y0: int,
    y1: int,
    yw: int,
)
    requires
        forall|c: SpatialHashCell| #[trigger] cell_potential(t, m2, c) <= cell_potential(t, m1, c),
        y0 <= yw < y1,
        -0x8000_0000 <= x < 0x8000_0000,
        -0x8000_0000 <= yw < 0x8000_0000,
        cell_potential(t, m2, SpatialHashCell(x as i32, yw as i32)) <= cell_potential(
            t,
            m1,
            SpatialHashCell(x as i32, yw as i32),
        ) - 1,
    ensures
        col_potential(t, m2, x, y0, y1) <= col_potential(t, m1, x, y0, y1) - 1,
    decreases y1 - y0,
{
    if y0 == yw {
        lemma_col_mono(t, m1, m2, x, y0 + 1, y1);
    } else {
        lemma_col_strict(t, m1, m2, x, y0 + 1, y1, yw);
    }
}

proof fn lemma_window_strict(
    t: TerrainMap,
    m1: Map<u64, u64>,
    m2: Map<u64, u64>,
    y0: int,
    y1: int,
    x0: int,
    x1: int,
    xw: int,
    yw: int,
)
    requires
        forall|c: SpatialHashCell| #[trigger] cell_potential(t, m2, c) <= cell_potential(t, m1, c),
        y0 <= yw < y1,
        x0 <= xw < x1,
        -0x8000_0000 <= xw < 0x8000_0000,
        -0x8000_0000 <= yw < 0x8000_0000,
        cell_potential(t, m2, SpatialHashCell(xw as i32, yw as i32)) <= cell_potential(
            t,
            m1,
            SpatialHashCell(xw as i32, yw as i32),
        ) - 1,
    ensures
        window_potential(t, m2, y0, y1, x0, x1) <= window_potential(t, m1, y0, y1, x0, x1) - 1,
    decreases y1 - y0,
{
    if y0 == yw {
        lemma_row_strict(t, m1, m2, y0, x0, x1, xw);
        lemma_window_mono(t, m1, m2, y0 + 1, y1, x0, x1);
    } else {
        lemma_row_mono(t, m1, m2, y0, x0, x1);
        lemma_window_strict(t, m1, m2, y0 + 1, y1, x0, x1, xw, yw);
    }
}

proof fn lemma_seeds_strict(
    t: TerrainMap,
    m1: Map<u64, u64>,
    m2: Map<u64, u64>,
    seeds: Seq<SpatialHashCell>,
    k: int,
    iw: int,
)
    requires
        forall|c: SpatialHashCell| #[trigger] cell_potential(t, m2, c) <= cell_potential(t, m1, c),
        0 <= iw < k <= seeds.len(),
        seed_cross_potential(t, m2, seeds[iw]) <= seed_cross_potential(t, m1, seeds[iw]) - 1,
    ensures
        seeds_potential(t, m2, seeds, k) <= seeds_potential(t, m1, seeds, k) - 1,
    decreases k,
{
    if k - 1 == iw {
        lemma_seeds_mono(t, m1, m2, seeds, k - 1);
    } else {
        lemma_row_mono(t, m1, m2, seeds[k - 1].1 as int, -1, t.max_bounds.0 + 1);
        lemma_col_mono(t, m1, m2, seeds[k - 1].0 as int, -1, t.max_bounds.1 + 1);
        lemma_seeds_strict(t, m1, m2, seeds, k - 1, iw);
    }
}

/// A strict potential drop at any cell of the wavefront region drops the
/// whole measure.
proof fn lemma_wave_strict(
    t: TerrainMap,
    m1: Map<u64, u64>,
    m2: Map<u64, u64>,
    seeds: Seq<SpatialHashCell>,
    ch: SpatialHashCell,
)
    requires
        t.wf(),
        forall|c: SpatialHashCell| #[trigger] cell_potential(t, m2, c) <= cell_potential(t, m1, c),
        cell_potential(t, m2, ch) <= cell_potential(t, m1, ch) - 1,
        in_wave_region(t, seeds, ch),
    ensures
        wave_potential(t, m2, seeds) <= wave_potential(t, m1, seeds) - 1,
{
    assert(ch == SpatialHashCell(ch.0, ch.1));
    if -1 <= ch.0 <= t.max_bounds.0 && -1 <= ch.1 <= t.max_bounds.1 {
        lemma_window_strict(
            t,
            m1,
            m2,
            -1,
            t.max_bounds.1 + 1,
            -1,
            t.max_bounds.0 + 1,
            ch.0 as int,
            ch.1 as int,
        );
        lemma_seeds_mono(t, m1, m2, seeds, seeds.len() as int);
    } else {
        lemma_window_mono(t, m1, m2, -1, t.max_bounds.1 + 1, -1, t.max_bounds.0 + 1);
        if exists|i: int| 0 <= i < seeds.len() && #[trigger] seeds[i] == ch {
            let i = choose|i: int| 0 <= i < seeds.len() && #[trigger] seeds[i] == ch;
            lemma_row_mono(t, m1, m2, seeds[i].1 as int, -1, t.max_bounds.0 + 1);
            lemma_col_mono(t, m1, m2, seeds[i].0 as int, -1, t.max_bounds.1 + 1);
            lemma_seeds_strict(t, m1, m2, seeds, seeds.len() as int, i);
        } else if exists|i: int|
            0 <= i < seeds.len() && (#[trigger] seeds[i]).1 == ch.1 && -1 <= ch.0
                <= t.max_bounds.0 {
            let i = choose|i: int|
                0 <= i < seeds.len() && (#[trigger] seeds[i]).1 == ch.1 && -1 <= ch.0
                    <= t.max_bounds.0;
            lemma_row_strict(
                t,
                m1,
                m2,
                seeds[i].1 as int,
                -1,
                t.max_bounds.0 + 1,
                ch.0 as int,
            );
            lemma_col_mono(t, m1, m2, seeds[i].0 as int, -1, t.max_bounds.1 + 1);
            lemma_seeds_strict(t, m1, m2, seeds, seeds.len() as int, i);
        } else {
            let i = choose|i: int|
                0 <= i < seeds.len() && (#[trigger] seeds[i]).0 == ch.0 && -1 <= ch.1
                    <= t.max_bounds.1;
            lemma_row_mono(t, m1, m2, seeds[i].1 as int, -1, t.max_bounds.0 + 1);
            lemma_col_strict(
                t,
                m1,
                m2,
                seeds[i].0 as int,
                -1,
                t.max_bounds.1 + 1,
                ch.1 as int,
            );
            lemma_seeds_strict(t, m1, m2, seeds, seeds.len() as int, i);
        }
    }
}

/// Whether `c` still waits in the open queue at or after `head`.
pub open spec fn pending(q: Seq<SpatialHashCell>, head: int, c: SpatialHashCell) -> bool {
    exists|i: int| head <= i < q.len() && q[i] == c
}

/// A nonempty cell sequence whose consecutive cells are admissible
/// wavefront steps.
pub open spec fn steps_ok(t: TerrainMap, p: Seq<SpatialHashCell>) -> bool {
    &&& p.len() >= 1
    &&& forall|i: int| 0 <= i < p.len() - 1 ==> step_ok(t, #[trigger] p[i], p[i + 1])
}

/// The accumulated movement cost of walking a path: the cost of every
/// cell entered after the first.
pub open spec fn path_cost(t: TerrainMap, p: Seq<SpatialHashCell>) -> int
    decreases p.len(),
{
    if p.len() <= 1 {
        0
    } else {
        path_cost(t, p.drop_last()) + step_cost(t, p[p.len() - 1])
    }
}

/// Extending a path by one admissible step keeps it valid and adds the
/// stepped-into cell's cost.
pub proof fn lemma_path_extend(t: TerrainMap, p: Seq<SpatialHashCell>, c: SpatialHashCell)
    requires
        steps_ok(t, p),
        step_ok(t, p[p.len() - 1], c),
    ensures
        steps_ok(t, p.push(c)),
        p.push(c)[p.push(c).len() - 1] == c,
        path_cost(t, p.push(c)) == path_cost(t, p) + step_cost(t, c),
{
    let q = p.push(c);
    assert(q.drop_last() =~= p);
    assert forall|i: int| 0 <= i < q.len() - 1 implies step_ok(t, #[trigger] q[i], q[i + 1]) by {
        if i < p.len() - 1 {
            assert(q[i] == p[i] && q[i + 1] == p[i + 1]);
        } else {
            assert(q[i] == p[p.len() - 1] && q[i + 1] == c);
        }
    }
}

/// Every finite value in the map is witnessed by an admissible path of
/// exactly that cost starting on a seed cell.
pub open spec fn values_witnessed(
    t: TerrainMap,
    seeds: Seq<SpatialHashCell>,
    m: Map<u64, u64>,
) -> bool {
    forall|c: SpatialHashCell|
        value_at(m, c) < UNREACHED ==> exists|p: Seq<SpatialHashCell>|
            #[trigger] steps_ok(t, p) && seeds.contains(p[0]) && p[p.len() - 1] == c && path_cost(
                t,
                p,
            ) == value_at(m, c)
}

/// A one-cell change preserves the witnesses: untouched cells reuse
/// their old path, and the changed cell (when still finite) is handed a
/// fresh one.
proof fn lemma_witness_update(
    t: TerrainMap,
    seeds: Seq<SpatialHashCell>,
    m0: Map<u64, u64>,
    m1: Map<u64, u64>,
    ch: SpatialHashCell,
    w: Seq<SpatialHashCell>,
)
    requires
        values_witnessed(t, seeds, m0),
        forall|c: SpatialHashCell| c != ch ==> value_at(m1, c) == value_at(m0, c),
        value_at(m1, ch) < UNREACHED ==> steps_ok(t, w) && seeds.contains(w[0]) && w[w.len() - 1]
            == ch && path_cost(t, w) == value_at(m1, ch),
    ensures
        values_witnessed(t, seeds, m1),
{
    assert forall|c: SpatialHashCell| value_at(m1, c) < UNREACHED implies exists|
        p: Seq<SpatialHashCell>,
    |
        #[trigger] steps_ok(t, p) && seeds.contains(p[0]) && p[p.len() - 1] == c && path_cost(t, p)
            == value_at(m1, c) by {
        if c == ch {
            assert(steps_ok(t, w) && seeds.contains(w[0]) && w[w.len() - 1] == c && path_cost(t, w)
                == value_at(m1, c));
        } else {
            assert(value_at(m0, c) < UNREACHED);
            let p = choose|p: Seq<SpatialHashCell>|
                #[trigger] steps_ok(t, p) && seeds.contains(p[0]) && p[p.len() - 1] == c
                    && path_cost(t, p) == value_at(m0, c);
            assert(steps_ok(t, p) && seeds.contains(p[0]) && p[p.len() - 1] == c && path_cost(t, p)
                == value_at(m1, c));
        }
    }
}

/// On convergence no admissible path can beat a stored value: walking any
/// valid path from a zero-valued pathable start cell costs at least the
/// value recorded at its end. Together with the path witnesses this makes
/// every finite integration value the minimum accumulated movement cost.
pub proof fn lemma_no_cheaper_path(t: TerrainMap, m: Map<u64, u64>, p: Seq<SpatialHashCell>)
    requires
        forall|c1: SpatialHashCell, c2: SpatialHashCell|
            value_at(m, c1) < UNREACHED && #[trigger] step_ok(t, c1, c2) ==> value_at(m, c2)
                <= value_at(m, c1) + step_cost(t, c2),
        steps_ok(t, p),
        value_at(m, p[0]) == 0,
    ensures
        value_at(m, p[p.len() - 1]) <= path_cost(t, p),
    decreases p.len(),
{
    if p.len() > 1 {
        let q = p.drop_last();
        assert(q[0] == p[0]);
        assert forall|i: int| 0 <= i < q.len() - 1 implies step_ok(t, #[trigger] q[i], q[i + 1]) by {
            assert(q[i] == p[i] && q[i + 1] == p[i + 1]);
        }
        lemma_no_cheaper_path(t, m, q);
        let prev = q[q.len() - 1];
        assert(prev == p[p.len() - 2]);
        assert(step_ok(t, prev, p[p.len() - 1]));
        if value_at(m, prev) < UNREACHED {
            assert(value_at(m, p[p.len() - 1]) <= value_at(m, prev) + step_cost(t, p[p.len() - 1]));
        } else {
            // The prefix already costs at least the sentinel, which no
            // stored value exceeds.
            assert(path_cost(t, q) >= UNREACHED);
            assert(step_cost(t, p[p.len() - 1]) >= 0);
            assert(value_at(m, p[p.len() - 1]) <= UNREACHED);
        }
    }
}

/// Resolved integration lookup matching `value_at`.
pub fn get_spatial_value(values: &HashMap<u64, u64>, c: SpatialHashCell) -> (v: u64)
    ensures
        v as int == value_at(values@, c),
{
    match values.get(&cell_key(c)) {
        Some(v) => *v,
        None => UNREACHED,
    }
}

/// Writes one integration value, keeping the touched-cells list in step
/// with the map's key set.
fn set_spatial_value(
    values: &mut HashMap<u64, u64>,
    cells: &mut Vec<SpatialHashCell>,
    c: SpatialHashCell,
    v: u64,
)
    requires
        forall|c2: SpatialHashCell| old(values)@.contains_key(cell_key_spec(c2)) <==> old(cells)@.contains(c2),
    ensures
        value_at(final(values)@, c) == v,
        forall|c2: SpatialHashCell| c2 != c ==> value_at(final(values)@, c2) == value_at(
            old(values)@,
            c2,
        ),
        forall|c2: SpatialHashCell| final(values)@.contains_key(cell_key_spec(c2)) <==> final(cells)@.contains(c2),
        forall|c2: SpatialHashCell| old(cells)@.contains(c2) ==> final(cells)@.contains(c2),
        forall|c2: SpatialHashCell| final(cells)@.contains(c2) ==> old(cells)@.contains(c2) || c2
            == c,
{
    proof {
        broadcast use vstd::seq_lib::lemma_seq_contains_after_push;

    }
    let k = cell_key(c);
    if !values.contains_key(&k) {
        cells.push(c);
    }
    values.insert(k, v);
    proof {
        assert forall|c2: SpatialHashCell| c2 != c implies value_at(final(values)@, c2) == value_at(
            old(values)@,
            c2,
        ) by {
            if cell_key_spec(c2) == cell_key_spec(c) {
                lemma_cell_key_injective(c2, c);
            }
        }
        assert forall|c2: SpatialHashCell| final(values)@.contains_key(cell_key_spec(c2))
            implies final(cells)@.contains(c2) by {
            if cell_key_spec(c2) == cell_key_spec(c) {
                lemma_cell_key_injective(c2, c);
            }
        }
    }
}

/// Builds the integration field by FIFO wavefront propagation from the
/// goal cells. Goal cells start at zero; processing a cell marks its
/// impassable neighbors with the sentinel and relaxes the pathable ones
/// by the neighbor's movement cost, skipping diagonals whose corner is
/// blocked. The open queue provably drains, after which no admissible
/// step can improve any cell; together with the path witnesses this
/// makes every finite value the minimum admissible path cost.
pub fn build_integration_field(terrain: &TerrainMap, seeds: &Vec<SpatialHashCell>) -> (f:
    IntegrationField)
    requires
        terrain.wf(),
        forall|i: int|
            0 <= i < seeds@.len() ==> -COORD_LIMIT <= (#[trigger] seeds@[i]).0 <= COORD_LIMIT
                && -COORD_LIMIT <= seeds@[i].1 <= COORD_LIMIT,
    ensures
        forall|c: SpatialHashCell| f.values@.contains_key(cell_key_spec(c)) <==> f.cells@.contains(
            c,
        ),
        forall|c: SpatialHashCell| #[trigger] f.cells@.contains(c) ==> -COORD_LIMIT - 1 <= c.0
            <= COORD_LIMIT + 1 && -COORD_LIMIT - 1 <= c.1 <= COORD_LIMIT + 1,
        forall|c: SpatialHashCell|
            seeds@.contains(c) && pathable_spec(terrain.cell_at(c)) ==> value_at(f.values@, c)
                == 0,
        forall|c: SpatialHashCell|
            value_at(f.values@, c) < UNREACHED ==> seeds@.contains(c) || pathable_spec(
                terrain.cell_at(c),
            ),
        values_witnessed(*terrain, seeds@, f.values@),
        forall|c1: SpatialHashCell, c2: SpatialHashCell|
            value_at(f.values@, c1) < UNREACHED && #[trigger] step_ok(*terrain, c1, c2)
                ==> value_at(f.values@, c2) <= value_at(f.values@, c1) + step_cost(*terrain, c2),
{
    let mut values: HashMap<u64, u64> = HashMap::new();
    let mut cells: Vec<SpatialHashCell> = Vec::new();
    let mut queue: Vec<SpatialHashCell> = Vec::new();

    // Seed the open queue with every goal cell at value zero.
    let ns = seeds.len();
    let mut si: usize = 0;
    while si < ns
        invariant
            ns == seeds@.len(),
            0 <= si <= ns,
            forall|i: int|
                0 <= i < seeds@.len() ==> -COORD_LIMIT <= (#[trigger] seeds@[i]).0 <= COORD_LIMIT
                    && -COORD_LIMIT <= seeds@[i].1 <= COORD_LIMIT,
            forall|c: SpatialHashCell| values@.contains_key(cell_key_spec(c)) <==> cells@.contains(
                c,
            ),
            forall|c: SpatialHashCell| #[trigger] cells@.contains(c) ==> -COORD_LIMIT - 1 <= c.0
                <= COORD_LIMIT + 1 && -COORD_LIMIT - 1 <= c.1 <= COORD_LIMIT + 1,
            forall|c: SpatialHashCell|
                value_at(values@, c) < UNREACHED ==> seeds@.contains(c) && value_at(values@, c)
                    == 0,
            forall|i: int| 0 <= i < si ==> value_at(values@, #[trigger] seeds@[i]) == 0,
            values_witnessed(*terrain, seeds@, values@),
            forall|c: SpatialHashCell|
                value_at(values@, c) < UNREACHED ==> pending(queue@, 0, c),
            forall|i: int|
                0 <= i < queue@.len() ==> -COORD_LIMIT <= (#[trigger] queue@[i]).0 <= COORD_LIMIT
                    && -COORD_LIMIT <= queue@[i].1 <= COORD_LIMIT,
            forall|i: int|
                0 <= i < queue@.len() ==> in_wave_region(*terrain, seeds@, #[trigger] queue@[i]),
        decreases ns - si,
    {
        let s = seeds[si];
        let ghost old_queue = queue@;
        let ghost pre_vals = values@;
        set_spatial_value(&mut values, &mut cells, s, 0);
        queue.push(s);
        proof {
            assert(seeds@.contains(s)) by {
                assert(seeds@[si as int] == s);
            }
            assert(in_wave_region(*terrain, seeds@, s)) by {
                assert(seeds@[si as int] == s);
            }
            let w = seq![s];
            assert(w.len() == 1 && w[0] == s);
            assert(steps_ok(*terrain, w));
            assert(path_cost(*terrain, w) == 0);
            lemma_witness_update(*terrain, seeds@, pre_vals, values@, s, w);
            assert forall|c: SpatialHashCell|
                value_at(values@, c) < UNREACHED implies pending(queue@, 0, c) by {
                if c == s {
                    assert(queue@[old_queue.len() as int] == s);
                } else {
                    assert(pending(old_queue, 0, c));
                    let i = choose|i: int| 0 <= i < old_queue.len() && old_queue[i] == c;
                    assert(queue@[i] == c);
                }
            }
        }
        si = si + 1;
    }
    proof {
        // All goal cells hold value zero once seeding finishes.
        assert forall|c: SpatialHashCell| seeds@.contains(c) implies value_at(values@, c) == 0 by {
            let i = choose|i: int| 0 <= i < seeds@.len() && seeds@[i] == c;
        }
    }

    // Propagate until the queue drains. It does: every relaxation
    // strictly lowers the summed potential of the finitely many cells
    // the wavefront can reach, and a pop alone shortens the pending
    // queue, so the pair of both is a variant.
    proof {
        lemma_wave_nonneg(*terrain, values@, seeds@);
    }
    let mut head: usize = 0;
    while head < queue.len()
        invariant
            terrain.wf(),
            0 <= head <= queue@.len(),
            forall|i: int|
                0 <= i < seeds@.len() ==> -COORD_LIMIT <= (#[trigger] seeds@[i]).0 <= COORD_LIMIT
                    && -COORD_LIMIT <= seeds@[i].1 <= COORD_LIMIT,
            forall|c: SpatialHashCell| values@.contains_key(cell_key_spec(c)) <==> cells@.contains(
                c,
            ),
            forall|c: SpatialHashCell| #[trigger] cells@.contains(c) ==> -COORD_LIMIT - 1 <= c.0
                <= COORD_LIMIT + 1 && -COORD_LIMIT - 1 <= c.1 <= COORD_LIMIT + 1,
            forall|c: SpatialHashCell|
                seeds@.contains(c) && pathable_spec(terrain.cell_at(c)) ==> value_at(values@, c)
                    == 0,
            forall|c: SpatialHashCell|
                value_at(values@, c) < UNREACHED ==> seeds@.contains(c) || pathable_spec(
                    terrain.cell_at(c),
                ),
            forall|i: int|
                0 <= i < queue@.len() ==> -COORD_LIMIT <= (#[trigger] queue@[i]).0 <= COORD_LIMIT
                    && -COORD_LIMIT <= queue@[i].1 <= COORD_LIMIT,
            forall|i: int|
                0 <= i < queue@.len() ==> in_wave_region(*terrain, seeds@, #[trigger] queue@[i]),
            0 <= wave_potential(*terrain, values@, seeds@),
            values_witnessed(*terrain, seeds@, values@),
            forall|c1: SpatialHashCell, c2: SpatialHashCell|
                value_at(values@, c1) < UNREACHED && #[trigger] step_ok(*terrain, c1, c2)
                    ==> value_at(values@, c2) <= value_at(values@, c1) + step_cost(*terrain, c2)
                    || pending(queue@, head as int, c1),
        decreases wave_potential(*terrain, values@, seeds@), queue@.len() - head,
    {
        let node = queue[head];
        proof {
            assert(in_wave_region(*terrain, seeds@, node)) by {
                assert(queue@[head as int] == node);
            }
        }
        head = head + 1;
        let curr = get_spatial_value(&values, node);
        let ghost head0 = head as int;
        let ghost p0 = wave_potential(*terrain, values@, seeds@);
        let ghost len0 = queue@.len() as int;

        let orth = get_orthognal_neighbor_cells(node, terrain.max_bounds);
        let no = orth.len();
        let mut oj: usize = 0;
        while oj < no
            invariant
                terrain.wf(),
                no == orth@.len(),
                0 <= oj <= no,
                head0 == head as int,
                0 <= head as int <= queue@.len(),
                -COORD_LIMIT <= node.0 <= COORD_LIMIT,
                -COORD_LIMIT <= node.1 <= COORD_LIMIT,
                curr as int == value_at(values@, node),
                in_wave_region(*terrain, seeds@, node),
                forall|i: int|
                    0 <= i < queue@.len() ==> in_wave_region(
                        *terrain,
                        seeds@,
                        #[trigger] queue@[i],
                    ),
                wave_potential(*terrain, values@, seeds@) <= p0,
                queue@.len() >= len0,
                queue@.len() > len0 ==> wave_potential(*terrain, values@, seeds@) <= p0 - 1,
                forall|c: SpatialHashCell| #[trigger] orth@.contains(c) <==> orth_neighbor_ok(
                    node,
                    terrain.max_bounds,
                    c,
                ),
                forall|i: int|
                    0 <= i < seeds@.len() ==> -COORD_LIMIT <= (#[trigger] seeds@[i]).0
                        <= COORD_LIMIT && -COORD_LIMIT <= seeds@[i].1 <= COORD_LIMIT,
                forall|c: SpatialHashCell| values@.contains_key(cell_key_spec(c))
                    <==> cells@.contains(c),
                forall|c: SpatialHashCell| #[trigger] cells@.contains(c) ==> -COORD_LIMIT - 1
                    <= c.0 <= COORD_LIMIT + 1 && -COORD_LIMIT - 1 <= c.1 <= COORD_LIMIT + 1,
                forall|c: SpatialHashCell|
                    seeds@.contains(c) && pathable_spec(terrain.cell_at(c)) ==> value_at(
                        values@,
                        c,
                    ) == 0,
                forall|c: SpatialHashCell|
                    value_at(values@, c) < UNREACHED ==> seeds@.contains(c) || pathable_spec(
                        terrain.cell_at(c),
                    ),
                forall|i: int|
                    0 <= i < queue@.len() ==> -COORD_LIMIT <= (#[trigger] queue@[i]).0
                        <= COORD_LIMIT && -COORD_LIMIT <= queue@[i].1 <= COORD_LIMIT,
                values_witnessed(*terrain, seeds@, values@),
                forall|c: SpatialHashCell|
                    orth_step_ok(*terrain, node, c) && crate::spatial_hash::in_prefix(
                        orth@,
                        oj as int,
                        c,
                    ) ==> value_at(values@, c) <= curr as int + step_cost(*terrain, c),
                forall|c1: SpatialHashCell, c2: SpatialHashCell|
                    value_at(values@, c1) < UNREACHED && #[trigger] step_ok(*terrain, c1, c2)
                        ==> value_at(values@, c2) <= value_at(values@, c1) + step_cost(
                        *terrain,
                        c2,
                    ) || pending(queue@, head as int, c1) || c1 == node,
            decreases no - oj,
        {
            let nb = orth[oj];
            proof {
                assert(orth@.contains(nb)) by {
                    assert(orth@[oj as int] == nb);
                }
                assert(nb != node);
            }
            let tc = terrain.get_cell(nb);
            if tc.pathable_mask == 0 {
                let ghost pre_vals = values@;
                set_spatial_value(&mut values, &mut cells, nb, UNREACHED);
                proof {
                    lemma_witness_update(
                        *terrain,
                        seeds@,
                        pre_vals,
                        values@,
                        nb,
                        Seq::empty(),
                    );
                    // Marking an impassable cell leaves the measure alone.
                    assert(!pathable_spec(terrain.cell_at(nb)));
                    assert forall|c: SpatialHashCell| #[trigger] cell_potential(
                        *terrain,
                        values@,
                        c,
                    ) <= cell_potential(*terrain, pre_vals, c) by {
                        if c != nb {
                            assert(value_at(values@, c) == value_at(pre_vals, c));
                        }
                    }
                    lemma_wave_mono(*terrain, pre_vals, values@, seeds@);
                }
            } else {
                let cost = tc.movement_cost;
                let nb_val = get_spatial_value(&values, nb);
                match curr.checked_add(cost) {
                    Some(cand) => {
                        if cand < nb_val {
                            let ghost old_queue = queue@;
                            let ghost pre_vals = values@;
                            set_spatial_value(&mut values, &mut cells, nb, cand);
                            queue.push(nb);
                            proof {
                                assert(pending(queue@, head as int, nb)) by {
                                    assert(queue@[old_queue.len() as int] == nb);
                                }
                                assert forall|c: SpatialHashCell|
                                    pending(old_queue, head as int, c) implies pending(
                                    queue@,
                                    head as int,
                                    c,
                                ) by {
                                    let i = choose|i: int|
                                        head as int <= i < old_queue.len() && old_queue[i] == c;
                                    assert(queue@[i] == c);
                                }
                                // The relaxed neighbor inherits the popped
                                // cell's witness path extended one step.
                                assert(curr < UNREACHED);
                                assert(value_at(pre_vals, node) < UNREACHED);
                                let pw = choose|p: Seq<SpatialHashCell>|
                                    #[trigger] steps_ok(*terrain, p) && seeds@.contains(p[0])
                                        && p[p.len() - 1] == node && path_cost(*terrain, p)
                                        == value_at(pre_vals, node);
                                assert(step_ok(*terrain, node, nb)) by {
                                    assert(orth_neighbor_ok(node, terrain.max_bounds, nb));
                                    assert(pathable_spec(terrain.cell_at(nb)));
                                }
                                lemma_path_extend(*terrain, pw, nb);
                                lemma_witness_update(
                                    *terrain,
                                    seeds@,
                                    pre_vals,
                                    values@,
                                    nb,
                                    pw.push(nb),
                                );
                                // The relaxation strictly lowers the measure
                                // at a reachable cell.
                                lemma_region_closed(*terrain, seeds@, node, nb);
                                assert forall|c: SpatialHashCell| #[trigger] cell_potential(
                                    *terrain,
                                    values@,
                                    c,
                                ) <= cell_potential(*terrain, pre_vals, c) by {
                                    if c != nb {
                                        assert(value_at(values@, c) == value_at(pre_vals, c));
                                    }
                                }
                                assert(cell_potential(*terrain, values@, nb) <= cell_potential(
                                    *terrain,
                                    pre_vals,
                                    nb,
                                ) - 1);
                                lemma_wave_strict(*terrain, pre_vals, values@, seeds@, nb);
                                assert forall|i: int|
                                    0 <= i < queue@.len() implies in_wave_region(
                                    *terrain,
                                    seeds@,
                                    #[trigger] queue@[i],
                                ) by {
                                    if i < old_queue.len() {
                                        assert(old_queue[i] == queue@[i]);
                                    } else {
                                        assert(queue@[i] == nb);
                                    }
                                }
                            }
                        }
                    }
                    None => {}
                }
            }
            oj = oj + 1;
        }
        proof {
            // Every admissible orthogonal step out of the node is settled.
            assert forall|c: SpatialHashCell|
                orth_step_ok(*terrain, node, c) implies value_at(values@, c) <= curr as int
                + step_cost(*terrain, c) by {
                assert(orth@.contains(c));
                let i = choose|i: int| 0 <= i < orth@.len() && orth@[i] == c;
                assert(crate::spatial_hash::in_prefix(orth@, no as int, c));
            }
        }

        let diag = get_diagonal_neighbor_cells(node, terrain.max_bounds);
        let nd = diag.len();
        let mut dj: usize = 0;
        while dj < nd
            invariant
                terrain.wf(),
                nd == diag@.len(),
                0 <= dj <= nd,
                head0 == head as int,
                0 <= head as int <= queue@.len(),
                -COORD_LIMIT <= node.0 <= COORD_LIMIT,
                -COORD_LIMIT <= node.1 <= COORD_LIMIT,
                curr as int == value_at(values@, node),
                in_wave_region(*terrain, seeds@, node),
                forall|i: int|
                    0 <= i < queue@.len() ==> in_wave_region(
                        *terrain,
                        seeds@,
                        #[trigger] queue@[i],
                    ),
                wave_potential(*terrain, values@, seeds@) <= p0,
                queue@.len() >= len0,
                queue@.len() > len0 ==> wave_potential(*terrain, values@, seeds@) <= p0 - 1,
                forall|c: SpatialHashCell| #[trigger] diag@.contains(c) <==> diag_neighbor_ok(
                    node,
                    terrain.max_bounds,
                    c,
                ),
                forall|i: int|
                    0 <= i < seeds@.len() ==> -COORD_LIMIT <= (#[trigger] seeds@[i]).0
                        <= COORD_LIMIT && -COORD_LIMIT <= seeds@[i].1 <= COORD_LIMIT,
                forall|c: SpatialHashCell| values@.contains_key(cell_key_spec(c))
                    <==> cells@.contains(c),
                forall|c: SpatialHashCell| #[trigger] cells@.contains(c) ==> -COORD_LIMIT - 1
                    <= c.0 <= COORD_LIMIT + 1 && -COORD_LIMIT - 1 <= c.1 <= COORD_LIMIT + 1,
                forall|c: SpatialHashCell|
                    seeds@.contains(c) && pathable_spec(terrain.cell_at(c)) ==> value_at(
                        values@,
                        c,
                    ) == 0,
                forall|c: SpatialHashCell|
                    value_at(values@, c) < UNREACHED ==> seeds@.contains(c) || pathable_spec(
                        terrain.cell_at(c),
                    ),
                forall|i: int|
                    0 <= i < queue@.len() ==> -COORD_LIMIT <= (#[trigger] queue@[i]).0
                        <= COORD_LIMIT && -COORD_LIMIT <= queue@[i].1 <= COORD_LIMIT,
                values_witnessed(*terrain, seeds@, values@),
                forall|c: SpatialHashCell|
                    orth_step_ok(*terrain, node, c) ==> value_at(values@, c) <= curr as int
                        + step_cost(*terrain, c),
                forall|c: SpatialHashCell|
                    diag_step_ok(*terrain, node, c) && crate::spatial_hash::in_prefix(
                        diag@,
                        dj as int,
                        c,
                    ) ==> value_at(values@, c) <= curr as int + step_cost(*terrain, c),
                forall|c1: SpatialHashCell, c2: SpatialHashCell|
                    value_at(values@, c1) < UNREACHED && #[trigger] step_ok(*terrain, c1, c2)
                        ==> value_at(values@, c2) <= value_at(values@, c1) + step_cost(
                        *terrain,
                        c2,
                    ) || pending(queue@, head as int, c1) || c1 == node,
            decreases nd - dj,
        {
            let nb = diag[dj];
            proof {
                assert(diag@.contains(nb)) by {
                    assert(diag@[dj as int] == nb);
                }
                assert(nb != node);
            }
            let tc = terrain.get_cell(nb);
            if tc.pathable_mask == 0 {
                let ghost pre_vals = values@;
                set_spatial_value(&mut values, &mut cells, nb, UNREACHED);
                proof {
                    lemma_witness_update(
                        *terrain,
                        seeds@,
                        pre_vals,
                        values@,
                        nb,
                        Seq::empty(),
                    );
                    // Marking an impassable cell leaves the measure alone.
                    assert(!pathable_spec(terrain.cell_at(nb)));
                    assert forall|c: SpatialHashCell| #[trigger] cell_potential(
                        *terrain,
                        values@,
                        c,
                    ) <= cell_potential(*terrain, pre_vals, c) by {
                        if c != nb {
                            assert(value_at(values@, c) == value_at(pre_vals, c));
                        }
                    }
                    lemma_wave_mono(*terrain, pre_vals, values@, seeds@);
                }
            } else {
                let corner_x = terrain.get_cell(SpatialHashCell(nb.0, node.1));
                let corner_y = terrain.get_cell(SpatialHashCell(node.0, nb.1));
                if corner_x.pathable_mask != 0 && corner_y.pathable_mask != 0 {
                    let cost = tc.movement_cost;
                    let nb_val = get_spatial_value(&values, nb);
                    match curr.checked_add(cost) {
                        Some(cand) => {
                            if cand < nb_val {
                                let ghost old_queue = queue@;
                                let ghost pre_vals = values@;
                                set_spatial_value(&mut values, &mut cells, nb, cand);
                                queue.push(nb);
                                proof {
                                    assert(pending(queue@, head as int, nb)) by {
                                        assert(queue@[old_queue.len() as int] == nb);
                                    }
                                    assert forall|c: SpatialHashCell|
                                        pending(old_queue, head as int, c) implies pending(
                                        queue@,
                                        head as int,
                                        c,
                                    ) by {
                                        let i = choose|i: int|
                                            head as int <= i < old_queue.len() && old_queue[i]
                                                == c;
                                        assert(queue@[i] == c);
                                    }
                                    // The relaxed diagonal inherits the
                                    // popped cell's witness path extended
                                    // one step through the open corner.
                                    assert(curr < UNREACHED);
                                    assert(value_at(pre_vals, node) < UNREACHED);
                                    let pw = choose|p: Seq<SpatialHashCell>|
                                        #[trigger] steps_ok(*terrain, p) && seeds@.contains(p[0])
                                            && p[p.len() - 1] == node && path_cost(*terrain, p)
                                            == value_at(pre_vals, node);
                                    assert(step_ok(*terrain, node, nb)) by {
                                        assert(diag_neighbor_ok(node, terrain.max_bounds, nb));
                                        assert(pathable_spec(terrain.cell_at(nb)));
                                        assert(pathable_spec(
                                            terrain.cell_at(SpatialHashCell(nb.0, node.1)),
                                        ));
                                        assert(pathable_spec(
                                            terrain.cell_at(SpatialHashCell(node.0, nb.1)),
                                        ));
                                    }
                                    lemma_path_extend(*terrain, pw, nb);
                                    lemma_witness_update(
                                        *terrain,
                                        seeds@,
                                        pre_vals,
                                        values@,
                                        nb,
                                        pw.push(nb),
                                    );
                                    // The relaxation strictly lowers the
                                    // measure at a reachable cell.
                                    lemma_region_closed(*terrain, seeds@, node, nb);
                                    assert forall|c: SpatialHashCell| #[trigger] cell_potential(
                                        *terrain,
                                        values@,
                                        c,
                                    ) <= cell_potential(*terrain, pre_vals, c) by {
                                        if c != nb {
                                            assert(value_at(values@, c) == value_at(
                                                pre_vals,
                                                c,
                                            ));
                                        }
                                    }
                                    assert(cell_potential(*terrain, values@, nb)
                                        <= cell_potential(*terrain, pre_vals, nb) - 1);
                                    lemma_wave_strict(*terrain, pre_vals, values@, seeds@, nb);
                                    assert forall|i: int|
                                        0 <= i < queue@.len() implies in_wave_region(
                                        *terrain,
                                        seeds@,
                                        #[trigger] queue@[i],
                                    ) by {
                                        if i < old_queue.len() {
                                            assert(old_queue[i] == queue@[i]);
                                        } else {
                                            assert(queue@[i] == nb);
                                        }
                                    }
                                }
                            }
                        }
                        None => {}
                    }
                }
            }
            dj = dj + 1;
        }
        proof {
            lemma_wave_nonneg(*terrain, values@, seeds@);
            // Every admissible step out of the processed node has been
            // examined, so its obligations hold without the queue.
            assert forall|c1: SpatialHashCell, c2: SpatialHashCell|
                value_at(values@, c1) < UNREACHED && #[trigger] step_ok(*terrain, c1, c2)
                implies value_at(values@, c2) <= value_at(values@, c1) + step_cost(*terrain, c2)
                || pending(queue@, head as int, c1) by {
                if c1 == node {
                    if orth_step_ok(*terrain, c1, c2) {
                        assert(orth@.contains(c2));
                        let i = choose|i: int| 0 <= i < orth@.len() && orth@[i] == c2;
                        assert(crate::spatial_hash::in_prefix(orth@, no as int, c2));
                    } else {
                        assert(diag_step_ok(*terrain, c1, c2));
                        assert(diag@.contains(c2));
                        let i = choose|i: int| 0 <= i < diag@.len() && diag@[i] == c2;
                        assert(crate::spatial_hash::in_prefix(diag@, nd as int, c2));
                    }
                }
            }
        }
    }
    IntegrationField { values, cells }
}

/// Per-faction flow field: a unit-or-zero direction vector for every cell
/// the integration pass touched with a finite, positive value.
#[derive(Debug)]
pub struct FlowField {
    pub table: HashMap<u64, FlowVector>,
    pub cell_size: i64,
}

/// The flow vector stored for a coordinate (zero when absent: "no
/// guidance").
pub open spec fn flow_at(m: Map<u64, FlowVector>, c: SpatialHashCell) -> FlowVector {
    if m.contains_key(cell_key_spec(c)) {
        m[cell_key_spec(c)]
    } else {
        FlowVector { x: 0, y: 0 }
    }
}

/// Whole-table flow property: everything stored is unit-or-zero.
pub open spec fn flow_table_wf(m: Map<u64, FlowVector>) -> bool {
    forall|k: u64| #[trigger] m.contains_key(k) ==> unit_or_zero(m[k])
}

/// A cell pressed against terrain with a single pathable way out: some
/// enumerated orthogonal neighbor is impassable, exactly one (`m`) is
/// pathable, and every enumerated diagonal neighbor is impassable. The
/// gradient fallback then has only one candidate to point at.
pub open spec fn lone_exit(t: TerrainMap, c: SpatialHashCell, m: SpatialHashCell) -> bool {
    &&& orth_neighbor_ok(c, t.max_bounds, m)
    &&& pathable_spec(t.cell_at(m))
    &&& forall|o: SpatialHashCell|
        orth_neighbor_ok(c, t.max_bounds, o) && o != m ==> !pathable_spec(#[trigger] t.cell_at(o))
    &&& exists|o: SpatialHashCell|
        orth_neighbor_ok(c, t.max_bounds, o) && !pathable_spec(#[trigger] t.cell_at(o))
    &&& forall|dg: SpatialHashCell|
        diag_neighbor_ok(c, t.max_bounds, dg) ==> !pathable_spec(#[trigger] t.cell_at(dg))
}

/// The stored vector follows the unit step `(dx, dy)`: matching signs,
/// matching zero components, near-colinear, and of full magnitude.
pub open spec fn points_along(v: FlowVector, dx: int, dy: int) -> bool {
    &&& v.x * dx >= 0
    &&& v.y * dy >= 0
    &&& dx == 0 ==> v.x == 0
    &&& dy == 0 ==> v.y == 0
    &&& -((if dx >= 0 {
        dx
    } else {
        -dx
    }) + (if dy >= 0 {
        dy
    } else {
        -dy
    })) <= v.x * dy - v.y * dx <= (if dx >= 0 {
        dx
    } else {
        -dx
    }) + (if dy >= 0 {
        dy
    } else {
        -dy
    })
    &&& FLOW_MAG_SQ_MIN <= mag_sq(v)
}

/// Largest weighted directional contribution of one neighbor cell.
const FLOW_TERM_LIMIT: i64 = 101_000_000_000;

/// The reciprocal-distance weight of a neighbor's contribution,
/// saturating the near-zero clamp of the integration value.
fn flow_weight(val: u64) -> (w: i64)
    ensures
        0 <= w <= 100_000_000,
{
    if val == 0 {
        100_000_000
    } else if val >= 1_000_000 {
        0
    } else {
        (1_000_000 / val) as i64
    }
}

/// Linear membership scan over obstacle coordinate lists.
fn contains_i32(v: &Vec<i32>, x: i32) -> (r: bool)
    ensures
        r == v@.contains(x),
{
    let n = v.len();
    let mut i: usize = 0;
    while i < n
        invariant
            n == v@.len(),
            0 <= i <= n,
            forall|j: int| 0 <= j < i ==> v@[j] != x,
        decreases n - i,
    {
        if v[i] == x {
            proof {
                assert(v@[i as int] == x);
            }
            return true;
        }
        i = i + 1;
    }
    proof {
        if v@.contains(x) {
            let j = choose|j: int| 0 <= j < v@.len() && v@[j] == x;
            assert(false);
        }
    }
    false
}

/// Stores one flow vector, extending the key set by exactly this cell.
fn store_flow(table: &mut HashMap<u64, FlowVector>, c: SpatialHashCell, v: FlowVector)
    requires
        unit_or_zero(v),
        flow_table_wf(old(table)@),
    ensures
        flow_table_wf(final(table)@),
        final(table)@.contains_key(cell_key_spec(c)),
        flow_at(final(table)@, c) == v,
        forall|c2: SpatialHashCell| c2 != c ==> (#[trigger] final(table)@.contains_key(
            cell_key_spec(c2),
        ) <==> old(table)@.contains_key(cell_key_spec(c2))),
        forall|c2: SpatialHashCell| c2 != c ==> flow_at(final(table)@, c2) == flow_at(
            old(table)@,
            c2,
        ),
{
    let k = cell_key(c);
    table.insert(k, v);
    proof {
        assert forall|c2: SpatialHashCell| c2 != c implies (#[trigger] final(table)@.contains_key(
            cell_key_spec(c2),
        ) <==> old(table)@.contains_key(cell_key_spec(c2))) by {
            if cell_key_spec(c2) == cell_key_spec(c) {
                lemma_cell_key_injective(c2, c);
            }
        }
    }
}

/// A unit-or-zero vector has components within the tolerance radius.
proof fn lemma_unit_component_bound(v: FlowVector)
    requires
        unit_or_zero(v),
    ensures
        -1005 <= v.x <= 1005,
        -1005 <= v.y <= 1005,
{
    if !(v.x == 0 && v.y == 0) {
        assert(-1005 <= v.x <= 1005 && -1005 <= v.y <= 1005) by (nonlinear_arith)
            requires
                v.x * v.x + v.y * v.y <= 1010000,
        ;
    }
}

/// Derives the flow field of one faction from its integration field (see
/// the gradient-extraction step): each touched cell with a positive
/// integration value receives the normalized sum of reciprocal-weighted
/// neighbor directions, extended ring by ring while no obstacle is found
/// at distance one, or, when one is, the direction of the least-cost
/// adjacent cell.
pub fn build_flow_field(terrain: &TerrainMap, integ: &IntegrationField, max_convolution_length: i32) -> (
    f: FlowField)
    requires
        terrain.wf(),
        1 <= max_convolution_length <= 64,
        forall|c: SpatialHashCell| integ.values@.contains_key(cell_key_spec(c))
            <==> integ.cells@.contains(c),
        forall|c: SpatialHashCell| #[trigger] integ.cells@.contains(c) ==> -COORD_LIMIT - 1 <= c.0
            <= COORD_LIMIT + 1 && -COORD_LIMIT - 1 <= c.1 <= COORD_LIMIT + 1,
    ensures
        f.cell_size == terrain.cell_size,
        flow_table_wf(f.table@),
        forall|c: SpatialHashCell| #[trigger] f.table@.contains_key(cell_key_spec(c)) <==> (
        integ.values@.contains_key(cell_key_spec(c)) && 1 <= value_at(integ.values@, c)
            < UNREACHED),
        forall|c: SpatialHashCell, m: SpatialHashCell|
            #![trigger f.table@.contains_key(cell_key_spec(c)), lone_exit(*terrain, c, m)]
            f.table@.contains_key(cell_key_spec(c)) && lone_exit(*terrain, c, m) && value_at(
                integ.values@,
                m,
            ) < UNREACHED ==> points_along(flow_at(f.table@, c), m.0 - c.0, m.1 - c.1),
{
    let mut table: HashMap<u64, FlowVector> = HashMap::new();
    let nc = integ.cells.len();
    let mut ci: usize = 0;
    while ci < nc
        invariant
            terrain.wf(),
            nc == integ.cells@.len(),
            0 <= ci <= nc,
            1 <= max_convolution_length <= 64,
            forall|c: SpatialHashCell| integ.values@.contains_key(cell_key_spec(c))
                <==> integ.cells@.contains(c),
            forall|c: SpatialHashCell| #[trigger] integ.cells@.contains(c) ==> -COORD_LIMIT - 1
                <= c.0 <= COORD_LIMIT + 1 && -COORD_LIMIT - 1 <= c.1 <= COORD_LIMIT + 1,
            flow_table_wf(table@),
            forall|c: SpatialHashCell| #[trigger] table@.contains_key(cell_key_spec(c)) <==> (
            crate::spatial_hash::in_prefix(integ.cells@, ci as int, c) && 1 <= value_at(
                integ.values@,
                c,
            ) < UNREACHED),
            forall|c: SpatialHashCell, m: SpatialHashCell|
                #![trigger table@.contains_key(cell_key_spec(c)), lone_exit(*terrain, c, m)]
                table@.contains_key(cell_key_spec(c)) && lone_exit(*terrain, c, m) && value_at(
                    integ.values@,
                    m,
                ) < UNREACHED ==> points_along(flow_at(table@, c), m.0 - c.0, m.1 - c.1),
        decreases nc - ci,
    {
        let cell = integ.cells[ci];
        proof {
            assert(integ.cells@.contains(cell)) by {
                assert(integ.cells@[ci as int] == cell);
            }
        }
        let cell_val = get_spatial_value(&integ.values, cell);
        if cell_val == 0 || cell_val == UNREACHED {
            // Goal cells carry no gradient and sentinel-valued cells give
            // no guidance; neither receives a stored vector.
            proof {
                assert forall|c: SpatialHashCell| #[trigger] table@.contains_key(cell_key_spec(c))
                    <==> (crate::spatial_hash::in_prefix(integ.cells@, ci + 1, c) && 1 <= value_at(
                    integ.values@,
                    c,
                ) < UNREACHED) by {
                    if crate::spatial_hash::in_prefix(integ.cells@, ci + 1, c) && 1 <= value_at(
                        integ.values@,
                        c,
                    ) < UNREACHED {
                        let j = choose|j: int|
                            0 <= j < ci + 1 && #[trigger] integ.cells@[j] == c;
                        if j == ci {
                            assert(c == cell);
                            assert(false);
                        }
                        assert(crate::spatial_hash::in_prefix(integ.cells@, ci as int, c));
                    }
                }
            }
            ci = ci + 1;
            continue;
        }
        // Scan the eight direct neighbors, collecting obstacle axes, the
        // weighted direction sum, and the least-cost pathable neighbor.
        let mut fx: i64 = 0;
        let mut fy: i64 = 0;
        let mut obstacle_x: Vec<i32> = Vec::new();
        let mut obstacle_y: Vec<i32> = Vec::new();
        let mut min_node: SpatialHashCell = cell;
        let mut min_val: u64 = UNREACHED;

        let orth = get_orthognal_neighbor_cells(cell, terrain.max_bounds);
        let no = orth.len();
        let mut oj: usize = 0;
        while oj < no
            invariant
                terrain.wf(),
                no == orth@.len(),
                no <= 4,
                0 <= oj <= no,
                -COORD_LIMIT - 1 <= cell.0 <= COORD_LIMIT + 1,
                -COORD_LIMIT - 1 <= cell.1 <= COORD_LIMIT + 1,
                forall|c: SpatialHashCell| #[trigger] orth@.contains(c) ==> orth_neighbor_ok(
                    cell,
                    terrain.max_bounds,
                    c,
                ),
                -(oj as int) * FLOW_TERM_LIMIT <= fx as int <= (oj as int) * FLOW_TERM_LIMIT,
                -(oj as int) * FLOW_TERM_LIMIT <= fy as int <= (oj as int) * FLOW_TERM_LIMIT,
                min_node == cell || (-COORD_LIMIT - 2 <= min_node.0 <= COORD_LIMIT + 2
                    && -COORD_LIMIT - 2 <= min_node.1 <= COORD_LIMIT + 2 && cell.0 - 1
                    <= min_node.0 <= cell.0 + 1 && cell.1 - 1 <= min_node.1 <= cell.1 + 1),
                forall|mn: SpatialHashCell| #[trigger] lone_exit(*terrain, cell, mn)
                    ==> ((crate::spatial_hash::in_prefix(orth@, oj as int, mn) && value_at(
                    integ.values@,
                    mn,
                ) < UNREACHED) ==> min_node == mn && min_val as int == value_at(
                    integ.values@,
                    mn,
                )) && (!(crate::spatial_hash::in_prefix(orth@, oj as int, mn) && value_at(
                    integ.values@,
                    mn,
                ) < UNREACHED) ==> min_node == cell && min_val == UNREACHED),
                forall|o: SpatialHashCell|
                    crate::spatial_hash::in_prefix(orth@, oj as int, o) && !pathable_spec(
                        #[trigger] terrain.cell_at(o),
                    ) ==> obstacle_x@.len() > 0,
            decreases no - oj,
        {
            let nb = orth[oj];
            proof {
                assert(orth@.contains(nb)) by {
                    assert(orth@[oj as int] == nb);
                }
            }
            let tc = terrain.get_cell(nb);
            if tc.pathable_mask == 0 {
                obstacle_x.push(nb.0);
                obstacle_y.push(nb.1);
            } else {
                let val = get_spatial_value(&integ.values, nb);
                if val < min_val {
                    min_val = val;
                    min_node = nb;
                }
                let w = flow_weight(val);
                let dir = normalized_or_zero(
                    FlowVector { x: nb.0 as i64 - cell.0 as i64, y: nb.1 as i64 - cell.1 as i64 },
                );
                proof {
                    lemma_unit_component_bound(dir);
                    assert(-FLOW_TERM_LIMIT <= dir.x * w <= FLOW_TERM_LIMIT && -FLOW_TERM_LIMIT
                        <= dir.y * w <= FLOW_TERM_LIMIT) by (nonlinear_arith)
                        requires
                            -1005 <= dir.x <= 1005,
                            -1005 <= dir.y <= 1005,
                            0 <= w <= 100_000_000,
                            FLOW_TERM_LIMIT == 101_000_000_000,
                    ;
                }
                fx = fx + dir.x * w;
                fy = fy + dir.y * w;
            }
            proof {
                assert forall|o: SpatialHashCell|
                    crate::spatial_hash::in_prefix(orth@, oj + 1, o) && !pathable_spec(
                        #[trigger] terrain.cell_at(o),
                    ) implies obstacle_x@.len() > 0 by {
                    let jj = choose|jj: int| 0 <= jj < oj + 1 && #[trigger] orth@[jj] == o;
                    if jj < oj {
                        assert(crate::spatial_hash::in_prefix(orth@, oj as int, o));
                    }
                }
                assert forall|mn: SpatialHashCell| #[trigger] lone_exit(*terrain, cell, mn)
                    implies ((crate::spatial_hash::in_prefix(orth@, oj + 1, mn) && value_at(
                    integ.values@,
                    mn,
                ) < UNREACHED) ==> min_node == mn && min_val as int == value_at(
                    integ.values@,
                    mn,
                )) && (!(crate::spatial_hash::in_prefix(orth@, oj + 1, mn) && value_at(
                    integ.values@,
                    mn,
                ) < UNREACHED) ==> min_node == cell && min_val == UNREACHED) by {
                    if crate::spatial_hash::in_prefix(orth@, oj + 1, mn) {
                        let jj = choose|jj: int| 0 <= jj < oj + 1 && #[trigger] orth@[jj] == mn;
                        if jj < oj {
                            assert(crate::spatial_hash::in_prefix(orth@, oj as int, mn));
                        }
                    }
                }
            }
            oj = oj + 1;
        }
        proof {
            // The full scan covers the lone exit and every blocked wall.
            assert forall|mn: SpatialHashCell| #[trigger] lone_exit(*terrain, cell, mn)
                implies (value_at(integ.values@, mn) < UNREACHED ==> min_node == mn
                && min_val as int == value_at(integ.values@, mn)) && (value_at(integ.values@, mn)
                >= UNREACHED ==> min_node == cell && min_val == UNREACHED)
                && obstacle_x@.len() > 0 by {
                assert(orth@.contains(mn));
                let jj = choose|jj: int| 0 <= jj < orth@.len() && orth@[jj] == mn;
                assert(crate::spatial_hash::in_prefix(orth@, no as int, mn));
                let ob = choose|o: SpatialHashCell|
                    orth_neighbor_ok(cell, terrain.max_bounds, o) && !pathable_spec(
                        #[trigger] terrain.cell_at(o),
                    );
                assert(orth@.contains(ob));
                let jo = choose|jo: int| 0 <= jo < orth@.len() && orth@[jo] == ob;
                assert(crate::spatial_hash::in_prefix(orth@, no as int, ob));
            }
        }

        let diag = get_diagonal_neighbor_cells(cell, terrain.max_bounds);
        let nd = diag.len();
        let mut dj: usize = 0;
        while dj < nd
            invariant
                terrain.wf(),
                nd == diag@.len(),
                nd <= 4,
                0 <= dj <= nd,
                -COORD_LIMIT - 1 <= cell.0 <= COORD_LIMIT + 1,
                -COORD_LIMIT - 1 <= cell.1 <= COORD_LIMIT + 1,
                forall|c: SpatialHashCell| #[trigger] diag@.contains(c) ==> diag_neighbor_ok(
                    cell,
                    terrain.max_bounds,
                    c,
                ),
                -(4 + dj as int) * FLOW_TERM_LIMIT <= fx as int <= (4 + dj as int)
                    * FLOW_TERM_LIMIT,
                -(4 + dj as int) * FLOW_TERM_LIMIT <= fy as int <= (4 + dj as int)
                    * FLOW_TERM_LIMIT,
                min_node == cell || (-COORD_LIMIT - 2 <= min_node.0 <= COORD_LIMIT + 2
                    && -COORD_LIMIT - 2 <= min_node.1 <= COORD_LIMIT + 2 && cell.0 - 1
                    <= min_node.0 <= cell.0 + 1 && cell.1 - 1 <= min_node.1 <= cell.1 + 1),
                forall|mn: SpatialHashCell| #[trigger] lone_exit(*terrain, cell, mn)
                    ==> (value_at(integ.values@, mn) < UNREACHED ==> min_node == mn
                    && min_val as int == value_at(integ.values@, mn)) && (value_at(
                    integ.values@,
                    mn,
                ) >= UNREACHED ==> min_node == cell && min_val == UNREACHED)
                    && obstacle_x@.len() > 0,
            decreases nd - dj,
        {
            let nb = diag[dj];
            proof {
                assert(diag@.contains(nb)) by {
                    assert(diag@[dj as int] == nb);
                }
            }
            let blocked = contains_i32(&obstacle_x, nb.0) || contains_i32(&obstacle_y, nb.1);
            if !blocked {
                let tc = terrain.get_cell(nb);
                if tc.pathable_mask == 0 {
                    obstacle_x.push(-1);
                    obstacle_y.push(-1);
                } else {
                    let val = get_spatial_value(&integ.values, nb);
                    if val < min_val {
                        min_val = val;
                        min_node = nb;
                    }
                    let w = flow_weight(val);
                    let dir = normalized_or_zero(
                        FlowVector {
                            x: nb.0 as i64 - cell.0 as i64,
                            y: nb.1 as i64 - cell.1 as i64,
                        },
                    );
                    proof {
                        lemma_unit_component_bound(dir);
                        assert(-FLOW_TERM_LIMIT <= dir.x * w <= FLOW_TERM_LIMIT && -FLOW_TERM_LIMIT
                            <= dir.y * w <= FLOW_TERM_LIMIT) by (nonlinear_arith)
                            requires
                                -1005 <= dir.x <= 1005,
                                -1005 <= dir.y <= 1005,
                                0 <= w <= 100_000_000,
                                FLOW_TERM_LIMIT == 101_000_000_000,
                        ;
                    }
                    fx = fx + dir.x * w;
                    fy = fy + dir.y * w;
                }
            }
            dj = dj + 1;
        }

        let flow: FlowVector;
        if obstacle_x.is_empty() {
            // No obstacle at distance one: widen the sum ring by ring
            // until one appears, discarding the ring it appears in.
            let mut conv: i32 = 2;
            let mut stop = false;
            while (conv == 2 || conv <= max_convolution_length) && !stop
                invariant
                    terrain.wf(),
                    2 <= conv <= 66,
                    1 <= max_convolution_length <= 64,
                    -COORD_LIMIT - 1 <= cell.0 <= COORD_LIMIT + 1,
                    -COORD_LIMIT - 1 <= cell.1 <= COORD_LIMIT + 1,
                    -(8 + 600 * (conv as int) * (conv as int)) * FLOW_TERM_LIMIT <= fx as int <= (
                    8 + 600 * (conv as int) * (conv as int)) * FLOW_TERM_LIMIT,
                    -(8 + 600 * (conv as int) * (conv as int)) * FLOW_TERM_LIMIT <= fy as int <= (
                    8 + 600 * (conv as int) * (conv as int)) * FLOW_TERM_LIMIT,
                decreases (if stop {
                    0int
                } else {
                    66 - conv as int
                }),
            {
                let ring = get_convolution_neighbor_cells_increment(
                    cell,
                    conv,
                    terrain.max_bounds,
                );
                let nr = ring.len();
                let mut tfx: i64 = 0;
                let mut tfy: i64 = 0;
                let mut obstacle_encountered = false;
                let mut rj: usize = 0;
                while rj < nr
                    invariant
                        terrain.wf(),
                        nr == ring@.len(),
                        nr <= 8 * conv + 8,
                        2 <= conv <= 66,
                        0 <= rj <= nr,
                        -COORD_LIMIT - 1 <= cell.0 <= COORD_LIMIT + 1,
                        -COORD_LIMIT - 1 <= cell.1 <= COORD_LIMIT + 1,
                        forall|c: SpatialHashCell| #[trigger] ring@.contains(c)
                            ==> crate::coords::ring_neighbor_ok(
                            cell,
                            conv as int,
                            terrain.max_bounds,
                            c,
                        ),
                        -(rj as int) * FLOW_TERM_LIMIT <= tfx as int <= (rj as int)
                            * FLOW_TERM_LIMIT,
                        -(rj as int) * FLOW_TERM_LIMIT <= tfy as int <= (rj as int)
                            * FLOW_TERM_LIMIT,
                    decreases nr - rj,
                {
                    let nb = ring[rj];
                    proof {
                        assert(ring@.contains(nb)) by {
                            assert(ring@[rj as int] == nb);
                        }
                    }
                    let val = get_spatial_value(&integ.values, nb);
                    if terrain.get_cell(nb).pathable_mask == 0 {
                        obstacle_encountered = true;
                    } else {
                        let w = flow_weight(val);
                        let dir = normalized_or_zero(
                            FlowVector {
                                x: nb.0 as i64 - cell.0 as i64,
                                y: nb.1 as i64 - cell.1 as i64,
                            },
                        );
                        proof {
                            lemma_unit_component_bound(dir);
                            assert(-FLOW_TERM_LIMIT <= dir.x * w <= FLOW_TERM_LIMIT
                                && -FLOW_TERM_LIMIT <= dir.y * w <= FLOW_TERM_LIMIT) by (
                            nonlinear_arith)
                                requires
                                    -1005 <= dir.x <= 1005,
                                    -1005 <= dir.y <= 1005,
                                    0 <= w <= 100_000_000,
                                    FLOW_TERM_LIMIT == 101_000_000_000,
                            ;
                        }
                        tfx = tfx + dir.x * w;
                        tfy = tfy + dir.y * w;
                    }
                    rj = rj + 1;
                }
                if obstacle_encountered {
                    stop = true;
                } else {
                    proof {
                        let ci1 = conv as int + 1;
                        assert(-(8 + 600 * ci1 * ci1) * FLOW_TERM_LIMIT <= fx + tfx <= (8 + 600
                            * ci1 * ci1) * FLOW_TERM_LIMIT && -(8 + 600 * ci1 * ci1)
                            * FLOW_TERM_LIMIT <= fy + tfy <= (8 + 600 * ci1 * ci1)
                            * FLOW_TERM_LIMIT && (8 + 600 * ci1 * ci1) * FLOW_TERM_LIMIT
                            <= 0x7fff_ffff_ffff_ffff) by (nonlinear_arith)
                            requires
                                ci1 == conv as int + 1,
                                2 <= conv as int <= 64,
                                -(8 + 600 * (conv as int) * (conv as int)) * FLOW_TERM_LIMIT <= fx
                                    as int <= (8 + 600 * (conv as int) * (conv as int))
                                    * FLOW_TERM_LIMIT,
                                -(8 + 600 * (conv as int) * (conv as int)) * FLOW_TERM_LIMIT <= fy
                                    as int <= (8 + 600 * (conv as int) * (conv as int))
                                    * FLOW_TERM_LIMIT,
                                -(nr as int) * FLOW_TERM_LIMIT <= tfx as int <= (nr as int)
                                    * FLOW_TERM_LIMIT,
                                -(nr as int) * FLOW_TERM_LIMIT <= tfy as int <= (nr as int)
                                    * FLOW_TERM_LIMIT,
                                nr as int <= 8 * (conv as int) + 8,
                                FLOW_TERM_LIMIT == 101_000_000_000,
                        ;
                    }
                    fx = fx + tfx;
                    fy = fy + tfy;
                    conv = conv + 1;
                }
            }
            flow = normalized_or_zero(FlowVector { x: fx, y: fy });
        } else {
            // Obstacle next door: fall back to pointing at the least-cost
            // adjacent cell (zero when no pathable neighbor exists).
            flow = normalized_or_zero(
                FlowVector {
                    x: min_node.0 as i64 - cell.0 as i64,
                    y: min_node.1 as i64 - cell.1 as i64,
                },
            );
        }
        proof {
            // Whenever this cell has a lone pathable exit with a finite
            // cost, the wall flags force the fallback, and the fallback
            // points at that exit.
            assert forall|mn: SpatialHashCell|
                #[trigger] lone_exit(*terrain, cell, mn) && value_at(integ.values@, mn)
                    < UNREACHED implies points_along(flow, mn.0 - cell.0, mn.1 - cell.1) by {
                assert(obstacle_x@.len() > 0);
                assert(min_node == mn);
                assert(mn.0 == cell.0 - 1 || mn.0 == cell.0 + 1 || mn.0 == cell.0);
                assert(!(mn.0 == cell.0 && mn.1 == cell.1));
            }
        }
        let ghost old_table = table@;
        store_flow(&mut table, cell, flow);
        proof {
            assert forall|c2: SpatialHashCell, m2: SpatialHashCell|
                #![trigger table@.contains_key(cell_key_spec(c2)), lone_exit(*terrain, c2, m2)]
                table@.contains_key(cell_key_spec(c2)) && lone_exit(*terrain, c2, m2) && value_at(
                    integ.values@,
                    m2,
                ) < UNREACHED implies points_along(flow_at(table@, c2), m2.0 - c2.0, m2.1
                - c2.1) by {
                if c2 == cell {
                    assert(flow_at(table@, c2) == flow);
                } else {
                    assert(old_table.contains_key(cell_key_spec(c2)));
                    assert(flow_at(table@, c2) == flow_at(old_table, c2));
                }
            }
            assert forall|c: SpatialHashCell| #[trigger] table@.contains_key(cell_key_spec(c))
                <==> (crate::spatial_hash::in_prefix(integ.cells@, ci + 1, c) && 1 <= value_at(
                integ.values@,
                c,
            ) < UNREACHED) by {
                if table@.contains_key(cell_key_spec(c)) {
                    if c == cell {
                        assert(integ.cells@[ci as int] == cell);
                        assert(crate::spatial_hash::in_prefix(integ.cells@, ci + 1, c));
                    } else {
                        assert(old_table.contains_key(cell_key_spec(c)));
                        let j = choose|j: int|
                            0 <= j < ci && #[trigger] integ.cells@[j] == c;
                        assert(crate::spatial_hash::in_prefix(integ.cells@, ci + 1, c));
                    }
                } else {
                    if crate::spatial_hash::in_prefix(integ.cells@, ci + 1, c) && 1 <= value_at(
                        integ.values@,
                        c,
                    ) < UNREACHED {
                        let j = choose|j: int|
                            0 <= j < ci + 1 && #[trigger] integ.cells@[j] == c;
                        if j == ci {
                            assert(false);
                        } else {
                            assert(crate::spatial_hash::in_prefix(integ.cells@, ci as int, c));
                            assert(false);
                        }
                    }
                }
            }
        }
        ci = ci + 1;
    }
    proof {
        assert forall|c: SpatialHashCell| #[trigger] table@.contains_key(cell_key_spec(c)) <==> (
        integ.values@.contains_key(cell_key_spec(c)) && 1 <= value_at(integ.values@, c)
            < UNREACHED) by {
            if table@.contains_key(cell_key_spec(c)) {
                let j = choose|j: int| 0 <= j < nc && #[trigger] integ.cells@[j] == c;
                assert(integ.cells@.contains(c));
            }
            if integ.values@.contains_key(cell_key_spec(c)) && 1 <= value_at(integ.values@, c)
                < UNREACHED {
                assert(integ.cells@.contains(c));
                let j = choose|j: int| 0 <= j < nc && integ.cells@[j] == c;
                assert(crate::spatial_hash::in_prefix(integ.cells@, nc as int, c));
            }
        }
    }
    FlowField { table, cell_size: terrain.cell_size }
}

/// The externally consumed artifact: one flow table per faction present,
/// all sharing the terrain's cell size.
#[derive(Debug)]
pub struct FlowFieldsTowardsEnemies {
    pub map: Vec<(TeamValue, HashMap<u64, FlowVector>)>,
    pub cell_size: i64,
}

/// Introspection artifact: the integration field of every faction, kept
/// alongside the flow fields for visualization and debugging reads.
#[derive(Debug)]
pub struct IntegrationFields {
    pub fields: Vec<(TeamValue, IntegrationField)>,
}

/// Whether a coordinate is a goal cell for `team`: occupied by an agent
/// of a different, goal-seeding alignment.
pub open spec fn enemy_goal_cell(
    agents: Seq<(TeamAlignment, Position)>,
    team: TeamValue,
    cs: int,
    c: SpatialHashCell,
) -> bool {
    exists|k: int|
        0 <= k < agents.len() && (#[trigger] agents[k]).0.alignment != team && seeds_as_goal_spec(
            agents[k].0.alignment,
        ) && c == cell_of_point_spec(agents[k].1.x as int, agents[k].1.y as int, cs)
}

/// Whether some agent in the snapshot has this alignment.
pub open spec fn team_present(agents: Seq<(TeamAlignment, Position)>, team: TeamValue) -> bool {
    exists|k: int| 0 <= k < agents.len() && (#[trigger] agents[k]).0.alignment == team
}

/// Each team appears at most once among the entries.
pub open spec fn distinct_team_keys(teams: Seq<TeamValue>) -> bool {
    forall|i: int, j: int|
        0 <= i < teams.len() && 0 <= j < teams.len() && i != j ==> #[trigger] teams[i]
            != #[trigger] teams[j]
}

/// The team of entry `j` of both artifacts.
pub open spec fn entry_teams(ff: FlowFieldsTowardsEnemies) -> Seq<TeamValue> {
    ff.map@.map_values(|e: (TeamValue, HashMap<u64, FlowVector>)| e.0)
}

/// Everything one recomputation promises of the published fields: the
/// artifacts hold one aligned entry per faction present; each faction's
/// integration field is zero on its pathable enemy-occupied goal cells,
/// finite only on goal or pathable cells, and a relaxation fixpoint;
/// and each flow table stores unit-or-zero vectors
/// for exactly the touched cells with positive integration values.
pub open spec fn flow_fields_model(
    ff: FlowFieldsTowardsEnemies,
    integ: IntegrationFields,
    agents: Seq<(TeamAlignment, Position)>,
    terrain: TerrainMap,
) -> bool {
    let cs = terrain.cell_size as int;
    &&& ff.map@.len() == integ.fields@.len()
    &&& forall|j: int|
        0 <= j < ff.map@.len() ==> (#[trigger] ff.map@[j]).0 == (#[trigger] integ.fields@[j]).0
    &&& distinct_team_keys(entry_teams(ff))
    &&& forall|j: int|
        0 <= j < ff.map@.len() ==> team_present(agents, (#[trigger] ff.map@[j]).0)
    &&& forall|t: TeamValue|
        team_present(agents, t) ==> exists|j: int|
            0 <= j < ff.map@.len() && (#[trigger] ff.map@[j]).0 == t
    &&& forall|j: int, c: SpatialHashCell|
        #![trigger value_at(integ.fields@[j].1.values@, c)]
        0 <= j < integ.fields@.len() && enemy_goal_cell(agents, integ.fields@[j].0, cs, c)
            && pathable_spec(terrain.cell_at(c)) ==> value_at(integ.fields@[j].1.values@, c) == 0
    &&& forall|j: int, c: SpatialHashCell|
        #![trigger value_at(integ.fields@[j].1.values@, c)]
        0 <= j < integ.fields@.len() && value_at(integ.fields@[j].1.values@, c) < UNREACHED
            ==> enemy_goal_cell(agents, integ.fields@[j].0, cs, c) || pathable_spec(
            terrain.cell_at(c),
        )
    &&& forall|j: int, c: SpatialHashCell|
        #![trigger value_at(integ.fields@[j].1.values@, c)]
        0 <= j < integ.fields@.len() && value_at(integ.fields@[j].1.values@, c) < UNREACHED
            ==> exists|p: Seq<SpatialHashCell>|
            #[trigger] steps_ok(terrain, p) && enemy_goal_cell(agents, integ.fields@[j].0, cs, p[0])
                && p[p.len() - 1] == c && path_cost(terrain, p) == value_at(
                integ.fields@[j].1.values@,
                c,
            )
    &&& forall|j: int|
        #![trigger integ.fields@[j]]
        0 <= j < integ.fields@.len() ==> forall|
            c1: SpatialHashCell,
            c2: SpatialHashCell,
        |
            value_at(integ.fields@[j].1.values@, c1) < UNREACHED && #[trigger] step_ok(
                terrain,
                c1,
                c2,
            ) ==> value_at(integ.fields@[j].1.values@, c2) <= value_at(
                integ.fields@[j].1.values@,
                c1,
            ) + step_cost(terrain, c2)
    &&& forall|j: int| 0 <= j < ff.map@.len() ==> flow_table_wf((#[trigger] ff.map@[j]).1@)
    &&& forall|j: int, c: SpatialHashCell, m: SpatialHashCell|
        #![trigger ff.map@[j].1@.contains_key(cell_key_spec(c)), lone_exit(terrain, c, m)]
        0 <= j < ff.map@.len() && ff.map@[j].1@.contains_key(cell_key_spec(c)) && lone_exit(
            terrain,
            c,
            m,
        ) && value_at(integ.fields@[j].1.values@, m) < UNREACHED ==> points_along(
            flow_at(ff.map@[j].1@, c),
            m.0 - c.0,
            m.1 - c.1,
        )
    &&& forall|j: int, c: SpatialHashCell|
        #![trigger ff.map@[j].1@.contains_key(cell_key_spec(c))]
        0 <= j < ff.map@.len() ==> (ff.map@[j].1@.contains_key(cell_key_spec(c))
            <==> (integ.fields@[j].1.values@.contains_key(cell_key_spec(c)) && 1 <= value_at(
            integ.fields@[j].1.values@,
            c,
        ) < UNREACHED))
}

/// Linear membership scan over the collected team list.
fn contains_team(teams: &Vec<TeamValue>, t: TeamValue) -> (r: bool)
    ensures
        r == teams@.contains(t),
{
    let n = teams.len();
    let mut i: usize = 0;
    while i < n
        invariant
            n == teams@.len(),
            0 <= i <= n,
            forall|j: int| 0 <= j < i ==> #[trigger] teams@[j] != t,
        decreases n - i,
    {
        if teams[i] == t {
            proof {
                assert(teams@[i as int] == t);
            }
            return true;
        }
        i = i + 1;
    }
    proof {
        if teams@.contains(t) {
            let j = choose|j: int| 0 <= j < teams@.len() && teams@[j] == t;
            assert(false);
        }
    }
    false
}

/// Builds the per-faction flow and integration fields for one cycle: the
/// agents' occupied cells are grouped by alignment, every faction present
/// is seeded with the cells of all its goal-seeding enemies, and the
/// wavefront and gradient passes run once per faction.
pub fn build_flow_fields(
    agents: &Vec<(TeamAlignment, Position)>,
    terrain: &TerrainMap,
    max_convolution_length: i32,
) -> (out: (FlowFieldsTowardsEnemies, IntegrationFields))
    requires
        terrain.wf(),
        1 <= max_convolution_length <= 64,
        forall|k: int|
            0 <= k < agents@.len() ==> -crate::coords::AGENT_LIMIT <= (#[trigger] agents@[k]).1.x
                <= crate::coords::AGENT_LIMIT && -crate::coords::AGENT_LIMIT <= agents@[k].1.y
                <= crate::coords::AGENT_LIMIT,
    ensures
        out.0.cell_size == terrain.cell_size,
        flow_fields_model(out.0, out.1, agents@, *terrain),
{
    let cs = terrain.cell_size;
    let n = agents.len();

    // Collect the distinct alignments present.
    let mut teams: Vec<TeamValue> = Vec::new();
    let mut k: usize = 0;
    while k < n
        invariant
            n == agents@.len(),
            0 <= k <= n,
            distinct_team_keys(teams@),
            forall|t: TeamValue| #[trigger] teams@.contains(t) ==> exists|kk: int|
                0 <= kk < n && (#[trigger] agents@[kk]).0.alignment == t,
            forall|kk: int|
                0 <= kk < k ==> teams@.contains((#[trigger] agents@[kk]).0.alignment),
        decreases n - k,
    {
        let t = agents[k].0.alignment;
        if !contains_team(&teams, t) {
            let ghost old_teams = teams@;
            teams.push(t);
            proof {
                broadcast use vstd::seq_lib::lemma_seq_contains_after_push;

                assert(teams@[old_teams.len() as int] == t);
                assert forall|i: int, j: int|
                    0 <= i < teams@.len() && 0 <= j < teams@.len() && i != j implies #[trigger] teams@[i]
                    != #[trigger] teams@[j] by {
                    if i < old_teams.len() && j < old_teams.len() {
                    } else if i < old_teams.len() {
                        assert(old_teams.contains(old_teams[i]));
                    } else if j < old_teams.len() {
                        assert(old_teams.contains(old_teams[j]));
                    }
                }
                assert forall|t2: TeamValue| #[trigger] teams@.contains(t2) implies exists|kk: int|
                    0 <= kk < n && (#[trigger] agents@[kk]).0.alignment == t2 by {
                    if t2 == t {
                        assert(agents@[k as int].0.alignment == t);
                    } else {
                        assert(old_teams.contains(t2));
                    }
                }
            }
        }
        proof {
            assert(agents@[k as int].0.alignment == t);
        }
        k = k + 1;
    }

    let nt = teams.len();
    let mut ff_map: Vec<(TeamValue, HashMap<u64, FlowVector>)> = Vec::new();
    let mut integ_fields: Vec<(TeamValue, IntegrationField)> = Vec::new();
    let mut ti: usize = 0;
    while ti < nt
        invariant
            n == agents@.len(),
            nt == teams@.len(),
            0 <= ti <= nt,
            cs == terrain.cell_size,
            terrain.wf(),
            1 <= max_convolution_length <= 64,
            forall|k2: int|
                0 <= k2 < agents@.len() ==> -crate::coords::AGENT_LIMIT <= (
                #[trigger] agents@[k2]).1.x <= crate::coords::AGENT_LIMIT
                    && -crate::coords::AGENT_LIMIT <= agents@[k2].1.y
                    <= crate::coords::AGENT_LIMIT,
            distinct_team_keys(teams@),
            forall|t: TeamValue| #[trigger] teams@.contains(t) ==> team_present(agents@, t),
            forall|kk: int|
                0 <= kk < n ==> teams@.contains((#[trigger] agents@[kk]).0.alignment),
            ff_map@.len() == ti,
            integ_fields@.len() == ti,
            forall|j: int| 0 <= j < ti ==> (#[trigger] ff_map@[j]).0 == teams@[j],
            forall|j: int| 0 <= j < ti ==> (#[trigger] integ_fields@[j]).0 == teams@[j],
            forall|j: int, c: SpatialHashCell|
                #![trigger value_at(integ_fields@[j].1.values@, c)]
                0 <= j < ti && enemy_goal_cell(agents@, integ_fields@[j].0, cs as int, c)
                    && pathable_spec(terrain.cell_at(c)) ==> value_at(
                    integ_fields@[j].1.values@,
                    c,
                ) == 0,
            forall|j: int, c: SpatialHashCell|
                #![trigger value_at(integ_fields@[j].1.values@, c)]
                0 <= j < ti && value_at(integ_fields@[j].1.values@, c) < UNREACHED
                    ==> enemy_goal_cell(agents@, integ_fields@[j].0, cs as int, c)
                    || pathable_spec(terrain.cell_at(c)),
            forall|j: int, c: SpatialHashCell|
                #![trigger value_at(integ_fields@[j].1.values@, c)]
                0 <= j < ti && value_at(integ_fields@[j].1.values@, c) < UNREACHED ==> exists|
                    p: Seq<SpatialHashCell>,
                |
                    #[trigger] steps_ok(*terrain, p) && enemy_goal_cell(
                        agents@,
                        integ_fields@[j].0,
                        cs as int,
                        p[0],
                    ) && p[p.len() - 1] == c && path_cost(*terrain, p) == value_at(
                        integ_fields@[j].1.values@,
                        c,
                    ),
            forall|j: int|
                #![trigger integ_fields@[j]]
                0 <= j < ti ==> forall|
                    c1: SpatialHashCell,
                    c2: SpatialHashCell,
                |
                    value_at(integ_fields@[j].1.values@, c1) < UNREACHED && #[trigger] step_ok(
                        *terrain,
                        c1,
                        c2,
                    ) ==> value_at(integ_fields@[j].1.values@, c2) <= value_at(
                        integ_fields@[j].1.values@,
                        c1,
                    ) + step_cost(*terrain, c2),
            forall|j: int| 0 <= j < ti ==> flow_table_wf((#[trigger] ff_map@[j]).1@),
            forall|j: int, c: SpatialHashCell, m: SpatialHashCell|
                #![trigger ff_map@[j].1@.contains_key(cell_key_spec(c)), lone_exit(*terrain, c, m)]
                0 <= j < ti && ff_map@[j].1@.contains_key(cell_key_spec(c)) && lone_exit(
                    *terrain,
                    c,
                    m,
                ) && value_at(integ_fields@[j].1.values@, m) < UNREACHED ==> points_along(
                    flow_at(ff_map@[j].1@, c),
                    m.0 - c.0,
                    m.1 - c.1,
                ),
            forall|j: int, c: SpatialHashCell|
                #![trigger ff_map@[j].1@.contains_key(cell_key_spec(c))]
                0 <= j < ti ==> (ff_map@[j].1@.contains_key(cell_key_spec(c)) <==> (
                integ_fields@[j].1.values@.contains_key(cell_key_spec(c)) && 1 <= value_at(
                    integ_fields@[j].1.values@,
                    c,
                ) < UNREACHED)),
        decreases nt - ti,
    {
        let team = teams[ti];
        // Seeds: every cell occupied by a goal-seeding agent of another
        // alignment.
        let mut seeds: Vec<SpatialHashCell> = Vec::new();
        let mut ak: usize = 0;
        while ak < n
            invariant
                n == agents@.len(),
                0 <= ak <= n,
                cs == terrain.cell_size,
                terrain.wf(),
                forall|k2: int|
                    0 <= k2 < agents@.len() ==> -crate::coords::AGENT_LIMIT <= (
                    #[trigger] agents@[k2]).1.x <= crate::coords::AGENT_LIMIT
                        && -crate::coords::AGENT_LIMIT <= agents@[k2].1.y
                        <= crate::coords::AGENT_LIMIT,
                forall|i: int|
                    0 <= i < seeds@.len() ==> -COORD_LIMIT <= (#[trigger] seeds@[i]).0
                        <= COORD_LIMIT && -COORD_LIMIT <= seeds@[i].1 <= COORD_LIMIT,
                forall|c: SpatialHashCell| #[trigger] seeds@.contains(c) ==> enemy_goal_cell(
                    agents@,
                    team,
                    cs as int,
                    c,
                ),
                forall|k2: int|
                    0 <= k2 < ak && (#[trigger] agents@[k2]).0.alignment != team
                        && seeds_as_goal_spec(agents@[k2].0.alignment) ==> seeds@.contains(
                        cell_of_point_spec(
                            agents@[k2].1.x as int,
                            agents@[k2].1.y as int,
                            cs as int,
                        ),
                    ),
            decreases n - ak,
        {
            let (alignment, position) = agents[ak];
            if !(alignment.alignment == team) && seeds_as_goal(alignment.alignment) {
                let cell = crate::coords::get_point_spatial_hash(position, cs);
                let ghost old_seeds = seeds@;
                seeds.push(cell);
                proof {
                    broadcast use vstd::seq_lib::lemma_seq_contains_after_push;

                    assert(agents@[ak as int].0.alignment == alignment.alignment);
                    assert(enemy_goal_cell(agents@, team, cs as int, cell)) by {
                        assert(agents@[ak as int].0.alignment != team && seeds_as_goal_spec(
                            agents@[ak as int].0.alignment,
                        ) && cell == cell_of_point_spec(
                            agents@[ak as int].1.x as int,
                            agents@[ak as int].1.y as int,
                            cs as int,
                        ));
                    }
                }
            }
            ak = ak + 1;
        }
        let integ = build_integration_field(terrain, &seeds);
        let ff = build_flow_field(terrain, &integ, max_convolution_length);
        proof {
            // Seed facts carry over to the goal-cell characterization.
            assert forall|c: SpatialHashCell|
                enemy_goal_cell(agents@, team, cs as int, c) && pathable_spec(terrain.cell_at(c))
                implies value_at(integ.values@, c) == 0 by {
                let k2 = choose|k2: int|
                    0 <= k2 < agents@.len() && (#[trigger] agents@[k2]).0.alignment != team
                        && seeds_as_goal_spec(agents@[k2].0.alignment) && c == cell_of_point_spec(
                        agents@[k2].1.x as int,
                        agents@[k2].1.y as int,
                        cs as int,
                    );
                assert(seeds@.contains(c));
            }
        }
        let ghost pre_ff = ff_map@;
        let ghost pre_in = integ_fields@;
        ff_map.push((team, ff.table));
        integ_fields.push((team, integ));
        proof {
            let j0 = ti as int;
            assert(ff_map@[j0].0 == team && integ_fields@[j0].0 == team);
            assert(integ_fields@[j0].1 == integ);
            assert(forall|j: int| 0 <= j < j0 ==> #[trigger] ff_map@[j] == pre_ff[j]);
            assert(forall|j: int| 0 <= j < j0 ==> #[trigger] integ_fields@[j] == pre_in[j]);
            assert(teams@[j0] == team);
            assert forall|j: int| 0 <= j < j0 + 1 implies (#[trigger] ff_map@[j]).0 == teams@[j] by {
                if j < j0 {
                    assert(ff_map@[j] == pre_ff[j]);
                }
            }
            assert forall|j: int|
                0 <= j < j0 + 1 implies (#[trigger] integ_fields@[j]).0 == teams@[j] by {
                if j < j0 {
                    assert(integ_fields@[j] == pre_in[j]);
                }
            }
            // The freshly built entry satisfies every per-entry clause.
            assert forall|c: SpatialHashCell|
                value_at(integ_fields@[j0].1.values@, c) < UNREACHED implies enemy_goal_cell(
                agents@,
                integ_fields@[j0].0,
                cs as int,
                c,
            ) || pathable_spec(terrain.cell_at(c)) by {
                assert(value_at(integ.values@, c) < UNREACHED);
                if seeds@.contains(c) {
                    assert(enemy_goal_cell(agents@, team, cs as int, c));
                }
            }
            assert forall|c: SpatialHashCell|
                enemy_goal_cell(agents@, integ_fields@[j0].0, cs as int, c) && pathable_spec(
                    terrain.cell_at(c),
                ) implies value_at(integ_fields@[j0].1.values@, c) == 0 by {
                let k2 = choose|k2: int|
                    0 <= k2 < agents@.len() && (#[trigger] agents@[k2]).0.alignment != team
                        && seeds_as_goal_spec(agents@[k2].0.alignment) && c == cell_of_point_spec(
                        agents@[k2].1.x as int,
                        agents@[k2].1.y as int,
                        cs as int,
                    );
                assert(seeds@.contains(c));
                assert(value_at(integ.values@, c) == 0);
            }
            assert forall|c: SpatialHashCell|
                ff_map@[j0].1@.contains_key(cell_key_spec(c)) <==> (
                integ_fields@[j0].1.values@.contains_key(cell_key_spec(c)) && 1 <= value_at(
                    integ_fields@[j0].1.values@,
                    c,
                ) < UNREACHED) by {}
            assert forall|c: SpatialHashCell|
                value_at(integ_fields@[j0].1.values@, c) < UNREACHED implies exists|
                    p: Seq<SpatialHashCell>,
                |
                    #[trigger] steps_ok(*terrain, p) && enemy_goal_cell(
                        agents@,
                        integ_fields@[j0].0,
                        cs as int,
                        p[0],
                    ) && p[p.len() - 1] == c && path_cost(*terrain, p) == value_at(
                        integ_fields@[j0].1.values@,
                        c,
                    ) by {
                assert(value_at(integ.values@, c) < UNREACHED);
                let p = choose|p: Seq<SpatialHashCell>|
                    #[trigger] steps_ok(*terrain, p) && seeds@.contains(p[0]) && p[p.len() - 1]
                        == c && path_cost(*terrain, p) == value_at(integ.values@, c);
                assert(enemy_goal_cell(agents@, team, cs as int, p[0]));
                assert(steps_ok(*terrain, p) && enemy_goal_cell(
                    agents@,
                    integ_fields@[j0].0,
                    cs as int,
                    p[0],
                ) && p[p.len() - 1] == c && path_cost(*terrain, p) == value_at(
                    integ_fields@[j0].1.values@,
                    c,
                ));
            }
            assert(flow_table_wf(ff_map@[j0].1@));
            assert forall|c: SpatialHashCell, m: SpatialHashCell|
                #![trigger ff_map@[j0].1@.contains_key(cell_key_spec(c)), lone_exit(*terrain, c, m)]
                ff_map@[j0].1@.contains_key(cell_key_spec(c)) && lone_exit(*terrain, c, m)
                    && value_at(integ_fields@[j0].1.values@, m) < UNREACHED implies points_along(
                flow_at(ff_map@[j0].1@, c),
                m.0 - c.0,
                m.1 - c.1,
            ) by {
                assert(ff.table@.contains_key(cell_key_spec(c)));
                assert(value_at(integ.values@, m) < UNREACHED);
            }
        }
        ti = ti + 1;
    }
    let out_ff = FlowFieldsTowardsEnemies { map: ff_map, cell_size: cs };
    let out_integ = IntegrationFields { fields: integ_fields };
    proof {
        assert forall|i: int| 0 <= i < nt implies entry_teams(out_ff)[i] == teams@[i] by {
            assert(out_ff.map@[i].0 == teams@[i]);
        }
        assert(entry_teams(out_ff) =~= teams@);
        assert forall|t: TeamValue| team_present(agents@, t) implies exists|j: int|
            0 <= j < out_ff.map@.len() && (#[trigger] out_ff.map@[j]).0 == t by {
            let kk = choose|kk: int|
                0 <= kk < agents@.len() && (#[trigger] agents@[kk]).0.alignment == t;
            assert(teams@.contains(t));
            let j = choose|j: int| 0 <= j < teams@.len() && teams@[j] == t;
            assert(out_ff.map@[j].0 == t);
        }
        assert forall|j: int|
            0 <= j < out_ff.map@.len() implies team_present(agents@, (#[trigger] out_ff.map@[j]).0) by {
            assert(teams@.contains(teams@[j]));
        }
        assert forall|i: int, j: int|
            0 <= i < entry_teams(out_ff).len() && 0 <= j < entry_teams(out_ff).len() && i != j
            implies #[trigger] entry_teams(out_ff)[i] != #[trigger] entry_teams(out_ff)[j] by {
            assert(entry_teams(out_ff)[i] == teams@[i] && entry_teams(out_ff)[j] == teams@[j]);
        }
    }
    (out_ff, out_integ)
}

/// Reads the value one faction's table stores for a coordinate, with a
/// caller-chosen default for an absent faction or cell.
pub fn get_spatial_team_value<T: Copy>(
    field: &Vec<(TeamValue, HashMap<u64, T>)>,
    cell: SpatialHashCell,
    team: TeamValue,
    default: T,
) -> (r: T)
    requires
        forall|i: int, j: int|
            0 <= i < field@.len() && 0 <= j < field@.len() && i != j ==> (#[trigger] field@[i]).0
                != (#[trigger] field@[j]).0,
    ensures
        (forall|i: int| 0 <= i < field@.len() ==> (#[trigger] field@[i]).0 != team) ==> r
            == default,
        forall|i: int|
            0 <= i < field@.len() && (#[trigger] field@[i]).0 == team ==> r == (
            if field@[i].1@.contains_key(cell_key_spec(cell)) {
                field@[i].1@[cell_key_spec(cell)]
            } else {
                default
            }),
{
    let n = field.len();
    let mut i: usize = 0;
    while i < n
        invariant
            n == field@.len(),
            0 <= i <= n,
            forall|i2: int, j2: int|
                0 <= i2 < field@.len() && 0 <= j2 < field@.len() && i2 != j2 ==> (
                #[trigger] field@[i2]).0 != (#[trigger] field@[j2]).0,
            forall|j: int| 0 <= j < i ==> (#[trigger] field@[j]).0 != team,
        decreases n - i,
    {
        if field[i].0 == team {
            proof {
                assert((field@[i as int]).0 == team);
            }
            let r = match field[i].1.get(&cell_key(cell)) {
                Some(v) => *v,
                None => default,
            };
            proof {
                assert forall|j: int|
                    0 <= j < field@.len() && (#[trigger] field@[j]).0 == team implies j
                    == i as int by {
                    assert(field@[j].0 == field@[i as int].0);
                }
            }
            return r;
        }
        i = i + 1;
    }
    default
}

} // verus!
