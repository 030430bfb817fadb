//! Grid coordinates: mapping continuous (fixed-point) positions to discrete
//! cells, packing cells into hash-map keys, and enumerating cell
//! neighborhoods.

use vstd::arithmetic::div_mod::lemma_fundamental_div_mod;
use vstd::prelude::*;

verus! {

/// Largest magnitude allowed for an agent position component, radius or
/// cell size. Keeps every squared-distance computation inside `i64`.
pub const AGENT_LIMIT: i64 = 0x2000_0000;

/// Largest magnitude for a continuous coordinate handed to cell hashing;
/// an agent position offset by a radius stays within this bound.
pub const COORD_LIMIT: i64 = 0x4000_0000;

/// A discrete cell of the grid, identified by signed column and row.
#[derive(Debug, PartialEq, Eq, Structural, Hash, Clone, Copy, Default)]
pub struct SpatialHashCell(pub i32, pub i32);

/// Continuous position in fixed-point world units.
#[derive(Debug, PartialEq, Eq, Structural, Hash, Clone, Copy, Default)]
pub struct Position {
    pub x: i64,
    pub y: i64,
}

/// Bounding-circle radius of an agent, in the same fixed-point units.
#[derive(Debug, PartialEq, Eq, Structural, Clone, Copy)]
pub struct Radius {
    pub r: i64,
}

/// Packs a cell into a single `u64` usable as a hash-map key.
pub open spec fn cell_key_spec(c: SpatialHashCell) -> u64 {
    ((c.0 + 2147483648) * 4294967296 + (c.1 + 2147483648)) as u64
}

/// Two distinct cells never share a packed key.
pub proof fn lemma_cell_key_injective(a: SpatialHashCell, b: SpatialHashCell)
    requires
        cell_key_spec(a) == cell_key_spec(b),
    ensures
        a == b,
{
    let ka = (a.0 + 2147483648) * 4294967296 + (a.1 + 2147483648);
    let kb = (b.0 + 2147483648) * 4294967296 + (b.1 + 2147483648);
    assert(0 <= ka < 0x1_0000_0000_0000_0000) by (nonlinear_arith)
        requires
            -2147483648 <= a.0 <= 2147483647,
            -2147483648 <= a.1 <= 2147483647,
            ka == (a.0 + 2147483648) * 4294967296 + (a.1 + 2147483648),
    ;
    assert(0 <= kb < 0x1_0000_0000_0000_0000) by (nonlinear_arith)
        requires
            -2147483648 <= b.0 <= 2147483647,
            -2147483648 <= b.1 <= 2147483647,
            kb == (b.0 + 2147483648) * 4294967296 + (b.1 + 2147483648),
    ;
    assert(ka == kb);
    assert(a.0 == b.0 && a.1 == b.1) by (nonlinear_arith)
        requires
            ka == kb,
            ka == (a.0 + 2147483648) * 4294967296 + (a.1 + 2147483648),
            kb == (b.0 + 2147483648) * 4294967296 + (b.1 + 2147483648),
            -2147483648 <= a.0 <= 2147483647,
            -2147483648 <= a.1 <= 2147483647,
            -2147483648 <= b.0 <= 2147483647,
            -2147483648 <= b.1 <= 2147483647,
    ;
}

/// Packs a cell into its `u64` hash-map key.
pub fn cell_key(c: SpatialHashCell) -> (k: u64)
    ensures
        k == cell_key_spec(c),
{
    let hi: i64 = c.0 as i64 + 2147483648;
    let lo: i64 = c.1 as i64 + 2147483648;
    assert(0 <= hi < 4294967296 && 0 <= lo < 4294967296);
    assert((hi as u64) * 4294967296 + (lo as u64) == cell_key_spec(c)) by (nonlinear_arith)
        requires
            0 <= hi < 4294967296,
            0 <= lo < 4294967296,
            hi == c.0 + 2147483648,
            lo == c.1 + 2147483648,
            cell_key_spec(c) == ((c.0 + 2147483648) * 4294967296 + (c.1 + 2147483648)) as u64,
    ;
    (hi as u64) * 4294967296u64 + (lo as u64)
}

/// Floor division of a signed coordinate by a positive cell size; agrees
/// with mathematical division rounding toward negative infinity.
pub fn floor_div(a: i64, b: i64) -> (q: i64)
    requires
        1 <= b,
    ensures
        q == a as int / b as int,
{
    proof {
        lemma_fundamental_div_mod(a as int, b as int);
        let q = a as int / b as int;
        let r = a as int % b as int;
        assert(i64::MIN <= q <= i64::MAX) by (nonlinear_arith)
            requires
                a == b * q + r,
                0 <= r < b,
                1 <= b,
                i64::MIN <= a <= i64::MAX,
        ;
    }
    match a.checked_div_euclid(b) {
        Some(q) => q,
        None => 0,
    }
}

/// The cell containing a continuous point, by floor division per axis.
pub open spec fn cell_of_point_spec(px: int, py: int, cs: int) -> SpatialHashCell {
    SpatialHashCell((px / cs) as i32, (py / cs) as i32)
}

/// Floor-divided cell coordinates stay within `i32` when the point and
/// cell size are bounded.
pub proof fn lemma_cell_of_point_in_range(p: int, cs: int)
    requires
        -COORD_LIMIT <= p <= COORD_LIMIT,
        1 <= cs,
    ensures
        -COORD_LIMIT <= p / cs <= COORD_LIMIT,
{
    lemma_fundamental_div_mod(p, cs);
    let q = p / cs;
    let r = p % cs;
    assert(-COORD_LIMIT <= q <= COORD_LIMIT) by (nonlinear_arith)
        requires
            p == cs * q + r,
            0 <= r < cs,
            1 <= cs,
            -COORD_LIMIT <= p <= COORD_LIMIT,
    ;
}

/// Maps a continuous point to the discrete cell containing it.
pub fn get_point_spatial_hash(point: Position, cell_size: i64) -> (c: SpatialHashCell)
    requires
        1 <= cell_size,
        -COORD_LIMIT <= point.x <= COORD_LIMIT,
        -COORD_LIMIT <= point.y <= COORD_LIMIT,
    ensures
        c == cell_of_point_spec(point.x as int, point.y as int, cell_size as int),
        -COORD_LIMIT <= c.0 <= COORD_LIMIT,
        -COORD_LIMIT <= c.1 <= COORD_LIMIT,
{
    proof {
        lemma_cell_of_point_in_range(point.x as int, cell_size as int);
        lemma_cell_of_point_in_range(point.y as int, cell_size as int);
    }
    let cx = floor_div(point.x, cell_size);
    let cy = floor_div(point.y, cell_size);
    SpatialHashCell(cx as i32, cy as i32)
}

/// Whether `c` is one of the four orthogonal neighbors of `cell` that the
/// wavefront enumerates: horizontal neighbors are admitted one cell beyond
/// the column bounds, vertical ones one cell beyond the row bounds.
pub open spec fn orth_neighbor_ok(
    cell: SpatialHashCell,
    bounds: SpatialHashCell,
    c: SpatialHashCell,
) -> bool {
    ||| (c.1 == cell.1 && (c.0 == cell.0 - 1 || c.0 == cell.0 + 1) && -1 <= c.0 <= bounds.0)
    ||| (c.0 == cell.0 && (c.1 == cell.1 - 1 || c.1 == cell.1 + 1) && -1 <= c.1 <= bounds.1)
}

/// Whether `c` is one of the four diagonal neighbors of `cell` the
/// wavefront enumerates, admitted one cell beyond the bounds on each axis.
pub open spec fn diag_neighbor_ok(
    cell: SpatialHashCell,
    bounds: SpatialHashCell,
    c: SpatialHashCell,
) -> bool {
    &&& (c.0 == cell.0 - 1 || c.0 == cell.0 + 1)
    &&& (c.1 == cell.1 - 1 || c.1 == cell.1 + 1)
    &&& -1 <= c.0 <= bounds.0
    &&& -1 <= c.1 <= bounds.1
}

/// Appending a cell not yet present keeps an enumeration duplicate-free.
proof fn lemma_push_distinct_keeps_no_duplicates(s: Seq<SpatialHashCell>, c: SpatialHashCell)
    requires
        s.no_duplicates(),
        !s.contains(c),
    ensures
        s.push(c).no_duplicates(),
{
    let t = s.push(c);
    assert forall|i: int, j: int| 0 <= i < t.len() && 0 <= j < t.len() && i != j implies t[i]
        != t[j] by {
        if i < s.len() && j < s.len() {
        } else if i < s.len() {
            assert(s.contains(s[i]));
        } else if j < s.len() {
            assert(s.contains(s[j]));
        }
    }
}

/// The orthogonal neighbors of a cell, clipped per axis to one cell
/// beyond the bounds.
pub fn get_orthognal_neighbor_cells(cell: SpatialHashCell, bounds: SpatialHashCell) -> (result:
    Vec<SpatialHashCell>)
    requires
        -COORD_LIMIT - 1 <= cell.0 <= COORD_LIMIT + 1,
        -COORD_LIMIT - 1 <= cell.1 <= COORD_LIMIT + 1,
        0 <= bounds.0 <= COORD_LIMIT,
        0 <= bounds.1 <= COORD_LIMIT,
    ensures
        forall|c: SpatialHashCell| #[trigger] result@.contains(c) <==> orth_neighbor_ok(
            cell,
            bounds,
            c,
        ),
        result@.len() <= 4,
        result@.no_duplicates(),
{
    proof {
        broadcast use vstd::seq_lib::lemma_seq_contains_after_push;

    }
    let mut result: Vec<SpatialHashCell> = Vec::new();
    if cell.0 - 1 >= -1 && cell.0 - 1 <= bounds.0 {
        proof {
            lemma_push_distinct_keeps_no_duplicates(result@, SpatialHashCell((cell.0 - 1) as i32, cell.1));
        }
        result.push(SpatialHashCell(cell.0 - 1, cell.1));
    }
    if cell.0 + 1 >= -1 && cell.0 + 1 <= bounds.0 {
        proof {
            lemma_push_distinct_keeps_no_duplicates(result@, SpatialHashCell((cell.0 + 1) as i32, cell.1));
        }
        result.push(SpatialHashCell(cell.0 + 1, cell.1));
    }
    if cell.1 - 1 >= -1 && cell.1 - 1 <= bounds.1 {
        proof {
            lemma_push_distinct_keeps_no_duplicates(result@, SpatialHashCell(cell.0, (cell.1 - 1) as i32));
        }
        result.push(SpatialHashCell(cell.0, cell.1 - 1));
    }
    if cell.1 + 1 >= -1 && cell.1 + 1 <= bounds.1 {
        proof {
            lemma_push_distinct_keeps_no_duplicates(result@, SpatialHashCell(cell.0, (cell.1 + 1) as i32));
        }
        result.push(SpatialHashCell(cell.0, cell.1 + 1));
    }
    result
}

/// The diagonal neighbors of a cell, clipped to one cell beyond the
/// bounds on both axes.
pub fn get_diagonal_neighbor_cells(cell: SpatialHashCell, bounds: SpatialHashCell) -> (result: Vec<
    SpatialHashCell,
>)
    requires
        -COORD_LIMIT - 1 <= cell.0 <= COORD_LIMIT + 1,
        -COORD_LIMIT - 1 <= cell.1 <= COORD_LIMIT + 1,
        0 <= bounds.0 <= COORD_LIMIT,
        0 <= bounds.1 <= COORD_LIMIT,
    ensures
        forall|c: SpatialHashCell| #[trigger] result@.contains(c) <==> diag_neighbor_ok(
            cell,
            bounds,
            c,
        ),
        result@.len() <= 4,
        result@.no_duplicates(),
{
    proof {
        broadcast use vstd::seq_lib::lemma_seq_contains_after_push;

    }
    let mut result: Vec<SpatialHashCell> = Vec::new();
    if cell.0 - 1 >= -1 && cell.1 - 1 >= -1 && cell.0 - 1 <= bounds.0 && cell.1 - 1 <= bounds.1 {
        proof {
            lemma_push_distinct_keeps_no_duplicates(
                result@,
                SpatialHashCell((cell.0 - 1) as i32, (cell.1 - 1) as i32),
            );
        }
        result.push(SpatialHashCell(cell.0 - 1, cell.1 - 1));
    }
    if cell.0 - 1 >= -1 && cell.1 + 1 >= -1 && cell.0 - 1 <= bounds.0 && cell.1 + 1 <= bounds.1 {
        proof {
            lemma_push_distinct_keeps_no_duplicates(
                result@,
                SpatialHashCell((cell.0 - 1) as i32, (cell.1 + 1) as i32),
            );
        }
        result.push(SpatialHashCell(cell.0 - 1, cell.1 + 1));
    }
    if cell.0 + 1 >= -1 && cell.1 - 1 >= -1 && cell.0 + 1 <= bounds.0 && cell.1 - 1 <= bounds.1 {
        proof {
            lemma_push_distinct_keeps_no_duplicates(
                result@,
                SpatialHashCell((cell.0 + 1) as i32, (cell.1 - 1) as i32),
            );
        }
        result.push(SpatialHashCell(cell.0 + 1, cell.1 - 1));
    }
    if cell.0 + 1 >= -1 && cell.1 + 1 >= -1 && cell.0 + 1 <= bounds.0 && cell.1 + 1 <= bounds.1 {
        proof {
            lemma_push_distinct_keeps_no_duplicates(
                result@,
                SpatialHashCell((cell.0 + 1) as i32, (cell.1 + 1) as i32),
            );
        }
        result.push(SpatialHashCell(cell.0 + 1, cell.1 + 1));
    }
    result
}

/// Largest supported convolution ring index.
pub const RING_LIMIT: i32 = 1024;

/// Whether `c` lies on the ring at Chebyshev distance `s` around `cell`,
/// as the incremental convolution enumerates it: a row (or column) of the
/// ring is admitted only when the whole ring fits the bounds on that axis.
pub open spec fn ring_neighbor_ok(
    cell: SpatialHashCell,
    s: int,
    bounds: SpatialHashCell,
    c: SpatialHashCell,
) -> bool {
    ||| ((c.1 == cell.1 - s || c.1 == cell.1 + s) && cell.0 - s <= c.0 <= cell.0 + s && c.0 >= 0
        && cell.1 - s >= 0 && c.0 <= bounds.0 && cell.1 + s <= bounds.1)
    ||| ((c.0 == cell.0 - s || c.0 == cell.0 + s) && cell.1 - s <= c.1 <= cell.1 + s && c.1 >= 0
        && cell.0 - s >= 0 && c.1 <= bounds.1 && cell.0 + s <= bounds.0)
}

/// The cells of the convolution ring at distance `s` around `cell`
/// (possibly listing corner cells twice, as the row and column passes
/// both reach them).
pub fn get_convolution_neighbor_cells_increment(
    cell: SpatialHashCell,
    convolution_size: i32,
    bounds: SpatialHashCell,
) -> (result: Vec<SpatialHashCell>)
    requires
        -COORD_LIMIT - 1 <= cell.0 <= COORD_LIMIT + 1,
        -COORD_LIMIT - 1 <= cell.1 <= COORD_LIMIT + 1,
        0 <= bounds.0 <= COORD_LIMIT,
        0 <= bounds.1 <= COORD_LIMIT,
        1 <= convolution_size <= RING_LIMIT,
    ensures
        forall|c: SpatialHashCell| #[trigger] result@.contains(c) <==> ring_neighbor_ok(
            cell,
            convolution_size as int,
            bounds,
            c,
        ),
        result@.len() <= 8 * convolution_size + 8,
{
    proof {
        broadcast use vstd::seq_lib::lemma_seq_contains_after_push;

    }
    let s = convolution_size;
    let mut result: Vec<SpatialHashCell> = Vec::new();
    let y1 = cell.1 - s;
    let y2 = cell.1 + s;
    let x1 = cell.0 - s;
    let x2 = cell.0 + s;
    let mut x = x1;
    while x <= x2
        invariant
            x1 <= x <= x2 + 1,
            x1 == cell.0 - s,
            x2 == cell.0 + s,
            y1 == cell.1 - s,
            y2 == cell.1 + s,
            1 <= s <= RING_LIMIT,
            -COORD_LIMIT - 1 <= cell.0 <= COORD_LIMIT + 1,
            -COORD_LIMIT - 1 <= cell.1 <= COORD_LIMIT + 1,
            0 <= bounds.0 <= COORD_LIMIT,
            0 <= bounds.1 <= COORD_LIMIT,
            forall|c: SpatialHashCell| #[trigger] result@.contains(c) <==> ((c.1 == cell.1 - s
                || c.1 == cell.1 + s) && cell.0 - s <= c.0 < x && c.0 >= 0 && cell.1 - s >= 0
                && c.0 <= bounds.0 && cell.1 + s <= bounds.1),
            result@.len() <= 2 * (x - x1),
        decreases x2 + 1 - x,
    {
        proof {
            broadcast use vstd::seq_lib::lemma_seq_contains_after_push;

        }
        if x >= 0 && y1 >= 0 && x <= bounds.0 && y2 <= bounds.1 {
            result.push(SpatialHashCell(x, y1));
            result.push(SpatialHashCell(x, y2));
        }
        x = x + 1;
    }
    let ghost rows = result@;
    let mut y = y1;
    while y <= y2
        invariant
            y1 <= y <= y2 + 1,
            x1 == cell.0 - s,
            x2 == cell.0 + s,
            y1 == cell.1 - s,
            y2 == cell.1 + s,
            1 <= s <= RING_LIMIT,
            -COORD_LIMIT - 1 <= cell.0 <= COORD_LIMIT + 1,
            -COORD_LIMIT - 1 <= cell.1 <= COORD_LIMIT + 1,
            0 <= bounds.0 <= COORD_LIMIT,
            0 <= bounds.1 <= COORD_LIMIT,
            forall|c: SpatialHashCell| #[trigger] rows.contains(c) <==> ((c.1 == cell.1 - s || c.1
                == cell.1 + s) && cell.0 - s <= c.0 <= cell.0 + s && c.0 >= 0 && cell.1 - s >= 0
                && c.0 <= bounds.0 && cell.1 + s <= bounds.1),
            forall|c: SpatialHashCell| #[trigger] result@.contains(c) <==> (rows.contains(c) || ((
            c.0 == cell.0 - s || c.0 == cell.0 + s) && cell.1 - s <= c.1 < y && c.1 >= 0 && cell.0
                - s >= 0 && c.1 <= bounds.1 && cell.0 + s <= bounds.0)),
            rows.len() <= 2 * (2 * s + 1),
            result@.len() <= rows.len() + 2 * (y - y1),
        decreases y2 + 1 - y,
    {
        proof {
            broadcast use vstd::seq_lib::lemma_seq_contains_after_push;

        }
        if x1 >= 0 && y >= 0 && x2 <= bounds.0 && y <= bounds.1 {
            result.push(SpatialHashCell(x1, y));
            result.push(SpatialHashCell(x2, y));
        }
        y = y + 1;
    }
    result
}

/// Floor division is monotone in the dividend.
pub proof fn lemma_floor_div_monotone(a: int, b: int, cs: int)
    requires
        a <= b,
        1 <= cs,
    ensures
        a / cs <= b / cs,
{
    lemma_fundamental_div_mod(a, cs);
    lemma_fundamental_div_mod(b, cs);
    assert(a / cs <= b / cs) by (nonlinear_arith)
        requires
            a == cs * (a / cs) + a % cs,
            b == cs * (b / cs) + b % cs,
            0 <= a % cs < cs,
            0 <= b % cs < cs,
            a <= b,
            1 <= cs,
    ;
}

} // verus!
