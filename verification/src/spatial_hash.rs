//! Spatial hash table: buckets agent ids by the grid cells their bounding
//! circles overlap. Rebuilt wholesale every tick from current positions.

use std::collections::HashMap;

use crate::coords::{cell_key, cell_key_spec, get_point_spatial_hash, lemma_cell_key_injective,
    lemma_cell_of_point_in_range, lemma_floor_div_monotone, Position, Radius, SpatialHashCell,
    AGENT_LIMIT, COORD_LIMIT};
use vstd::prelude::*;

verus! {

/// Awareness radius of an agent: how far it scans for neighbors. Agents
/// without one still appear in the hash table but get no neighbor cache
/// entry of their own.
#[derive(Debug, PartialEq, Eq, Structural, Clone, Copy)]
pub struct SpatialAwareness {
    pub radius: i64,
}

/// Snapshot of one agent as consumed by the spatial structures.
#[derive(Debug, PartialEq, Eq, Structural, Clone, Copy)]
pub struct SpatialAgent {
    pub entity: u64,
    pub position: Position,
    pub radius: Radius,
    pub awareness: Option<SpatialAwareness>,
}

/// Coordinate bounds that keep all distance arithmetic inside `i64`.
pub open spec fn agent_wf(a: SpatialAgent) -> bool {
    &&& -AGENT_LIMIT <= a.position.x <= AGENT_LIMIT
    &&& -AGENT_LIMIT <= a.position.y <= AGENT_LIMIT
    &&& 0 <= a.radius.r <= AGENT_LIMIT
    &&& match a.awareness {
        Some(aw) => 0 <= aw.radius <= AGENT_LIMIT,
        None => true,
    }
}

pub open spec fn agents_wf(agents: Seq<SpatialAgent>) -> bool {
    forall|k: int| 0 <= k < agents.len() ==> agent_wf(#[trigger] agents[k])
}

/// Agent ids are opaque handles owned by an external entity store; the
/// spatial structures assume each snapshot lists every id once.
pub open spec fn distinct_entities(agents: Seq<SpatialAgent>) -> bool {
    forall|k1: int, k2: int|
        0 <= k1 < agents.len() && 0 <= k2 < agents.len() && k1 != k2 ==> (#[trigger] agents[k1]).entity
            != (#[trigger] agents[k2]).entity
}

/// Whether `id` is the entity id of one of the first `upto` agents.
pub open spec fn id_among(agents: Seq<SpatialAgent>, upto: int, id: u64) -> bool {
    exists|kk: int| 0 <= kk < upto && (#[trigger] agents[kk]).entity == id
}

/// Whether `c` occurs among the first `j` entries of `cells`.
pub open spec fn in_prefix(cells: Seq<SpatialHashCell>, j: int, c: SpatialHashCell) -> bool {
    exists|jj: int| 0 <= jj < j && #[trigger] cells[jj] == c
}

/// Whether cell `c` is overlapped by the axis-aligned square circumscribing
/// a circle of radius `r` at `pos`, on a grid of cell size `cs`.
pub open spec fn covers(pos: Position, r: int, cs: int, c: SpatialHashCell) -> bool {
    &&& (pos.x - r) / cs <= c.0 <= (pos.x + r) / cs
    &&& (pos.y - r) / cs <= c.1 <= (pos.y + r) / cs
}

/// Whether the bucket of cell `c` lists agent id `id`.
pub open spec fn bucket_has(t: Map<u64, Vec<u64>>, c: SpatialHashCell, id: u64) -> bool {
    &&& t.contains_key(cell_key_spec(c))
    &&& t[cell_key_spec(c)]@.contains(id)
}

/// The full characterization of a built table: an agent id sits in exactly
/// the buckets of the cells its bounding square overlaps, every bucket
/// entry belongs to some agent, and no bucket lists an id twice.
pub open spec fn table_models(t: Map<u64, Vec<u64>>, agents: Seq<SpatialAgent>, cs: int) -> bool {
    &&& forall|k: int, c: SpatialHashCell|
        0 <= k < agents.len() ==> (covers(
            (#[trigger] agents[k]).position,
            agents[k].radius.r as int,
            cs,
            c,
        ) <==> #[trigger] bucket_has(t, c, agents[k].entity))
    &&& forall|key: u64| #[trigger] t.contains_key(key) ==> t[key]@.no_duplicates()
    &&& forall|key: u64, i: int|
        t.contains_key(key) && 0 <= i < t[key]@.len() ==> id_among(
            agents,
            agents.len() as int,
            #[trigger] t[key]@[i],
        )
}

/// Buckets of agent ids keyed by packed grid cell, one recomputation
/// cycle's snapshot.
#[derive(Debug)]
pub struct SpatialHashTable {
    pub table: HashMap<u64, Vec<u64>>,
    pub cell_size: i64,
}

/// All cells whose union covers the axis-aligned bounding square of a
/// circle: the cell range between the hashes of the two extreme corners.
pub fn get_all_spatial_hashes_from_circle(position: Position, radius: i64, cell_size: i64) -> (
    result: Vec<SpatialHashCell>)
    requires
        1 <= cell_size,
        -AGENT_LIMIT <= position.x <= AGENT_LIMIT,
        -AGENT_LIMIT <= position.y <= AGENT_LIMIT,
        0 <= radius <= AGENT_LIMIT,
    ensures
        forall|c: SpatialHashCell| #[trigger] result@.contains(c) <==> covers(
            position,
            radius as int,
            cell_size as int,
            c,
        ),
        result@.no_duplicates(),
        ({
            let lo = crate::coords::cell_of_point_spec(
                position.x - radius,
                position.y - radius,
                cell_size as int,
            );
            let hi = crate::coords::cell_of_point_spec(
                position.x + radius,
                position.y + radius,
                cell_size as int,
            );
            let h = hi.1 - lo.1 + 1;
            &&& result@.len() == (hi.0 - lo.0 + 1) * h
            &&& forall|idx: int|
                0 <= idx < result@.len() ==> #[trigger] result@[idx] == SpatialHashCell(
                    (lo.0 + idx / h) as i32,
                    (lo.1 + idx % h) as i32,
                )
        }),
{
    proof {
        lemma_cell_of_point_in_range(position.x - radius, cell_size as int);
        lemma_cell_of_point_in_range(position.x + radius, cell_size as int);
        lemma_cell_of_point_in_range(position.y - radius, cell_size as int);
        lemma_cell_of_point_in_range(position.y + radius, cell_size as int);
        lemma_floor_div_monotone(position.x - radius, position.x + radius, cell_size as int);
        lemma_floor_div_monotone(position.y - radius, position.y + radius, cell_size as int);
    }
    let min_hash = get_point_spatial_hash(
        Position { x: position.x - radius, y: position.y - radius },
        cell_size,
    );
    let max_hash = get_point_spatial_hash(
        Position { x: position.x + radius, y: position.y + radius },
        cell_size,
    );
    assert(min_hash.0 == (position.x - radius) / (cell_size as int));
    assert(max_hash.0 == (position.x + radius) / (cell_size as int));
    assert(min_hash.1 == (position.y - radius) / (cell_size as int));
    assert(max_hash.1 == (position.y + radius) / (cell_size as int));
    let mut result: Vec<SpatialHashCell> = Vec::new();
    let mut x: i32 = min_hash.0;
    while x <= max_hash.0
        invariant
            min_hash.0 <= x <= max_hash.0 + 1,
            -COORD_LIMIT <= min_hash.0 <= max_hash.0 <= COORD_LIMIT,
            -COORD_LIMIT <= min_hash.1 <= max_hash.1 <= COORD_LIMIT,
            forall|c: SpatialHashCell| #[trigger] result@.contains(c) <==> (min_hash.0 <= c.0 < x
                && min_hash.1 <= c.1 <= max_hash.1),
            result@.no_duplicates(),
            result@.len() == (x - min_hash.0) * (max_hash.1 - min_hash.1 + 1),
            forall|idx: int|
                0 <= idx < result@.len() ==> #[trigger] result@[idx] == SpatialHashCell(
                    (min_hash.0 + idx / (max_hash.1 - min_hash.1 + 1)) as i32,
                    (min_hash.1 + idx % (max_hash.1 - min_hash.1 + 1)) as i32,
                ),
        decreases max_hash.0 + 1 - x,
    {
        let mut y: i32 = min_hash.1;
        while y <= max_hash.1
            invariant
                min_hash.0 <= x <= max_hash.0,
                -COORD_LIMIT <= min_hash.0 <= max_hash.0 <= COORD_LIMIT,
                min_hash.1 <= y <= max_hash.1 + 1,
                -COORD_LIMIT <= min_hash.1 <= max_hash.1 <= COORD_LIMIT,
                forall|c: SpatialHashCell| #[trigger] result@.contains(c) <==> ((min_hash.0 <= c.0
                    < x && min_hash.1 <= c.1 <= max_hash.1) || (c.0 == x && min_hash.1 <= c.1
                    < y)),
                result@.no_duplicates(),
                result@.len() == (x - min_hash.0) * (max_hash.1 - min_hash.1 + 1) + (y
                    - min_hash.1),
                forall|idx: int|
                    0 <= idx < result@.len() ==> #[trigger] result@[idx] == SpatialHashCell(
                        (min_hash.0 + idx / (max_hash.1 - min_hash.1 + 1)) as i32,
                        (min_hash.1 + idx % (max_hash.1 - min_hash.1 + 1)) as i32,
                    ),
            decreases max_hash.1 + 1 - y,
        {
            let cell = SpatialHashCell(x, y);
            assert(!result@.contains(cell));
            let ghost prev = result@;
            result.push(cell);
            proof {
                assert(result@ == prev.push(cell));
                // The appended cell sits at the row-major index its
                // coordinates encode.
                let h = max_hash.1 - min_hash.1 + 1;
                vstd::arithmetic::div_mod::lemma_fundamental_div_mod_converse(
                    prev.len() as int,
                    h,
                    x - min_hash.0,
                    y - min_hash.1,
                );
                assert forall|idx: int| 0 <= idx < result@.len() implies #[trigger] result@[idx]
                    == SpatialHashCell(
                    (min_hash.0 + idx / h) as i32,
                    (min_hash.1 + idx % h) as i32,
                ) by {
                    if idx < prev.len() {
                        assert(result@[idx] == prev[idx]);
                    } else {
                        assert(idx == prev.len());
                        assert(idx / h == x - min_hash.0 && idx % h == y - min_hash.1);
                    }
                }
                assert forall|c: SpatialHashCell| #[trigger] result@.contains(c) implies (
                    prev.contains(c) || c == cell) by {
                    let i = choose|i: int| 0 <= i < result@.len() && result@[i] == c;
                    if i < prev.len() {
                        assert(prev[i] == c);
                    }
                }
                assert forall|c: SpatialHashCell| prev.contains(c) implies #[trigger] result@.contains(
                    c,
                ) by {
                    let i = choose|i: int| 0 <= i < prev.len() && prev[i] == c;
                    assert(result@[i] == c);
                }
                assert(result@[prev.len() as int] == cell);
                assert(result@.contains(cell));
                assert forall|i: int, j: int|
                    0 <= i < result@.len() && 0 <= j < result@.len() && i != j implies result@[i]
                    != result@[j] by {
                    if i < prev.len() && j < prev.len() {
                        assert(prev[i] != prev[j]);
                    } else if i < prev.len() {
                        assert(prev.contains(prev[i]));
                    } else if j < prev.len() {
                        assert(prev.contains(prev[j]));
                    }
                }
            }
            y = y + 1;
        }
        proof {
            assert((x - min_hash.0) * (max_hash.1 - min_hash.1 + 1) + (max_hash.1 - min_hash.1 + 1)
                == (x + 1 - min_hash.0) * (max_hash.1 - min_hash.1 + 1)) by (nonlinear_arith);
        }
        x = x + 1;
    }
    result
}

/// Builds the spatial hash table for one cycle: appends every agent's id
/// to the bucket of each cell its bounding square overlaps.
pub fn build_spatial_hash_table(agents: &Vec<SpatialAgent>, cell_size: i64) -> (result:
    SpatialHashTable)
    requires
        1 <= cell_size <= AGENT_LIMIT,
        agents_wf(agents@),
        distinct_entities(agents@),
    ensures
        result.cell_size == cell_size,
        table_models(result.table@, agents@, cell_size as int),
{
    let mut table: HashMap<u64, Vec<u64>> = HashMap::new();
    let n = agents.len();
    let mut k: usize = 0;
    while k < n
        invariant
            n == agents@.len(),
            0 <= k <= n,
            1 <= cell_size <= AGENT_LIMIT,
            agents_wf(agents@),
            distinct_entities(agents@),
            forall|kk: int, c: SpatialHashCell|
                0 <= kk < k ==> (covers(
                    (#[trigger] agents@[kk]).position,
                    agents@[kk].radius.r as int,
                    cell_size as int,
                    c,
                ) <==> #[trigger] bucket_has(table@, c, agents@[kk].entity)),
            forall|kk: int, c: SpatialHashCell|
                k <= kk < n ==> !(#[trigger] bucket_has(table@, c, (#[trigger] agents@[kk]).entity)),
            forall|key: u64| #[trigger] table@.contains_key(key) ==> table@[key]@.no_duplicates(),
            forall|key: u64, i: int|
                table@.contains_key(key) && 0 <= i < table@[key]@.len() ==> id_among(
                    agents@,
                    k as int,
                    #[trigger] table@[key]@[i],
                ),
        decreases n - k,
    {
        let agent = agents[k];
        let cells = get_all_spatial_hashes_from_circle(agent.position, agent.radius.r, cell_size);
        let m = cells.len();
        let mut j: usize = 0;
        while j < m
            invariant
                n == agents@.len(),
                0 <= k < n,
                agent == agents@[k as int],
                m == cells@.len(),
                0 <= j <= m,
                1 <= cell_size <= AGENT_LIMIT,
                agents_wf(agents@),
                distinct_entities(agents@),
                cells@.no_duplicates(),
                forall|c: SpatialHashCell| #[trigger] cells@.contains(c) <==> covers(
                    agent.position,
                    agent.radius.r as int,
                    cell_size as int,
                    c,
                ),
                forall|c: SpatialHashCell| #[trigger] bucket_has(table@, c, agent.entity)
                    <==> in_prefix(cells@, j as int, c),
                forall|kk: int, c: SpatialHashCell|
                    0 <= kk < k ==> (covers(
                        (#[trigger] agents@[kk]).position,
                        agents@[kk].radius.r as int,
                        cell_size as int,
                        c,
                    ) <==> #[trigger] bucket_has(table@, c, agents@[kk].entity)),
                forall|kk: int, c: SpatialHashCell|
                    k < kk < n ==> !(#[trigger] bucket_has(table@, c, (#[trigger] agents@[kk]).entity)),
                forall|key: u64| #[trigger] table@.contains_key(key) ==> table@[key]@.no_duplicates(),
                forall|key: u64, i: int|
                    table@.contains_key(key) && 0 <= i < table@[key]@.len() ==> id_among(
                        agents@,
                        k + 1,
                        #[trigger] table@[key]@[i],
                    ),
            decreases m - j,
        {
            let cell = cells[j];
            let key = cell_key(cell);
            let ghost old_table = table@;
            let bucket_opt = table.remove(&key);
            match bucket_opt {
                Some(mut bucket) => {
                    bucket.push(agent.entity);
                    table.insert(key, bucket);
                }
                None => {
                    let bucket: Vec<u64> = vec![agent.entity];
                    table.insert(key, bucket);
                }
            }
            proof {
                let newb = table@[key]@;
                let oldb: Seq<u64> = if old_table.contains_key(key) {
                    old_table[key]@
                } else {
                    Seq::empty()
                };
                assert(table@.contains_key(key));
                assert(newb =~= oldb.push(agent.entity));
                assert(forall|kkey: u64|
                    kkey != key ==> (#[trigger] table@.contains_key(kkey)
                        <==> old_table.contains_key(kkey)));
                assert(forall|kkey: u64|
                    kkey != key && table@.contains_key(kkey) ==> #[trigger] table@[kkey]
                        == old_table[kkey]);
                // The pushed id was not yet in this bucket: the bucket so far
                // registers exactly the cells of the processed prefix, and
                // duplicate-freedom of `cells` excludes the current cell.
                assert(!oldb.contains(agent.entity)) by {
                    if old_table.contains_key(key) && oldb.contains(agent.entity) {
                        assert(bucket_has(old_table, cell, agent.entity));
                        let jj = choose|jj: int| 0 <= jj < j && #[trigger] cells@[jj] == cell;
                        assert(cells@[j as int] == cell);
                        assert(false);
                    }
                }
                // Bucket membership after the update, in both directions.
                assert forall|c: SpatialHashCell, id: u64| #[trigger] bucket_has(table@, c, id)
                    implies (bucket_has(old_table, c, id) || (c == cell && id
                    == agent.entity)) by {
                    if cell_key_spec(c) == key {
                        lemma_cell_key_injective(c, cell);
                        let i = choose|i: int| 0 <= i < newb.len() && newb[i] == id;
                        if i < oldb.len() {
                            assert(oldb[i] == id);
                            assert(oldb.contains(id));
                        }
                    }
                }
                assert forall|c: SpatialHashCell, id: u64|
                    bucket_has(old_table, c, id) implies #[trigger] bucket_has(table@, c, id) by {
                    if cell_key_spec(c) == key {
                        lemma_cell_key_injective(c, cell);
                        let i = choose|i: int| 0 <= i < oldb.len() && oldb[i] == id;
                        assert(newb[i] == id);
                        assert(newb.contains(id));
                    } else {
                        assert(table@[cell_key_spec(c)] == old_table[cell_key_spec(c)]);
                    }
                }
                assert(bucket_has(table@, cell, agent.entity)) by {
                    assert(newb[newb.len() - 1] == agent.entity);
                    assert(newb.contains(agent.entity));
                }
                // The current agent's buckets now register one more cell.
                assert forall|c: SpatialHashCell| #[trigger] bucket_has(table@, c, agent.entity)
                    implies in_prefix(cells@, j + 1, c) by {
                    if c == cell {
                        assert(cells@[j as int] == c);
                    } else {
                        assert(bucket_has(old_table, c, agent.entity));
                        let jj = choose|jj: int| 0 <= jj < j && #[trigger] cells@[jj] == c;
                        assert(0 <= jj < j + 1 && cells@[jj] == c);
                    }
                }
                assert forall|c: SpatialHashCell|
                    in_prefix(cells@, j + 1, c) implies #[trigger] bucket_has(table@, c,
                    agent.entity) by {
                    let jj = choose|jj: int| 0 <= jj < j + 1 && #[trigger] cells@[jj] == c;
                    if jj < j {
                        assert(in_prefix(cells@, j as int, c));
                        assert(bucket_has(old_table, c, agent.entity));
                    }
                }
                // No other agent's membership changed.
                assert forall|kk: int, c: SpatialHashCell|
                    0 <= kk < n && kk != k implies (#[trigger] bucket_has(table@, c,
                    (#[trigger] agents@[kk]).entity) <==> bucket_has(old_table, c,
                    agents@[kk].entity)) by {
                    assert(agents@[kk].entity != agent.entity);
                }
                // Duplicate freedom of the touched bucket.
                assert(newb.no_duplicates()) by {
                    assert forall|i1: int, i2: int|
                        0 <= i1 < newb.len() && 0 <= i2 < newb.len() && i1 != i2 implies newb[i1]
                        != newb[i2] by {
                        if i1 < oldb.len() && i2 < oldb.len() {
                            assert(oldb.no_duplicates());
                        } else if i1 < oldb.len() {
                            assert(oldb.contains(oldb[i1]));
                        } else if i2 < oldb.len() {
                            assert(oldb.contains(oldb[i2]));
                        }
                    }
                }
                // Every entry still belongs to an agent at or before `k`.
                assert forall|kkey: u64, i: int|
                    table@.contains_key(kkey) && 0 <= i < table@[kkey]@.len() implies id_among(
                    agents@,
                    k + 1,
                    #[trigger] table@[kkey]@[i],
                ) by {
                    if kkey == key {
                        if i < oldb.len() {
                            assert(old_table.contains_key(kkey));
                            assert(old_table[kkey]@[i] == newb[i]);
                            assert(id_among(agents@, k + 1, old_table[kkey]@[i]));
                        } else {
                            assert(newb[i] == agent.entity);
                            assert(0 <= k < k + 1 && agents@[k as int].entity == newb[i]);
                        }
                    } else {
                        assert(table@[kkey] == old_table[kkey]);
                        assert(id_among(agents@, k + 1, old_table[kkey]@[i]));
                    }
                }
            }
            j = j + 1;
        }
        proof {
            assert forall|c: SpatialHashCell| #[trigger] bucket_has(table@, c, agent.entity)
                implies covers(agent.position, agent.radius.r as int, cell_size as int, c) by {
                let jj = choose|jj: int| 0 <= jj < m && #[trigger] cells@[jj] == c;
                assert(cells@.contains(c));
            }
            assert forall|c: SpatialHashCell|
                covers((#[trigger] agents@[k as int]).position, agents@[k as int].radius.r as int,
                    cell_size as int, c) implies #[trigger] bucket_has(table@, c,
                agents@[k as int].entity) by {
                assert(cells@.contains(c));
                let jj = choose|jj: int| 0 <= jj < m && #[trigger] cells@[jj] == c;
                assert(in_prefix(cells@, m as int, c));
            }
        }
        k = k + 1;
    }
    SpatialHashTable { table, cell_size }
}

/// Bucket soundness: any two agents whose bounding circles overlap share
/// at least one bucket of the table built from their snapshot.
pub proof fn lemma_shared_bucket(
    t: Map<u64, Vec<u64>>,
    agents: Seq<SpatialAgent>,
    cs: int,
    k1: int,
    k2: int,
)
    requires
        table_models(t, agents, cs),
        agents_wf(agents),
        1 <= cs,
        0 <= k1 < agents.len(),
        0 <= k2 < agents.len(),
        (agents[k1].position.x - agents[k2].position.x) * (agents[k1].position.x
            - agents[k2].position.x) + (agents[k1].position.y - agents[k2].position.y) * (
        agents[k1].position.y - agents[k2].position.y) <= (agents[k1].radius.r
            + agents[k2].radius.r) * (agents[k1].radius.r + agents[k2].radius.r),
    ensures
        exists|c: SpatialHashCell| #[trigger] bucket_has(t, c, agents[k1].entity) && bucket_has(
            t,
            c,
            agents[k2].entity,
        ),
{
    let a = agents[k1];
    let b = agents[k2];
    let dx = a.position.x - b.position.x;
    let dy = a.position.y - b.position.y;
    let rs = a.radius.r + b.radius.r;
    assert(-rs <= dx <= rs && -rs <= dy <= rs) by (nonlinear_arith)
        requires
            dx * dx + dy * dy <= rs * rs,
            0 <= rs,
    ;
    // The two bounding intervals intersect on each axis; a point in the
    // intersection yields a cell covered by both agents.
    let mx = if a.position.x - a.radius.r >= b.position.x - b.radius.r {
        a.position.x - a.radius.r
    } else {
        b.position.x - b.radius.r
    };
    let my = if a.position.y - a.radius.r >= b.position.y - b.radius.r {
        a.position.y - a.radius.r
    } else {
        b.position.y - b.radius.r
    };
    assert(a.position.x - a.radius.r <= mx <= a.position.x + a.radius.r);
    assert(b.position.x - b.radius.r <= mx <= b.position.x + b.radius.r);
    assert(a.position.y - a.radius.r <= my <= a.position.y + a.radius.r);
    assert(b.position.y - b.radius.r <= my <= b.position.y + b.radius.r);
    let cx = mx / cs;
    let cy = my / cs;
    lemma_floor_div_monotone(a.position.x - a.radius.r, mx, cs);
    lemma_floor_div_monotone(mx, a.position.x + a.radius.r, cs);
    lemma_floor_div_monotone(b.position.x - b.radius.r, mx, cs);
    lemma_floor_div_monotone(mx, b.position.x + b.radius.r, cs);
    lemma_floor_div_monotone(a.position.y - a.radius.r, my, cs);
    lemma_floor_div_monotone(my, a.position.y + a.radius.r, cs);
    lemma_floor_div_monotone(b.position.y - b.radius.r, my, cs);
    lemma_floor_div_monotone(my, b.position.y + b.radius.r, cs);
    lemma_cell_of_point_in_range(mx, cs);
    lemma_cell_of_point_in_range(my, cs);
    let c = SpatialHashCell(cx as i32, cy as i32);
    assert(covers(a.position, a.radius.r as int, cs, c));
    assert(covers(b.position, b.radius.r as int, cs, c));
    assert(bucket_has(t, c, agents[k1].entity));
    assert(bucket_has(t, c, agents[k2].entity));
}

} // verus!
