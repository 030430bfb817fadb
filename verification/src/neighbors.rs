//! Multi-radius neighbor cache: for each agent with an awareness radius,
//! precomputed neighbor lists bucketed into a small ascending set of fixed
//! query radii, so behaviors can ask "who is within X" without rescanning
//! the grid.

use std::collections::{HashMap, HashSet};

use crate::coords::{cell_key, cell_key_spec, Position, SpatialHashCell, AGENT_LIMIT};
use crate::spatial_hash::{agent_wf, agents_wf, bucket_has, covers, distinct_entities,
    get_all_spatial_hashes_from_circle, id_among, table_models, SpatialAgent, SpatialHashTable};
use vstd::prelude::*;

verus! {

/// The fixed ascending set of query radii the cache is tiered by.
#[derive(Debug)]
pub struct SpatialNeighborsRadii(pub Vec<i64>);

/// Nonempty, strictly ascending, bounded tier radii.
pub open spec fn radii_wf(radii: Seq<i64>) -> bool {
    &&& radii.len() > 0
    &&& forall|i: int| 0 <= i < radii.len() ==> 0 <= #[trigger] radii[i] <= AGENT_LIMIT
    &&& forall|i: int, j: int| 0 <= i < j < radii.len() ==> #[trigger] radii[i] < #[trigger] radii[j]
}

/// Squared surface-to-surface distance of two agents (squared center
/// distance minus squared radius sum), floored at zero.
pub open spec fn surface_dist_sq(a: SpatialAgent, b: SpatialAgent) -> int {
    let dx = a.position.x - b.position.x;
    let dy = a.position.y - b.position.y;
    let rs = a.radius.r + b.radius.r;
    let s = dx * dx + dy * dy - rs * rs;
    if s > 0 {
        s
    } else {
        0
    }
}

pub open spec fn has_awareness(a: SpatialAgent) -> bool {
    a.awareness is Some
}

pub open spec fn awareness_radius(a: SpatialAgent) -> int {
    match a.awareness {
        Some(aw) => aw.radius as int,
        None => 0,
    }
}

/// Whether a scan by agent `p` (over the cells its awareness square
/// overlaps) reaches a bucket listing agent `q`: the two cell ranges
/// intersect on both axes.
pub open spec fn scan_hits(p: SpatialAgent, q: SpatialAgent, cs: int) -> bool {
    let aw = awareness_radius(p);
    &&& (p.position.x - aw) / cs <= (q.position.x + q.radius.r) / cs
    &&& (q.position.x - q.radius.r) / cs <= (p.position.x + aw) / cs
    &&& (p.position.y - aw) / cs <= (q.position.y + q.radius.r) / cs
    &&& (q.position.y - q.radius.r) / cs <= (p.position.y + aw) / cs
}

/// Whether the unordered pair `{p, q}` has been evaluated once the first
/// `done` agents have taken their scan turn: some member with awareness
/// has scanned and its scan reaches the other. Whichever member scans
/// first evaluates the pair; the other's later scan recognizes it as
/// settled and does not record it again.
pub open spec fn pair_scanned_upto(
    agents: Seq<SpatialAgent>,
    cs: int,
    done: int,
    p: int,
    q: int,
) -> bool {
    ||| (has_awareness(agents[p]) && p < done && scan_hits(agents[p], agents[q], cs))
    ||| (has_awareness(agents[q]) && q < done && scan_hits(agents[q], agents[p], cs))
}

/// Whether the pair was evaluated by a full build pass: either member's
/// awareness scan reaches the other.
pub open spec fn pair_scanned(agents: Seq<SpatialAgent>, cs: int, p: int, q: int) -> bool {
    pair_scanned_upto(agents, cs, agents.len() as int, p, q)
}

/// Mid-build evaluation state of a pair: either settled by one of the
/// first `done` full scan turns, or freshly paired with agent `ka` whose
/// scan is underway and has reached the candidate ids in `seen`.
pub open spec fn pair_done(
    agents: Seq<SpatialAgent>,
    cs: int,
    done: int,
    ka: int,
    seen: Set<u64>,
    p: int,
    q: int,
) -> bool {
    ||| pair_scanned_upto(agents, cs, done, p, q)
    ||| (p == ka && seen.contains(agents[q].entity))
    ||| (q == ka && seen.contains(agents[p].entity))
}

/// Decides `scan_hits(p, q)` at run time: whether the cell range of the
/// awareness square of `p` intersects the cell range of the bounding
/// square of `q` on both axes.
fn scan_reaches(p: &SpatialAgent, q: &SpatialAgent, cell_size: i64) -> (r: bool)
    requires
        1 <= cell_size <= AGENT_LIMIT,
        agent_wf(*p),
        agent_wf(*q),
    ensures
        r == scan_hits(*p, *q, cell_size as int),
{
    let aw = match p.awareness {
        Some(a) => a.radius,
        None => 0,
    };
    crate::coords::floor_div(p.position.x - aw, cell_size) <= crate::coords::floor_div(
        q.position.x + q.radius.r,
        cell_size,
    ) && crate::coords::floor_div(q.position.x - q.radius.r, cell_size)
        <= crate::coords::floor_div(p.position.x + aw, cell_size) && crate::coords::floor_div(
        p.position.y - aw,
        cell_size,
    ) <= crate::coords::floor_div(q.position.y + q.radius.r, cell_size)
        && crate::coords::floor_div(q.position.y - q.radius.r, cell_size)
        <= crate::coords::floor_div(p.position.y + aw, cell_size)
}

pub proof fn lemma_sds_symmetric(a: SpatialAgent, b: SpatialAgent)
    ensures
        surface_dist_sq(a, b) == surface_dist_sq(b, a),
{
    let dx = a.position.x - b.position.x;
    let dy = a.position.y - b.position.y;
    assert(dx * dx == (-dx) * (-dx) && dy * dy == (-dy) * (-dy)) by (nonlinear_arith);
}

/// Per-agent neighbor lists for each tier radius, holding
/// `(neighbor id, squared surface distance)` pairs.
#[derive(Debug)]
pub struct SpatialNeighborsCache {
    pub radii: Vec<i64>,
    pub vec_of_maps: Vec<HashMap<u64, Vec<(u64, u64)>>>,
}

/// Whether tier `i` of `maps` lists the edge `a -> (b, d)`.
pub open spec fn maps_have_edge(
    maps: Seq<HashMap<u64, Vec<(u64, u64)>>>,
    i: int,
    a: u64,
    b: u64,
    d: u64,
) -> bool {
    &&& maps[i]@.contains_key(a)
    &&& maps[i]@[a]@.contains((b, d))
}

/// Whether tier `i` of the cache lists the edge `a -> (b, d)`.
pub open spec fn has_edge(cache: SpatialNeighborsCache, i: int, a: u64, b: u64, d: u64) -> bool {
    maps_have_edge(cache.vec_of_maps@, i, a, b, d)
}

/// Whether agent id `a` is present at all in tier `i` of the cache.
pub open spec fn tier_lists(cache: SpatialNeighborsCache, i: int, a: u64) -> bool {
    cache.vec_of_maps@[i]@.contains_key(a)
}

/// No per-agent tier list names the same neighbor id twice: each
/// qualifying edge is recorded exactly once per tier per endpoint.
pub open spec fn maps_lists_unique(maps: Seq<HashMap<u64, Vec<(u64, u64)>>>) -> bool {
    forall|i: int, x: u64, j1: int, j2: int|
        #![trigger maps[i]@[x]@[j1], maps[i]@[x]@[j2]]
        0 <= i < maps.len() && maps[i]@.contains_key(x) && 0 <= j1 < maps[i]@[x]@.len() && 0 <= j2
            < maps[i]@[x]@.len() && j1 != j2 ==> (maps[i]@[x]@[j1]).0 != (maps[i]@[x]@[j2]).0
}

/// The full characterization of a built cache against the agent snapshot
/// it was built from: tier `i` holds exactly the evaluated pairs whose
/// clamped squared surface distance is within the squared tier radius,
/// recorded symmetrically under both endpoints with that distance.
pub open spec fn cache_models(
    cache: SpatialNeighborsCache,
    agents: Seq<SpatialAgent>,
    cs: int,
) -> bool {
    let n = agents.len() as int;
    &&& cache.radii@.len() == cache.vec_of_maps@.len()
    &&& radii_wf(cache.radii@)
    // Completeness: every evaluated, close enough pair is recorded both ways.
    &&& forall|i: int, p: int, q: int|
        0 <= i < cache.radii@.len() && 0 <= p < q < n && #[trigger] pair_scanned(agents, cs, p, q)
            && surface_dist_sq(agents[p], agents[q]) <= #[trigger] (cache.radii@[i] * cache.radii@[i])
            ==> has_edge(cache, i, agents[p].entity, agents[q].entity, surface_dist_sq(agents[p], agents[q]) as u64)
            && has_edge(cache, i, agents[q].entity, agents[p].entity, surface_dist_sq(agents[p], agents[q]) as u64)
    // Soundness: every recorded edge comes from an evaluated pair, carries
    // its exact distance, and respects the tier radius.
    &&& forall|i: int, x: u64, y: u64, d: u64|
        0 <= i < cache.radii@.len() && #[trigger] has_edge(cache, i, x, y, d) ==> exists|p: int, q: int|
            0 <= p < q < n && #[trigger] pair_scanned(agents, cs, p, q) && surface_dist_sq(
                agents[p],
                agents[q],
            ) == d && d <= cache.radii@[i] * cache.radii@[i] && ((x == agents[p].entity && y
                == agents[q].entity) || (x == agents[q].entity && y == agents[p].entity))
    // An id is listed in a tier only with at least one edge.
    &&& forall|i: int, x: u64|
        0 <= i < cache.radii@.len() && #[trigger] tier_lists(cache, i, x)
            ==> cache.vec_of_maps@[i]@[x]@.len() > 0
    // No tier list names the same neighbor twice.
    &&& maps_lists_unique(cache.vec_of_maps@)
}

impl SpatialNeighborsCache {
    /// An empty cache with one tier per configured radius.
    pub fn new(radii: Vec<i64>) -> (cache: SpatialNeighborsCache)
        ensures
            cache.radii@ == radii@,
            cache.vec_of_maps@.len() == radii@.len(),
            forall|i: int, x: u64| 0 <= i < radii@.len() ==> !(#[trigger] tier_lists(cache, i, x)),
            forall|i: int, x: u64, y: u64, d: u64|
                0 <= i < radii@.len() ==> !(#[trigger] has_edge(cache, i, x, y, d)),
    {
        let mut vec_of_maps: Vec<HashMap<u64, Vec<(u64, u64)>>> = Vec::new();
        let n = radii.len();
        let mut i: usize = 0;
        while i < n
            invariant
                0 <= i <= n,
                vec_of_maps@.len() == i,
                forall|k: int| 0 <= k < i ==> (#[trigger] vec_of_maps@[k])@ =~= Map::<u64, Vec<(u64, u64)>>::empty(),
            decreases n - i,
        {
            vec_of_maps.push(HashMap::new());
            i = i + 1;
        }
        SpatialNeighborsCache { radii, vec_of_maps }
    }
}

/// The tier a query distance snaps to: the first (smallest) configured
/// radius at least as large as the distance, or the last tier if none is.
pub open spec fn is_tier_index(radii: Seq<i64>, d: int, i: int) -> bool {
    &&& 0 <= i < radii.len()
    &&& forall|j: int| 0 <= j < i ==> #[trigger] radii[j] < d
    &&& (radii[i] >= d || i == radii.len() - 1)
}

pub open spec fn tier_index_spec(radii: Seq<i64>, d: int) -> int
    decreases radii.len(),
{
    if radii.len() <= 1 {
        0
    } else if radii[0] >= d {
        0
    } else {
        1 + tier_index_spec(radii.drop_first(), d)
    }
}

pub proof fn lemma_tier_index_valid(radii: Seq<i64>, d: int)
    requires
        radii.len() > 0,
    ensures
        is_tier_index(radii, d, tier_index_spec(radii, d)),
    decreases radii.len(),
{
    if radii.len() <= 1 {
    } else if radii[0] >= d {
    } else {
        lemma_tier_index_valid(radii.drop_first(), d);
        let t = tier_index_spec(radii.drop_first(), d);
        assert forall|j: int| 0 <= j < 1 + t implies #[trigger] radii[j] < d by {
            if j >= 1 {
                assert(radii.drop_first()[j - 1] < d);
            }
        }
        assert(radii.drop_first()[t] == radii[t + 1]);
    }
}

pub proof fn lemma_tier_index_unique(radii: Seq<i64>, d: int, i: int)
    requires
        radii.len() > 0,
        is_tier_index(radii, d, i),
    ensures
        i == tier_index_spec(radii, d),
{
    lemma_tier_index_valid(radii, d);
    let t = tier_index_spec(radii, d);
    if i < t {
        assert(radii[i] < d);
        assert(i == radii.len() - 1 || radii[i] >= d);
    } else if t < i {
        assert(radii[t] < d);
        assert(t == radii.len() - 1 || radii[t] >= d);
    }
}

/// The ids of the cached entries admitted by a squared query distance,
/// in cached order: what a neighbor query returns for a present agent.
pub open spec fn filtered_neighbor_ids(list: Seq<(u64, u64)>, dsq: u64) -> Seq<u64>
    decreases list.len(),
{
    if list.len() == 0 {
        Seq::empty()
    } else {
        let rest = filtered_neighbor_ids(list.drop_last(), dsq);
        if list[list.len() - 1].1 <= dsq {
            rest.push(list[list.len() - 1].0)
        } else {
            rest
        }
    }
}

/// Whether `id` qualifies as a neighbor of `entity` for a query at
/// `dist`: the snapped tier lists it within the squared query distance.
pub open spec fn neighbor_within(
    cache: SpatialNeighborsCache,
    entity: u64,
    id: u64,
    dist: int,
) -> bool {
    exists|dd: u64| #[trigger] has_edge(cache, tier_index_spec(cache.radii@, dist), entity, id, dd)
        && dd <= dist * dist
}

impl SpatialNeighborsCache {
    /// Neighbor query: snap the distance up to the nearest configured
    /// tier, look up the agent's cached list there, and filter it by the
    /// exact squared distance. `None` means the agent was absent from the
    /// cache altogether (as distinct from having no close neighbors).
    pub fn get_neighbors(&self, entity: u64, distance: i64) -> (result: Option<Vec<u64>>)
        requires
            0 <= distance <= AGENT_LIMIT,
            radii_wf(self.radii@),
            self.radii@.len() == self.vec_of_maps@.len(),
        ensures
            ({
                let ti = tier_index_spec(self.radii@, distance as int);
                match result {
                    None => !tier_lists(*self, ti, entity),
                    Some(v) => tier_lists(*self, ti, entity) && v@ == filtered_neighbor_ids(
                        self.vec_of_maps@[ti]@[entity]@,
                        (distance * distance) as u64,
                    ) && forall|id: u64| #[trigger] v@.contains(id) <==> neighbor_within(
                        *self,
                        entity,
                        id,
                        distance as int,
                    ),
                }
            }),
    {
        let ghost ti = tier_index_spec(self.radii@, distance as int);
        proof {
            lemma_tier_index_valid(self.radii@, distance as int);
        }
        let nr = self.radii.len();
        let mut index: usize = nr - 1;
        let mut j: usize = 0;
        let mut found = false;
        while j < nr
            invariant
                nr == self.radii@.len(),
                0 < nr,
                0 <= j <= nr,
                found ==> 0 <= index < nr && self.radii@[index as int] >= distance && (forall|
                    jj: int,
                |
                    0 <= jj < index ==> #[trigger] self.radii@[jj] < distance),
                !found ==> index == nr - 1 && (forall|jj: int|
                    0 <= jj < j ==> #[trigger] self.radii@[jj] < distance),
                found ==> index < j,
            decreases nr - j,
        {
            if !found && self.radii[j] >= distance {
                index = j;
                found = true;
            }
            j = j + 1;
        }
        proof {
            assert(is_tier_index(self.radii@, distance as int, index as int));
            lemma_tier_index_unique(self.radii@, distance as int, index as int);
        }
        let map = &self.vec_of_maps[index];
        let list_opt = map.get(&entity);
        match list_opt {
            None => None,
            Some(list) => {
                proof {
                    assert(distance * distance <= 0x1000_0000_0000_0000 && 0 <= distance
                        * distance) by (nonlinear_arith)
                        requires
                            0 <= distance <= 0x4000_0000,
                    ;
                }
                let dsq: u64 = (distance * distance) as u64;
                let m = list.len();
                let mut out: Vec<u64> = Vec::new();
                let mut li: usize = 0;
                while li < m
                    invariant
                        m == list@.len(),
                        0 <= li <= m,
                        out@ == filtered_neighbor_ids(list@.take(li as int), dsq),
                        forall|id: u64| #[trigger] out@.contains(id) <==> exists|ll: int|
                            0 <= ll < li && (#[trigger] list@[ll]).0 == id && list@[ll].1 <= dsq,
                    decreases m - li,
                {
                    let entry = list[li];
                    proof {
                        assert(list@.take(li + 1).drop_last() =~= list@.take(li as int));
                        assert(list@.take(li + 1)[li as int] == list@[li as int]);
                    }
                    if entry.1 <= dsq {
                        let ghost prev = out@;
                        out.push(entry.0);
                        proof {
                            broadcast use vstd::seq_lib::lemma_seq_contains_after_push;

                            assert(out@ == filtered_neighbor_ids(list@.take(li + 1), dsq));

                            assert forall|id: u64| #[trigger] out@.contains(id) implies exists|
                                ll: int,
                            |
                                0 <= ll < li + 1 && (#[trigger] list@[ll]).0 == id && list@[ll].1
                                    <= dsq by {
                                if prev.contains(id) {
                                    let ll = choose|ll: int|
                                        0 <= ll < li && (#[trigger] list@[ll]).0 == id
                                            && list@[ll].1 <= dsq;
                                    assert(0 <= ll < li + 1 && list@[ll].0 == id && list@[ll].1
                                        <= dsq);
                                } else {
                                    assert(list@[li as int].0 == id && list@[li as int].1 <= dsq);
                                }
                            }
                            assert forall|id: u64|
                                exists|ll: int|
                                    0 <= ll < li + 1 && (#[trigger] list@[ll]).0 == id
                                        && list@[ll].1 <= dsq implies #[trigger] out@.contains(
                                id,
                            ) by {
                                let ll = choose|ll: int|
                                    0 <= ll < li + 1 && (#[trigger] list@[ll]).0 == id
                                        && list@[ll].1 <= dsq;
                                if ll < li {
                                    assert(prev.contains(id));
                                }
                            }
                        }
                    } else {
                        proof {
                            assert(out@ == filtered_neighbor_ids(list@.take(li + 1), dsq));
                            assert forall|id: u64|
                                exists|ll: int|
                                    0 <= ll < li + 1 && (#[trigger] list@[ll]).0 == id
                                        && list@[ll].1 <= dsq implies #[trigger] out@.contains(
                                id,
                            ) by {
                                let ll = choose|ll: int|
                                    0 <= ll < li + 1 && (#[trigger] list@[ll]).0 == id
                                        && list@[ll].1 <= dsq;
                                assert(0 <= ll < li && list@[ll].0 == id && list@[ll].1 <= dsq);
                            }
                        }
                    }
                    li = li + 1;
                }
                proof {
                    assert(list@.take(m as int) =~= list@);
                    assert(out@ == filtered_neighbor_ids(list@, dsq));
                    assert(list@ == self.vec_of_maps@[ti]@[entity]@);
                    assert forall|id: u64| #[trigger] out@.contains(id) implies neighbor_within(
                        *self,
                        entity,
                        id,
                        distance as int,
                    ) by {
                        let ll = choose|ll: int|
                            0 <= ll < m && (#[trigger] list@[ll]).0 == id && list@[ll].1 <= dsq;
                        let dd = list@[ll].1;
                        assert(list@.contains((id, dd)));
                        assert(has_edge(*self, ti, entity, id, dd));
                    }
                    assert forall|id: u64|
                        neighbor_within(*self, entity, id, distance as int) implies #[trigger] out@.contains(
                        id,
                    ) by {
                        let dd = choose|dd: u64| #[trigger] has_edge(*self, ti, entity, id, dd)
                            && dd <= (distance as int) * (distance as int);
                        assert(list@.contains((id, dd)));
                        let ll = choose|ll: int| 0 <= ll < list@.len() && list@[ll] == (id, dd);
                        assert(list@[ll].0 == id && list@[ll].1 <= dsq);
                    }
                }
                Some(out)
            }
        }
    }
}

/// Neighbor symmetry: whenever a tier lists `y` among the neighbors of
/// `x` at some distance, the same tier lists `x` among the neighbors of
/// `y` at the same distance.
pub proof fn lemma_neighbor_symmetry(
    cache: SpatialNeighborsCache,
    agents: Seq<SpatialAgent>,
    cs: int,
    i: int,
    x: u64,
    y: u64,
    d: u64,
)
    requires
        cache_models(cache, agents, cs),
        0 <= i < cache.radii@.len(),
        has_edge(cache, i, x, y, d),
    ensures
        has_edge(cache, i, y, x, d),
{
    let (p, q) = choose|p: int, q: int|
        0 <= p < q < agents.len() && #[trigger] pair_scanned(agents, cs, p, q) && surface_dist_sq(
            agents[p],
            agents[q],
        ) == d && d <= cache.radii@[i] * cache.radii@[i] && ((x == agents[p].entity && y
            == agents[q].entity) || (x == agents[q].entity && y == agents[p].entity));
    assert(has_edge(cache, i, agents[p].entity, agents[q].entity, d) && has_edge(
        cache,
        i,
        agents[q].entity,
        agents[p].entity,
        d,
    ));
}

/// Tier monotonicity: a query at a smaller distance returns a subset (by
/// agent id) of a query at a larger distance, as long as both distances
/// stay within the configured tier ceiling.
pub proof fn lemma_tier_monotonicity(
    cache: SpatialNeighborsCache,
    agents: Seq<SpatialAgent>,
    cs: int,
    entity: u64,
    r1: int,
    r2: int,
)
    requires
        cache_models(cache, agents, cs),
        0 <= r1 <= r2 <= cache.radii@[cache.radii@.len() - 1],
    ensures
        forall|id: u64| neighbor_within(cache, entity, id, r1) ==> neighbor_within(
            cache,
            entity,
            id,
            r2,
        ),
        tier_lists(cache, tier_index_spec(cache.radii@, r1), entity) ==> tier_lists(
            cache,
            tier_index_spec(cache.radii@, r2),
            entity,
        ),
{
    let radii = cache.radii@;
    let t1 = tier_index_spec(radii, r1);
    let t2 = tier_index_spec(radii, r2);
    lemma_tier_index_valid(radii, r1);
    lemma_tier_index_valid(radii, r2);
    // The snapped tier grows with the distance.
    assert(t1 <= t2) by {
        if t2 < t1 {
            assert(radii[t2] < r1);
            assert(t2 == radii.len() - 1 || radii[t2] >= r2);
            assert(radii[radii.len() - 1] >= r2);
        }
    }
    // Whether snapped or saturated at the top, the chosen tier radius
    // covers the queried distance, because r2 stays under the ceiling.
    assert(radii[t2] >= r2);
    // Any edge admitted at the smaller tier reappears at the larger one.
    assert forall|id: u64, dd: u64|
        #[trigger] has_edge(cache, t1, entity, id, dd) && dd <= cache.radii@[t1]
            * cache.radii@[t1] implies has_edge(cache, t2, entity, id, dd) by {
        let (p, q) = choose|p: int, q: int|
            0 <= p < q < agents.len() && #[trigger] pair_scanned(agents, cs, p, q)
                && surface_dist_sq(agents[p], agents[q]) == dd && dd <= cache.radii@[t1]
                * cache.radii@[t1] && ((entity == agents[p].entity && id == agents[q].entity) || (
            entity == agents[q].entity && id == agents[p].entity));
        assert(radii[t1] <= radii[t2]);
        assert(radii[t1] * radii[t1] <= radii[t2] * radii[t2]) by (nonlinear_arith)
            requires
                0 <= radii[t1] <= radii[t2],
        ;
        assert(surface_dist_sq(agents[p], agents[q]) <= cache.radii@[t2] * cache.radii@[t2]);
    }
    assert forall|id: u64| neighbor_within(cache, entity, id, r1) implies neighbor_within(
        cache,
        entity,
        id,
        r2,
    ) by {
        let dd = choose|dd: u64| #[trigger] has_edge(cache, t1, entity, id, dd) && dd <= r1 * r1;
        let rt1 = radii[t1];
        assert(r1 <= rt1);
        assert(dd <= rt1 * rt1) by (nonlinear_arith)
            requires
                dd <= r1 * r1,
                0 <= r1 <= rt1,
        ;
        assert(has_edge(cache, t2, entity, id, dd));
        assert(dd <= r2 * r2) by (nonlinear_arith)
            requires
                dd <= r1 * r1,
                0 <= r1 <= r2,
        ;
    }
    if tier_lists(cache, t1, entity) {
        assert(cache.vec_of_maps@[t1]@[entity]@.len() > 0);
        let e = cache.vec_of_maps@[t1]@[entity]@[0];
        assert(cache.vec_of_maps@[t1]@[entity]@.contains(e));
        assert(has_edge(cache, t1, entity, e.0, e.1));
        assert(e.1 <= cache.radii@[t1] * cache.radii@[t1]) by {
            let (p, q) = choose|p: int, q: int|
                0 <= p < q < agents.len() && #[trigger] pair_scanned(agents, cs, p, q)
                    && surface_dist_sq(agents[p], agents[q]) == e.1 && e.1 <= cache.radii@[t1]
                    * cache.radii@[t1] && ((entity == agents[p].entity && e.0 == agents[q].entity)
                    || (entity == agents[q].entity && e.0 == agents[p].entity));
        }
        assert(has_edge(cache, t2, entity, e.0, e.1));
    }
}

/// Squared surface distance before clamping: may be negative when the two
/// circles overlap.
pub fn true_distance_squared(pos1: Position, pos2: Position, rad1: i64, rad2: i64) -> (s: i64)
    requires
        -AGENT_LIMIT <= pos1.x <= AGENT_LIMIT,
        -AGENT_LIMIT <= pos1.y <= AGENT_LIMIT,
        -AGENT_LIMIT <= pos2.x <= AGENT_LIMIT,
        -AGENT_LIMIT <= pos2.y <= AGENT_LIMIT,
        0 <= rad1 <= AGENT_LIMIT,
        0 <= rad2 <= AGENT_LIMIT,
    ensures
        s == (pos1.x - pos2.x) * (pos1.x - pos2.x) + (pos1.y - pos2.y) * (pos1.y - pos2.y) - (rad1
            + rad2) * (rad1 + rad2),
{
    let dx = pos1.x - pos2.x;
    let dy = pos1.y - pos2.y;
    let rs = rad1 + rad2;
    proof {
        assert(dx * dx <= 0x1000_0000_0000_0000 && dy * dy <= 0x1000_0000_0000_0000 && 0 <= dx * dx
            && 0 <= dy * dy && 0 <= rs * rs <= 0x1000_0000_0000_0000) by (nonlinear_arith)
            requires
                -0x4000_0000 <= dx <= 0x4000_0000,
                -0x4000_0000 <= dy <= 0x4000_0000,
                0 <= rs <= 0x4000_0000,
        ;
    }
    dx * dx + dy * dy - rs * rs
}

/// Appends `(b, d)` to the list of `a` in one tier map, creating the list
/// if absent; no other key changes.
fn add_edge_to_tier(map: &mut HashMap<u64, Vec<(u64, u64)>>, a: u64, b: u64, d: u64)
    ensures
        final(map)@.contains_key(a),
        final(map)@[a]@ == (if old(map)@.contains_key(a) {
            old(map)@[a]@
        } else {
            Seq::<(u64, u64)>::empty()
        }).push((b, d)),
        forall|k: u64| k != a ==> (#[trigger] final(map)@.contains_key(k) <==> old(map)@.contains_key(k)),
        forall|k: u64| k != a && final(map)@.contains_key(k) ==> #[trigger] final(map)@[k] == old(map)@[k],
{
    match map.remove(&a) {
        Some(mut list) => {
            list.push((b, d));
            map.insert(a, list);
        }
        None => {
            let list: Vec<(u64, u64)> = vec![(b, d)];
            map.insert(a, list);
            proof {
                assert(final(map)@[a]@ =~= Seq::<(u64, u64)>::empty().push((b, d)));
            }
        }
    }
}

/// Records a freshly evaluated pair: adds the symmetric edge `(a, b, d)`
/// to every tier whose squared radius admits `d`, and changes nothing
/// else.
fn record_pair(
    vec_of_maps: &mut Vec<HashMap<u64, Vec<(u64, u64)>>>,
    radii: &Vec<i64>,
    a: u64,
    b: u64,
    d: u64,
)
    requires
        radii_wf(radii@),
        old(vec_of_maps)@.len() == radii@.len(),
        a != b,
        forall|i: int, dd: u64|
            0 <= i < radii@.len() ==> !(#[trigger] maps_have_edge(old(vec_of_maps)@, i, a, b, dd)),
        forall|i: int, dd: u64|
            0 <= i < radii@.len() ==> !(#[trigger] maps_have_edge(old(vec_of_maps)@, i, b, a, dd)),
    ensures
        final(vec_of_maps)@.len() == radii@.len(),
        maps_lists_unique(old(vec_of_maps)@) ==> maps_lists_unique(final(vec_of_maps)@),
        forall|i: int, x: u64, y: u64, dd: u64|
            0 <= i < radii@.len() ==> (#[trigger] maps_have_edge(final(vec_of_maps)@, i, x, y, dd)
                <==> (maps_have_edge(old(vec_of_maps)@, i, x, y, dd) || (d
                <= radii@[i] * radii@[i] && dd == d && ((x == a && y == b) || (x == b && y
                == a))))),
        forall|i: int, x: u64|
            0 <= i < radii@.len() ==> ((#[trigger] final(vec_of_maps)@[i]@.contains_key(x)) <==> (old(vec_of_maps)@[i]@.contains_key(x) || (d <= radii@[i] * radii@[i] && (x == a || x == b)))),
        forall|i: int, x: u64|
            0 <= i < radii@.len() && #[trigger] final(vec_of_maps)@[i]@.contains_key(x) ==> final(vec_of_maps)@[i]@[x]@.len() >= (if old(vec_of_maps)@[i]@.contains_key(x) {
                old(vec_of_maps)@[i]@[x]@.len()
            } else {
                0
            }),
{
    let n = radii.len();
    let mut i: usize = 0;
    while i < n
        invariant
            n == radii@.len(),
            0 <= i <= n,
            radii_wf(radii@),
            a != b,
            vec_of_maps@.len() == n,
            forall|t: int, dd: u64|
                0 <= t < n ==> !(#[trigger] maps_have_edge(old(vec_of_maps)@, t, a, b, dd)),
            forall|t: int, dd: u64|
                0 <= t < n ==> !(#[trigger] maps_have_edge(old(vec_of_maps)@, t, b, a, dd)),
            maps_lists_unique(old(vec_of_maps)@) ==> maps_lists_unique(vec_of_maps@),
            forall|t: int, x: u64, y: u64, dd: u64|
                0 <= t < i ==> (#[trigger] maps_have_edge(vec_of_maps@, t, x, y, dd)
                    <==> (maps_have_edge(old(vec_of_maps)@, t, x, y, dd) || (d
                    <= radii@[t] * radii@[t] && dd == d && ((x == a && y == b) || (x == b && y
                    == a))))),
            forall|t: int, x: u64|
                0 <= t < i ==> ((#[trigger] vec_of_maps@[t]@.contains_key(x)) <==> (old(vec_of_maps)@[t]@.contains_key(x) || (d <= radii@[t] * radii@[t] && (x == a || x == b)))),
            forall|t: int, x: u64|
                0 <= t < i && #[trigger] vec_of_maps@[t]@.contains_key(x) ==> vec_of_maps@[t]@[x]@.len()
                    >= (if old(vec_of_maps)@[t]@.contains_key(x) {
                    old(vec_of_maps)@[t]@[x]@.len()
                } else {
                    0
                }),
            forall|t: int| i <= t < n ==> #[trigger] vec_of_maps@[t] == old(vec_of_maps)@[t],
        decreases n - i,
    {
        let rad = radii[i];
        proof {
            assert(rad * rad <= 0x1000_0000_0000_0000 && 0 <= rad * rad) by (nonlinear_arith)
                requires
                    0 <= rad <= 0x4000_0000,
            ;
        }
        let admit_here = d <= (rad * rad) as u64;
        if admit_here {
            let ghost pre = vec_of_maps@;
            let mut map = vec_of_maps.remove(i);
            let ghost m0 = map@;
            add_edge_to_tier(&mut map, a, b, d);
            let ghost m1 = map@;
            add_edge_to_tier(&mut map, b, a, d);
            let ghost m2 = map@;
            vec_of_maps.insert(i, map);
            proof {
                broadcast use vstd::seq_lib::lemma_seq_contains_after_push;

                assert(vec_of_maps@ =~= pre.update(i as int, map));
                assert(m0 == pre[i as int]@);
                // Untouched tiers keep their edges verbatim.
                assert forall|t: int, x: u64, y: u64, dd: u64|
                    0 <= t < n && t != i implies (#[trigger] maps_have_edge(vec_of_maps@, t, x, y,
                    dd) <==> maps_have_edge(pre, t, x, y, dd)) by {
                    assert(vec_of_maps@[t] == pre[t]);
                }
                assert forall|t: int, x: u64, y: u64, dd: u64|
                    0 <= t < i implies (maps_have_edge(pre, t, x, y, dd)
                    <==> (#[trigger] maps_have_edge(old(vec_of_maps)@, t, x, y, dd) || (d
                    <= radii@[t] * radii@[t] && dd == d && ((x == a && y == b) || (x == b && y
                    == a))))) by {
                    assert(maps_have_edge(pre, t, x, y, dd) <==> (maps_have_edge(
                        old(vec_of_maps)@,
                        t,
                        x,
                        y,
                        dd,
                    ) || (d <= radii@[t] * radii@[t] && dd == d && ((x == a && y == b) || (x == b
                        && y == a)))));
                }
                let la0: Seq<(u64, u64)> = if m0.contains_key(a) {
                    m0[a]@
                } else {
                    Seq::empty()
                };
                let lb0: Seq<(u64, u64)> = if m0.contains_key(b) {
                    m0[b]@
                } else {
                    Seq::empty()
                };
                // The first append touches only `a`, the second only `b`.
                assert(m1[a]@ == la0.push((b, d)));
                assert(m2[b]@ == lb0.push((a, d)));
                assert(m2[a] == m1[a]);
                assert(m2[a]@ == la0.push((b, d)));
                assert(forall|k: u64|
                    k != a && k != b ==> (#[trigger] m2.contains_key(k) <==> m0.contains_key(k)));
                assert(forall|k: u64| k != a && k != b && m2.contains_key(k) ==> #[trigger] m2[k]
                    == m0[k]);
                // Edge membership in the updated tier, both directions.
                assert forall|x: u64, y: u64, dd: u64| #[trigger] maps_have_edge(vec_of_maps@,
                    i as int, x, y, dd) implies (maps_have_edge(pre, i as int, x, y, dd) || (dd
                    == d && ((x == a && y == b) || (x == b && y == a)))) by {
                    if x == a {
                        assert(la0.push((b, d)).contains((y, dd)));
                    } else if x == b {
                        assert(lb0.push((a, d)).contains((y, dd)));
                    }
                }
                assert forall|x: u64, y: u64, dd: u64|
                    maps_have_edge(pre, i as int, x, y, dd) implies #[trigger] maps_have_edge(
                    vec_of_maps@, i as int, x, y, dd) by {
                    if x == a {
                        assert(m0[a]@.contains((y, dd)));
                        assert(la0.push((b, d)).contains((y, dd)));
                    } else if x == b {
                        assert(m0[b]@.contains((y, dd)));
                        assert(lb0.push((a, d)).contains((y, dd)));
                    }
                }
                assert(maps_have_edge(vec_of_maps@, i as int, a, b, d)) by {
                    assert(la0.push((b, d)).contains((b, d)));
                }
                assert(maps_have_edge(vec_of_maps@, i as int, b, a, d)) by {
                    assert(lb0.push((a, d)).contains((a, d)));
                }
                // No list gains a repeated neighbor id: the pair had no
                // edge yet, so the endpoint lists did not name each other.
                if maps_lists_unique(old(vec_of_maps)@) {
                    assert(maps_lists_unique(pre));
                    assert forall|t: int, x: u64, j1: int, j2: int|
                        #![trigger vec_of_maps@[t]@[x]@[j1], vec_of_maps@[t]@[x]@[j2]]
                        0 <= t < vec_of_maps@.len() && vec_of_maps@[t]@.contains_key(x) && 0 <= j1
                            < vec_of_maps@[t]@[x]@.len() && 0 <= j2 < vec_of_maps@[t]@[x]@.len()
                            && j1 != j2 implies (vec_of_maps@[t]@[x]@[j1]).0 != (
                    vec_of_maps@[t]@[x]@[j2]).0 by {
                        if t == i as int && x == a {
                            let l = vec_of_maps@[t]@[x]@;
                            assert(l == la0.push((b, d)));
                            if j1 < la0.len() && j2 < la0.len() {
                                assert(m0.contains_key(a));
                                assert(la0 == m0[a]@);
                                assert(pre[i as int]@[a]@[j1] == l[j1]);
                                assert(pre[i as int]@[a]@[j2] == l[j2]);
                            } else {
                                let jo = if j1 < la0.len() {
                                    j1
                                } else {
                                    j2
                                };
                                if (l[jo]).0 == b {
                                    let e = la0[jo];
                                    assert(e == l[jo]);
                                    assert(la0.contains(e));
                                    assert(m0.contains_key(a));
                                    assert(la0 == m0[a]@);
                                    assert(e == (b, e.1));
                                    assert(m0[a]@.contains((b, e.1)));
                                    assert(pre[i as int]@ == m0);
                                    assert(maps_have_edge(pre, i as int, a, b, e.1));
                                    assert(pre[i as int] == old(vec_of_maps)@[i as int]);
                                    assert(maps_have_edge(old(vec_of_maps)@, i as int, a, b, e.1));
                                    assert(false);
                                }
                            }
                        } else if t == i as int && x == b {
                            let l = vec_of_maps@[t]@[x]@;
                            assert(l == lb0.push((a, d)));
                            if j1 < lb0.len() && j2 < lb0.len() {
                                assert(m0.contains_key(b));
                                assert(lb0 == m0[b]@);
                                assert(pre[i as int]@[b]@[j1] == l[j1]);
                                assert(pre[i as int]@[b]@[j2] == l[j2]);
                            } else {
                                let jo = if j1 < lb0.len() {
                                    j1
                                } else {
                                    j2
                                };
                                if (l[jo]).0 == a {
                                    let e = lb0[jo];
                                    assert(e == l[jo]);
                                    assert(lb0.contains(e));
                                    assert(m0.contains_key(b));
                                    assert(lb0 == m0[b]@);
                                    assert(e == (a, e.1));
                                    assert(m0[b]@.contains((a, e.1)));
                                    assert(pre[i as int]@ == m0);
                                    assert(maps_have_edge(pre, i as int, b, a, e.1));
                                    assert(pre[i as int] == old(vec_of_maps)@[i as int]);
                                    assert(maps_have_edge(old(vec_of_maps)@, i as int, b, a, e.1));
                                    assert(false);
                                }
                            }
                        } else if t == i as int {
                            assert(m2[x] == m0[x]);
                            assert(pre[i as int]@[x]@[j1] == vec_of_maps@[t]@[x]@[j1]);
                            assert(pre[i as int]@[x]@[j2] == vec_of_maps@[t]@[x]@[j2]);
                        } else {
                            assert(vec_of_maps@[t] == pre[t]);
                            assert(pre[t]@[x]@[j1] == vec_of_maps@[t]@[x]@[j1]);
                            assert(pre[t]@[x]@[j2] == vec_of_maps@[t]@[x]@[j2]);
                        }
                    }
                }
            }
        }
        i = i + 1;
    }
}

/// If a scan by `p` reaches `q` (cell ranges intersect on both axes),
/// some cell is covered by both the awareness square of `p` and the
/// bounding square of `q`.
pub proof fn lemma_scan_hit_has_shared_cell(p: SpatialAgent, q: SpatialAgent, cs: int)
    requires
        agent_wf(p),
        agent_wf(q),
        1 <= cs,
        scan_hits(p, q, cs),
    ensures
        exists|c: SpatialHashCell| covers(p.position, awareness_radius(p), cs, c) && #[trigger] covers(
            q.position,
            q.radius.r as int,
            cs,
            c,
        ),
{
    let aw = awareness_radius(p);
    crate::coords::lemma_floor_div_monotone(p.position.x - aw, p.position.x + aw, cs);
    crate::coords::lemma_floor_div_monotone(p.position.y - aw, p.position.y + aw, cs);
    crate::coords::lemma_floor_div_monotone(
        q.position.x - q.radius.r,
        q.position.x + q.radius.r,
        cs,
    );
    crate::coords::lemma_floor_div_monotone(
        q.position.y - q.radius.r,
        q.position.y + q.radius.r,
        cs,
    );
    crate::coords::lemma_cell_of_point_in_range(p.position.x - aw, cs);
    crate::coords::lemma_cell_of_point_in_range(p.position.y - aw, cs);
    crate::coords::lemma_cell_of_point_in_range(q.position.x - q.radius.r, cs);
    crate::coords::lemma_cell_of_point_in_range(q.position.y - q.radius.r, cs);
    let cx = if (p.position.x - aw) / cs >= (q.position.x - q.radius.r) / cs {
        (p.position.x - aw) / cs
    } else {
        (q.position.x - q.radius.r) / cs
    };
    let cy = if (p.position.y - aw) / cs >= (q.position.y - q.radius.r) / cs {
        (p.position.y - aw) / cs
    } else {
        (q.position.y - q.radius.r) / cs
    };
    let c = SpatialHashCell(cx as i32, cy as i32);
    assert(covers(p.position, aw, cs, c));
    assert(covers(q.position, q.radius.r as int, cs, c));
}

/// Mid-build completeness: every pair already evaluated and close enough
/// for a tier is recorded symmetrically in that tier.
pub open spec fn edges_complete(
    cache: SpatialNeighborsCache,
    agents: Seq<SpatialAgent>,
    cs: int,
    done: int,
    ka: int,
    seen: Set<u64>,
) -> bool {
    forall|i: int, p: int, q: int|
        0 <= i < cache.radii@.len() && 0 <= p < q < agents.len() && #[trigger] pair_done(
            agents,
            cs,
            done,
            ka,
            seen,
            p,
            q,
        ) && surface_dist_sq(agents[p], agents[q]) <= #[trigger] (cache.radii@[i]
            * cache.radii@[i]) ==> has_edge(
            cache,
            i,
            agents[p].entity,
            agents[q].entity,
            surface_dist_sq(agents[p], agents[q]) as u64,
        ) && has_edge(
            cache,
            i,
            agents[q].entity,
            agents[p].entity,
            surface_dist_sq(agents[p], agents[q]) as u64,
        )
}

/// Mid-build soundness: every recorded edge comes from an evaluated pair
/// with its exact clamped distance, within the tier radius.
pub open spec fn edges_sound(
    cache: SpatialNeighborsCache,
    agents: Seq<SpatialAgent>,
    cs: int,
    done: int,
    ka: int,
    seen: Set<u64>,
) -> bool {
    forall|i: int, x: u64, y: u64, dd: u64|
        0 <= i < cache.radii@.len() && #[trigger] has_edge(cache, i, x, y, dd) ==> exists|
            p: int,
            q: int,
        |
            0 <= p < q < agents.len() && #[trigger] pair_done(agents, cs, done, ka, seen, p, q)
                && surface_dist_sq(agents[p], agents[q]) == dd && dd <= cache.radii@[i]
                * cache.radii@[i] && ((x == agents[p].entity && y == agents[q].entity) || (x
                == agents[q].entity && y == agents[p].entity))
}

/// Every listed id has at least one edge in its tier.
pub open spec fn tiers_nonempty(cache: SpatialNeighborsCache) -> bool {
    forall|i: int, x: u64|
        0 <= i < cache.vec_of_maps@.len() && #[trigger] tier_lists(cache, i, x)
            ==> cache.vec_of_maps@[i]@[x]@.len() > 0
}

/// The index lookup built for one pass: each agent id maps to its
/// position in the snapshot.
pub open spec fn index_models(m: Map<u64, usize>, agents: Seq<SpatialAgent>) -> bool {
    &&& forall|kk: int|
        0 <= kk < agents.len() ==> m.contains_key((#[trigger] agents[kk]).entity)
            && m[agents[kk].entity] == kk
    &&& forall|id: u64| #[trigger] m.contains_key(id) ==> 0 <= m[id] < agents.len()
        && agents[m[id] as int].entity == id
}

/// Whether candidate agent `kb` is covered by one of the first `cix`
/// scanned cells.
pub open spec fn covered_by_scan_cell(
    agents: Seq<SpatialAgent>,
    cells: Seq<SpatialHashCell>,
    cs: int,
    kb: int,
    cix: int,
) -> bool {
    covers(agents[kb].position, agents[kb].radius.r as int, cs, cells[cix])
}

/// A candidate pair that no earlier turn settled and that the current
/// scan has not yet reached carries no edge in any tier: soundness would
/// otherwise hand back an evaluation that never happened.
proof fn lemma_pair_unrecorded(
    cache: SpatialNeighborsCache,
    agents: Seq<SpatialAgent>,
    cs: int,
    ka: int,
    kb: int,
    seen: Set<u64>,
)
    requires
        distinct_entities(agents),
        0 <= ka < agents.len(),
        0 <= kb < agents.len(),
        kb != ka,
        edges_sound(cache, agents, cs, ka, ka, seen),
        !seen.contains(agents[kb].entity),
        !(has_awareness(agents[kb]) && kb < ka && scan_hits(agents[kb], agents[ka], cs)),
    ensures
        forall|i: int, dd: u64|
            0 <= i < cache.radii@.len() ==> !(#[trigger] maps_have_edge(
                cache.vec_of_maps@,
                i,
                agents[ka].entity,
                agents[kb].entity,
                dd,
            )),
        forall|i: int, dd: u64|
            0 <= i < cache.radii@.len() ==> !(#[trigger] maps_have_edge(
                cache.vec_of_maps@,
                i,
                agents[kb].entity,
                agents[ka].entity,
                dd,
            )),
{
    let n = agents.len() as int;
    assert(agents[ka].entity != agents[kb].entity);
    assert forall|i: int, dd: u64, x: u64, y: u64|
        0 <= i < cache.radii@.len() && ((x == agents[ka].entity && y == agents[kb].entity) || (x
            == agents[kb].entity && y == agents[ka].entity)) implies !(#[trigger] maps_have_edge(
        cache.vec_of_maps@,
        i,
        x,
        y,
        dd,
    )) by {
        if maps_have_edge(cache.vec_of_maps@, i, x, y, dd) {
            assert(has_edge(cache, i, x, y, dd));
            let (p, q) = choose|p: int, q: int|
                0 <= p < q < n && #[trigger] pair_done(agents, cs, ka, ka, seen, p, q)
                    && surface_dist_sq(agents[p], agents[q]) == dd && dd <= cache.radii@[i]
                    * cache.radii@[i] && ((x == agents[p].entity && y == agents[q].entity) || (x
                    == agents[q].entity && y == agents[p].entity));
            // The matched indices are exactly this pair, in one order.
            if agents[p].entity == agents[ka].entity {
                assert(p == ka);
                assert(agents[q].entity == agents[kb].entity);
                assert(q == kb);
                assert(!pair_scanned_upto(agents, cs, ka, p, q));
                assert(!seen.contains(agents[q].entity));
                assert(false);
            } else {
                assert(agents[q].entity == agents[ka].entity);
                assert(q == ka);
                assert(agents[p].entity == agents[kb].entity);
                assert(p == kb);
                assert(!pair_scanned_upto(agents, cs, ka, p, q));
                assert(!seen.contains(agents[p].entity));
                assert(false);
            }
        }
    }
}

/// Builds the neighbor cache for one cycle. Each agent with awareness
/// takes a scan turn in snapshot order: it gathers the hash-table buckets
/// its awareness square overlaps and, for every candidate found there,
/// records the pair symmetrically in every tier whose radius admits the
/// clamped squared surface distance -- unless an earlier candidate turn
/// already reached this agent and settled the pair.
pub fn build_spatial_neighbors_cache(
    agents: &Vec<SpatialAgent>,
    radii: &SpatialNeighborsRadii,
    spatial: &SpatialHashTable,
) -> (cache: SpatialNeighborsCache)
    requires
        agents_wf(agents@),
        distinct_entities(agents@),
        radii_wf(radii.0@),
        1 <= spatial.cell_size <= AGENT_LIMIT,
        table_models(spatial.table@, agents@, spatial.cell_size as int),
    ensures
        cache.radii@ == radii.0@,
        cache_models(cache, agents@, spatial.cell_size as int),
{
    let cs = spatial.cell_size;
    let ghost csi = cs as int;
    let n = agents.len();
    let nr = radii.0.len();

    // Copy of the configured radii owned by the cache.
    let mut radii_copy: Vec<i64> = Vec::new();
    let mut ri: usize = 0;
    while ri < nr
        invariant
            nr == radii.0@.len(),
            0 <= ri <= nr,
            radii_copy@.len() == ri,
            forall|j: int| 0 <= j < ri ==> #[trigger] radii_copy@[j] == radii.0@[j],
        decreases nr - ri,
    {
        radii_copy.push(radii.0[ri]);
        ri = ri + 1;
    }
    proof {
        assert(radii_copy@ =~= radii.0@);
    }

    // Index of each entity id in the snapshot.
    let mut index_of: HashMap<u64, usize> = HashMap::new();
    let mut k: usize = 0;
    while k < n
        invariant
            n == agents@.len(),
            0 <= k <= n,
            distinct_entities(agents@),
            forall|kk: int|
                0 <= kk < k ==> index_of@.contains_key((#[trigger] agents@[kk]).entity)
                    && index_of@[agents@[kk].entity] == kk,
            forall|id: u64| #[trigger] index_of@.contains_key(id) ==> 0 <= index_of@[id] < k
                && agents@[index_of@[id] as int].entity == id,
        decreases n - k,
    {
        index_of.insert(agents[k].entity, k);
        k = k + 1;
    }
    proof {
        assert(index_models(index_of@, agents@));
    }

    let mut cache = SpatialNeighborsCache::new(radii_copy);
    proof {
        assert forall|i: int, x: u64, j1: int, j2: int|
            #![trigger cache.vec_of_maps@[i]@[x]@[j1], cache.vec_of_maps@[i]@[x]@[j2]]
            0 <= i < cache.vec_of_maps@.len() && cache.vec_of_maps@[i]@.contains_key(x) && 0 <= j1
                < cache.vec_of_maps@[i]@[x]@.len() && 0 <= j2 < cache.vec_of_maps@[i]@[x]@.len()
                && j1 != j2 implies (cache.vec_of_maps@[i]@[x]@[j1]).0 != (
        cache.vec_of_maps@[i]@[x]@[j2]).0 by {
            assert(!tier_lists(cache, i, x));
        }
    }
    let mut ka: usize = 0;
    while ka < n
        invariant
            n == agents@.len(),
            nr == radii.0@.len(),
            0 <= ka <= n,
            1 <= cs <= AGENT_LIMIT,
            csi == cs as int,
            agents_wf(agents@),
            distinct_entities(agents@),
            radii_wf(radii.0@),
            table_models(spatial.table@, agents@, csi),
            index_models(index_of@, agents@),
            cache.radii@ == radii.0@,
            cache.vec_of_maps@.len() == nr,
            maps_lists_unique(cache.vec_of_maps@),
            edges_complete(cache, agents@, csi, ka as int, ka as int, Set::empty()),
            edges_sound(cache, agents@, csi, ka as int, ka as int, Set::empty()),
            tiers_nonempty(cache),
        decreases n - ka,
    {
        let a = agents[ka];
        let aw_opt = a.awareness;
        match aw_opt {
            None => {
                proof {
                    // A skipped agent evaluates no pair: with no awareness
                    // it can neither scan nor be counted as a past scan.
                    assert forall|p: int, q: int|
                        0 <= p < n && 0 <= q < n && #[trigger] pair_scanned_upto(
                            agents@,
                            csi,
                            ka + 1,
                            p,
                            q,
                        ) implies pair_scanned_upto(agents@, csi, ka as int, p, q) by {
                        if has_awareness(agents@[p]) && p < ka + 1 && scan_hits(
                            agents@[p],
                            agents@[q],
                            csi,
                        ) {
                            assert(p != ka);
                        } else {
                            assert(q != ka);
                        }
                    }
                    assert forall|i: int, p: int, q: int|
                        0 <= i < cache.radii@.len() && 0 <= p < q < n && #[trigger] pair_done(
                            agents@,
                            csi,
                            ka + 1,
                            ka + 1,
                            Set::empty(),
                            p,
                            q,
                        ) && surface_dist_sq(agents@[p], agents@[q]) <= #[trigger] (cache.radii@[i]
                            * cache.radii@[i]) implies has_edge(
                        cache,
                        i,
                        agents@[p].entity,
                        agents@[q].entity,
                        surface_dist_sq(agents@[p], agents@[q]) as u64,
                    ) && has_edge(
                        cache,
                        i,
                        agents@[q].entity,
                        agents@[p].entity,
                        surface_dist_sq(agents@[p], agents@[q]) as u64,
                    ) by {
                        assert(pair_scanned_upto(agents@, csi, ka + 1, p, q));
                        assert(pair_scanned_upto(agents@, csi, ka as int, p, q));
                        assert(pair_done(agents@, csi, ka as int, ka as int, Set::empty(), p, q));
                    }
                    assert forall|i: int, x: u64, y: u64, dd: u64|
                        0 <= i < cache.radii@.len() && #[trigger] has_edge(cache, i, x, y, dd)
                        implies exists|p: int, q: int|
                        0 <= p < q < n && #[trigger] pair_done(
                            agents@,
                            csi,
                            ka + 1,
                            ka + 1,
                            Set::empty(),
                            p,
                            q,
                        ) && surface_dist_sq(agents@[p], agents@[q]) == dd && dd <= cache.radii@[i]
                            * cache.radii@[i] && ((x == agents@[p].entity && y
                            == agents@[q].entity) || (x == agents@[q].entity && y
                            == agents@[p].entity)) by {
                        let (p, q) = choose|p: int, q: int|
                            0 <= p < q < n && #[trigger] pair_done(
                                agents@,
                                csi,
                                ka as int,
                                ka as int,
                                Set::empty(),
                                p,
                                q,
                            ) && surface_dist_sq(agents@[p], agents@[q]) == dd && dd
                                <= cache.radii@[i] * cache.radii@[i] && ((x == agents@[p].entity
                                && y == agents@[q].entity) || (x == agents@[q].entity && y
                                == agents@[p].entity));
                        assert(pair_scanned_upto(agents@, csi, ka as int, p, q));
                        assert(pair_scanned_upto(agents@, csi, ka + 1, p, q));
                        assert(pair_done(agents@, csi, ka + 1, ka + 1, Set::empty(), p, q));
                    }
                }
            }
            Some(aw) => {
                let mut seen: HashSet<u64> = HashSet::new();
                let cells = get_all_spatial_hashes_from_circle(a.position, aw.radius, cs);
                let nc = cells.len();
                let mut ci: usize = 0;
                while ci < nc
                    invariant
                        n == agents@.len(),
                        nr == radii.0@.len(),
                        0 <= ka < n,
                        0 <= ci <= nc,
                        nc == cells@.len(),
                        1 <= cs <= AGENT_LIMIT,
                        csi == cs as int,
                        a == agents@[ka as int],
                        a.awareness == Some(aw),
                        agents_wf(agents@),
                        distinct_entities(agents@),
                        radii_wf(radii.0@),
                        table_models(spatial.table@, agents@, csi),
                        index_models(index_of@, agents@),
                        cache.radii@ == radii.0@,
                        cache.vec_of_maps@.len() == nr,
                        maps_lists_unique(cache.vec_of_maps@),
                        forall|c: SpatialHashCell| #[trigger] cells@.contains(c) <==> covers(
                            a.position,
                            aw.radius as int,
                            csi,
                            c,
                        ),
                        forall|id: u64| #[trigger] seen@.contains(id) ==> id != a.entity
                            && exists|kb: int|
                            0 <= kb < n && kb != ka && (#[trigger] agents@[kb]).entity == id
                                && scan_hits(a, agents@[kb], csi),
                        forall|kb: int, cix: int|
                            0 <= kb < n && 0 <= cix < ci && #[trigger] covered_by_scan_cell(
                                agents@,
                                cells@,
                                csi,
                                kb,
                                cix,
                            ) ==> kb == ka as int || seen@.contains(agents@[kb].entity),
                        edges_complete(cache, agents@, csi, ka as int, ka as int, seen@),
                        edges_sound(cache, agents@, csi, ka as int, ka as int, seen@),
                        tiers_nonempty(cache),
                    decreases nc - ci,
                {
                    let cell = cells[ci];
                    let key = cell_key(cell);
                    let bucket_opt = spatial.table.get(&key);
                    match bucket_opt {
                        None => {
                            proof {
                                assert forall|kb: int, cix: int|
                                    0 <= kb < n && 0 <= cix < ci + 1 && #[trigger] covered_by_scan_cell(
                                        agents@,
                                        cells@,
                                        csi,
                                        kb,
                                        cix,
                                    ) implies kb == ka as int || seen@.contains(
                                    agents@[kb].entity,
                                ) by {
                                    if cix == ci {
                                        assert(covers(
                                            agents@[kb].position,
                                            agents@[kb].radius.r as int,
                                            csi,
                                            cell,
                                        ));
                                        assert(bucket_has(spatial.table@, cell, agents@[kb].entity));
                                        assert(false);
                                    }
                                }
                            }
                        }
                        Some(bucket) => {
                            let nb = bucket.len();
                            let mut bi: usize = 0;
                            while bi < nb
                                invariant
                                    n == agents@.len(),
                                    nr == radii.0@.len(),
                                    0 <= ka < n,
                                    0 <= ci < nc,
                                    0 <= bi <= nb,
                                    nc == cells@.len(),
                                    nb == bucket@.len(),
                                    1 <= cs <= AGENT_LIMIT,
                                    csi == cs as int,
                                    a == agents@[ka as int],
                                    a.awareness == Some(aw),
                                    cell == cells@[ci as int],
                                    spatial.table@.contains_key(cell_key_spec(cell)),
                                    bucket@ == spatial.table@[cell_key_spec(cell)]@,
                                    agents_wf(agents@),
                                    distinct_entities(agents@),
                                    radii_wf(radii.0@),
                                    table_models(spatial.table@, agents@, csi),
                                    index_models(index_of@, agents@),
                                    cache.radii@ == radii.0@,
                                    cache.vec_of_maps@.len() == nr,
                                    maps_lists_unique(cache.vec_of_maps@),
                                    forall|c: SpatialHashCell| #[trigger] cells@.contains(c)
                                        <==> covers(a.position, aw.radius as int, csi, c),
                                    forall|id: u64| #[trigger] seen@.contains(id) ==> id
                                        != a.entity && exists|kb: int|
                                        0 <= kb < n && kb != ka && (#[trigger] agents@[kb]).entity
                                            == id && scan_hits(a, agents@[kb], csi),
                                    forall|kb: int, cix: int|
                                        0 <= kb < n && 0 <= cix < ci && #[trigger] covered_by_scan_cell(
                                            agents@,
                                            cells@,
                                            csi,
                                            kb,
                                            cix,
                                        ) ==> kb == ka as int || seen@.contains(
                                            agents@[kb].entity,
                                        ),
                                    forall|bj: int|
                                        0 <= bj < bi ==> #[trigger] bucket@[bj] == a.entity
                                            || seen@.contains(bucket@[bj]),
                                    edges_complete(cache, agents@, csi, ka as int, ka as int, seen@),
                                    edges_sound(cache, agents@, csi, ka as int, ka as int, seen@),
                                    tiers_nonempty(cache),
                                decreases nb - bi,
                            {
                                let id_b = bucket[bi];
                                let skip = id_b == a.entity || seen.contains(&id_b);
                                if !skip {
                                    let ghost seen0 = seen@;
                                    seen.insert(id_b);
                                    let kb_opt = index_of.get(&id_b);
                                    match kb_opt {
                                        None => {
                                            // Unreachable: every bucket entry is the id of a
                                            // snapshot agent, and the index lists them all.
                                            proof {
                                                assert(bucket@.contains(id_b));
                                                let bj = choose|bj: int|
                                                    0 <= bj < bucket@.len() && bucket@[bj] == id_b;
                                                assert(id_among(
                                                    agents@,
                                                    agents@.len() as int,
                                                    bucket@[bj],
                                                ));
                                                let kk = choose|kk: int|
                                                    0 <= kk < agents@.len() && (
                                                    #[trigger] agents@[kk]).entity == id_b;
                                                assert(index_of@.contains_key(id_b));
                                                assert(false);
                                            }
                                        }
                                        Some(kb_ref) => {
                                            let kb = *kb_ref;
                                            let b = agents[kb];
                                            proof {
                                                assert(agents@[kb as int].entity == id_b);
                                                assert(kb != ka);
                                                // The candidate came out of a bucket the scan
                                                // reached, so the pair is a genuine scan hit.
                                                assert(bucket@.contains(id_b)) by {
                                                    assert(bucket@[bi as int] == id_b);
                                                }
                                                assert(bucket_has(spatial.table@, cell, id_b));
                                                assert(covers(
                                                    b.position,
                                                    b.radius.r as int,
                                                    csi,
                                                    cell,
                                                ));
                                                assert(cells@.contains(cell)) by {
                                                    assert(cells@[ci as int] == cell);
                                                }
                                                assert(covers(a.position, aw.radius as int, csi, cell));
                                                assert(scan_hits(a, b, csi));
                                            }
                                            // A pair both of whose members scan is settled by
                                            // whichever scans first; recognize that here.
                                            let settled_earlier = match b.awareness {
                                                Some(_) => kb < ka && scan_reaches(&b, &a, cs),
                                                None => false,
                                            };
                                            if !settled_earlier {
                                                let s = true_distance_squared(
                                                    a.position,
                                                    b.position,
                                                    a.radius.r,
                                                    b.radius.r,
                                                );
                                                let d: u64 = if s > 0 {
                                                    s as u64
                                                } else {
                                                    0u64
                                                };
                                                let ghost pre_cache = cache;
                                                proof {
                                                    assert(d == surface_dist_sq(a, b) as u64);
                                                    // This pair carries no edge yet: neither
                                                    // member's turn has evaluated it.
                                                    assert(!(has_awareness(agents@[kb as int])
                                                        && (kb as int) < ka as int && scan_hits(
                                                        agents@[kb as int],
                                                        agents@[ka as int],
                                                        csi,
                                                    )));
                                                    lemma_pair_unrecorded(
                                                        cache,
                                                        agents@,
                                                        csi,
                                                        ka as int,
                                                        kb as int,
                                                        seen0,
                                                    );
                                                }
                                                record_pair(
                                                    &mut cache.vec_of_maps,
                                                    &cache.radii,
                                                    a.entity,
                                                    id_b,
                                                    d,
                                                );
                                                proof {
                                                    lemma_sds_symmetric(a, b);
                                                    let sd = surface_dist_sq(a, b);
                                                    assert(0 <= sd);
                                                    // Completeness with the enlarged seen set.
                                                    assert forall|i: int, p: int, q: int|
                                                        0 <= i < cache.radii@.len() && 0 <= p < q
                                                            < n && #[trigger] pair_done(
                                                            agents@,
                                                            csi,
                                                            ka as int,
                                                            ka as int,
                                                            seen@,
                                                            p,
                                                            q,
                                                        ) && surface_dist_sq(agents@[p], agents@[q])
                                                            <= #[trigger] (cache.radii@[i]
                                                            * cache.radii@[i]) implies has_edge(
                                                        cache,
                                                        i,
                                                        agents@[p].entity,
                                                        agents@[q].entity,
                                                        surface_dist_sq(agents@[p], agents@[q]) as u64,
                                                    ) && has_edge(
                                                        cache,
                                                        i,
                                                        agents@[q].entity,
                                                        agents@[p].entity,
                                                        surface_dist_sq(agents@[p], agents@[q]) as u64,
                                                    ) by {
                                                        let spq = surface_dist_sq(
                                                            agents@[p],
                                                            agents@[q],
                                                        );
                                                        if pair_done(
                                                            agents@,
                                                            csi,
                                                            ka as int,
                                                            ka as int,
                                                            seen0,
                                                            p,
                                                            q,
                                                        ) {
                                                            assert(has_edge(
                                                                pre_cache,
                                                                i,
                                                                agents@[p].entity,
                                                                agents@[q].entity,
                                                                spq as u64,
                                                            ) && has_edge(
                                                                pre_cache,
                                                                i,
                                                                agents@[q].entity,
                                                                agents@[p].entity,
                                                                spq as u64,
                                                            ));
                                                            assert(maps_have_edge(
                                                                cache.vec_of_maps@,
                                                                i,
                                                                agents@[p].entity,
                                                                agents@[q].entity,
                                                                spq as u64,
                                                            ));
                                                            assert(maps_have_edge(
                                                                cache.vec_of_maps@,
                                                                i,
                                                                agents@[q].entity,
                                                                agents@[p].entity,
                                                                spq as u64,
                                                            ));
                                                        } else {
                                                            // The pair involves the fresh candidate.
                                                            if p == ka as int && seen@.contains(
                                                                agents@[q].entity,
                                                            ) {
                                                                assert(agents@[q].entity == id_b);
                                                                assert(q == kb as int);
                                                                assert(spq == sd);
                                                                assert(d <= cache.radii@[i]
                                                                    * cache.radii@[i]);
                                                                assert(maps_have_edge(
                                                                    cache.vec_of_maps@,
                                                                    i,
                                                                    a.entity,
                                                                    id_b,
                                                                    d,
                                                                ));
                                                                assert(maps_have_edge(
                                                                    cache.vec_of_maps@,
                                                                    i,
                                                                    id_b,
                                                                    a.entity,
                                                                    d,
                                                                ));
                                                            } else {
                                                                assert(q == ka as int
                                                                    && seen@.contains(
                                                                    agents@[p].entity,
                                                                ));
                                                                assert(agents@[p].entity == id_b);
                                                                assert(p == kb as int);
                                                                assert(spq == sd);
                                                                assert(d <= cache.radii@[i]
                                                                    * cache.radii@[i]);
                                                                assert(maps_have_edge(
                                                                    cache.vec_of_maps@,
                                                                    i,
                                                                    a.entity,
                                                                    id_b,
                                                                    d,
                                                                ));
                                                                assert(maps_have_edge(
                                                                    cache.vec_of_maps@,
                                                                    i,
                                                                    id_b,
                                                                    a.entity,
                                                                    d,
                                                                ));
                                                            }
                                                        }
                                                    }
                                                    // Soundness with the enlarged seen set.
                                                    assert forall|i: int, x: u64, y: u64, dd: u64|
                                                        0 <= i < cache.radii@.len()
                                                            && #[trigger] has_edge(cache, i, x, y, dd)
                                                        implies exists|p: int, q: int|
                                                        0 <= p < q < n && #[trigger] pair_done(
                                                            agents@,
                                                            csi,
                                                            ka as int,
                                                            ka as int,
                                                            seen@,
                                                            p,
                                                            q,
                                                        ) && surface_dist_sq(agents@[p], agents@[q])
                                                            == dd && dd <= cache.radii@[i]
                                                            * cache.radii@[i] && ((x
                                                            == agents@[p].entity && y
                                                            == agents@[q].entity) || (x
                                                            == agents@[q].entity && y
                                                            == agents@[p].entity)) by {
                                                        if maps_have_edge(
                                                            pre_cache.vec_of_maps@,
                                                            i,
                                                            x,
                                                            y,
                                                            dd,
                                                        ) {
                                                            assert(has_edge(pre_cache, i, x, y, dd));
                                                            let (p, q) = choose|p: int, q: int|
                                                                0 <= p < q < n
                                                                    && #[trigger] pair_done(
                                                                    agents@,
                                                                    csi,
                                                                    ka as int,
                                                                    ka as int,
                                                                    seen0,
                                                                    p,
                                                                    q,
                                                                ) && surface_dist_sq(
                                                                    agents@[p],
                                                                    agents@[q],
                                                                ) == dd && dd
                                                                    <= pre_cache.radii@[i]
                                                                    * pre_cache.radii@[i] && ((x
                                                                    == agents@[p].entity && y
                                                                    == agents@[q].entity) || (x
                                                                    == agents@[q].entity && y
                                                                    == agents@[p].entity));
                                                            assert(pair_done(
                                                                agents@,
                                                                csi,
                                                                ka as int,
                                                                ka as int,
                                                                seen@,
                                                                p,
                                                                q,
                                                            ));
                                                        } else {
                                                            assert(dd == d && ((x == a.entity && y
                                                                == id_b) || (x == id_b && y
                                                                == a.entity)));
                                                            assert(d <= cache.radii@[i]
                                                                * cache.radii@[i]);
                                                            if (ka as int) < kb as int {
                                                                assert(pair_done(
                                                                    agents@,
                                                                    csi,
                                                                    ka as int,
                                                                    ka as int,
                                                                    seen@,
                                                                    ka as int,
                                                                    kb as int,
                                                                ));
                                                                assert(surface_dist_sq(
                                                                    agents@[ka as int],
                                                                    agents@[kb as int],
                                                                ) == dd);
                                                            } else {
                                                                assert(kb < ka);
                                                                assert(pair_done(
                                                                    agents@,
                                                                    csi,
                                                                    ka as int,
                                                                    ka as int,
                                                                    seen@,
                                                                    kb as int,
                                                                    ka as int,
                                                                ));
                                                                assert(surface_dist_sq(
                                                                    agents@[kb as int],
                                                                    agents@[ka as int],
                                                                ) == dd);
                                                            }
                                                        }
                                                    }
                                                    // Listed ids still have at least one edge.
                                                    assert forall|i: int, x: u64|
                                                        0 <= i < cache.vec_of_maps@.len()
                                                            && #[trigger] tier_lists(cache, i, x)
                                                        implies cache.vec_of_maps@[i]@[x]@.len()
                                                        > 0 by {
                                                        if pre_cache.vec_of_maps@[i]@.contains_key(
                                                            x,
                                                        ) {
                                                            assert(tier_lists(pre_cache, i, x));
                                                        } else {
                                                            assert(d <= cache.radii@[i]
                                                                * cache.radii@[i] && (x == a.entity
                                                                || x == id_b));
                                                            if x == a.entity {
                                                                assert(maps_have_edge(
                                                                    cache.vec_of_maps@,
                                                                    i,
                                                                    a.entity,
                                                                    id_b,
                                                                    d,
                                                                ));
                                                                let l = cache.vec_of_maps@[i]@[x]@;
                                                                assert(l.contains((id_b, d)));
                                                                let ix = choose|ix: int|
                                                                    0 <= ix < l.len() && l[ix] == (
                                                                    id_b,
                                                                    d,
                                                                    );
                                                            } else {
                                                                assert(maps_have_edge(
                                                                    cache.vec_of_maps@,
                                                                    i,
                                                                    id_b,
                                                                    a.entity,
                                                                    d,
                                                                ));
                                                                let l = cache.vec_of_maps@[i]@[x]@;
                                                                assert(l.contains((a.entity, d)));
                                                                let ix = choose|ix: int|
                                                                    0 <= ix < l.len() && l[ix] == (
                                                                    a.entity,
                                                                    d,
                                                                    );
                                                            }
                                                        }
                                                    }
                                                }
                                            } else {
                                                proof {
                                                    // The earlier member's scan already settled
                                                    // this pair, so its edges are in place.
                                                    assert(has_awareness(agents@[kb as int]));
                                                    assert(scan_hits(b, a, csi));
                                                    assert(pair_scanned_upto(
                                                        agents@,
                                                        csi,
                                                        ka as int,
                                                        kb as int,
                                                        ka as int,
                                                    ));
                                                    assert forall|i: int, p: int, q: int|
                                                        0 <= i < cache.radii@.len() && 0 <= p < q
                                                            < n && #[trigger] pair_done(
                                                            agents@,
                                                            csi,
                                                            ka as int,
                                                            ka as int,
                                                            seen@,
                                                            p,
                                                            q,
                                                        ) && surface_dist_sq(agents@[p], agents@[q])
                                                            <= #[trigger] (cache.radii@[i]
                                                            * cache.radii@[i]) implies has_edge(
                                                        cache,
                                                        i,
                                                        agents@[p].entity,
                                                        agents@[q].entity,
                                                        surface_dist_sq(agents@[p], agents@[q]) as u64,
                                                    ) && has_edge(
                                                        cache,
                                                        i,
                                                        agents@[q].entity,
                                                        agents@[p].entity,
                                                        surface_dist_sq(agents@[p], agents@[q]) as u64,
                                                    ) by {
                                                        if !pair_done(
                                                            agents@,
                                                            csi,
                                                            ka as int,
                                                            ka as int,
                                                            seen0,
                                                            p,
                                                            q,
                                                        ) {
                                                            // The only new seen id is the
                                                            // settled candidate.
                                                            if p == ka as int && seen@.contains(
                                                                agents@[q].entity,
                                                            ) {
                                                                assert(agents@[q].entity == id_b);
                                                                assert(q == kb as int);
                                                                assert(pair_scanned_upto(
                                                                    agents@,
                                                                    csi,
                                                                    ka as int,
                                                                    p,
                                                                    q,
                                                                ));
                                                                assert(false);
                                                            } else {
                                                                assert(q == ka as int
                                                                    && seen@.contains(
                                                                    agents@[p].entity,
                                                                ));
                                                                assert(agents@[p].entity == id_b);
                                                                assert(p == kb as int);
                                                                assert(pair_scanned_upto(
                                                                    agents@,
                                                                    csi,
                                                                    ka as int,
                                                                    p,
                                                                    q,
                                                                ));
                                                                assert(false);
                                                            }
                                                        }
                                                    }
                                                    assert forall|i: int, x: u64, y: u64, dd: u64|
                                                        0 <= i < cache.radii@.len()
                                                            && #[trigger] has_edge(cache, i, x, y, dd)
                                                        implies exists|p: int, q: int|
                                                        0 <= p < q < n && #[trigger] pair_done(
                                                            agents@,
                                                            csi,
                                                            ka as int,
                                                            ka as int,
                                                            seen@,
                                                            p,
                                                            q,
                                                        ) && surface_dist_sq(agents@[p], agents@[q])
                                                            == dd && dd <= cache.radii@[i]
                                                            * cache.radii@[i] && ((x
                                                            == agents@[p].entity && y
                                                            == agents@[q].entity) || (x
                                                            == agents@[q].entity && y
                                                            == agents@[p].entity)) by {
                                                        let (p, q) = choose|p: int, q: int|
                                                            0 <= p < q < n && #[trigger] pair_done(
                                                                agents@,
                                                                csi,
                                                                ka as int,
                                                                ka as int,
                                                                seen0,
                                                                p,
                                                                q,
                                                            ) && surface_dist_sq(
                                                                agents@[p],
                                                                agents@[q],
                                                            ) == dd && dd <= cache.radii@[i]
                                                                * cache.radii@[i] && ((x
                                                                == agents@[p].entity && y
                                                                == agents@[q].entity) || (x
                                                                == agents@[q].entity && y
                                                                == agents@[p].entity));
                                                        assert(pair_done(
                                                            agents@,
                                                            csi,
                                                            ka as int,
                                                            ka as int,
                                                            seen@,
                                                            p,
                                                            q,
                                                        ));
                                                    }
                                                }
                                            }
                                        }
                                    }
                                    proof {
                                        // The fresh candidate is a genuine scan hit.
                                        assert forall|id: u64| #[trigger] seen@.contains(id)
                                            implies id != a.entity && exists|kb2: int|
                                            0 <= kb2 < n && kb2 != ka && (
                                            #[trigger] agents@[kb2]).entity == id && scan_hits(
                                                a,
                                                agents@[kb2],
                                                csi,
                                            ) by {
                                            if id != id_b {
                                                assert(seen0.contains(id));
                                            } else {
                                                assert(bucket@.contains(id_b)) by {
                                                    assert(bucket@[bi as int] == id_b);
                                                }
                                                let bj = choose|bj: int|
                                                    0 <= bj < bucket@.len() && bucket@[bj] == id_b;
                                                assert(id_among(
                                                    agents@,
                                                    agents@.len() as int,
                                                    bucket@[bj],
                                                ));
                                                let kk = choose|kk: int|
                                                    0 <= kk < agents@.len() && (
                                                    #[trigger] agents@[kk]).entity == id_b;
                                                assert(bucket_has(spatial.table@, cell, id_b));
                                                assert(covers(
                                                    agents@[kk].position,
                                                    agents@[kk].radius.r as int,
                                                    csi,
                                                    cell,
                                                ));
                                                assert(cells@.contains(cell)) by {
                                                    assert(cells@[ci as int] == cell);
                                                }
                                                assert(covers(a.position, aw.radius as int, csi, cell));
                                                assert(scan_hits(a, agents@[kk], csi));
                                                assert(kk != ka);
                                            }
                                        }
                                    }
                                }
                                bi = bi + 1;
                            }
                            proof {
                                // Everyone this cell's bucket lists has now
                                // been seen (or is the scanning agent).
                                assert forall|kb: int, cix: int|
                                    0 <= kb < n && 0 <= cix < ci + 1 && #[trigger] covered_by_scan_cell(
                                        agents@,
                                        cells@,
                                        csi,
                                        kb,
                                        cix,
                                    ) implies kb == ka as int || seen@.contains(
                                    agents@[kb].entity,
                                ) by {
                                    if cix == ci && kb != ka as int {
                                        assert(covers(
                                            agents@[kb].position,
                                            agents@[kb].radius.r as int,
                                            csi,
                                            cell,
                                        ));
                                        assert(bucket_has(spatial.table@, cell, agents@[kb].entity));
                                        let bj = choose|bj: int|
                                            0 <= bj < bucket@.len() && bucket@[bj]
                                                == agents@[kb].entity;
                                        assert(agents@[kb].entity != a.entity);
                                    }
                                }
                            }
                        }
                    }
                    ci = ci + 1;
                }
                proof {
                    // The scan is complete: every agent the awareness
                    // square reaches has been seen, so the per-pair state
                    // advances one full turn.
                    assert forall|i: int, p: int, q: int|
                        0 <= i < cache.radii@.len() && 0 <= p < q < n && #[trigger] pair_done(
                            agents@,
                            csi,
                            ka + 1,
                            ka + 1,
                            Set::empty(),
                            p,
                            q,
                        ) && surface_dist_sq(agents@[p], agents@[q]) <= #[trigger] (cache.radii@[i]
                            * cache.radii@[i]) implies has_edge(
                        cache,
                        i,
                        agents@[p].entity,
                        agents@[q].entity,
                        surface_dist_sq(agents@[p], agents@[q]) as u64,
                    ) && has_edge(
                        cache,
                        i,
                        agents@[q].entity,
                        agents@[p].entity,
                        surface_dist_sq(agents@[p], agents@[q]) as u64,
                    ) by {
                        assert(pair_scanned_upto(agents@, csi, ka + 1, p, q));
                        if pair_scanned_upto(agents@, csi, ka as int, p, q) {
                            assert(pair_done(agents@, csi, ka as int, ka as int, seen@, p, q));
                        } else if has_awareness(agents@[p]) && p == ka as int && scan_hits(
                            agents@[p],
                            agents@[q],
                            csi,
                        ) {
                            lemma_scan_hit_has_shared_cell(a, agents@[q], csi);
                            let c = choose|c: SpatialHashCell|
                                covers(a.position, awareness_radius(a), csi, c)
                                    && #[trigger] covers(
                                    agents@[q].position,
                                    agents@[q].radius.r as int,
                                    csi,
                                    c,
                                );
                            assert(cells@.contains(c));
                            let cix = choose|cix: int|
                                0 <= cix < cells@.len() && cells@[cix] == c;
                            assert(covered_by_scan_cell(agents@, cells@, csi, q, cix));
                            assert(seen@.contains(agents@[q].entity));
                            assert(pair_done(agents@, csi, ka as int, ka as int, seen@, p, q));
                        } else {
                            assert(has_awareness(agents@[q]) && q == ka as int && scan_hits(
                                agents@[q],
                                agents@[p],
                                csi,
                            ));
                            lemma_scan_hit_has_shared_cell(a, agents@[p], csi);
                            let c = choose|c: SpatialHashCell|
                                covers(a.position, awareness_radius(a), csi, c)
                                    && #[trigger] covers(
                                    agents@[p].position,
                                    agents@[p].radius.r as int,
                                    csi,
                                    c,
                                );
                            assert(cells@.contains(c));
                            let cix = choose|cix: int|
                                0 <= cix < cells@.len() && cells@[cix] == c;
                            assert(covered_by_scan_cell(agents@, cells@, csi, p, cix));
                            assert(seen@.contains(agents@[p].entity));
                            assert(pair_done(agents@, csi, ka as int, ka as int, seen@, p, q));
                        }
                    }
                    assert forall|i: int, x: u64, y: u64, dd: u64|
                        0 <= i < cache.radii@.len() && #[trigger] has_edge(cache, i, x, y, dd)
                        implies exists|p: int, q: int|
                        0 <= p < q < n && #[trigger] pair_done(
                            agents@,
                            csi,
                            ka + 1,
                            ka + 1,
                            Set::empty(),
                            p,
                            q,
                        ) && surface_dist_sq(agents@[p], agents@[q]) == dd && dd <= cache.radii@[i]
                            * cache.radii@[i] && ((x == agents@[p].entity && y
                            == agents@[q].entity) || (x == agents@[q].entity && y
                            == agents@[p].entity)) by {
                        let (p, q) = choose|p: int, q: int|
                            0 <= p < q < n && #[trigger] pair_done(
                                agents@,
                                csi,
                                ka as int,
                                ka as int,
                                seen@,
                                p,
                                q,
                            ) && surface_dist_sq(agents@[p], agents@[q]) == dd && dd
                                <= cache.radii@[i] * cache.radii@[i] && ((x == agents@[p].entity
                                && y == agents@[q].entity) || (x == agents@[q].entity && y
                                == agents@[p].entity));
                        if pair_scanned_upto(agents@, csi, ka as int, p, q) {
                            assert(pair_scanned_upto(agents@, csi, ka + 1, p, q));
                        } else if p == ka as int && seen@.contains(agents@[q].entity) {
                            let kb2 = choose|kb2: int|
                                0 <= kb2 < n && kb2 != ka && (#[trigger] agents@[kb2]).entity
                                    == agents@[q].entity && scan_hits(a, agents@[kb2], csi);
                            assert(kb2 == q);
                            assert(has_awareness(agents@[p]));
                            assert(pair_scanned_upto(agents@, csi, ka + 1, p, q));
                        } else {
                            assert(q == ka as int && seen@.contains(agents@[p].entity));
                            let kb2 = choose|kb2: int|
                                0 <= kb2 < n && kb2 != ka && (#[trigger] agents@[kb2]).entity
                                    == agents@[p].entity && scan_hits(a, agents@[kb2], csi);
                            assert(kb2 == p);
                            assert(has_awareness(agents@[q]));
                            assert(scan_hits(agents@[q], agents@[p], csi));
                            assert(pair_scanned_upto(agents@, csi, ka + 1, p, q));
                        }
                        assert(pair_done(agents@, csi, ka + 1, ka + 1, Set::empty(), p, q));
                    }
                }
            }
        }
        ka = ka + 1;
    }
    proof {
        // The per-turn state at a full pass is exactly the built-cache
        // characterization.
        assert forall|i: int, p: int, q: int|
            0 <= i < cache.radii@.len() && 0 <= p < q < agents@.len() && #[trigger] pair_scanned(
                agents@,
                csi,
                p,
                q,
            ) && surface_dist_sq(agents@[p], agents@[q]) <= #[trigger] (cache.radii@[i]
                * cache.radii@[i]) implies has_edge(
            cache,
            i,
            agents@[p].entity,
            agents@[q].entity,
            surface_dist_sq(agents@[p], agents@[q]) as u64,
        ) && has_edge(
            cache,
            i,
            agents@[q].entity,
            agents@[p].entity,
            surface_dist_sq(agents@[p], agents@[q]) as u64,
        ) by {
            assert(pair_done(agents@, csi, n as int, n as int, Set::empty(), p, q));
        }
        assert forall|i: int, x: u64, y: u64, dd: u64|
            0 <= i < cache.radii@.len() && #[trigger] has_edge(cache, i, x, y, dd) implies exists|
                p: int,
                q: int,
            |
                0 <= p < q < agents@.len() && #[trigger] pair_scanned(agents@, csi, p, q)
                    && surface_dist_sq(agents@[p], agents@[q]) == dd && dd <= cache.radii@[i]
                    * cache.radii@[i] && ((x == agents@[p].entity && y == agents@[q].entity) || (x
                    == agents@[q].entity && y == agents@[p].entity)) by {
            let (p, q) = choose|p: int, q: int|
                0 <= p < q < agents@.len() && #[trigger] pair_done(
                    agents@,
                    csi,
                    n as int,
                    n as int,
                    Set::empty(),
                    p,
                    q,
                ) && surface_dist_sq(agents@[p], agents@[q]) == dd && dd <= cache.radii@[i]
                    * cache.radii@[i] && ((x == agents@[p].entity && y == agents@[q].entity) || (x
                    == agents@[q].entity && y == agents@[p].entity));
            assert(pair_scanned(agents@, csi, p, q));
        }
    }
    cache
}

} // verus!
