//! Shortest paths over what a player has observed: how many steps, through locations a filter allows, it takes to
//! reach each location from a source, and from where each is best reached.
use vstd::prelude::*;

use crate::game::obs::{Filter, Obs, ObsTracker};
use crate::game::map::MapData;
use crate::game::tile::Tile;
use crate::game::unit::{Unit, UnitType, lemma_unit_type_values_index, spec_unit_type_values};
use crate::util::{Dims, Direction, Location, Vec2d, Wrap2d, lemma_direction_values_index, lemma_index_in_bounds, lemma_loc_of_index, spec_direction_values};

verus! {

/// The offset of the `q`th of the eight directions.
pub open spec fn step_vec(q: int) -> Vec2d {
    let v = spec_direction_values()[q].spec_vec2d();
    Vec2d { x: v.0 as i32, y: v.1 as i32 }
}

/// The location one step from `n` in the `q`th direction, wrapping as the map does, if that is on the map.
pub open spec fn step(dims: Dims, wrapping: Wrap2d, n: Location, q: int) -> Option<Location> {
    wrapping.spec_wrapped_add(dims, n, step_vec(q))
}

/// For each location of the map, by index: how many steps it takes to reach it, if it can be reached, and the
/// location it is best reached from.
pub struct ShortestPaths {
    pub dims: Dims,
    pub dist: Vec<Option<u16>>,
    pub prev: Vec<Option<Location>>,
}

/// Does the step from the location of index `i` in the `q`th direction, where it lands on a location the filter
/// allows, lead to a location reached in at most one step more?
pub open spec fn closed_at<F: Filter<Obs>>(
    dist: Seq<Option<u16>>,
    obs: ObsTracker,
    filter: F,
    wrapping: Wrap2d,
    i: int,
    q: int,
) -> bool {
    let dims = obs.spec_dims();
    match dist[i] {
        Some(d) => match step(dims, wrapping, dims.spec_loc(i), q) {
            Some(l) => filter.spec_allows(obs.spec_obs(l)) ==> (dist[dims.spec_index(l)] matches Some(d2) && d2 <= d
                + 1),
            None => true,
        },
        None => true,
    }
}

/// Is the location of index `j`, if reached, the source at no steps, or reached in one step more from the location
/// recorded as its predecessor, itself a location the filter allows?
pub open spec fn reached_by_step<F: Filter<Obs>>(
    dist: Seq<Option<u16>>,
    prev: Seq<Option<Location>>,
    obs: ObsTracker,
    filter: F,
    wrapping: Wrap2d,
    src: Location,
    j: int,
) -> bool {
    let dims = obs.spec_dims();
    match dist[j] {
        Some(d) => if dims.spec_loc(j) == src {
            d == 0
        } else {
            &&& d > 0
            &&& filter.spec_allows(obs.spec_obs(dims.spec_loc(j)))
            &&& prev[j] matches Some(n)
            &&& dims.spec_contains(n)
            &&& dist[dims.spec_index(n)] == Some((d - 1) as u16)
            &&& exists|q: int| 0 <= q < 8 && #[trigger] step(dims, wrapping, n, q) == Some(dims.spec_loc(j))
        },
        None => true,
    }
}

/// Are these the shortest paths from `src`, of at most `max` steps, through locations the filter allows: the source
/// reached at no steps; every other location reached by one step from a location reached in one step fewer; and
/// every step that a filter allows from a location reached in fewer than `max` steps reaching a location in at most
/// one step more? Together these make each count the least number of steps there is.
pub open spec fn are_shortest_paths<F: Filter<Obs>>(
    sp: ShortestPaths,
    obs: ObsTracker,
    src: Location,
    filter: F,
    wrapping: Wrap2d,
    max: u16,
) -> bool {
    let dims = obs.spec_dims();
    &&& sp.dims == dims
    &&& sp.dist@.len() == dims.spec_area()
    &&& sp.prev@.len() == dims.spec_area()
    &&& sp.dist@[dims.spec_index(src)] == Some(0u16)
    &&& forall|j: int| 0 <= j < dims.spec_area() ==> (#[trigger] sp.dist@[j] matches Some(d) ==> d <= max)
    &&& forall|j: int| 0 <= j < dims.spec_area() ==> #[trigger] reached_by_step(
        sp.dist@,
        sp.prev@,
        obs,
        filter,
        wrapping,
        src,
        j,
    )
    &&& forall|i: int, q: int|
        0 <= i < dims.spec_area() && 0 <= q < 8 && (sp.dist@[i] matches Some(d) && d < max) ==> #[trigger] closed_at(
            sp.dist@,
            obs,
            filter,
            wrapping,
            i,
            q,
        )
}

/// The location one step from `n` in the `q`th direction, if on the map.
fn step_from(dims: Dims, wrapping: Wrap2d, n: Location, q: usize) -> (r: Option<Location>)
    requires
        dims.spec_contains(n),
        q < 8,
    ensures
        r == step(dims, wrapping, n, q as int),
        r matches Some(l) ==> dims.spec_contains(l),
{
    let dirs = Direction::values();
    let v = dirs[q].vec2d();
    proof {
        assert(v == step_vec(q as int));
    }
    wrapping.wrapped_add(dims, n, v)
}

/// The shortest paths from `src`, of at most `max` steps, through the locations whose observations the filter
/// allows, searched breadth first; `src` must be on the map.
pub fn shortest_paths<F: Filter<Obs>>(obs: &ObsTracker, src: Location, filter: &F, wrapping: Wrap2d, max: u16) -> (sp:
    ShortestPaths)
    requires
        obs.wf(),
        obs.spec_dims().spec_contains(src),
    ensures
        are_shortest_paths(sp, *obs, src, *filter, wrapping, max),
{
    let dims = obs.dims();
    let n = dims.area();
    proof {
        lemma_index_in_bounds(dims, src);
    }
    let mut dist: Vec<Option<u16>> = Vec::new();
    let mut prev: Vec<Option<Location>> = Vec::new();
    let mut j: usize = 0;
    while j < n
        invariant
            j <= n,
            dist@.len() == j,
            prev@.len() == j,
            forall|m: int| 0 <= m < j ==> #[trigger] dist@[m] is None,
        decreases n - j,
    {
        dist.push(None);
        prev.push(None);
        j = j + 1;
    }
    let s = dims.index(src);
    dist.set(s, Some(0));
    let mut k: u16 = 0;
    while k < max
        invariant
            dims == obs.spec_dims(),
            obs.wf(),
            n == dims.spec_area(),
            s == dims.spec_index(src),
            dims.spec_contains(src),
            s < n,
            k <= max,
            dist@.len() == n,
            prev@.len() == n,
            dist@[s as int] == Some(0u16),
            forall|m: int| 0 <= m < n ==> (#[trigger] dist@[m] matches Some(d) ==> d <= k),
            forall|m: int| 0 <= m < n ==> #[trigger] reached_by_step(dist@, prev@, *obs, *filter, wrapping, src, m),
            forall|i: int, q: int|
                0 <= i < n && 0 <= q < 8 && (dist@[i] matches Some(d) && d < k) ==> #[trigger] closed_at(
                    dist@,
                    *obs,
                    *filter,
                    wrapping,
                    i,
                    q,
                ),
        decreases max - k,
    {
        let ghost d0 = dist@;
        let ghost p0 = prev@;
        let mut i: usize = 0;
        while i < n
            invariant
                dims == obs.spec_dims(),
                obs.wf(),
                n == dims.spec_area(),
                s == dims.spec_index(src),
                dims.spec_contains(src),
                s < n,
                k < max,
                i <= n,
                dist@.len() == n,
                prev@.len() == n,
                d0.len() == n,
                p0.len() == n,
                dist@[s as int] == Some(0u16),
                forall|m: int| 0 <= m < n && (#[trigger] d0[m]) is Some ==> dist@[m] == d0[m] && prev@[m] == p0[m],
                forall|m: int| 0 <= m < n ==> (#[trigger] dist@[m] matches Some(d) ==> d <= k + 1),
                forall|m: int| 0 <= m < n ==> (#[trigger] dist@[m] matches Some(d) && d <= k ==> d0[m] is Some),
                forall|m: int| 0 <= m < n ==> #[trigger] reached_by_step(dist@, prev@, *obs, *filter, wrapping, src, m),
                forall|m: int, q: int|
                    0 <= m < n && 0 <= q < 8 && (d0[m] matches Some(d) && d < k) ==> #[trigger] closed_at(
                        d0,
                        *obs,
                        *filter,
                        wrapping,
                        m,
                        q,
                    ),
                forall|m: int, q: int|
                    0 <= m < i && 0 <= q < 8 && (dist@[m] matches Some(d) && d == k) ==> #[trigger] closed_at(
                        dist@,
                        *obs,
                        *filter,
                        wrapping,
                        m,
                        q,
                    ),
            decreases n - i,
        {
            if dist[i] == Some(k) {
                let from = dims.loc(i);
                let mut q: usize = 0;
                while q < 8
                    invariant
                        dims == obs.spec_dims(),
                        obs.wf(),
                        n == dims.spec_area(),
                        s == dims.spec_index(src),
                        dims.spec_contains(src),
                        s < n,
                        k < max,
                        i < n,
                        q <= 8,
                        from == dims.spec_loc(i as int),
                        dims.spec_contains(from),
                        dims.spec_index(from) == i,
                        dist@.len() == n,
                        prev@.len() == n,
                        d0.len() == n,
                        p0.len() == n,
                p0.len() == n,
                        dist@[i as int] == Some(k),
                        dist@[s as int] == Some(0u16),
                        forall|m: int| 0 <= m < n && (#[trigger] d0[m]) is Some ==> dist@[m] == d0[m] && prev@[m] == p0[m],
                        forall|m: int| 0 <= m < n ==> (#[trigger] dist@[m] matches Some(d) ==> d <= k + 1),
                        forall|m: int| 0 <= m < n ==> (#[trigger] dist@[m] matches Some(d) && d <= k ==> d0[m] is Some),
                        forall|m: int| 0 <= m < n ==> #[trigger] reached_by_step(dist@, prev@, *obs, *filter, wrapping, src, m),
                        forall|m: int, q2: int|
                            0 <= m < n && 0 <= q2 < 8 && (d0[m] matches Some(d) && d < k) ==> #[trigger] closed_at(
                                d0,
                                *obs,
                                *filter,
                                wrapping,
                                m,
                                q2,
                            ),
                        forall|m: int, q2: int|
                            0 <= m < i && 0 <= q2 < 8 && (dist@[m] matches Some(d) && d == k) ==> #[trigger] closed_at(
                                dist@,
                                *obs,
                                *filter,
                                wrapping,
                                m,
                                q2,
                            ),
                        forall|q2: int| 0 <= q2 < q ==> #[trigger] closed_at(dist@, *obs, *filter, wrapping, i as int, q2),
                    decreases 8 - q,
                {
                    let ghost dq = dist@;
                    let ghost pq = prev@;
                    if let Some(to) = step_from(dims, wrapping, from, q) {
                        let t = dims.index(to);
                        if dist[t].is_none() {
                            let allowed = match obs.get(to) {
                                Some(o) => filter.allows(o),
                                None => false,
                            };
                            if allowed {
                                proof {
                                    assert(dist@[s as int] is Some);
                                    assert(t != s);
                                }
                                dist.set(t, Some(k + 1));
                                prev.set(t, Some(from));
                                proof {
                                    lemma_loc_of_index(dims, t as int);
                                    lemma_index_in_bounds(dims, to);
                                    assert(step(dims, wrapping, from, q as int) == Some(dims.spec_loc(t as int)));
                                    assert forall|m: int| 0 <= m < n implies #[trigger] reached_by_step(
                                        dist@,
                                        prev@,
                                        *obs,
                                        *filter,
                                        wrapping,
                                        src,
                                        m,
                                    ) by {
                                        if m != t {
                                            assert(reached_by_step(dq, pq, *obs, *filter, wrapping, src, m));
                                            if let Some(d) = dq[m] {
                                                if dims.spec_loc(m) != src {
                                                    let pn = pq[m]->0;
                                                    lemma_index_in_bounds(dims, pn);
                                                }
                                            }
                                        } else {
                                            if dims.spec_loc(m) == src {
                                                lemma_index_in_bounds(dims, src);
                                            }
                                        }
                                    }
                                }
                            }
                        }
                    }
                    proof {
                        assert forall|m: int| 0 <= m < n && (#[trigger] d0[m]) is Some implies dist@[m] == d0[m]
                            && prev@[m] == p0[m] by {
                            assert(dq[m] == d0[m]);
                        }
                        assert forall|m: int, q2: int|
                            0 <= m < n && 0 <= q2 < 8 && (d0[m] matches Some(d) && d < k) implies #[trigger] closed_at(
                            d0,
                            *obs,
                            *filter,
                            wrapping,
                            m,
                            q2,
                        ) by {}
                        assert forall|m: int, q2: int|
                            0 <= m < i && 0 <= q2 < 8 && (dist@[m] matches Some(d) && d == k) implies #[trigger] closed_at(
                            dist@,
                            *obs,
                            *filter,
                            wrapping,
                            m,
                            q2,
                        ) by {
                            assert(closed_at(dq, *obs, *filter, wrapping, m, q2));
                            if let Some(l) = step(dims, wrapping, dims.spec_loc(m), q2) {
                                lemma_loc_of_index(dims, m);
                                lemma_index_in_bounds(dims, l);
                            }
                        }
                        assert forall|q2: int| 0 <= q2 < q + 1 implies #[trigger] closed_at(
                            dist@,
                            *obs,
                            *filter,
                            wrapping,
                            i as int,
                            q2,
                        ) by {
                            if q2 < q {
                                assert(closed_at(dq, *obs, *filter, wrapping, i as int, q2));
                            }
                            if let Some(l) = step(dims, wrapping, dims.spec_loc(i as int), q2) {
                                lemma_index_in_bounds(dims, l);
                            }
                        }
                    }
                    q = q + 1;
                }
            }
            proof {
                assert forall|m: int, q2: int|
                    0 <= m < i + 1 && 0 <= q2 < 8 && (dist@[m] matches Some(d) && d == k) implies #[trigger] closed_at(
                    dist@,
                    *obs,
                    *filter,
                    wrapping,
                    m,
                    q2,
                ) by {}
            }
            i = i + 1;
        }
        proof {
            assert forall|m: int, q: int|
                0 <= m < n && 0 <= q < 8 && (dist@[m] matches Some(d) && d < k + 1) implies #[trigger] closed_at(
                dist@,
                *obs,
                *filter,
                wrapping,
                m,
                q,
            ) by {
                if let Some(d) = dist@[m] {
                    if d < k {
                        assert(d0[m] is Some);
                        assert(closed_at(d0, *obs, *filter, wrapping, m, q));
                        if let Some(l) = step(dims, wrapping, dims.spec_loc(m), q) {
                            lemma_loc_of_index(dims, m);
                            lemma_index_in_bounds(dims, l);
                        }
                    }
                }
            }
        }
        k = k + 1;
    }
    ShortestPaths { dims, dist, prev }
}


/// Is `p` a path from `src`: on the map, each location after the first one step from the one before it, into a
/// location the filter allows?
pub open spec fn is_path<F: Filter<Obs>>(obs: ObsTracker, filter: F, wrapping: Wrap2d, src: Location, p: Seq<
    Location,
>) -> bool {
    let dims = obs.spec_dims();
    &&& p.len() >= 1
    &&& p[0] == src
    &&& forall|i: int| 0 <= i < p.len() ==> dims.spec_contains(#[trigger] p[i])
    &&& forall|i: int|
        0 <= i < p.len() - 1 ==> filter.spec_allows(obs.spec_obs(#[trigger] p[i + 1])) && exists|q: int|
            0 <= q < 8 && step(dims, wrapping, p[i], q) == Some(p[i + 1])
}

/// Is `r`, read backwards, a run of steps ending at `dest`: each location on the map, and each reached by one step
/// from the one after it into a location the filter allows?
#[verifier::opaque]
pub open spec fn back_steps<F: Filter<Obs>>(obs: ObsTracker, filter: F, wrapping: Wrap2d, r: Seq<Location>) -> bool {
    let dims = obs.spec_dims();
    &&& forall|i: int| 0 <= i < r.len() ==> dims.spec_contains(#[trigger] r[i])
    &&& forall|i: int|
        0 <= i < r.len() - 1 ==> filter.spec_allows(obs.spec_obs(#[trigger] r[i])) && exists|q: int|
            0 <= q < 8 && #[trigger] step(dims, wrapping, r[i + 1], q) == Some(r[i])
}

/// `are_shortest_paths`, kept folded where only a few of its consequences are needed.
#[verifier::opaque]
pub open spec fn shortest_paths_hold<F: Filter<Obs>>(
    sp: ShortestPaths,
    obs: ObsTracker,
    src: Location,
    filter: F,
    wrapping: Wrap2d,
    max: u16,
) -> bool {
    are_shortest_paths(sp, obs, src, filter, wrapping, max)
}

/// A location reached in some steps is reached by one step from its recorded predecessor, reached in one step
/// fewer, into a location the filter allows.
proof fn lemma_prev_step<F: Filter<Obs>>(
    sp: ShortestPaths,
    obs: ObsTracker,
    src: Location,
    filter: F,
    wrapping: Wrap2d,
    max: u16,
    cur: Location,
)
    requires
        shortest_paths_hold(sp, obs, src, filter, wrapping, max),
        obs.spec_dims().spec_contains(cur),
        sp.dist@[obs.spec_dims().spec_index(cur)] matches Some(k) && k > 0,
    ensures
        ({
            let dims = obs.spec_dims();
            let k = sp.dist@[dims.spec_index(cur)]->0;
            &&& sp.prev@[dims.spec_index(cur)] matches Some(n)
            &&& dims.spec_contains(n)
            &&& sp.dist@[dims.spec_index(n)] == Some((k - 1) as u16)
            &&& filter.spec_allows(obs.spec_obs(cur))
            &&& exists|q: int| 0 <= q < 8 && #[trigger] step(dims, wrapping, n, q) == Some(cur)
        }),
{
    reveal(shortest_paths_hold);
    let dims = obs.spec_dims();
    lemma_index_in_bounds(dims, cur);
    assert(reached_by_step(sp.dist@, sp.prev@, obs, filter, wrapping, src, dims.spec_index(cur)));
}

/// A location reached in no steps is the source.
proof fn lemma_reached_at_zero<F: Filter<Obs>>(
    sp: ShortestPaths,
    obs: ObsTracker,
    src: Location,
    filter: F,
    wrapping: Wrap2d,
    max: u16,
    cur: Location,
)
    requires
        shortest_paths_hold(sp, obs, src, filter, wrapping, max),
        obs.spec_dims().spec_contains(cur),
        sp.dist@[obs.spec_dims().spec_index(cur)] == Some(0u16),
    ensures
        cur == src,
{
    reveal(shortest_paths_hold);
    let dims = obs.spec_dims();
    lemma_index_in_bounds(dims, cur);
    assert(reached_by_step(sp.dist@, sp.prev@, obs, filter, wrapping, src, dims.spec_index(cur)));
}

/// A run of back steps goes on by one step back from its last location.
proof fn lemma_back_step<F: Filter<Obs>>(obs: ObsTracker, filter: F, wrapping: Wrap2d, pre: Seq<Location>, n: Location)
    requires
        back_steps(obs, filter, wrapping, pre),
        pre.len() >= 1,
        obs.spec_dims().spec_contains(n),
        filter.spec_allows(obs.spec_obs(pre.last())),
        exists|q: int| 0 <= q < 8 && #[trigger] step(obs.spec_dims(), wrapping, n, q) == Some(pre.last()),
    ensures
        back_steps(obs, filter, wrapping, pre.push(n)),
{
    reveal(back_steps);
    let dims = obs.spec_dims();
    let r = pre.push(n);
    assert forall|i: int| 0 <= i < r.len() implies dims.spec_contains(#[trigger] r[i]) by {
        if i < pre.len() {
            assert(r[i] == pre[i]);
        }
    }
    assert forall|i: int| 0 <= i < r.len() - 1 implies filter.spec_allows(obs.spec_obs(#[trigger] r[i]))
        && exists|q2: int| 0 <= q2 < 8 && #[trigger] step(dims, wrapping, r[i + 1], q2) == Some(r[i]) by {
        if i < pre.len() - 1 {
            assert(r[i] == pre[i]);
            assert(r[i + 1] == pre[i + 1]);
        } else {
            assert(r[i] == pre.last());
            assert(r[i + 1] == n);
        }
    }
}

/// A shortest path from `src` to `dest`, both included, found by following the recorded predecessors back from
/// `dest`; none where `dest` was not reached. It has one location more than the steps counted for `dest`.
pub fn path_to<F: Filter<Obs>>(
    sp: &ShortestPaths,
    obs: &ObsTracker,
    src: Location,
    filter: &F,
    wrapping: Wrap2d,
    max: u16,
    dest: Location,
) -> (r: Option<Vec<Location>>)
    requires
        obs.wf(),
        shortest_paths_hold(*sp, *obs, src, *filter, wrapping, max),
        obs.spec_dims().spec_contains(dest),
    ensures
        match sp.dist@[obs.spec_dims().spec_index(dest)] {
            None => r is None,
            Some(d) => r matches Some(p) && is_path(*obs, *filter, wrapping, src, p@) && p@.last() == dest && p@.len()
                == d + 1,
        },
{
    proof {
        reveal(shortest_paths_hold);
    }
    let dims = sp.dims;
    proof {
        lemma_index_in_bounds(dims, dest);
    }
    let d = match sp.dist[dims.index(dest)] {
        None => {
            return None;
        },
        Some(d) => d,
    };
    let mut rev: Vec<Location> = Vec::new();
    rev.push(dest);
    proof {
        reveal(shortest_paths_hold);
        reveal(back_steps);
    }
    let mut cur = dest;
    let mut k: u16 = d;
    while k > 0
        invariant
            dims == obs.spec_dims(),
            obs.wf(),
            shortest_paths_hold(*sp, *obs, src, *filter, wrapping, max),
            sp.dims == dims,
            sp.dist@.len() == dims.spec_area(),
            sp.prev@.len() == dims.spec_area(),
            dims.spec_contains(cur),
            sp.dist@[dims.spec_index(cur)] == Some(k),
            k <= d,
            rev@.len() == d - k + 1,
            rev@[0] == dest,
            rev@.last() == cur,
            back_steps(*obs, *filter, wrapping, rev@),
        decreases k,
    {
        proof {
            lemma_prev_step(*sp, *obs, src, *filter, wrapping, max, cur);
        }
        let n = sp.prev[dims.index(cur)].unwrap();
        let ghost pre = rev@;
        rev.push(n);
        proof {
            lemma_back_step(*obs, *filter, wrapping, pre, n);
        }
        cur = n;
        k = k - 1;
    }
    proof {
        lemma_reached_at_zero(*sp, *obs, src, *filter, wrapping, max, cur);
        reveal(back_steps);
    }
    let len = rev.len();
    let mut p: Vec<Location> = Vec::new();
    let mut i: usize = 0;
    while i < len
        invariant
            len == rev@.len(),
            len >= 1,
            i <= len,
            p@.len() == i,
            forall|j: int| 0 <= j < i ==> #[trigger] p@[j] == rev@[len - 1 - j],
        decreases len - i,
    {
        p.push(rev[len - 1 - i]);
        i = i + 1;
    }
    proof {
        assert(p@[0] == src);
        assert(p@.last() == dest);
        assert forall|j: int| 0 <= j < p@.len() implies dims.spec_contains(#[trigger] p@[j]) by {
            assert(p@[j] == rev@[len - 1 - j]);
        }
        assert forall|j: int| 0 <= j < p@.len() - 1 implies filter.spec_allows(obs.spec_obs(#[trigger] p@[j + 1]))
            && exists|q: int| 0 <= q < 8 && #[trigger] step(dims, wrapping, p@[j], q) == Some(p@[j + 1]) by {
            let a = len - 1 - (j + 1);
            assert(p@[j + 1] == rev@[a]);
            assert(p@[j] == rev@[a + 1]);
            assert(filter.spec_allows(obs.spec_obs(rev@[a])));
        }
    }
    Some(p)
}

/// `shortest_paths`, its result stated folded.
fn shortest_paths_folded<F: Filter<Obs>>(obs: &ObsTracker, src: Location, filter: &F, wrapping: Wrap2d, max: u16) -> (sp:
    ShortestPaths)
    requires
        obs.wf(),
        obs.spec_dims().spec_contains(src),
    ensures
        shortest_paths_hold(sp, *obs, src, *filter, wrapping, max),
{
    let sp = shortest_paths(obs, src, filter, wrapping, max);
    proof {
        reveal(shortest_paths_hold);
    }
    sp
}

/// No location is counted more than `max` steps away.
proof fn lemma_dist_bound<F: Filter<Obs>>(
    sp: ShortestPaths,
    obs: ObsTracker,
    src: Location,
    filter: F,
    wrapping: Wrap2d,
    max: u16,
    dest: Location,
)
    requires
        shortest_paths_hold(sp, obs, src, filter, wrapping, max),
        obs.spec_dims().spec_contains(dest),
    ensures
        sp.dist@[obs.spec_dims().spec_index(dest)] matches Some(d) ==> d <= max,
{
    reveal(shortest_paths_hold);
    lemma_index_in_bounds(obs.spec_dims(), dest);
}

/// Where `dest` was not reached, no path of at most `max` steps leads there.
proof fn lemma_no_route<F: Filter<Obs>>(
    sp: ShortestPaths,
    obs: ObsTracker,
    src: Location,
    filter: F,
    wrapping: Wrap2d,
    max: u16,
    dest: Location,
)
    requires
        obs.wf(),
        shortest_paths_hold(sp, obs, src, filter, wrapping, max),
        obs.spec_dims().spec_contains(dest),
        sp.dist@[obs.spec_dims().spec_index(dest)] is None,
    ensures
        forall|path: Seq<Location>|
            !(#[trigger] is_path(obs, filter, wrapping, src, path) && path.last() == dest && path.len() - 1 <= max),
{
    reveal(shortest_paths_hold);
    assert forall|pth: Seq<Location>| !(#[trigger] is_path(obs, filter, wrapping, src, pth) && pth.last() == dest
        && pth.len() - 1 <= max) by {
        if is_path(obs, filter, wrapping, src, pth) && pth.last() == dest && pth.len() - 1 <= max {
            law_no_shorter_path(sp, obs, src, filter, wrapping, max, pth);
        }
    }
}

/// Is the location after the `i`th of `p` one step from it?
pub open spec fn stepped(dims: Dims, wrapping: Wrap2d, p: Seq<Location>, i: int) -> bool {
    exists|q: int| 0 <= q < 8 && #[trigger] step(dims, wrapping, p[i], q) == Some(p[i + 1])
}

/// A path's locations are on the map, each after the first one step from the one before it.
proof fn lemma_path_steps<F: Filter<Obs>>(obs: ObsTracker, filter: F, wrapping: Wrap2d, src: Location, p: Seq<Location>)
    requires
        is_path(obs, filter, wrapping, src, p),
    ensures
        forall|i: int| 0 <= i < p.len() ==> obs.spec_dims().spec_contains(#[trigger] p[i]),
        forall|i: int| 0 <= i < p.len() - 1 ==> #[trigger] stepped(obs.spec_dims(), wrapping, p, i),
{
    assert forall|i: int| 0 <= i < p.len() - 1 implies #[trigger] stepped(obs.spec_dims(), wrapping, p, i) by {
        assert(filter.spec_allows(obs.spec_obs(p[i + 1])));
    }
}

/// A shortest path, through the locations whose observations the filter allows, from `src` to `dest` in at most
/// `max` steps, both ends included; none if there is no such path.
#[verifier::spinoff_prover]
pub fn plan<F: Filter<Obs>>(obs: &ObsTracker, src: Location, dest: Location, filter: &F, wrapping: Wrap2d, max: u16) -> (r:
    Option<Vec<Location>>)
    requires
        obs.wf(),
        obs.spec_dims().spec_contains(src),
        obs.spec_dims().spec_contains(dest),
    ensures
        r is None ==> forall|path: Seq<Location>|
            !(#[trigger] is_path(*obs, *filter, wrapping, src, path) && path.last() == dest && path.len() - 1 <= max),
        r matches Some(path) ==> {
            let dims = obs.spec_dims();
            &&& is_path(*obs, *filter, wrapping, src, path@)
            &&& path@[0] == src
            &&& path@.last() == dest
            &&& path@.len() - 1 <= max
            &&& forall|i: int| 0 <= i < path@.len() ==> dims.spec_contains(#[trigger] path@[i])
            &&& forall|i: int| 0 <= i < path@.len() - 1 ==> #[trigger] stepped(dims, wrapping, path@, i)
        },
{
    let dims = obs.dims();
    let sp = shortest_paths_folded(obs, src, filter, wrapping, max);
    proof {
        lemma_dist_bound(sp, *obs, src, *filter, wrapping, max, dest);
    }
    let found = path_to(&sp, obs, src, filter, wrapping, max, dest);
    match found {
        None => {
            proof {
                lemma_no_route(sp, *obs, src, *filter, wrapping, max, dest);
            }
            None
        },
        Some(pth) => {
            proof {
                lemma_path_steps(*obs, *filter, wrapping, src, pth@);
            }
            Some(pth)
        },
    }
}

/// No path of at most `max` steps reaches a location in fewer steps than the shortest paths count for it: the
/// count is at most the path's number of steps.
pub proof fn law_no_shorter_path<F: Filter<Obs>>(
    sp: ShortestPaths,
    obs: ObsTracker,
    src: Location,
    filter: F,
    wrapping: Wrap2d,
    max: u16,
    p: Seq<Location>,
)
    requires
        obs.wf(),
        are_shortest_paths(sp, obs, src, filter, wrapping, max),
        is_path(obs, filter, wrapping, src, p),
        p.len() - 1 <= max,
    ensures
        sp.dist@[obs.spec_dims().spec_index(p.last())] matches Some(d) && d <= p.len() - 1,
    decreases p.len(),
{
    let dims = obs.spec_dims();
    if p.len() > 1 {
        let h = p.drop_last();
        assert forall|i: int| 0 <= i < h.len() implies dims.spec_contains(#[trigger] h[i]) by {
            assert(h[i] == p[i]);
        }
        assert forall|i: int| 0 <= i < h.len() - 1 implies filter.spec_allows(obs.spec_obs(#[trigger] h[i + 1])) && exists|q: int|
            0 <= q < 8 && step(dims, wrapping, h[i], q) == Some(h[i + 1]) by {
            assert(h[i + 1] == p[i + 1]);
            assert(h[i] == p[i]);
            assert(dims.spec_contains(p[i + 1]));
        }
        law_no_shorter_path(sp, obs, src, filter, wrapping, max, h);
        let last = p.len() - 2;
        let n = p[last];
        assert(dims.spec_contains(p[last + 1]));
        let q = choose|q: int| 0 <= q < 8 && step(dims, wrapping, p[last], q) == Some(p[last + 1]);
        assert(dims.spec_contains(n));
        lemma_index_in_bounds(dims, n);
        let i = dims.spec_index(n);
        assert(closed_at(sp.dist@, obs, filter, wrapping, i, q));
    } else {
        lemma_index_in_bounds(dims, src);
    }
}


/// Lets a search through the tiles a unit could move onto: by the tile itself, or by the tile last observed there,
/// a location not yet observed being closed to it.
pub struct UnitMovementFilter<'a> {
    pub unit: &'a Unit,
}

impl<'a> UnitMovementFilter<'a> {
    pub fn new(unit: &'a Unit) -> (f: Self)
        ensures
            f.unit == unit,
    {
        UnitMovementFilter { unit }
    }
}

impl<'a> Filter<Tile> for UnitMovementFilter<'a> {
    open spec fn spec_allows(&self, item: Tile) -> bool {
        self.unit.spec_can_move_on_tile(item)
    }

    fn allows(&self, item: &Tile) -> (b: bool) {
        self.unit.can_move_on_tile(item)
    }
}

impl<'a> Filter<Obs> for UnitMovementFilter<'a> {
    open spec fn spec_allows(&self, item: Obs) -> bool {
        item matches Obs::Observed { tile, .. } && self.unit.spec_can_move_on_tile(tile)
    }

    fn allows(&self, item: &Obs) -> (b: bool) {
        match item {
            Obs::Observed { tile, .. } => self.unit.can_move_on_tile(tile),
            Obs::Unobserved => false,
        }
    }
}


/// Does the unit's step in direction `d` land on a tile of the map that the unit could move onto?
pub open spec fn legal_step(map: MapData, wrapping: Wrap2d, u: Unit, d: Direction) -> bool {
    match step(map.spec_dims(), wrapping, u.loc, d.spec_index()) {
        Some(l) => u.spec_can_move_on_tile(map.spec_tile(l)),
        None => false,
    }
}

/// The directions, in the order of `Direction::values`, in which the unit could take one step on the map.
pub open spec fn legal_directions(map: MapData, wrapping: Wrap2d, u: Unit) -> Seq<Direction> {
    spec_direction_values().filter(|d: Direction| legal_step(map, wrapping, u, d))
}

/// The directions in which the unit could take one step on the map: onto a tile, on the map, that it could move onto.
pub fn unit_legal_directions(map: &MapData, wrapping: Wrap2d, unit: &Unit) -> (v: Vec<Direction>)
    requires
        map.wf(),
        map.spec_dims().spec_contains(unit.loc),
    ensures
        v@ == legal_directions(*map, wrapping, *unit),
{
    let dims = map.dims();
    let dirs = Direction::values();
    let ghost all = spec_direction_values();
    let ghost pred = |d: Direction| legal_step(*map, wrapping, *unit, d);
    proof {
        lemma_direction_values_index();
        assert(all.take(0) =~= Seq::<Direction>::empty());
        reveal(Seq::filter);
    }
    let mut v: Vec<Direction> = Vec::new();
    let mut q: usize = 0;
    while q < 8
        invariant
            q <= 8,
            dims == map.spec_dims(),
            map.wf(),
            dims.spec_contains(unit.loc),
            dirs@ == all,
            all == spec_direction_values(),
            pred == (|d: Direction| legal_step(*map, wrapping, *unit, d)),
            v@ == all.take(q as int).filter(pred),
            forall|j: int| 0 <= j < 8 ==> (#[trigger] all[j]).spec_index() == j,
            all.len() == 8,
        decreases 8 - q,
    {
        let d = dirs[q];
        let ok = match step_from(dims, wrapping, unit.loc, q) {
            Some(l) => match map.tile(l) {
                Some(t) => unit.can_move_on_tile(t),
                None => false,
            },
            None => false,
        };
        proof {
            reveal(Seq::filter);
            assert(all.take(q as int + 1).drop_last() =~= all.take(q as int));
            assert(all.take(q as int + 1).last() == d);
            assert(d.spec_index() == q);
            assert(ok == pred(d));
        }
        if ok {
            v.push(d);
        }
        q = q + 1;
    }
    proof {
        assert(all.take(8) =~= all);
    }
    v
}


/// Is `l` a location other than the unit's that the unit could reach in one step on the map: onto a tile it could
/// move onto?
pub open spec fn legal_destination(map: MapData, wrapping: Wrap2d, u: Unit, l: Location) -> bool {
    &&& l != u.loc
    &&& u.spec_can_move_on_tile(map.spec_tile(l))
    &&& exists|q: int| 0 <= q < 8 && #[trigger] step(map.spec_dims(), wrapping, u.loc, q) == Some(l)
}

/// Does the list hold the location?
fn holds_location(v: &Vec<Location>, l: Location) -> (b: bool)
    ensures
        b == v@.contains(l),
{
    let mut i: usize = 0;
    while i < v.len()
        invariant
            i <= v@.len(),
            forall|j: int| 0 <= j < i ==> v@[j] != l,
        decreases v@.len() - i,
    {
        if v[i] == l {
            return true;
        }
        i = i + 1;
    }
    false
}

/// The locations, each once, other than the unit's own, that the unit could reach in one step on the map.
pub fn unit_legal_one_step_destinations(map: &MapData, wrapping: Wrap2d, unit: &Unit) -> (v: Vec<Location>)
    requires
        map.wf(),
        map.spec_dims().spec_contains(unit.loc),
    ensures
        v@.no_duplicates(),
        forall|l: Location| #[trigger] v@.contains(l) <==> legal_destination(*map, wrapping, *unit, l),
{
    let dims = map.dims();
    let mut v: Vec<Location> = Vec::new();
    let mut q: usize = 0;
    while q < 8
        invariant
            q <= 8,
            dims == map.spec_dims(),
            map.wf(),
            dims.spec_contains(unit.loc),
            v@.no_duplicates(),
            forall|l: Location| #[trigger] v@.contains(l) <==> (l != unit.loc && unit.spec_can_move_on_tile(map.spec_tile(l))
                && exists|q2: int| 0 <= q2 < q && #[trigger] step(dims, wrapping, unit.loc, q2) == Some(l)),
        decreases 8 - q,
    {
        let r = step_from(dims, wrapping, unit.loc, q);
        let ghost before = v@;
        if let Some(l) = r {
            let ok = match map.tile(l) {
                Some(t) => unit.can_move_on_tile(t),
                None => false,
            };
            if ok && l != unit.loc && !holds_location(&v, l) {
                v.push(l);
                proof {
                    assert forall|x: int, y: int| 0 <= x < v@.len() && 0 <= y < v@.len() && x != y implies v@[x] != v@[y] by {
                        if x < before.len() && y < before.len() {
                        } else if x == before.len() {
                            assert(before.contains(v@[y]) || y == x);
                        } else {
                            assert(before.contains(v@[x]));
                        }
                    }
                }
            }
        }
        proof {
            assert forall|m: Location| #[trigger] v@.contains(m) <==> (m != unit.loc && unit.spec_can_move_on_tile(map.spec_tile(m))
                && exists|q2: int| 0 <= q2 < q + 1 && #[trigger] step(dims, wrapping, unit.loc, q2) == Some(m)) by {
                if v@.contains(m) && !before.contains(m) {
                    let k = choose|k: int| 0 <= k < v@.len() && v@[k] == m;
                    if k < before.len() {
                        assert(before[k] == m);
                    }
                    assert(step(dims, wrapping, unit.loc, q as int) == Some(m));
                }
                if before.contains(m) {
                    let k = choose|k: int| 0 <= k < before.len() && before[k] == m;
                    assert(v@[k] == m);
                }
                if m != unit.loc && unit.spec_can_move_on_tile(map.spec_tile(m)) && exists|q2: int|
                    0 <= q2 < q + 1 && #[trigger] step(dims, wrapping, unit.loc, q2) == Some(m) {
                    let q2 = choose|q2: int| 0 <= q2 < q + 1 && #[trigger] step(dims, wrapping, unit.loc, q2) == Some(m);
                    if q2 == q {
                        if !before.contains(m) {
                            assert(v@[before.len() as int] == m);
                        }
                    }
                }
            }
        }
        q = q + 1;
    }
    v
}


/// Is the step from `loc` in the `q`th direction a way out for a unit of the type: onto a tile whose terrain it can
/// traverse and, `conservative`, that it could occupy, else that it could move onto?
pub open spec fn way_out_step(map: MapData, wrapping: Wrap2d, loc: Location, t: UnitType, conservative: bool, q: int) -> bool {
    match step(map.spec_dims(), wrapping, loc, q) {
        Some(l) => t.spec_transport_mode().spec_can_traverse(map.spec_tile(l).terrain) && if conservative {
            t.spec_can_occupy_tile(map.spec_tile(l))
        } else {
            t.spec_can_move_on_tile(map.spec_tile(l))
        },
        None => false,
    }
}

/// Does a unit of the type, in a city at `loc`, have a way out: one of the eight steps?
pub open spec fn has_way_out(map: MapData, wrapping: Wrap2d, loc: Location, t: UnitType, conservative: bool) -> bool {
    exists|q: int| 0 <= q < 8 && #[trigger] way_out_step(map, wrapping, loc, t, conservative, q)
}

/// The unit types, in the order of `UnitType::values`, that a city at `loc` could produce with a way out.
pub open spec fn productions_with_way_out(map: MapData, wrapping: Wrap2d, loc: Location, conservative: bool) -> Seq<
    UnitType,
> {
    spec_unit_type_values().filter(|t: UnitType| has_way_out(map, wrapping, loc, t, conservative))
}

/// Has a unit of the type, at `loc`, a way out, as `has_way_out` says?
fn way_out(map: &MapData, wrapping: Wrap2d, loc: Location, t: UnitType, conservative: bool) -> (b: bool)
    requires
        map.wf(),
        map.spec_dims().spec_contains(loc),
    ensures
        b == has_way_out(*map, wrapping, loc, t, conservative),
{
    let dims = map.dims();
    let mut q: usize = 0;
    while q < 8
        invariant
            q <= 8,
            dims == map.spec_dims(),
            map.wf(),
            dims.spec_contains(loc),
            forall|q2: int| 0 <= q2 < q ==> !#[trigger] way_out_step(*map, wrapping, loc, t, conservative, q2),
        decreases 8 - q,
    {
        if let Some(l) = step_from(dims, wrapping, loc, q) {
            match map.tile(l) {
                Some(tile) => {
                    let ok = t.transport_mode().can_traverse(tile.terrain) && if conservative {
                        t.can_occupy_tile(tile)
                    } else {
                        t.can_move_on_tile(tile)
                    };
                    proof {
                        assert(ok == way_out_step(*map, wrapping, loc, t, conservative, q as int));
                    }
                    if ok {
                        return true;
                    }
                },
                None => {},
            }
        }
        q = q + 1;
    }
    false
}

/// The unit types, in the order of `UnitType::values`, that a city at `loc` could produce with a way out.
pub fn unit_types_with_way_out(map: &MapData, wrapping: Wrap2d, loc: Location, conservative: bool) -> (v: Vec<UnitType>)
    requires
        map.wf(),
        map.spec_dims().spec_contains(loc),
    ensures
        v@ == productions_with_way_out(*map, wrapping, loc, conservative),
{
    let types = UnitType::values();
    let ghost all = spec_unit_type_values();
    let ghost pred = |t: UnitType| has_way_out(*map, wrapping, loc, t, conservative);
    proof {
        assert(all.take(0) =~= Seq::<UnitType>::empty());
        reveal(Seq::filter);
    }
    let mut v: Vec<UnitType> = Vec::new();
    let mut j: usize = 0;
    while j < 10
        invariant
            j <= 10,
            map.wf(),
            map.spec_dims().spec_contains(loc),
            types@ == all,
            all == spec_unit_type_values(),
            all.len() == 10,
            pred == (|t: UnitType| has_way_out(*map, wrapping, loc, t, conservative)),
            v@ == all.take(j as int).filter(pred),
        decreases 10 - j,
    {
        let t = types[j];
        let ok = way_out(map, wrapping, loc, t, conservative);
        proof {
            reveal(Seq::filter);
            assert(all.take(j as int + 1).drop_last() =~= all.take(j as int));
            assert(all.take(j as int + 1).last() == t);
        }
        if ok {
            v.push(t);
        }
        j = j + 1;
    }
    proof {
        assert(all.take(10) =~= all);
    }
    v
}


/// Every location the shortest paths reach in `d` steps is reached by a path of `d` steps: following the recorded
/// predecessors back to the source gives one.
pub proof fn law_recorded_counts_have_paths<F: Filter<Obs>>(
    sp: ShortestPaths,
    obs: ObsTracker,
    src: Location,
    filter: F,
    wrapping: Wrap2d,
    max: u16,
    l: Location,
    d: u16,
)
    requires
        obs.wf(),
        are_shortest_paths(sp, obs, src, filter, wrapping, max),
        obs.spec_dims().spec_contains(l),
        sp.dist@[obs.spec_dims().spec_index(l)] == Some(d),
    ensures
        exists|p: Seq<Location>| #[trigger] is_path(obs, filter, wrapping, src, p) && p.len() == d + 1 && p.last() == l,
    decreases d,
{
    let dims = obs.spec_dims();
    lemma_index_in_bounds(dims, l);
    let j = dims.spec_index(l);
    assert(reached_by_step(sp.dist@, sp.prev@, obs, filter, wrapping, src, j));
    if l == src {
        let p = seq![src];
        assert(is_path(obs, filter, wrapping, src, p));
    } else {
        let n = sp.prev@[j]->0;
        lemma_index_in_bounds(dims, n);
        law_recorded_counts_have_paths(sp, obs, src, filter, wrapping, max, n, (d - 1) as u16);
        let p0 = choose|p: Seq<Location>| #[trigger] is_path(obs, filter, wrapping, src, p) && p.len() == d && p.last() == n;
        let p = p0.push(l);
        assert forall|i: int| 0 <= i < p.len() implies dims.spec_contains(#[trigger] p[i]) by {
            if i < p0.len() {
                assert(p[i] == p0[i]);
            }
        }
        assert forall|i: int| 0 <= i < p.len() - 1 implies filter.spec_allows(obs.spec_obs(#[trigger] p[i + 1])) && exists|q: int|
            0 <= q < 8 && step(dims, wrapping, p[i], q) == Some(p[i + 1]) by {
            assert(p[i] == p0[i]);
            if i < p0.len() - 1 {
                assert(p[i + 1] == p0[i + 1]);
            } else {
                assert(p[i] == n);
                assert(p[i + 1] == l);
            }
        }
        assert(is_path(obs, filter, wrapping, src, p));
    }
}

/// The location one step from `loc` in direction `d`, wrapping as `wrapping` says, if on the map.
pub open spec fn neighbour(dims: Dims, wrapping: Wrap2d, loc: Location, d: Direction) -> Option<Location> {
    wrapping.spec_wrapped_add(dims, loc, Vec2d { x: d.spec_vec2d().0 as i32, y: d.spec_vec2d().1 as i32 })
}

/// Could a unit of the type leave a city onto the tile: terrain it travels over, and a tile it could move onto,
/// or, judging conservatively, occupy?
pub open spec fn could_leave_onto(t: UnitType, tile: Tile, conservative: bool) -> bool {
    &&& t.spec_transport_mode().spec_can_traverse(tile.terrain)
    &&& if conservative {
        t.spec_can_occupy_tile(tile)
    } else {
        t.spec_can_move_on_tile(tile)
    }
}

/// A city can produce a unit type exactly when, among the eight locations next to it in every direction,
/// diagonals included and wrapped as the map wraps, one is a tile the unit could leave the city onto.
pub proof fn law_productions_are_the_types_with_a_neighbour_to_leave_onto(
    map: MapData,
    wrapping: Wrap2d,
    loc: Location,
    conservative: bool,
    t: UnitType,
)
    ensures
        productions_with_way_out(map, wrapping, loc, conservative).contains(t) <==> exists|d: Direction|
            #[trigger] neighbour(map.spec_dims(), wrapping, loc, d) matches Some(l) && could_leave_onto(
                t,
                map.spec_tile(l),
                conservative,
            ),
{
    lemma_direction_values_index();
    lemma_unit_type_values_index();
    let vals = spec_unit_type_values();
    let pred = |t2: UnitType| has_way_out(map, wrapping, loc, t2, conservative);
    assert(vals[t.spec_index()] == t);
    assert(vals.contains(t));
    assert forall|d: Direction| step_vec(#[trigger] d.spec_index()) == (Vec2d {
        x: d.spec_vec2d().0 as i32,
        y: d.spec_vec2d().1 as i32,
    }) by {
        assert(spec_direction_values()[d.spec_index()] == d);
    }
    if productions_with_way_out(map, wrapping, loc, conservative).contains(t) {
        vals.filter_lemma(pred);
        let k = choose|k: int| 0 <= k < vals.filter(pred).len() && vals.filter(pred)[k] == t;
        assert(pred(vals.filter(pred)[k]));
        assert(has_way_out(map, wrapping, loc, t, conservative));
        let q = choose|q: int| 0 <= q < 8 && #[trigger] way_out_step(map, wrapping, loc, t, conservative, q);
        let d = spec_direction_values()[q];
        assert(d.spec_index() == q);
        assert(neighbour(map.spec_dims(), wrapping, loc, d) == step(map.spec_dims(), wrapping, loc, q));
    }
    if exists|d: Direction| #[trigger] neighbour(map.spec_dims(), wrapping, loc, d) matches Some(l) && could_leave_onto(
        t,
        map.spec_tile(l),
        conservative,
    ) {
        let d = choose|d: Direction| #[trigger] neighbour(map.spec_dims(), wrapping, loc, d) matches Some(l)
            && could_leave_onto(t, map.spec_tile(l), conservative);
        let q = d.spec_index();
        assert(0 <= q < 8);
        assert(neighbour(map.spec_dims(), wrapping, loc, d) == step(map.spec_dims(), wrapping, loc, q));
        assert(way_out_step(map, wrapping, loc, t, conservative, q));
        assert(pred(t));
        vals.lemma_filter_contains_rev(pred, t);
    }
}

/// A unit's movement filter never lets a search into a location the player has not observed.
pub proof fn law_unobserved_is_closed(unit: Unit)
    ensures
        !(UnitMovementFilter { unit: &unit }).spec_allows(Obs::Unobserved),
{
}

/// Shortest paths planned with a unit's movement filter reach, besides the source, only locations the player has
/// observed, each with a tile the unit could move onto.
pub proof fn law_paths_run_over_observed_tiles(
    sp: ShortestPaths,
    obs: ObsTracker,
    src: Location,
    unit: Unit,
    wrapping: Wrap2d,
    max: u16,
    j: int,
)
    requires
        are_shortest_paths(sp, obs, src, (UnitMovementFilter { unit: &unit }), wrapping, max),
        0 <= j < obs.spec_dims().spec_area(),
        (sp.dist@[j] is Some),
        obs.spec_dims().spec_loc(j) != src,
    ensures
        obs.spec_obs(obs.spec_dims().spec_loc(j)) matches Obs::Observed { tile, .. } && unit.spec_can_move_on_tile(tile),
{
    assert(reached_by_step(sp.dist@, sp.prev@, obs, (UnitMovementFilter { unit: &unit }), wrapping, src, j));
}

} // verus!
