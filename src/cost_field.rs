use vstd::prelude::*;
use crate::grid::{Grid, lemma_cell, lemma_index};

verus! {

/// Cost recorded for a cell that the search has not reached yet.
pub const UNREACHED: u64 = 0xffff_ffff_ffff_ffff;

/// Largest resource amount a single cell can hold.
pub const MAX_CELL: u64 = 0xffff_ffff;

/// A walk over the grid: valid cell indices, each one a neighbour of the one
/// before it.
pub open spec fn is_path(g: &Grid, p: Seq<int>) -> bool {
    &&& p.len() >= 1
    &&& forall|j: int| 0 <= j < p.len() ==> 0 <= #[trigger] p[j] < g.size()
    &&& forall|j: int| 0 <= j < p.len() - 1 ==> #[trigger] g.adjacent(p[j], p[j + 1])
}

/// A walk from cell `s` to cell `c`.
pub open spec fn is_route(g: &Grid, s: int, c: int, p: Seq<int>) -> bool {
    is_path(g, p) && p[0] == s && p.last() == c
}

/// Cost of a walk: every step is charged the resource of the cell it leaves.
pub open spec fn path_cost(g: &Grid, p: Seq<int>) -> int
    decreases p.len(),
{
    if p.len() <= 1 {
        0
    } else {
        path_cost(g, p.drop_last()) + g.res(p[p.len() - 2])
    }
}

/// `v` is the least cost of any walk from `s` to `c`, and some walk costs
/// exactly `v`.
pub open spec fn is_min_cost(g: &Grid, s: int, c: int, v: int) -> bool {
    &&& exists|p: Seq<int>| is_route(g, s, c, p) && path_cost(g, p) == v
    &&& forall|p: Seq<int>| is_route(g, s, c, p) ==> v <= #[trigger] path_cost(g, p)
}

/// A cost map from `s`: one least cost per cell.
pub open spec fn is_cost_map(g: &Grid, s: int, m: Seq<u64>) -> bool {
    &&& m.len() == g.size()
    &&& forall|c: int| 0 <= c < g.size() ==> is_min_cost(g, s, c, #[trigger] m[c] as int)
}

/// Every edge out of cell `i` is relaxed in `d`.
pub open spec fn relaxed(g: &Grid, d: Seq<u64>, i: int) -> bool {
    &&& d[g.step(i, 0)] <= d[i] + g.res(i)
    &&& d[g.step(i, 1)] <= d[i] + g.res(i)
    &&& d[g.step(i, 2)] <= d[i] + g.res(i)
    &&& d[g.step(i, 3)] <= d[i] + g.res(i)
}

pub open spec fn count_done(s: Seq<bool>) -> nat
    decreases s.len(),
{
    if s.len() == 0 {
        0
    } else {
        count_done(s.drop_last()) + if s.last() { 1nat } else { 0nat }
    }
}

proof fn lemma_count_bound(s: Seq<bool>)
    ensures
        count_done(s) <= s.len(),
    decreases s.len(),
{
    if s.len() > 0 {
        lemma_count_bound(s.drop_last());
    }
}

proof fn lemma_count_set(s: Seq<bool>, i: int)
    requires
        0 <= i < s.len(),
        !s[i],
    ensures
        count_done(s.update(i, true)) == count_done(s) + 1,
    decreases s.len(),
{
    let t = s.update(i, true);
    if i == s.len() - 1 {
        assert(t.drop_last() =~= s.drop_last());
    } else {
        assert(t.drop_last() =~= s.drop_last().update(i, true));
        lemma_count_set(s.drop_last(), i);
    }
}

proof fn lemma_size(g: &Grid)
    requires
        g.wf(),
    ensures
        g.size() <= 16777216,
{
    assert(g.width * g.height <= 16777216) by (nonlinear_arith)
        requires 1 <= g.width <= 4096, 1 <= g.height <= 4096;
}

/// Steps stay inside the grid.
proof fn lemma_step_bound(g: &Grid, i: int, k: int)
    requires
        g.wf(),
        0 <= i < g.size(),
    ensures
        0 <= g.step(i, k) < g.size(),
{
    lemma_cell(g.width as int, g.height as int, i);
    let x = g.x_of(i);
    let y = g.y_of(i);
    lemma_index(g.width as int, g.height as int, x, g.north_y(y));
    lemma_index(g.width as int, g.height as int, x, g.south_y(y));
    lemma_index(g.width as int, g.height as int, g.east_x(x), y);
    lemma_index(g.width as int, g.height as int, g.west_x(x), y);
}

/// Whether cell `i` is among the entries of the frontier `f`.
pub open spec fn queued(f: Seq<usize>, i: int) -> bool {
    exists|t: int| 0 <= t < f.len() && f[t] as int == i
}

/// Frontier entries are reached cells, and every reached cell not yet
/// settled is queued.
pub open spec fn frontier_ok(dist: Seq<u64>, done: Seq<bool>, f: Seq<usize>) -> bool {
    &&& forall|t: int| 0 <= t < f.len() ==> (#[trigger] f[t]) < dist.len() && dist[f[t] as int]
        != UNREACHED
    &&& forall|i: int|
        0 <= i < dist.len() && !done[i] && #[trigger] dist[i] != UNREACHED ==> queued(f, i)
}

/// Scans the frontier: drops the settled entries and finds a cell not yet
/// settled whose cost is least among such cells, if there is one.
fn closest_open(dist: &Vec<u64>, done: &Vec<bool>, frontier: &Vec<usize>) -> (r: (
    Option<usize>,
    Vec<usize>,
))
    requires
        dist@.len() == done@.len(),
        frontier_ok(dist@, done@, frontier@),
    ensures
        frontier_ok(dist@, done@, r.1@),
        match r.0 {
            Some(u) => {
                &&& u < dist@.len()
                &&& !done@[u as int]
                &&& dist@[u as int] != UNREACHED
                &&& forall|j: int|
                    0 <= j < dist@.len() && !done@[j] && dist@[j] != UNREACHED ==> dist@[u as int]
                        <= #[trigger] dist@[j]
            },
            None => forall|j: int|
                0 <= j < dist@.len() && !done@[j] ==> #[trigger] dist@[j] == UNREACHED,
        },
{
    let mut best: Option<usize> = None;
    let mut kept: Vec<usize> = Vec::new();
    let mut t: usize = 0;
    while t < frontier.len()
        invariant
            dist@.len() == done@.len(),
            frontier_ok(dist@, done@, frontier@),
            0 <= t <= frontier@.len(),
            forall|s: int| 0 <= s < kept@.len() ==> (#[trigger] kept@[s]) < dist@.len() && dist@[kept@[s] as int]
                != UNREACHED,
            forall|s: int|
                0 <= s < t && !done@[frontier@[s] as int] ==> queued(kept@, #[trigger] frontier@[s] as int),
            match best {
                Some(u) => {
                    &&& u < dist@.len()
                    &&& !done@[u as int]
                    &&& dist@[u as int] != UNREACHED
                    &&& forall|s: int|
                        0 <= s < t && !done@[frontier@[s] as int] ==> dist@[u as int]
                            <= dist@[#[trigger] frontier@[s] as int]
                },
                None => forall|s: int| 0 <= s < t ==> done@[#[trigger] frontier@[s] as int],
            },
        decreases frontier@.len() - t,
    {
        let c = frontier[t];
        if !done[c] {
            let ghost old_kept = kept@;
            kept.push(c);
            proof {
                assert forall|s: int|
                    0 <= s < t + 1 && !done@[frontier@[s] as int] implies queued(
                    kept@,
                    #[trigger] frontier@[s] as int,
                ) by {
                    if s < t {
                        let w = choose|w: int| 0 <= w < old_kept.len() && old_kept[w] as int == frontier@[s] as int;
                        assert(kept@[w] == old_kept[w]);
                    } else {
                        assert(kept@[old_kept.len() as int] == c);
                    }
                }
            }
            match best {
                None => {
                    best = Some(c);
                },
                Some(u) => {
                    if dist[c] < dist[u] {
                        best = Some(c);
                    }
                },
            }
        }
        t = t + 1;
    }
    proof {
        assert forall|j: int|
            0 <= j < dist@.len() && !done@[j] && #[trigger] dist@[j] != UNREACHED implies queued(
            kept@,
            j,
        ) by {
            assert(queued(frontier@, j));
            let s = choose|s: int| 0 <= s < frontier@.len() && frontier@[s] as int == j;
            assert(!done@[frontier@[s] as int]);
        }
        match best {
            Some(u) => {
                assert forall|j: int|
                    0 <= j < dist@.len() && !done@[j] && dist@[j] != UNREACHED implies dist@[u as int]
                    <= #[trigger] dist@[j] by {
                    assert(queued(frontier@, j));
                    let s = choose|s: int| 0 <= s < frontier@.len() && frontier@[s] as int == j;
                    assert(!done@[frontier@[s] as int]);
                }
            },
            None => {
                assert forall|j: int| 0 <= j < dist@.len() && !done@[j] implies #[trigger] dist@[j]
                    == UNREACHED by {
                    if dist@[j] != UNREACHED {
                        assert(queued(frontier@, j));
                        let s = choose|s: int| 0 <= s < frontier@.len() && frontier@[s] as int == j;
                        assert(done@[frontier@[s] as int]);
                    }
                }
            },
        }
    }
    (best, kept)
}

/// Least cumulative cost from cell `source` to every cell of the grid, where a
/// step costs the resource of the cell it leaves. A label-setting search:
/// repeatedly takes the cheapest reached cell off the frontier, settles it
/// and relaxes its four edges, queueing every cell whose cost improves.
pub fn cost_field(g: &Grid, source: usize) -> (r: Vec<u64>)
    requires
        g.wf(),
        source < g.size(),
    ensures
        is_cost_map(g, source as int, r@),
{
    let n = g.halite.len();
    proof {
        lemma_size(g);
    }
    let mut dist: Vec<u64> = Vec::new();
    let mut done: Vec<bool> = Vec::new();
    let mut t: usize = 0;
    while t < n
        invariant
            0 <= t <= n,
            dist@.len() == t,
            done@.len() == t,
            forall|i: int| 0 <= i < t ==> #[trigger] dist@[i] == UNREACHED,
            forall|i: int| 0 <= i < t ==> !#[trigger] done@[i],
        decreases n - t,
    {
        dist.push(UNREACHED);
        done.push(false);
        t = t + 1;
    }
    proof {
        lemma_count_none(done@);
    }
    dist.set(source, 0);
    let ghost mut routes: Seq<Seq<int>> = Seq::new(n as nat, |i: int| seq![i]);
    let mut frontier: Vec<usize> = Vec::new();
    frontier.push(source);
    proof {
        assert(frontier@[0] == source);
        assert forall|i: int|
            0 <= i < dist@.len() && !done@[i] && #[trigger] dist@[i] != UNREACHED implies queued(
            frontier@,
            i,
        ) by {
            assert(i == source);
        }
    }
    proof {
        assert(is_route(g, source as int, source as int, routes[source as int]));
        assert(path_cost(g, routes[source as int]) == 0);
    }
    loop
        invariant
            g.wf(),
            n == g.size(),
            n <= 16777216,
            source < n,
            dist@.len() == n,
            done@.len() == n,
            routes.len() == n,
            count_done(done@) <= n,
            dist@[source as int] == 0,
            frontier_ok(dist@, done@, frontier@),
            forall|i: int|
                0 <= i < n && #[trigger] dist@[i] != UNREACHED ==> is_route(
                    g,
                    source as int,
                    i,
                    routes[i],
                ) && path_cost(g, routes[i]) == dist@[i],
            forall|i: int|
                0 <= i < n && #[trigger] dist@[i] != UNREACHED ==> dist@[i] <= count_done(done@)
                    * MAX_CELL,
            forall|i: int|
                0 <= i < n && #[trigger] done@[i] ==> dist@[i] != UNREACHED && relaxed(
                    g,
                    dist@,
                    i,
                ),
            forall|i: int, j: int|
                0 <= i < n && 0 <= j < n && #[trigger] done@[i] && !#[trigger] done@[j]
                    && dist@[j] != UNREACHED ==> dist@[i] <= dist@[j],
        ensures
            forall|i: int| 0 <= i < n && #[trigger] dist@[i] != UNREACHED ==> done@[i],
        decreases n - count_done(done@),
    {
        let (next, kept) = closest_open(&dist, &done, &frontier);
        frontier = kept;
        let u = match next {
            None => {
                break ;
            },
            Some(u) => u,
        };
        let ghost before = dist@;
        let ghost done_before = done@;
        proof {
            lemma_count_set(done@, u as int);
            lemma_count_bound(done@.update(u as int, true));
        }
        done.set(u, true);
        let du = dist[u];
        let cand = du + g.halite[u] as u64;
        let mut k: usize = 0;
        proof {
            assert forall|kk: int| 0 <= #[trigger] g.step(u as int, kk) < n by {
                lemma_step_bound(g, u as int, kk);
            }
        }
        while k < 4
            invariant
                g.wf(),
                n == g.size(),
                n <= 16777216,
                source < n,
                u < n,
                k <= 4,
                dist@.len() == n,
                done@.len() == n,
                routes.len() == n,
                done_before.len() == n,
                before.len() == n,
                done@ == done_before.update(u as int, true),
                count_done(done@) == count_done(done_before) + 1,
                count_done(done@) <= n,
                !done_before[u as int],
                du == before[u as int],
                du != UNREACHED,
                du <= count_done(done_before) * MAX_CELL,
                cand == du + g.res(u as int),
                dist@[u as int] == du,
                dist@[source as int] == 0,
                frontier_ok(dist@, done@, frontier@),
                forall|i: int| 0 <= i < n ==> #[trigger] dist@[i] <= before[i],
                forall|i: int|
                    0 <= i < n && #[trigger] done@[i] ==> dist@[i] == before[i],
                forall|i: int|
                    0 <= i < n && #[trigger] dist@[i] != UNREACHED ==> is_route(
                        g,
                        source as int,
                        i,
                        routes[i],
                    ) && path_cost(g, routes[i]) == dist@[i],
                forall|i: int|
                    0 <= i < n && #[trigger] dist@[i] != UNREACHED ==> dist@[i] <= count_done(
                        done@,
                    ) * MAX_CELL,
                forall|i: int|
                    0 <= i < n && #[trigger] done_before[i] ==> dist@[i] != UNREACHED && relaxed(
                        g,
                        dist@,
                        i,
                    ),
                forall|i: int, j: int|
                    0 <= i < n && 0 <= j < n && #[trigger] done@[i] && !#[trigger] done@[j]
                        && dist@[j] != UNREACHED ==> dist@[i] <= dist@[j],
                forall|kk: int| 0 <= kk < k ==> dist@[#[trigger] g.step(u as int, kk)] <= cand,
                forall|kk: int| 0 <= #[trigger] g.step(u as int, kk) < n,
                forall|i: int| 0 <= i < n && #[trigger] done_before[i] ==> before[i] <= du,
            decreases 4 - k,
        {
            let v = g.neighbor_index(u, k);
            proof {
                lemma_step_bound(g, u as int, k as int);
            }
            if cand < dist[v] {
                proof {
                    let p = routes[u as int];
                    let q = p.push(v as int);
                    assert(g.adjacent(u as int, v as int));
                    assert(q.drop_last() =~= p);
                    assert forall|j: int| 0 <= j < q.len() - 1 implies #[trigger] g.adjacent(
                        q[j],
                        q[j + 1],
                    ) by {
                        if j < p.len() - 1 {
                            assert(g.adjacent(p[j], p[j + 1]));
                        }
                    }
                    routes = routes.update(v as int, q);
                    if done@[v as int] {
                        if v != u {
                            assert(done_before.update(u as int, true)[v as int] == done_before[v as int]);
                            assert(done_before[v as int]);
                            assert(dist@[v as int] == before[v as int]);
                        }
                    }
                    assert(!done@[v as int]);
                }
                let ghost d0 = dist@;
                let ghost f0 = frontier@;
                dist.set(v, cand);
                frontier.push(v);
                proof {
                    assert(frontier@[f0.len() as int] == v);
                    assert forall|i: int|
                        0 <= i < dist@.len() && !done@[i] && #[trigger] dist@[i] != UNREACHED implies queued(
                        frontier@,
                        i,
                    ) by {
                        if i != v {
                            assert(d0[i] != UNREACHED);
                            assert(queued(f0, i));
                            let w = choose|w: int| 0 <= w < f0.len() && f0[w] as int == i;
                            assert(frontier@[w] == f0[w]);
                        }
                    }
                    assert forall|t: int| 0 <= t < frontier@.len() implies (#[trigger] frontier@[t])
                        < dist@.len() && dist@[frontier@[t] as int] != UNREACHED by {
                        if t < f0.len() {
                            assert(frontier@[t] == f0[t]);
                            assert(d0[f0[t] as int] != UNREACHED);
                        }
                    }
                }
                proof {
                    assert forall|i: int|
                        0 <= i < n && #[trigger] done_before[i] implies dist@[i] != UNREACHED
                        && relaxed(g, dist@, i) by {
                        assert(done_before.update(u as int, true)[i]);
                        assert(done@[i]);
                        assert(i != v);
                        assert(relaxed(g, d0, i));
                        lemma_step_bound(g, i, 0);
                        lemma_step_bound(g, i, 1);
                        lemma_step_bound(g, i, 2);
                        lemma_step_bound(g, i, 3);
                    }
                }
            }
            k = k + 1;
        }
        proof {
            lemma_step_bound(g, u as int, 0);
            lemma_step_bound(g, u as int, 1);
            lemma_step_bound(g, u as int, 2);
            lemma_step_bound(g, u as int, 3);
            assert(dist@[g.step(u as int, 0)] <= cand);
            assert(dist@[g.step(u as int, 1)] <= cand);
            assert(dist@[g.step(u as int, 2)] <= cand);
            assert(dist@[g.step(u as int, 3)] <= cand);
            assert(relaxed(g, dist@, u as int));
        }
    }
    proof {
        let b = (n as int) * MAX_CELL;
        lemma_count_bound(done@);
        let cnt = count_done(done@) as int;
        assert(cnt * MAX_CELL <= b) by {
            vstd::arithmetic::mul::lemma_mul_inequality(cnt, n as int, MAX_CELL as int);
        }
        assert(b + MAX_CELL < UNREACHED);
        assert(closed_reach(g, dist@, b));
        lemma_all_reached(g, dist@, source as int, b);
        assert forall|c: int| 0 <= c < g.size() implies is_min_cost(
            g,
            source as int,
            c,
            #[trigger] dist@[c] as int,
        ) by {
            assert(dist@[c] != UNREACHED);
            assert(is_route(g, source as int, c, routes[c]));
            assert forall|p: Seq<int>| is_route(g, source as int, c, p) implies dist@[c]
                <= #[trigger] path_cost(g, p) by {
                lemma_route_bound(g, dist@, source as int, b, p);
            }
        }
    }
    dist
}

proof fn lemma_count_none(s: Seq<bool>)
    requires
        forall|i: int| 0 <= i < s.len() ==> !#[trigger] s[i],
    ensures
        count_done(s) == 0,
    decreases s.len(),
{
    if s.len() > 0 {
        lemma_count_none(s.drop_last());
    }
}

/// Once every reached cell has its edges relaxed, a walk from the source
/// costs no less than the recorded cost of where it ends.
proof fn lemma_route_bound(g: &Grid, d: Seq<u64>, s: int, b: int, p: Seq<int>)
    requires
        g.wf(),
        d.len() == g.size(),
        0 <= s < g.size(),
        d[s] == 0,
        b + MAX_CELL < UNREACHED,
        forall|i: int| 0 <= i < g.size() && #[trigger] d[i] != UNREACHED ==> relaxed(g, d, i),
        forall|i: int| 0 <= i < g.size() && #[trigger] d[i] != UNREACHED ==> d[i] <= b,
        is_path(g, p),
        p[0] == s,
    ensures
        d[p.last()] != UNREACHED,
        d[p.last()] <= path_cost(g, p),
    decreases p.len(),
{
    if p.len() > 1 {
        let q = p.drop_last();
        assert(q[q.len() - 1] == p[p.len() - 2]);
        assert forall|j: int| 0 <= j < q.len() - 1 implies #[trigger] g.adjacent(q[j], q[j + 1]) by {
            assert(g.adjacent(p[j], p[j + 1]));
        }
        lemma_route_bound(g, d, s, b, q);
        let a = p[p.len() - 2];
        let j = p.len() - 2;
        assert(g.adjacent(p[j], p[j + 1]));
        assert(relaxed(g, d, a));
    }
}

/// The conditions under which the reached cells are closed under steps.
pub open spec fn closed_reach(g: &Grid, d: Seq<u64>, b: int) -> bool {
    &&& g.wf()
    &&& d.len() == g.size()
    &&& b + MAX_CELL < UNREACHED
    &&& forall|i: int| 0 <= i < g.size() && #[trigger] d[i] != UNREACHED ==> relaxed(g, d, i)
    &&& forall|i: int| 0 <= i < g.size() && #[trigger] d[i] != UNREACHED ==> d[i] <= b
}

proof fn lemma_step_reached(g: &Grid, d: Seq<u64>, b: int, x: int, y: int, k: int)
    requires
        closed_reach(g, d, b),
        0 <= x < g.width,
        0 <= y < g.height,
        0 <= k < 4,
        d[g.index_of(x, y)] != UNREACHED,
    ensures
        d[g.step(g.index_of(x, y), k)] != UNREACHED,
        g.step(g.index_of(x, y), 1) == g.index_of(x, g.south_y(y)),
        g.step(g.index_of(x, y), 2) == g.index_of(g.east_x(x), y),
{
    lemma_index(g.width as int, g.height as int, x, y);
    let i = g.index_of(x, y);
    assert(relaxed(g, d, i));
    assert(g.res(i) <= MAX_CELL);
}

proof fn lemma_east_run(g: &Grid, d: Seq<u64>, b: int, x: int, y: int, t: nat)
    requires
        closed_reach(g, d, b),
        0 <= x,
        x + t < g.width,
        0 <= y < g.height,
        d[g.index_of(x, y)] != UNREACHED,
    ensures
        d[g.index_of(x + t, y)] != UNREACHED,
    decreases t,
{
    if t > 0 {
        lemma_east_run(g, d, b, x, y, (t - 1) as nat);
        lemma_step_reached(g, d, b, x + t - 1, y, 2);
    }
}

proof fn lemma_south_run(g: &Grid, d: Seq<u64>, b: int, x: int, y: int, t: nat)
    requires
        closed_reach(g, d, b),
        0 <= x < g.width,
        0 <= y,
        y + t < g.height,
        d[g.index_of(x, y)] != UNREACHED,
    ensures
        d[g.index_of(x, y + t)] != UNREACHED,
    decreases t,
{
    if t > 0 {
        lemma_south_run(g, d, b, x, y, (t - 1) as nat);
        lemma_step_reached(g, d, b, x, y + t - 1, 1);
    }
}

/// Every cell is reached once the reached cells are closed under steps.
proof fn lemma_all_reached(g: &Grid, d: Seq<u64>, s: int, b: int)
    requires
        closed_reach(g, d, b),
        0 <= s < g.size(),
        d[s] == 0,
    ensures
        forall|c: int| 0 <= c < g.size() ==> #[trigger] d[c] != UNREACHED,
{
    let w = g.width as int;
    let h = g.height as int;
    lemma_cell(w, h, s);
    let xs = g.x_of(s);
    let ys = g.y_of(s);
    assert(g.index_of(xs, ys) == s);
    if xs > 0 {
        lemma_east_run(g, d, b, xs, ys, (w - 1 - xs) as nat);
        lemma_step_reached(g, d, b, w - 1, ys, 2);
    }
    assert(d[g.index_of(0, ys)] != UNREACHED);
    if ys > 0 {
        lemma_south_run(g, d, b, 0, ys, (h - 1 - ys) as nat);
        lemma_step_reached(g, d, b, 0, h - 1, 1);
    }
    assert(d[g.index_of(0, 0)] != UNREACHED);
    assert forall|c: int| 0 <= c < g.size() implies #[trigger] d[c] != UNREACHED by {
        lemma_cell(w, h, c);
        let xc = g.x_of(c);
        let yc = g.y_of(c);
        lemma_south_run(g, d, b, 0, 0, yc as nat);
        lemma_east_run(g, d, b, 0, yc, xc as nat);
        assert(g.index_of(xc, yc) == c);
    }
}

proof fn lemma_zero_cost(g: &Grid, p: Seq<int>)
    requires
        forall|c: int| 0 <= c < g.size() ==> #[trigger] g.res(c) == 0,
        forall|j: int| 0 <= j < p.len() ==> 0 <= #[trigger] p[j] < g.size(),
    ensures
        path_cost(g, p) == 0,
    decreases p.len(),
{
    if p.len() > 1 {
        lemma_zero_cost(g, p.drop_last());
        assert(0 <= p[p.len() - 2] < g.size());
    }
}

/// On a grid with no resource anywhere, every cost of a cost map is zero.
pub proof fn lemma_zero_field(g: &Grid, s: int, m: Seq<u64>)
    requires
        g.wf(),
        forall|c: int| 0 <= c < g.size() ==> #[trigger] g.res(c) == 0,
        is_cost_map(g, s, m),
    ensures
        forall|c: int| 0 <= c < g.size() ==> #[trigger] m[c] == 0,
{
    assert forall|c: int| 0 <= c < g.size() implies #[trigger] m[c] == 0 by {
        assert(is_min_cost(g, s, c, m[c] as int));
        let p = choose|p: Seq<int>| is_route(g, s, c, p) && path_cost(g, p) == m[c] as int;
        lemma_zero_cost(g, p);
    }
}

/// Toroidal Manhattan distance between cells `i` and `c`.
pub open spec fn cell_dist(g: &Grid, i: int, c: int) -> int {
    crate::grid::axis_dist(g.x_of(i), g.x_of(c), g.width as int) + crate::grid::axis_dist(
        g.y_of(i),
        g.y_of(c),
        g.height as int,
    )
}

proof fn lemma_step_coords(g: &Grid, i: int)
    requires
        g.wf(),
        0 <= i < g.size(),
    ensures
        0 <= g.x_of(i) < g.width,
        0 <= g.y_of(i) < g.height,
        g.x_of(g.step(i, 0)) == g.x_of(i),
        g.y_of(g.step(i, 0)) == g.north_y(g.y_of(i)),
        g.x_of(g.step(i, 1)) == g.x_of(i),
        g.y_of(g.step(i, 1)) == g.south_y(g.y_of(i)),
        g.x_of(g.step(i, 2)) == g.east_x(g.x_of(i)),
        g.y_of(g.step(i, 2)) == g.y_of(i),
        g.x_of(g.step(i, 3)) == g.west_x(g.x_of(i)),
        g.y_of(g.step(i, 3)) == g.y_of(i),
{
    let w = g.width as int;
    let h = g.height as int;
    lemma_cell(w, h, i);
    let x = g.x_of(i);
    let y = g.y_of(i);
    lemma_index(w, h, x, g.north_y(y));
    lemma_index(w, h, x, g.south_y(y));
    lemma_index(w, h, g.east_x(x), y);
    lemma_index(w, h, g.west_x(x), y);
}

/// One step changes the distance to a fixed cell by at most one.
proof fn lemma_step_dist(g: &Grid, i: int, j: int, c: int)
    requires
        g.wf(),
        0 <= i < g.size(),
        0 <= c < g.size(),
        g.adjacent(i, j),
    ensures
        cell_dist(g, i, c) <= cell_dist(g, j, c) + 1,
{
    lemma_step_coords(g, i);
    lemma_cell(g.width as int, g.height as int, c);
}

/// A cell other than `c` has a neighbour one step closer to `c`.
proof fn lemma_closer(g: &Grid, i: int, c: int) -> (k: int)
    requires
        g.wf(),
        0 <= i < g.size(),
        0 <= c < g.size(),
        i != c,
    ensures
        0 <= k < 4,
        cell_dist(g, g.step(i, k), c) == cell_dist(g, i, c) - 1,
{
    let w = g.width as int;
    let h = g.height as int;
    lemma_step_coords(g, i);
    lemma_cell(w, h, c);
    lemma_cell(w, h, i);
    let x = g.x_of(i);
    let y = g.y_of(i);
    let xc = g.x_of(c);
    let yc = g.y_of(c);
    if x != xc {
        let ahead = if xc > x { xc - x } else { xc - x + w };
        if ahead <= w - ahead { 2 } else { 3 }
    } else {
        assert(y != yc);
        let ahead = if yc > y { yc - y } else { yc - y + h };
        if ahead <= h - ahead { 1 } else { 0 }
    }
}

/// Every walk from `i` to `c` takes at least the distance between them.
proof fn lemma_walk_length(g: &Grid, p: Seq<int>, c: int)
    requires
        g.wf(),
        0 <= c < g.size(),
        is_path(g, p),
        p.last() == c,
    ensures
        p.len() - 1 >= cell_dist(g, p[0], c),
    decreases p.len(),
{
    if p.len() == 1 {
    } else {
        let q = p.subrange(1, p.len() as int);
        assert forall|j: int| 0 <= j < q.len() - 1 implies #[trigger] g.adjacent(q[j], q[j + 1]) by {
            let jj = j + 1;
            assert(g.adjacent(p[jj], p[jj + 1]));
            assert(q[j] == p[jj] && q[j + 1] == p[jj + 1]);
        }
        lemma_walk_length(g, q, c);
        assert(g.adjacent(p[0], p[1]));
        lemma_step_dist(g, p[0], p[1], c);
    }
}

/// A walk from `i` to `c` of exactly the distance between them.
proof fn lemma_short_walk(g: &Grid, i: int, c: int) -> (p: Seq<int>)
    requires
        g.wf(),
        0 <= i < g.size(),
        0 <= c < g.size(),
    ensures
        is_path(g, p),
        p[0] == i,
        p.last() == c,
        p.len() - 1 == cell_dist(g, i, c),
    decreases cell_dist(g, i, c),
{
    lemma_cell(g.width as int, g.height as int, i);
    lemma_cell(g.width as int, g.height as int, c);
    if i == c {
        seq![i]
    } else {
        let k = lemma_closer(g, i, c);
        let j = g.step(i, k);
        lemma_step_bound(g, i, k);
        let q = lemma_short_walk(g, j, c);
        let p = seq![i] + q;
        assert(g.adjacent(i, j));
        assert forall|t: int| 0 <= t < p.len() - 1 implies #[trigger] g.adjacent(p[t], p[t + 1]) by {
            if t > 0 {
                let tt = t - 1;
                assert(g.adjacent(q[tt], q[tt + 1]));
                assert(p[t] == q[tt] && p[t + 1] == q[tt + 1]);
            }
        }
        assert(p.last() == q.last());
        p
    }
}

proof fn lemma_uniform_cost(g: &Grid, p: Seq<int>, amount: int)
    requires
        forall|c: int| 0 <= c < g.size() ==> #[trigger] g.res(c) == amount,
        forall|j: int| 0 <= j < p.len() ==> 0 <= #[trigger] p[j] < g.size(),
        p.len() >= 1,
    ensures
        path_cost(g, p) == (p.len() - 1) * amount,
    decreases p.len(),
{
    if p.len() > 1 {
        lemma_uniform_cost(g, p.drop_last(), amount);
        let n = p.len() as int;
        assert(0 <= p[n - 2] < g.size());
        assert(g.res(p[n - 2]) == amount);
        assert((n - 2) * amount + amount == (n - 1) * amount) by (nonlinear_arith);
        assert(p.drop_last().len() == n - 1);
        assert(path_cost(g, p) == path_cost(g, p.drop_last()) + g.res(p[n - 2]));
    } else {
        assert((p.len() - 1) * amount == 0) by (nonlinear_arith)
            requires p.len() == 1;
    }
}

/// On a grid holding the same amount in every cell, the cost to a cell is
/// its distance from the source times that amount.
pub proof fn lemma_uniform_field(g: &Grid, s: int, m: Seq<u64>, amount: int)
    requires
        g.wf(),
        0 <= s < g.size(),
        forall|c: int| 0 <= c < g.size() ==> #[trigger] g.res(c) == amount,
        is_cost_map(g, s, m),
    ensures
        forall|c: int| 0 <= c < g.size() ==> #[trigger] m[c] == cell_dist(g, s, c) * amount,
{
    assert forall|c: int| 0 <= c < g.size() implies #[trigger] m[c] == cell_dist(g, s, c)
        * amount by {
        assert(is_min_cost(g, s, c, m[c] as int));
        let p = choose|p: Seq<int>| is_route(g, s, c, p) && path_cost(g, p) == m[c] as int;
        lemma_uniform_cost(g, p, amount);
        lemma_walk_length(g, p, c);
        let q = lemma_short_walk(g, s, c);
        lemma_uniform_cost(g, q, amount);
        assert(is_route(g, s, c, q));
        assert(m[c] <= path_cost(g, q));
        let d = cell_dist(g, s, c);
        assert(amount >= 0) by {
            assert(g.res(0) == amount);
        }
        assert((p.len() - 1) * amount >= d * amount) by (nonlinear_arith)
            requires p.len() - 1 >= d, amount >= 0;
    }
}

} // verus!
