use vstd::prelude::*;
use crate::position::Position;
use crate::grid::Grid;
use crate::cost_field::{cost_field, is_cost_map};

verus! {

/// What an agent is doing this turn.
#[derive(Clone, Copy, PartialEq, Eq, Structural, Debug)]
pub enum Task {
    Explore,
    Return,
    HardReturn,
}

/// Net gain at or above which a cell counts as not worth the trip.
pub const GAIN_CEILING: u64 = 6000;

/// Each neighbour contributes this fraction (1 / share) of its resource to
/// a cell's estimated gain.
pub const NEIGHBOR_SHARE: u32 = 5;

/// Travel-turn estimates below this are raised to it when scoring.
pub const MIN_TURNS: u64 = 5;

/// `i` is eligible and holds the least rank, and no earlier entry ties it.
pub open spec fn is_first_min(s: Seq<Option<int>>, i: int) -> bool {
    &&& 0 <= i < s.len()
    &&& s[i] is Some
    &&& forall|j: int|
        0 <= j < s.len() && (#[trigger] s[j]) is Some ==> s[i]->0 <= s[j]->0
    &&& forall|j: int| 0 <= j < i && (#[trigger] s[j]) is Some ==> s[i]->0 < s[j]->0
}

/// No entry is eligible.
pub open spec fn none_eligible(s: Seq<Option<int>>) -> bool {
    forall|j: int| 0 <= j < s.len() ==> (#[trigger] s[j]) is None
}

/// Estimated gain of cell `c`: its resource plus a fifth (rounded down) of
/// each neighbour's.
pub open spec fn gain_of(g: &Grid, c: int) -> int {
    g.res(c) + g.res(g.step(c, 0)) / 5 + g.res(g.step(c, 1)) / 5 + g.res(g.step(c, 2)) / 5
        + g.res(g.step(c, 3)) / 5
}

/// Whether cell `c` is the home base or one of the dropoffs.
pub open spec fn on_base(g: &Grid, c: int, home: Position, dropoffs: Seq<Position>) -> bool {
    g.cell_of(home) == c || exists|j: int| 0 <= j < dropoffs.len() && g.cell_of(#[trigger] dropoffs[j]) == c
}

/// Explore rank of cell `c` for an agent at `a`, with cost map `m` from the
/// agent. The score is `(6000 - gain + cost) * sqrt(max(5, turns))`; the rank
/// is its square, which orders candidates the same way. `None` marks a cell
/// that is never chosen: a base, one that costs at least what it yields, or
/// one whose net gain reaches the ceiling.
pub open spec fn explore_rank(
    g: &Grid,
    m: Seq<u64>,
    a: Position,
    c: int,
    home: Position,
    dropoffs: Seq<Position>,
) -> Option<int> {
    let gain = gain_of(g, c);
    let cost = m[c] as int;
    let turns = g.torus_dist(a, g.pos_of(c));
    let t = if turns < 5 { 5 } else { turns };
    if on_base(g, c, home, dropoffs) {
        None
    } else if cost >= gain || gain - cost >= 6000 {
        None
    } else {
        Some((6000 - gain + cost) * (6000 - gain + cost) * t)
    }
}

/// Explore ranks of every cell, in cell order.
pub open spec fn explore_ranks(
    g: &Grid,
    m: Seq<u64>,
    a: Position,
    home: Position,
    dropoffs: Seq<Position>,
) -> Seq<Option<int>> {
    Seq::new(g.size() as nat, |c: int| explore_rank(g, m, a, c, home, dropoffs))
}

/// The explore destination: the first cell of least rank, or the agent's own
/// position where no cell is eligible.
pub open spec fn explore_choice(
    g: &Grid,
    m: Seq<u64>,
    a: Position,
    home: Position,
    dropoffs: Seq<Position>,
    r: Position,
) -> bool {
    let s = explore_ranks(g, m, a, home, dropoffs);
    (exists|i: int| is_first_min(s, i) && r == g.pos_of(i)) || (none_eligible(s) && r == a)
}

/// Whether the task sends the agent to a base.
pub open spec fn homeward(task: Option<Task>) -> bool {
    match task {
        Some(Task::Explore) => false,
        None => false,
        Some(_) => true,
    }
}

/// `r` is where an agent at `agent` heads for its task: the return choice
/// for `Return` and `HardReturn`, else the explore choice over the cost map
/// from its cell.
pub open spec fn destination(
    g: &Grid,
    agent: Position,
    task: Option<Task>,
    home: Position,
    dropoffs: Seq<Position>,
    r: Position,
) -> bool {
    &&& homeward(task) ==> return_choice(g, agent, base_list(home, dropoffs), r)
    &&& !homeward(task) ==> exists|m: Seq<u64>|
        is_cost_map(g, g.cell_of(agent), m) && explore_choice(g, m, agent, home, dropoffs, r)
}

/// Home base first, then the dropoffs.
pub open spec fn base_list(home: Position, dropoffs: Seq<Position>) -> Seq<Position> {
    seq![home] + dropoffs
}

/// The return destination: the first base at least distance from `a`.
pub open spec fn return_choice(g: &Grid, a: Position, bases: Seq<Position>, r: Position) -> bool {
    let s = Seq::new(bases.len(), |i: int| Some(g.torus_dist(a, bases[i])));
    exists|i: int| is_first_min(s, i) && r == bases[i]
}

/// Whether cell `c` is a base.
fn is_base(g: &Grid, c: usize, home: Position, dropoffs: &Vec<Position>) -> (r: bool)
    requires
        g.wf(),
    ensures
        r == on_base(g, c as int, home, dropoffs@),
{
    if g.index(g.normalize(home)) == c {
        return true;
    }
    let mut j: usize = 0;
    while j < dropoffs.len()
        invariant
            g.wf(),
            j <= dropoffs@.len(),
            forall|t: int| 0 <= t < j ==> g.cell_of(#[trigger] dropoffs@[t]) != c,
        decreases dropoffs@.len() - j,
    {
        if g.index(g.normalize(dropoffs[j])) == c {
            return true;
        }
        j = j + 1;
    }
    false
}

/// Estimated gain of cell `c`.
fn gain_at(g: &Grid, c: usize) -> (r: u64)
    requires
        g.wf(),
        c < g.size(),
    ensures
        r == gain_of(g, c as int),
{
    let mut total: u64 = g.halite[c] as u64;
    let mut k: usize = 0;
    while k < 4
        invariant
            g.wf(),
            c < g.size(),
            k <= 4,
            total <= 0xffff_ffff + k * 0xffff_ffff,
            total == g.res(c as int) + (if k > 0 { g.res(g.step(c as int, 0)) / 5 } else { 0 })
                + (if k > 1 { g.res(g.step(c as int, 1)) / 5 } else { 0 }) + (if k > 2 {
                g.res(g.step(c as int, 2)) / 5
            } else {
                0
            }) + (if k > 3 { g.res(g.step(c as int, 3)) / 5 } else { 0 }),
        decreases 4 - k,
    {
        let v = g.neighbor_index(c, k);
        total = total + (g.halite[v] / NEIGHBOR_SHARE) as u64;
        k = k + 1;
    }
    total
}

/// Explore rank of cell `c`, as `explore_rank` states it.
pub fn rank_explore(
    g: &Grid,
    cost: &Vec<u64>,
    agent: Position,
    c: usize,
    home: Position,
    dropoffs: &Vec<Position>,
) -> (r: Option<u64>)
    requires
        g.wf(),
        cost@.len() == g.size(),
        c < g.size(),
    ensures
        match r {
            Some(v) => explore_rank(g, cost@, agent, c as int, home, dropoffs@) == Some(v as int),
            None => explore_rank(g, cost@, agent, c as int, home, dropoffs@) is None,
        },
{
    if is_base(g, c, home, dropoffs) {
        return None;
    }
    let gain = gain_at(g, c);
    let spent = cost[c];
    if spent >= gain || gain - spent >= GAIN_CEILING {
        return None;
    }
    let turns = g.calculate_distance(agent, g.position_of(c)) as u64;
    let t = if turns < MIN_TURNS { MIN_TURNS } else { turns };
    let base = GAIN_CEILING - (gain - spent);
    assert(base * base <= 36000000) by (nonlinear_arith)
        requires 1 <= base <= 6000;
    assert(base * base * t <= 6000 * 6000 * 8192) by (nonlinear_arith)
        requires 1 <= base <= 6000, t <= 8192;
    Some(base * base * t)
}

/// The explore destination for an agent at `agent`, given the cost map from
/// its cell: the first cell of least rank, or `agent` where none is eligible.
pub fn select_explore(
    g: &Grid,
    cost: &Vec<u64>,
    agent: Position,
    home: Position,
    dropoffs: &Vec<Position>,
) -> (r: Position)
    requires
        g.wf(),
        cost@.len() == g.size(),
    ensures
        explore_choice(g, cost@, agent, home, dropoffs@, r),
{
    let ghost s = explore_ranks(g, cost@, agent, home, dropoffs@);
    let mut best: Option<(usize, u64)> = None;
    let mut c: usize = 0;
    while c < g.halite.len()
        invariant
            g.wf(),
            cost@.len() == g.size(),
            s == explore_ranks(g, cost@, agent, home, dropoffs@),
            c <= g.size(),
            match best {
                Some((i, v)) => {
                    &&& i < c
                    &&& s[i as int] == Some(v as int)
                    &&& forall|j: int|
                        0 <= j < c && (#[trigger] s[j]) is Some ==> v <= s[j]->0
                    &&& forall|j: int| 0 <= j < i && (#[trigger] s[j]) is Some ==> v < s[j]->0
                },
                None => forall|j: int| 0 <= j < c ==> (#[trigger] s[j]) is None,
            },
        decreases g.size() - c,
    {
        let rank = rank_explore(g, cost, agent, c, home, dropoffs);
        match rank {
            None => {},
            Some(v) => {
                match best {
                    None => {
                        best = Some((c, v));
                    },
                    Some((_, bv)) => {
                        if v < bv {
                            best = Some((c, v));
                        }
                    },
                }
            },
        }
        c = c + 1;
    }
    match best {
        None => agent,
        Some((i, _)) => {
            let r = g.position_of(i);
            assert(is_first_min(s, i as int));
            r
        },
    }
}

/// The return destination: among the home base and then the dropoffs, the
/// first one at least distance from `agent`.
pub fn select_return(g: &Grid, agent: Position, home: Position, dropoffs: &Vec<Position>) -> (r:
    Position)
    requires
        g.wf(),
    ensures
        return_choice(g, agent, base_list(home, dropoffs@), r),
{
    let ghost bases = base_list(home, dropoffs@);
    let ghost s = Seq::new(bases.len(), |i: int| Some(g.torus_dist(agent, bases[i])));
    let mut best: Position = home;
    let mut best_d: u32 = g.calculate_distance(agent, home);
    let ghost mut bi: int = 0;
    let mut j: usize = 0;
    while j < dropoffs.len()
        invariant
            g.wf(),
            bases == base_list(home, dropoffs@),
            s == Seq::new(bases.len(), |i: int| Some(g.torus_dist(agent, bases[i]))),
            j <= dropoffs@.len(),
            0 <= bi <= j,
            best == bases[bi],
            s[bi] == Some(best_d as int),
            forall|t: int| 0 <= t <= j ==> best_d <= (#[trigger] s[t])->0,
            forall|t: int| 0 <= t < bi ==> best_d < (#[trigger] s[t])->0,
        decreases dropoffs@.len() - j,
    {
        let d = g.calculate_distance(agent, dropoffs[j]);
        assert(bases[j + 1] == dropoffs@[j as int]);
        if d < best_d {
            best = dropoffs[j];
            best_d = d;
            proof {
                bi = j + 1;
            }
        }
        j = j + 1;
    }
    assert(is_first_min(s, bi));
    best
}

/// The destination of an agent at `agent` for its task: the explore choice
/// over the cost map from its cell for `Explore` (also when no task is known
/// yet), the return choice for `Return` and `HardReturn`.
pub fn evaluate(
    g: &Grid,
    agent: Position,
    task: Option<Task>,
    home: Position,
    dropoffs: &Vec<Position>,
) -> (r: Position)
    requires
        g.wf(),
    ensures
        destination(g, agent, task, home, dropoffs@, r),
{
    match task {
        Some(Task::Explore) | None => {
            let source = g.index(g.normalize(agent));
            let cost = cost_field(g, source);
            let r = select_explore(g, &cost, agent, home, dropoffs);
            assert(is_cost_map(g, g.cell_of(agent), cost@));
            r
        },
        Some(_) => select_return(g, agent, home, dropoffs),
    }
}

/// Exploring never picks a base: a cell chosen by rank is neither the home
/// base nor a dropoff, whatever its gain.
pub proof fn lemma_explore_avoids_bases(
    g: &Grid,
    m: Seq<u64>,
    a: Position,
    home: Position,
    dropoffs: Seq<Position>,
    i: int,
)
    requires
        g.wf(),
        m.len() == g.size(),
        is_first_min(explore_ranks(g, m, a, home, dropoffs), i),
    ensures
        !on_base(g, i, home, dropoffs),
        g.cell_of(home) != i,
{
}

} // verus!
