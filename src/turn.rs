use vstd::prelude::*;
use crate::position::{Direction, Position};
use crate::grid::Grid;
use crate::navi::{Navi, cell_at, landing_at, pick};
use crate::target::{Task, destination, evaluate};
use crate::tasks::{next_task, next_task_spec, stuck, stuck_spec};

verus! {

/// One of the controlled player's agents as a turn sees it.
#[derive(Clone, Copy, PartialEq, Eq, Structural, Debug)]
pub struct Ship {
    pub id: u64,
    pub position: Position,
    pub halite: u64,
}

/// An order for the host.
#[derive(Clone, Copy, PartialEq, Eq, Structural, Debug)]
pub enum Command {
    Move(u64, Direction),
    Spawn,
}

/// What the host reports for the turn besides the grid and the ships.
#[derive(Clone, Copy, PartialEq, Eq, Structural, Debug)]
pub struct TurnInfo {
    pub home: Position,
    pub turn: u64,
    pub max_turns: u64,
    pub balance: u64,
    pub ship_cost: u64,
    pub capacity: u64,
}

/// The commands of a turn, each present agent's task afterwards and the
/// destination each agent headed for (its own position when it stayed to
/// collect).
pub struct TurnPlan {
    pub commands: Vec<Command>,
    pub tasks: Vec<(u64, Task)>,
    pub targets: Vec<Position>,
}

/// The task recorded for `id`: the first entry with that id, if any.
pub open spec fn recorded(tasks: Seq<(u64, Task)>, id: u64) -> Option<Task> {
    if exists|i: int| 0 <= i < tasks.len() && (#[trigger] tasks[i]).0 == id {
        let i = choose|i: int|
            0 <= i < tasks.len() && (#[trigger] tasks[i]).0 == id && forall|j: int|
                0 <= j < i ==> (#[trigger] tasks[j]).0 != id;
        Some(tasks[i].1)
    } else {
        None
    }
}

/// Whether a new agent is spawned: in the first half of the game, when the
/// player can pay for it and the home cell is free.
pub open spec fn spawn_spec(info: TurnInfo, home_free: bool) -> bool {
    info.turn <= info.max_turns / 2 && info.balance >= info.ship_cost && home_free
}

/// The task recorded for `id`, if any.
pub fn lookup_task(tasks: &Vec<(u64, Task)>, id: u64) -> (r: Option<Task>)
    ensures
        r == recorded(tasks@, id),
{
    let mut j: usize = 0;
    while j < tasks.len()
        invariant
            j <= tasks@.len(),
            forall|t: int| 0 <= t < j ==> (#[trigger] tasks@[t]).0 != id,
        decreases tasks@.len() - j,
    {
        if tasks[j].0 == id {
            proof {
                let i = choose|i: int|
                    0 <= i < tasks@.len() && (#[trigger] tasks@[i]).0 == id && forall|t: int|
                        0 <= t < i ==> (#[trigger] tasks@[t]).0 != id;
                assert(i == j) by {
                    if i < j {
                        assert(tasks@[i].0 != id);
                    } else if i > j {
                        assert(tasks@[j as int].0 != id);
                    }
                }
            }
            return Some(tasks[j].1);
        }
        j = j + 1;
    }
    None
}

/// Whether agent `s` must stay still and collect this turn.
pub open spec fn is_stuck(g: &Grid, s: Ship, info: TurnInfo) -> bool {
    stuck_spec(g.res_at(s.position), s.halite as int, info.capacity as int)
}

/// The task of agent `ships[i]` after this turn's evaluation.
pub open spec fn new_task(
    g: &Grid,
    tasks: Seq<(u64, Task)>,
    ships: Seq<Ship>,
    i: int,
    info: TurnInfo,
) -> Task {
    next_task_spec(
        recorded(tasks, ships[i].id),
        info.turn as int,
        g.torus_dist(ships[i].position, info.home),
        ships.len() as int,
        info.max_turns as int,
        ships[i].halite as int,
    )
}

/// Reservations once the agents that must collect have claimed their own
/// cells, in order, on a torus of `w` by `h`.
pub open spec fn hold_stuck(
    g: &Grid,
    w: int,
    h: int,
    occ: Seq<Option<u64>>,
    ships: Seq<Ship>,
    info: TurnInfo,
) -> Seq<Option<u64>>
    decreases ships.len(),
{
    if ships.len() == 0 {
        occ
    } else {
        let o = hold_stuck(g, w, h, occ, ships.drop_last(), info);
        let s = ships.last();
        if is_stuck(g, s, info) {
            o.update(cell_at(w, h, s.position), Some(s.id))
        } else {
            o
        }
    }
}

/// Reservations and moves once every other agent, in order, has stepped
/// toward its target (`targets[i]` for `ships[i]`); an agent that must
/// collect keeps still.
pub open spec fn resolve(
    g: &Grid,
    w: int,
    h: int,
    occ: Seq<Option<u64>>,
    ships: Seq<Ship>,
    targets: Seq<Position>,
    info: TurnInfo,
) -> (Seq<Option<u64>>, Seq<Direction>)
    decreases ships.len(),
{
    if ships.len() == 0 {
        (occ, seq![])
    } else {
        let prev = resolve(g, w, h, occ, ships.drop_last(), targets, info);
        let i = ships.len() - 1;
        let s = ships[i];
        if is_stuck(g, s, info) {
            (prev.0, prev.1.push(Direction::Still))
        } else {
            let d = pick(w, h, prev.0, s.position, targets[i]);
            (prev.0.update(landing_at(w, h, s.position, d), Some(s.id)), prev.1.push(d))
        }
    }
}

/// Plans one turn. Every agent's task is advanced once, from the task it
/// had (none for a new agent); the table that comes back holds the present
/// agents only. Agents that must collect stay still and reserve their cell
/// first; then, in the given order, every other agent takes one safe step
/// toward the destination its task selects. A new agent is spawned at the
/// end when `spawn_spec` allows it.
pub fn plan_turn(
    g: &Grid,
    navi: &mut Navi,
    tasks: &Vec<(u64, Task)>,
    ships: &Vec<Ship>,
    dropoffs: &Vec<Position>,
    info: TurnInfo,
) -> (r: TurnPlan)
    requires
        g.wf(),
        old(navi).wf(),
        forall|i: int| 0 <= i < ships@.len() ==> (#[trigger] ships@[i]).position.offsettable(),
    ensures
        final(navi).wf(),
        final(navi).width == old(navi).width,
        final(navi).height == old(navi).height,
        r.tasks@.len() == ships@.len(),
        forall|i: int|
            0 <= i < ships@.len() ==> #[trigger] r.tasks@[i] == (
                ships@[i].id,
                new_task(g, tasks@, ships@, i, info),
            ),
        r.targets@.len() == ships@.len(),
        forall|i: int|
            0 <= i < ships@.len() ==> if is_stuck(g, #[trigger] ships@[i], info) {
                r.targets@[i] == ships@[i].position
            } else {
                destination(
                    g,
                    ships@[i].position,
                    Some(new_task(g, tasks@, ships@, i, info)),
                    info.home,
                    dropoffs@,
                    r.targets@[i],
                )
            },
        final(navi)@ == resolve(
            g,
            old(navi).width as int,
            old(navi).height as int,
            hold_stuck(g, old(navi).width as int, old(navi).height as int, old(navi)@, ships@, info),
            ships@,
            r.targets@,
            info,
        ).0,
        r.commands@.len() == ships@.len() || r.commands@.len() == ships@.len() + 1,
        forall|i: int|
            0 <= i < ships@.len() ==> #[trigger] r.commands@[i] == Command::Move(
                ships@[i].id,
                resolve(
                    g,
                    old(navi).width as int,
                    old(navi).height as int,
                    hold_stuck(
                        g,
                        old(navi).width as int,
                        old(navi).height as int,
                        old(navi)@,
                        ships@,
                        info,
                    ),
                    ships@,
                    r.targets@,
                    info,
                ).1[i],
            ),
        (r.commands@.len() == ships@.len() + 1) == spawn_spec(
            info,
            final(navi).free(final(navi).cell(info.home)),
        ),
        r.commands@.len() == ships@.len() + 1 ==> r.commands@[ships@.len() as int] == Command::Spawn,
{
    let n = ships.len();
    let ghost w = navi.width as int;
    let ghost h = navi.height as int;
    let ghost occ0 = navi@;
    let mut new_tasks: Vec<(u64, Task)> = Vec::new();
    let mut commands: Vec<Command> = Vec::new();
    let mut targets: Vec<Position> = Vec::new();
    let mut i: usize = 0;
    while i < n
        invariant
            g.wf(),
            navi.wf(),
            navi.width == w,
            navi.height == h,
            n == ships@.len(),
            i <= n,
            new_tasks@.len() == i,
            commands@.len() == i,
            targets@.len() == i,
            navi@ == hold_stuck(g, w, h, occ0, ships@.subrange(0, i as int), info),
            forall|t: int|
                0 <= t < i ==> #[trigger] new_tasks@[t] == (
                    ships@[t].id,
                    new_task(g, tasks@, ships@, t, info),
                ),
            forall|t: int|
                0 <= t < i ==> if is_stuck(g, #[trigger] ships@[t], info) {
                    targets@[t] == ships@[t].position
                } else {
                    destination(
                        g,
                        ships@[t].position,
                        Some(new_task(g, tasks@, ships@, t, info)),
                        info.home,
                        dropoffs@,
                        targets@[t],
                    )
                },
            forall|t: int|
                0 <= t < i ==> #[trigger] commands@[t] == Command::Move(
                    ships@[t].id,
                    Direction::Still,
                ),
        decreases n - i,
    {
        let ship = ships[i];
        let dist_home = g.calculate_distance(ship.position, info.home) as u64;
        let task = next_task(
            lookup_task(tasks, ship.id),
            info.turn,
            dist_home,
            n as u64,
            info.max_turns,
            ship.halite,
        );
        new_tasks.push((ship.id, task));
        let cell = g.resource_at(ship.position) as u64;
        proof {
            let next = ships@.subrange(0, i + 1);
            assert(next.drop_last() =~= ships@.subrange(0, i as int));
            assert(next.last() == ship);
        }
        if stuck(cell, ship.halite, info.capacity) {
            navi.mark_unsafe(ship.position, ship.id);
            targets.push(ship.position);
        } else {
            targets.push(evaluate(g, ship.position, Some(task), info.home, dropoffs));
        }
        commands.push(Command::Move(ship.id, Direction::Still));
        i = i + 1;
    }
    proof {
        assert(ships@.subrange(0, n as int) =~= ships@);
    }
    let ghost start = navi@;
    let mut j: usize = 0;
    while j < n
        invariant
            g.wf(),
            navi.wf(),
            navi.width == w,
            navi.height == h,
            n == ships@.len(),
            j <= n,
            commands@.len() == n,
            targets@.len() == n,
            start == hold_stuck(g, w, h, occ0, ships@, info),
            forall|i: int| 0 <= i < n ==> (#[trigger] ships@[i]).position.offsettable(),
            navi@ == resolve(g, w, h, start, ships@.subrange(0, j as int), targets@, info).0,
            resolve(g, w, h, start, ships@.subrange(0, j as int), targets@, info).1.len() == j,
            forall|t: int|
                0 <= t < j ==> #[trigger] commands@[t] == Command::Move(
                    ships@[t].id,
                    resolve(g, w, h, start, ships@.subrange(0, j as int), targets@, info).1[t],
                ),
            forall|t: int|
                j <= t < n ==> #[trigger] commands@[t] == Command::Move(
                    ships@[t].id,
                    Direction::Still,
                ),
        decreases n - j,
    {
        let ship = ships[j];
        let cell = g.resource_at(ship.position) as u64;
        let ghost prev = resolve(g, w, h, start, ships@.subrange(0, j as int), targets@, info);
        proof {
            let next = ships@.subrange(0, j + 1);
            assert(next.drop_last() =~= ships@.subrange(0, j as int));
            assert(next[j as int] == ship);
        }
        if !stuck(cell, ship.halite, info.capacity) {
            let d = navi.naive_navigate(ship.id, ship.position, targets[j]);
            commands.set(j, Command::Move(ship.id, d));
        }
        j = j + 1;
    }
    proof {
        assert(ships@.subrange(0, n as int) =~= ships@);
    }
    if info.turn <= info.max_turns / 2 && info.balance >= info.ship_cost && navi.is_safe(info.home) {
        let ghost before = commands@;
        commands.push(Command::Spawn);
        assert(forall|t: int| 0 <= t < n ==> commands@[t] == before[t]);
    }
    TurnPlan { commands, tasks: new_tasks, targets }
}

} // verus!
