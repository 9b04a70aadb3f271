use vstd::prelude::*;
use crate::target::Task;

verus! {

/// Carried resource above which an exploring agent turns home.
pub const FULL_MARK: u64 = 950;

/// An agent's resource must reach this fraction (1 / ratio) of its cell's
/// resource for it to move.
pub const MOVE_COST_RATIO: u64 = 10;

/// A cell with at least this much resource is worth staying on.
pub const RICH_CELL: u64 = 100;

/// The task an agent takes this turn, from the one it had (`None` on first
/// sight, which counts as `Explore`).
pub open spec fn next_task_spec(
    task: Option<Task>,
    turn: int,
    dist_home: int,
    fleet_size: int,
    max_turns: int,
    carried: int,
) -> Task {
    match task {
        Some(Task::Return) => if dist_home == 0 {
            Task::Explore
        } else {
            Task::Return
        },
        Some(Task::HardReturn) => Task::HardReturn,
        _ => if turn + dist_home + fleet_size / 4 > max_turns {
            Task::HardReturn
        } else if carried > 950 {
            Task::Return
        } else {
            Task::Explore
        },
    }
}

/// Evaluates the task state machine once: `Explore` turns into `HardReturn`
/// when the turns left cannot cover the way home plus a margin of a quarter
/// of the fleet size, else into `Return` once the carried resource exceeds
/// 950; `Return` turns back into `Explore` on arrival; `HardReturn` stays.
pub fn next_task(
    task: Option<Task>,
    turn: u64,
    dist_home: u64,
    fleet_size: u64,
    max_turns: u64,
    carried: u64,
) -> (r: Task)
    ensures
        r == next_task_spec(
            task,
            turn as int,
            dist_home as int,
            fleet_size as int,
            max_turns as int,
            carried as int,
        ),
{
    match task {
        Some(Task::Return) => {
            if dist_home == 0 {
                Task::Explore
            } else {
                Task::Return
            }
        },
        Some(Task::HardReturn) => Task::HardReturn,
        _ => {
            let need = turn as u128 + dist_home as u128 + (fleet_size / 4) as u128;
            if need > max_turns as u128 {
                Task::HardReturn
            } else if carried > FULL_MARK {
                Task::Return
            } else {
                Task::Explore
            }
        },
    }
}

/// Whether an agent must stay still this turn and collect: it cannot pay for
/// leaving its cell, or the cell is rich and the agent is not yet full.
pub open spec fn stuck_spec(cell_resource: int, carried: int, capacity: int) -> bool {
    carried < cell_resource / 10 || (carried < capacity && cell_resource >= 100)
}

/// Whether an agent carrying `carried` (full at `capacity`) on a cell holding
/// `cell_resource` must stay still and collect.
pub fn stuck(cell_resource: u64, carried: u64, capacity: u64) -> (r: bool)
    ensures
        r == stuck_spec(cell_resource as int, carried as int, capacity as int),
{
    let full = carried >= capacity;
    carried < cell_resource / MOVE_COST_RATIO || (!full && cell_resource >= RICH_CELL)
}

/// Once in `HardReturn`, an agent stays there whatever happens afterwards.
pub proof fn lemma_hard_return_stays(
    turn: int,
    dist_home: int,
    fleet_size: int,
    max_turns: int,
    carried: int,
)
    ensures
        next_task_spec(Some(Task::HardReturn), turn, dist_home, fleet_size, max_turns, carried)
            == Task::HardReturn,
{
}

/// The per-turn readings the task state machine sees: turn number, distance
/// home, fleet size, last turn of the game and carried resource.
pub struct Reading {
    pub turn: int,
    pub dist_home: int,
    pub fleet_size: int,
    pub max_turns: int,
    pub carried: int,
}

/// The task after evaluating the state machine once per reading, in order.
pub open spec fn task_after(task: Option<Task>, readings: Seq<Reading>) -> Option<Task>
    decreases readings.len(),
{
    if readings.len() == 0 {
        task
    } else {
        let e = readings.last();
        Some(
            next_task_spec(
                task_after(task, readings.drop_last()),
                e.turn,
                e.dist_home,
                e.fleet_size,
                e.max_turns,
                e.carried,
            ),
        )
    }
}

/// An exploring agent with too few turns left goes to `HardReturn`, and no
/// sequence of later evaluations takes it out again.
pub proof fn lemma_late_turn_is_final(task: Option<Task>, first: Reading, later: Seq<Reading>)
    requires
        task is None || task == Some(Task::Explore),
        first.turn + first.dist_home + first.fleet_size / 4 > first.max_turns,
    ensures
        task_after(task, seq![first]) == Some(Task::HardReturn),
        task_after(task, seq![first] + later) == Some(Task::HardReturn),
    decreases later.len(),
{
    let s = seq![first];
    assert(s.drop_last() =~= Seq::<Reading>::empty());
    assert(task_after(task, s.drop_last()) == task);
    assert(s.last() == first);
    assert(task_after(task, s) == Some(Task::HardReturn));
    if later.len() > 0 {
        lemma_late_turn_is_final(task, first, later.drop_last());
        assert((s + later).drop_last() =~= s + later.drop_last());
    } else {
        assert(s + later =~= s);
    }
}

/// A returning agent goes back to exploring exactly when it is home.
pub proof fn lemma_return_until_home(
    turn: int,
    dist_home: int,
    fleet_size: int,
    max_turns: int,
    carried: int,
)
    ensures
        (next_task_spec(Some(Task::Return), turn, dist_home, fleet_size, max_turns, carried)
            == Task::Explore) <==> dist_home == 0,
{
}

} // verus!
