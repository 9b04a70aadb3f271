use halite_bot::grid::Grid;
use halite_bot::navi::Navi;
use halite_bot::position::{Direction, Position};
use halite_bot::target::Task;
use halite_bot::turn::{lookup_task, plan_turn, Command, Ship, TurnInfo};

fn pos(x: i32, y: i32) -> Position {
    Position { x, y }
}

fn info(turn: u64, balance: u64) -> TurnInfo {
    TurnInfo { home: pos(0, 0), turn, max_turns: 400, balance, ship_cost: 1000, capacity: 1000 }
}

#[test]
fn lookup_takes_first_entry() {
    let t = vec![(3, Task::Return), (7, Task::HardReturn), (3, Task::Explore)];
    assert_eq!(lookup_task(&t, 3), Some(Task::Return));
    assert_eq!(lookup_task(&t, 7), Some(Task::HardReturn));
    assert_eq!(lookup_task(&t, 9), None);
}

#[test]
fn single_agent_heads_for_rich_cell() {
    let mut halite = vec![50u32; 25];
    halite[2] = 500;
    let g = Grid { width: 5, height: 5, halite };
    let mut navi = Navi::new(5, 5);
    let ships = vec![Ship { id: 1, position: pos(0, 0), halite: 10 }];
    let plan = plan_turn(&g, &mut navi, &vec![], &ships, &vec![], info(1, 0));
    assert_eq!(plan.tasks, vec![(1, Task::Explore)]);
    assert_eq!(plan.commands, vec![Command::Move(1, Direction::East)]);
    assert_eq!(plan.targets, vec![pos(2, 0)]);
    assert!(!navi.is_safe(pos(1, 0)));
}

#[test]
fn stuck_agent_stays_and_blocks_spawn() {
    let mut halite = vec![0u32; 16];
    halite[0] = 400;
    let g = Grid { width: 4, height: 4, halite };
    let mut navi = Navi::new(4, 4);
    let ships = vec![Ship { id: 4, position: pos(0, 0), halite: 10 }];
    let plan = plan_turn(&g, &mut navi, &vec![(4, Task::Explore)], &ships, &vec![], info(5, 5000));
    assert_eq!(plan.commands, vec![Command::Move(4, Direction::Still)]);
    assert_eq!(plan.targets, vec![pos(0, 0)]);
    assert!(!navi.is_safe(pos(0, 0)));
}

#[test]
fn spawn_when_home_free_and_affordable() {
    let g = Grid { width: 4, height: 4, halite: vec![0u32; 16] };
    let mut navi = Navi::new(4, 4);
    let plan = plan_turn(&g, &mut navi, &vec![], &vec![], &vec![], info(5, 1000));
    assert_eq!(plan.commands, vec![Command::Spawn]);
    let mut navi = Navi::new(4, 4);
    let late = plan_turn(&g, &mut navi, &vec![], &vec![], &vec![], info(201, 1000));
    assert_eq!(late.commands, vec![]);
    let mut navi = Navi::new(4, 4);
    let poor = plan_turn(&g, &mut navi, &vec![], &vec![], &vec![], info(5, 999));
    assert_eq!(poor.commands, vec![]);
}

#[test]
fn full_agent_returns_and_table_drops_absent() {
    let g = Grid { width: 8, height: 8, halite: vec![0u32; 64] };
    let mut navi = Navi::new(8, 8);
    let ships = vec![Ship { id: 2, position: pos(3, 0), halite: 960 }];
    let old = vec![(9, Task::Return), (2, Task::Explore)];
    let plan = plan_turn(&g, &mut navi, &old, &ships, &vec![], info(10, 0));
    assert_eq!(plan.tasks, vec![(2, Task::Return)]);
    assert_eq!(plan.commands, vec![Command::Move(2, Direction::West)]);
}

#[test]
fn late_game_forces_hard_return() {
    let g = Grid { width: 8, height: 8, halite: vec![0u32; 64] };
    let mut navi = Navi::new(8, 8);
    let ships = vec![Ship { id: 2, position: pos(0, 3), halite: 0 }];
    let plan = plan_turn(&g, &mut navi, &vec![(2, Task::Explore)], &ships, &vec![], info(398, 0));
    assert_eq!(plan.tasks, vec![(2, Task::HardReturn)]);
    assert_eq!(plan.commands, vec![Command::Move(2, Direction::North)]);
}

#[test]
fn earlier_agent_claims_contested_cell() {
    let g = Grid { width: 8, height: 8, halite: vec![0u32; 64] };
    let mut navi = Navi::new(8, 8);
    // Both return home to (0, 0); the first takes (0, 1), which the second needs.
    let ships = vec![
        Ship { id: 1, position: pos(1, 1), halite: 0 },
        Ship { id: 2, position: pos(0, 2), halite: 0 },
    ];
    let old = vec![(1, Task::Return), (2, Task::Return)];
    let plan = plan_turn(&g, &mut navi, &old, &ships, &vec![], info(10, 0));
    assert_eq!(plan.targets, vec![pos(0, 0), pos(0, 0)]);
    assert_eq!(
        plan.commands,
        vec![Command::Move(1, Direction::West), Command::Move(2, Direction::Still)]
    );
    assert!(!navi.is_safe(pos(0, 1)));
    assert!(!navi.is_safe(pos(0, 2)));
    assert!(navi.is_safe(pos(1, 1)));
}
