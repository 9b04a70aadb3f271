use halite_bot::cost_field::cost_field;
use halite_bot::grid::Grid;
use halite_bot::navi::Navi;
use halite_bot::position::{Direction, Position};
use halite_bot::target::{evaluate, rank_explore, select_explore, select_return, Task};
use halite_bot::tasks::{next_task, stuck};

fn pos(x: i32, y: i32) -> Position {
    Position { x, y }
}

fn uniform(width: usize, height: usize, amount: u32) -> Grid {
    Grid { width, height, halite: vec![amount; width * height] }
}

#[test]
fn offsets_follow_directions() {
    let p = pos(3, 4);
    assert_eq!(p.directional_offset(Direction::North), pos(3, 3));
    assert_eq!(p.directional_offset(Direction::South), pos(3, 5));
    assert_eq!(p.directional_offset(Direction::East), pos(4, 4));
    assert_eq!(p.directional_offset(Direction::West), pos(2, 4));
    assert_eq!(p.directional_offset(Direction::Still), pos(3, 4));
}

#[test]
fn surrounding_cardinals_in_order() {
    let r = pos(0, 0).get_surrounding_cardinals();
    assert_eq!(r, vec![pos(0, -1), pos(0, 1), pos(1, 0), pos(-1, 0)]);
}

#[test]
fn positions_order_by_x_then_y() {
    assert!(pos(1, 9) < pos(2, 0));
    assert!(pos(2, 1) < pos(2, 3));
    assert!(pos(2, 3) == pos(2, 3));
}

#[test]
fn normalize_wraps_and_is_idempotent() {
    let g = uniform(10, 8, 0);
    assert_eq!(g.normalize(pos(-1, -1)), pos(9, 7));
    assert_eq!(g.normalize(pos(10, 8)), pos(0, 0));
    assert_eq!(g.normalize(pos(-21, 17)), pos(9, 1));
    for &(x, y) in &[(-21, 17), (5, 5), (100, -100), (i32::MIN, i32::MAX)] {
        let once = g.normalize(pos(x, y));
        assert!(0 <= once.x && once.x < 10 && 0 <= once.y && once.y < 8);
        assert_eq!(g.normalize(once), once);
    }
}

#[test]
fn distance_wraps_around() {
    let g = uniform(10, 10, 0);
    assert_eq!(g.calculate_distance(pos(0, 0), pos(9, 0)), 1);
    assert_eq!(g.calculate_distance(pos(3, 3), pos(3, 3)), 0);
    assert_eq!(g.calculate_distance(pos(1, 2), pos(7, 9)), 4 + 3);
    assert_eq!(g.calculate_distance(pos(7, 9), pos(1, 2)), 4 + 3);
    assert_eq!(g.calculate_distance(pos(0, 0), pos(5, 5)), 10);
}

#[test]
fn neighbors_are_wrapped() {
    let g = uniform(4, 3, 0);
    assert_eq!(g.neighbors(pos(0, 0)), vec![pos(0, 2), pos(0, 1), pos(1, 0), pos(3, 0)]);
}

#[test]
fn resource_lookup_wraps() {
    let mut g = uniform(3, 2, 0);
    g.halite[1 * 3 + 2] = 42;
    assert_eq!(g.resource_at(pos(2, 1)), 42);
    assert_eq!(g.resource_at(pos(-1, -1)), 42);
    assert_eq!(g.resource_at(pos(0, 0)), 0);
}

#[test]
fn zero_field_costs_nothing() {
    let g = uniform(6, 4, 0);
    let m = cost_field(&g, 7);
    assert_eq!(m.len(), 24);
    assert!(m.iter().all(|&c| c == 0));
}

#[test]
fn uniform_field_costs_distance_times_amount() {
    let g = uniform(5, 5, 7);
    let m = cost_field(&g, 0);
    for y in 0..5 {
        for x in 0..5 {
            let d = g.calculate_distance(pos(0, 0), pos(x, y)) as u64;
            assert_eq!(m[(y * 5 + x) as usize], d * 7);
        }
    }
}

#[test]
fn cost_charges_the_cell_left() {
    // One row of four cells: 0 -> 1 -> 2 is cheaper around the back.
    let g = Grid { width: 4, height: 1, halite: vec![1, 100, 5, 2] };
    let m = cost_field(&g, 0);
    assert_eq!(m, vec![0, 1, 3, 1]);
    let m2 = cost_field(&g, 1);
    assert_eq!(m2, vec![100, 0, 100, 101]);
}

#[test]
fn return_picks_nearest_base() {
    let g = uniform(20, 20, 0);
    let agent = pos(10, 10);
    let far = pos(15, 10);
    let near = pos(10, 13);
    assert_eq!(select_return(&g, agent, far, &vec![near]), near);
    assert_eq!(select_return(&g, agent, near, &vec![far]), near);
    assert_eq!(evaluate(&g, agent, Some(Task::Return), far, &vec![near]), near);
    assert_eq!(evaluate(&g, agent, Some(Task::HardReturn), far, &vec![near]), near);
}

#[test]
fn return_tie_keeps_home() {
    let g = uniform(20, 20, 0);
    assert_eq!(select_return(&g, pos(5, 5), pos(5, 8), &vec![pos(8, 5)]), pos(5, 8));
}

#[test]
fn explore_never_picks_home() {
    let mut g = uniform(5, 5, 10);
    g.halite[2 * 5 + 2] = 900;
    let home = pos(2, 2);
    let cost = cost_field(&g, 0);
    assert_eq!(rank_explore(&g, &cost, pos(0, 0), 12, home, &vec![]), None);
    let r = select_explore(&g, &cost, pos(0, 0), home, &vec![]);
    assert_ne!(r, home);
    let open = select_explore(&g, &cost, pos(0, 0), pos(4, 4), &vec![]);
    assert_eq!(open, home);
}

#[test]
fn explore_rank_formula() {
    let mut g = uniform(5, 5, 50);
    g.halite[2] = 500;
    let cost = cost_field(&g, 0);
    assert_eq!(cost[2], 100);
    // gain 500 + 4 * 10 = 540, cost 100, turns max(5, 2) = 5
    assert_eq!(rank_explore(&g, &cost, pos(0, 0), 2, pos(4, 4), &vec![]), Some(5560 * 5560 * 5));
    // a dropoff cell is never eligible
    assert_eq!(rank_explore(&g, &cost, pos(0, 0), 2, pos(4, 4), &vec![pos(2, 0)]), None);
}

#[test]
fn explore_rejects_unprofitable_and_saturated() {
    let g = uniform(3, 3, 0);
    let cost = cost_field(&g, 0);
    // gain 0 is never above cost 0
    assert_eq!(rank_explore(&g, &cost, pos(0, 0), 4, pos(0, 0), &vec![]), None);
    assert_eq!(select_explore(&g, &cost, pos(1, 1), pos(0, 0), &vec![]), pos(1, 1));
    let mut rich = uniform(3, 3, 0);
    rich.halite[4] = 7000;
    let cost = cost_field(&rich, 0);
    assert_eq!(rank_explore(&rich, &cost, pos(0, 0), 4, pos(0, 0), &vec![]), None);
}

#[test]
fn explore_prefers_rich_cell() {
    let mut g = uniform(5, 5, 50);
    g.halite[2] = 500;
    let r = evaluate(&g, pos(0, 0), Some(Task::Explore), pos(0, 0), &vec![]);
    assert_eq!(r, pos(2, 0));
    let unknown = evaluate(&g, pos(0, 0), None, pos(0, 0), &vec![]);
    assert_eq!(unknown, pos(2, 0));
}

#[test]
fn task_transitions() {
    assert_eq!(next_task(Some(Task::Explore), 10, 5, 8, 400, 960), Task::Return);
    assert_eq!(next_task(None, 10, 5, 8, 400, 960), Task::Return);
    assert_eq!(next_task(Some(Task::Explore), 10, 5, 8, 400, 950), Task::Explore);
    assert_eq!(next_task(Some(Task::Return), 10, 0, 8, 400, 0), Task::Explore);
    assert_eq!(next_task(Some(Task::Return), 10, 1, 8, 400, 0), Task::Return);
    // 390 + 9 + 8 / 4 = 401 > 400
    assert_eq!(next_task(Some(Task::Explore), 390, 9, 8, 400, 0), Task::HardReturn);
    assert_eq!(next_task(Some(Task::Explore), 389, 9, 8, 400, 0), Task::Explore);
    assert_eq!(next_task(Some(Task::HardReturn), 0, 0, 0, 400, 0), Task::HardReturn);
    assert_eq!(next_task(Some(Task::HardReturn), 399, 0, 0, 400, 999), Task::HardReturn);
}

#[test]
fn hard_return_persists_over_turns() {
    let mut t = next_task(Some(Task::Explore), 395, 10, 4, 400, 0);
    assert_eq!(t, Task::HardReturn);
    for turn in 396..=400u64 {
        t = next_task(Some(t), turn, 0, 4, 400, 0);
        assert_eq!(t, Task::HardReturn);
    }
}

#[test]
fn stuck_rules() {
    assert!(stuck(500, 49, 1000));
    assert!(stuck(500, 50, 1000));
    assert!(stuck(100, 500, 1000));
    assert!(!stuck(100, 1000, 1000));
    assert!(stuck(99, 0, 1000));
    assert!(!stuck(99, 9, 1000));
    assert!(stuck(5000, 499, 1000));
    assert!(!stuck(5000, 1000, 1000));
    assert!(!stuck(0, 0, 1000));
}

#[test]
fn navigate_moves_toward_target() {
    let mut n = Navi::new(10, 10);
    assert_eq!(n.naive_navigate(1, pos(0, 0), pos(3, 0)), Direction::East);
    assert!(!n.is_safe(pos(1, 0)));
    assert_eq!(n.naive_navigate(2, pos(0, 5), pos(8, 5)), Direction::West);
    assert!(!n.is_safe(pos(9, 5)));
    assert_eq!(n.naive_navigate(3, pos(4, 4), pos(4, 4)), Direction::Still);
    assert!(!n.is_safe(pos(4, 4)));
}

#[test]
fn unsafe_moves_prefer_short_way() {
    let n = Navi::new(10, 10);
    assert_eq!(n.get_unsafe_moves(pos(0, 0), pos(3, 8)), vec![Direction::East, Direction::North]);
    assert_eq!(n.get_unsafe_moves(pos(5, 5), pos(5, 5)), vec![]);
    assert_eq!(n.get_unsafe_moves(pos(0, 0), pos(5, 0)), vec![Direction::East]);
}

#[test]
fn second_agent_is_redirected_or_held() {
    let mut n = Navi::new(8, 8);
    // Both head for (2, 1) from (1, 1) and from (2, 0).
    assert_eq!(n.naive_navigate(1, pos(1, 1), pos(2, 1)), Direction::East);
    assert_eq!(n.naive_navigate(2, pos(2, 0), pos(2, 1)), Direction::Still);
    assert!(!n.is_safe(pos(2, 0)));
    // A third, diagonal to its target, takes its second move when the first is held.
    n.mark_unsafe(pos(4, 3), 9);
    assert_eq!(n.naive_navigate(3, pos(3, 3), pos(4, 4)), Direction::South);
    assert!(!n.is_safe(pos(3, 4)));
}

#[test]
fn reservations_reset_each_turn() {
    let mut n = Navi::new(4, 4);
    n.mark_unsafe(pos(1, 1), 5);
    assert!(!n.is_safe(pos(1, 1)));
    assert!(!n.is_safe(pos(5, -3)));
    n.update_frame();
    assert!(n.is_safe(pos(1, 1)));
}
