use ftt::define::Block;
use ftt::define::FttMap;
use ftt::search::search;
use ftt::simulate::Direction;

/// A rows x cols grid with a Wall border and the given interior tiles.
fn bordered_grid(rows: usize, cols: usize, tiles: &[(usize, usize, Block)]) -> Vec<Vec<Option<Block>>> {
    let mut grid = Vec::new();
    for r in 0..rows {
        let mut row = Vec::new();
        for c in 0..cols {
            if r == 0 || r == rows - 1 || c == 0 || c == cols - 1 {
                row.push(Some(Block::Wall));
            } else {
                row.push(None);
            }
        }
        grid.push(row);
    }
    for &(r, c, b) in tiles {
        grid[r][c] = Some(b);
    }
    grid
}

#[test]
fn one_step_solution() {
    let state = FttMap::new(bordered_grid(3, 4, &[]), (1, 1), (1, 2));
    let steps = search(state, 10);
    assert_eq!(steps, Some(vec![Direction::Right]));
}

#[test]
fn solution_through_trap() {
    let state = FttMap::new(bordered_grid(3, 5, &[(1, 2, Block::Trap)]), (1, 1), (1, 3));
    let steps = search(state, 10);
    assert_eq!(steps, Some(vec![Direction::Right]));
}

#[test]
fn solution_past_sticky() {
    let state = FttMap::new(bordered_grid(3, 6, &[(1, 2, Block::Sticky)]), (1, 1), (1, 4));
    let steps = search(state, 10);
    assert_eq!(steps, Some(vec![Direction::Right, Direction::Right]));
}

#[test]
fn enclosed_target_has_no_solution() {
    let tiles = [
        (1, 2, Block::Wall),
        (3, 2, Block::Wall),
        (2, 1, Block::Wall),
        (2, 3, Block::Wall),
    ];
    for max_steps in [0, 1, 5, 50] {
        let state = FttMap::new(bordered_grid(5, 5, &tiles), (1, 1), (2, 2));
        assert_eq!(search(state, max_steps), None);
    }
}

#[test]
fn bound_is_respected() {
    let state = FttMap::new(bordered_grid(3, 6, &[(1, 2, Block::Sticky)]), (1, 1), (1, 4));
    assert_eq!(search(state, 1), None);
    let state = FttMap::new(bordered_grid(3, 6, &[(1, 2, Block::Sticky)]), (1, 1), (1, 4));
    assert_eq!(search(state, 2), Some(vec![Direction::Right, Direction::Right]));
}

#[test]
fn zero_bound_yields_nothing_unless_solved() {
    let state = FttMap::new(bordered_grid(3, 4, &[]), (1, 1), (1, 2));
    assert_eq!(search(state, 0), None);
}

#[test]
fn solved_start_yields_empty_path() {
    let state = FttMap::new(bordered_grid(3, 4, &[]), (1, 1), (1, 1));
    assert_eq!(search(state, 0), Some(vec![]));
}

#[test]
fn ties_break_in_enumeration_order() {
    // Both [Up, Left] and [Left, Up] are shortest; Up is tried first.
    let state = FttMap::new(bordered_grid(4, 4, &[]), (2, 2), (1, 1));
    let steps = search(state, 5);
    assert_eq!(steps, Some(vec![Direction::Up, Direction::Left]));
}

#[test]
fn shortest_solution_wins() {
    // Walking around the block in 4 steps also works, but 2 steps suffice.
    let state = FttMap::new(bordered_grid(5, 5, &[(2, 2, Block::Wall)]), (3, 1), (1, 3));
    let steps = search(state, 10).expect("this grid has a solution");
    assert_eq!(steps.len(), 2);
}

#[test]
fn found_path_replays_to_the_target() {
    let tiles = [(1, 2, Block::Sticky), (2, 4, Block::Trap)];
    let state = FttMap::new(bordered_grid(4, 6, &tiles), (1, 1), (2, 2));
    let steps = search(state, 8).expect("this grid has a solution");
    assert!(steps.len() <= 8);
    let mut replay = FttMap::new(bordered_grid(4, 6, &tiles), (1, 1), (2, 2));
    for dir in steps {
        assert!(ftt::simulate::simulate(&mut replay, dir));
    }
    assert_eq!(replay.player, replay.target);
}
