use ftt::define::Block;
use ftt::define::FttMap;
use ftt::define::state_eq;
use ftt::simulate::Direction;
use ftt::simulate::simulate;

/// A rows x cols grid with a Wall border and the given interior tiles.
fn bordered_grid(rows: usize, cols: usize, tiles: &[(usize, usize, Block)]) -> Vec<Vec<Option<Block>>> {
    let mut grid = Vec::new();
    for r in 0..rows {
        let mut row = Vec::new();
        for c in 0..cols {
            if r == 0 || r == rows - 1 || c == 0 || c == cols - 1 {
                row.push(Some(Block::Wall));
            } else {
                row.push(None);
            }
        }
        grid.push(row);
    }
    for &(r, c, b) in tiles {
        grid[r][c] = Some(b);
    }
    grid
}

#[test]
fn direct_slide() {
    let mut state = FttMap::new(bordered_grid(3, 4, &[]), (1, 1), (1, 2));
    assert!(simulate(&mut state, Direction::Right));
    assert_eq!(state.player, (1, 2));
}

#[test]
fn trap_decay() {
    let mut state = FttMap::new(bordered_grid(3, 5, &[(1, 2, Block::Trap)]), (1, 1), (1, 3));
    assert!(simulate(&mut state, Direction::Right));
    assert_eq!(state.player, (1, 3));
    assert_eq!(state.map[1][2], Some(Block::Wall));
}

#[test]
fn sticky_halt() {
    let mut state = FttMap::new(bordered_grid(3, 6, &[(1, 2, Block::Sticky)]), (1, 1), (1, 4));
    assert!(simulate(&mut state, Direction::Right));
    assert_eq!(state.player, (1, 2));
    assert_eq!(state.map[1][2], Some(Block::Sticky));
}

#[test]
fn wall_blocks_entry() {
    let mut state = FttMap::new(bordered_grid(3, 4, &[]), (1, 1), (1, 2));
    assert!(!simulate(&mut state, Direction::Up));
    assert_eq!(state.player, (1, 1));
}

#[test]
fn loose_blocks_entry() {
    let mut state = FttMap::new(bordered_grid(3, 5, &[(1, 2, Block::Loose)]), (1, 1), (1, 3));
    assert!(!simulate(&mut state, Direction::Right));
    assert_eq!(state.player, (1, 1));
    assert_eq!(state.map[1][2], Some(Block::Loose));
}

#[test]
fn loose_ahead_erodes_before_blocking() {
    let mut state = FttMap::new(bordered_grid(3, 6, &[(1, 3, Block::Loose)]), (1, 1), (1, 4));
    assert!(simulate(&mut state, Direction::Right));
    assert_eq!(state.player, (1, 4));
    assert_eq!(state.map[1][3], None);
}

#[test]
fn loose_beside_the_corridor_erodes() {
    let mut state = FttMap::new(bordered_grid(4, 6, &[(2, 3, Block::Loose)]), (1, 1), (1, 4));
    assert!(simulate(&mut state, Direction::Right));
    assert_eq!(state.player, (1, 4));
    assert_eq!(state.map[2][3], None);
}

#[test]
fn effects_of_the_arrival_step_still_apply() {
    // Reaching the target ends the slide, but that step's side effects
    // (here: eroding the loose tile beside the target) remain applied.
    let mut state = FttMap::new(bordered_grid(4, 4, &[(2, 2, Block::Loose)]), (1, 1), (1, 2));
    assert!(simulate(&mut state, Direction::Right));
    assert_eq!(state.player, (1, 2));
    assert_eq!(state.map[2][2], None);
}

#[test]
fn trap_fires_only_on_exit() {
    let grid = bordered_grid(5, 5, &[(1, 2, Block::Trap), (1, 3, Block::Wall)]);
    let mut state = FttMap::new(grid, (1, 1), (3, 3));
    assert!(simulate(&mut state, Direction::Right));
    assert_eq!(state.player, (1, 2));
    assert_eq!(state.map[1][2], Some(Block::Trap));
    assert!(simulate(&mut state, Direction::Down));
    assert_eq!(state.player, (3, 2));
    assert_eq!(state.map[1][2], Some(Block::Wall));
}

#[test]
fn simulate_is_deterministic() {
    let grid = bordered_grid(4, 6, &[(1, 2, Block::Trap), (2, 3, Block::Loose), (1, 4, Block::Sticky)]);
    let mut a = FttMap::new(grid.clone(), (1, 1), (2, 4));
    let mut b = FttMap::new(grid, (1, 1), (2, 4));
    let ra = simulate(&mut a, Direction::Right);
    let rb = simulate(&mut b, Direction::Right);
    assert_eq!(ra, rb);
    assert!(state_eq(&a, &b));
}

#[test]
fn final_cell_is_never_hard() {
    let grid = bordered_grid(4, 6, &[(1, 2, Block::Trap), (2, 3, Block::Loose), (1, 4, Block::Sticky)]);
    let mut state = FttMap::new(grid, (1, 1), (2, 4));
    for dir in [Direction::Right, Direction::Down, Direction::Left, Direction::Up] {
        if simulate(&mut state, dir) {
            let (r, c) = state.player;
            let cell = state.map[r][c];
            assert_ne!(cell, Some(Block::Wall));
            assert_ne!(cell, Some(Block::Loose));
        }
    }
}

#[test]
fn decayed_trap_never_reverts() {
    let mut state = FttMap::new(bordered_grid(3, 5, &[(1, 2, Block::Trap)]), (1, 1), (1, 3));
    assert!(simulate(&mut state, Direction::Right));
    assert_eq!(state.map[1][2], Some(Block::Wall));
    simulate(&mut state, Direction::Left);
    simulate(&mut state, Direction::Right);
    assert_eq!(state.map[1][2], Some(Block::Wall));
}

#[test]
fn removed_loose_never_reappears() {
    let mut state = FttMap::new(bordered_grid(3, 6, &[(1, 3, Block::Loose)]), (1, 1), (1, 4));
    assert!(simulate(&mut state, Direction::Right));
    assert_eq!(state.map[1][3], None);
    simulate(&mut state, Direction::Left);
    simulate(&mut state, Direction::Right);
    assert_eq!(state.map[1][3], None);
}

#[test]
fn slide_from_solved_state_still_moves() {
    let mut state = FttMap::new(bordered_grid(3, 4, &[]), (1, 1), (1, 1));
    assert!(simulate(&mut state, Direction::Right));
    assert_eq!(state.player, (1, 2));
}

#[test]
fn new_keeps_its_parts() {
    let grid = bordered_grid(3, 4, &[]);
    let state = FttMap::new(grid.clone(), (1, 1), (1, 2));
    assert_eq!(state.map, grid);
    assert_eq!(state.player, (1, 1));
    assert_eq!(state.target, (1, 2));
}

#[test]
fn state_eq_tells_states_apart() {
    let a = FttMap::new(bordered_grid(3, 4, &[]), (1, 1), (1, 2));
    let b = FttMap::new(bordered_grid(3, 4, &[]), (1, 1), (1, 2));
    let c = FttMap::new(bordered_grid(3, 4, &[]), (1, 2), (1, 2));
    let d = FttMap::new(bordered_grid(3, 4, &[(1, 1, Block::Trap)]), (1, 1), (1, 2));
    assert!(state_eq(&a, &b));
    assert!(!state_eq(&a, &c));
    assert!(!state_eq(&a, &d));
}
