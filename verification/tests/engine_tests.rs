use twenty48::engine::{Direction, MyGame};

fn grid_of(game: &MyGame) -> Vec<Vec<u32>> {
    game.grid().clone()
}

fn count_tiles(game: &MyGame) -> usize {
    game.grid().iter().flatten().filter(|&&v| v != 0).count()
}

#[test]
fn merge_row_with_pair_and_gap() {
    // row [2,2,4,0]: only the first pair merges, the score rises by 4
    let mut game = MyGame::from_rows(vec![
        vec![2, 2, 4, 0],
        vec![0, 0, 0, 0],
        vec![0, 0, 0, 0],
        vec![0, 0, 0, 0],
    ]);
    let changed = game.merge();
    assert!(changed);
    assert_eq!(grid_of(&game)[0], vec![4, 0, 4, 0]);
    assert_eq!(game.score(), 4);
    let slid = game.compress();
    assert!(slid);
    assert_eq!(grid_of(&game)[0], vec![4, 4, 0, 0]);
    assert_eq!(game.score(), 4);
}

#[test]
fn merge_row_of_four_equal_tiles() {
    // row [2,2,2,2]: the pairs (0,1) and (2,3) merge, the score rises by 8
    let mut game = MyGame::from_rows(vec![
        vec![2, 2, 2, 2],
        vec![0, 0, 0, 0],
        vec![0, 0, 0, 0],
        vec![0, 0, 0, 0],
    ]);
    let changed = game.merge();
    assert!(changed);
    assert_eq!(grid_of(&game)[0], vec![4, 0, 4, 0]);
    assert_eq!(game.score(), 8);
    let slid = game.compress();
    assert!(slid);
    assert_eq!(grid_of(&game)[0], vec![4, 4, 0, 0]);
    assert_eq!(game.score(), 8);
}

#[test]
fn merge_scan_does_not_skip_after_a_fresh_merge() {
    // row [4,4,8,8]: the doubled left pair leaves a gap, then the right
    // pair merges in the same pass
    let mut game = MyGame::from_rows(vec![
        vec![4, 4, 8, 8],
        vec![0, 0, 0, 0],
        vec![0, 0, 0, 0],
        vec![0, 0, 0, 0],
    ]);
    let changed = game.merge();
    assert!(changed);
    assert_eq!(grid_of(&game)[0], vec![8, 0, 16, 0]);
    assert_eq!(game.score(), 24);
}

#[test]
fn merge_chain_of_three_produces_one_merge() {
    // row [2,2,2,0]: the first pair merges; the zero left behind stops
    // the rest of the scan
    let mut game = MyGame::from_rows(vec![
        vec![2, 2, 2, 0],
        vec![0, 0, 0, 0],
        vec![0, 0, 0, 0],
        vec![0, 0, 0, 0],
    ]);
    let changed = game.merge();
    assert!(changed);
    assert_eq!(grid_of(&game)[0], vec![4, 0, 2, 0]);
    assert_eq!(game.score(), 4);
}

#[test]
fn merge_without_pairs_changes_nothing() {
    let start = vec![
        vec![2, 4, 2, 4],
        vec![4, 2, 4, 2],
        vec![2, 4, 2, 4],
        vec![4, 2, 4, 2],
    ];
    let mut game = MyGame::from_rows(start.clone());
    let changed = game.merge();
    assert!(!changed);
    assert_eq!(grid_of(&game), start);
    assert_eq!(game.score(), 0);
}

#[test]
fn compress_is_idempotent() {
    let mut game = MyGame::from_rows(vec![
        vec![0, 2, 0, 4],
        vec![2, 0, 2, 0],
        vec![0, 0, 0, 8],
        vec![4, 0, 0, 2],
    ]);
    let first = game.compress();
    assert!(first);
    let after_one = grid_of(&game);
    assert_eq!(after_one[0], vec![2, 4, 0, 0]);
    assert_eq!(after_one[1], vec![2, 2, 0, 0]);
    assert_eq!(after_one[2], vec![8, 0, 0, 0]);
    assert_eq!(after_one[3], vec![4, 2, 0, 0]);
    // a second pass finds every tile already packed
    let second = game.compress();
    assert!(!second);
    assert_eq!(grid_of(&game), after_one);
}

#[test]
fn compress_on_packed_rows_reports_no_change() {
    let start = vec![
        vec![2, 4, 0, 0],
        vec![8, 0, 0, 0],
        vec![2, 4, 8, 2],
        vec![0, 0, 0, 0],
    ];
    let mut game = MyGame::from_rows(start.clone());
    assert!(!game.compress());
    assert_eq!(grid_of(&game), start);
}

#[test]
fn reverse_rows_is_its_own_inverse() {
    let start = vec![
        vec![2, 4, 8, 0],
        vec![0, 2, 0, 4],
        vec![16, 0, 2, 2],
        vec![0, 0, 4, 0],
    ];
    let mut game = MyGame::from_rows(start.clone());
    game.reverse_map();
    assert_eq!(grid_of(&game)[0], vec![0, 8, 4, 2]);
    game.reverse_map();
    assert_eq!(grid_of(&game), start);
}

#[test]
fn transpose_is_its_own_inverse() {
    let start = vec![
        vec![2, 4, 8, 0],
        vec![0, 2, 0, 4],
        vec![16, 0, 2, 2],
        vec![0, 0, 4, 0],
    ];
    let mut game = MyGame::from_rows(start.clone());
    game.transp_map();
    assert_eq!(grid_of(&game)[0], vec![2, 0, 16, 0]);
    game.transp_map();
    assert_eq!(grid_of(&game), start);
}

#[test]
fn settled_grid_reports_no_change_in_any_direction() {
    // full board, no equal neighbors: every move leaves it alone
    let start = vec![
        vec![2, 4, 2, 4],
        vec![4, 2, 4, 2],
        vec![2, 4, 2, 4],
        vec![4, 2, 4, 2],
    ];
    for dir in [
        Direction::Up,
        Direction::Down,
        Direction::Left,
        Direction::Right,
    ] {
        let mut game = MyGame::from_rows(start.clone());
        let changed = game.apply_move(dir);
        assert!(!changed);
        assert_eq!(grid_of(&game), start);
        assert_eq!(game.score(), 0);
    }
}

#[test]
fn gameover_on_full_grid_without_neighbors() {
    let game = MyGame::from_rows(vec![vec![2, 4], vec![4, 2]]);
    assert!(game.chk_gameover());
}

#[test]
fn no_gameover_with_equal_horizontal_neighbors() {
    let game = MyGame::from_rows(vec![vec![2, 2], vec![4, 8]]);
    assert!(!game.chk_gameover());
}

#[test]
fn no_gameover_with_equal_vertical_neighbors() {
    let game = MyGame::from_rows(vec![vec![2, 8], vec![2, 4]]);
    assert!(!game.chk_gameover());
}

#[test]
fn no_gameover_with_an_empty_cell() {
    let game = MyGame::from_rows(vec![vec![2, 4], vec![8, 0]]);
    assert!(!game.chk_gameover());
}

#[test]
fn update_gameover_latches_the_flag() {
    let mut game = MyGame::from_rows(vec![vec![2, 4], vec![4, 2]]);
    assert!(!game.game_over());
    game.update_gameover();
    assert!(game.game_over());
}

#[test]
fn update_gameover_leaves_a_live_board_running() {
    let mut game = MyGame::from_rows(vec![vec![2, 0], vec![4, 2]]);
    game.update_gameover();
    assert!(!game.game_over());
}

#[test]
fn new_game_spawns_two_seed_tiles() {
    let game = MyGame::new();
    assert_eq!(game.grid().len(), 4);
    assert_eq!(count_tiles(&game), 2);
    for row in game.grid() {
        assert_eq!(row.len(), 4);
        for &v in row {
            assert!(v == 0 || v == 2);
        }
    }
    assert_eq!(game.score(), 0);
    assert!(!game.game_over());
}

#[test]
fn new_game_resets_grid_score_and_flag() {
    let mut game = MyGame::from_rows(vec![
        vec![2, 4, 2, 4],
        vec![4, 2, 4, 2],
        vec![2, 4, 2, 4],
        vec![4, 2, 4, 2],
    ]);
    game.update_gameover();
    assert!(game.game_over());
    game.new_game();
    assert_eq!(count_tiles(&game), 2);
    assert_eq!(game.score(), 0);
    assert!(!game.game_over());
    for row in game.grid() {
        for &v in row {
            assert!(v == 0 || v == 2);
        }
    }
}

#[test]
fn spawn_fills_the_only_empty_cell() {
    // with a single empty cell, whatever the random draw does, the tile
    // must land exactly there
    let mut game = MyGame::from_rows(vec![
        vec![2, 4, 2, 4],
        vec![4, 2, 4, 2],
        vec![2, 4, 2, 0],
        vec![4, 2, 4, 2],
    ]);
    let spawned = game.gen_new_tiles();
    assert!(spawned);
    assert_eq!(grid_of(&game)[2], vec![2, 4, 2, 2]);
    assert_eq!(count_tiles(&game), 16);
}

#[test]
fn spawn_on_a_full_grid_reports_no_room() {
    let start = vec![
        vec![2, 4, 2, 4],
        vec![4, 2, 4, 2],
        vec![2, 4, 2, 4],
        vec![4, 2, 4, 2],
    ];
    let mut game = MyGame::from_rows(start.clone());
    let spawned = game.gen_new_tiles();
    assert!(!spawned);
    assert_eq!(grid_of(&game), start);
}

fn is_power_of_two(v: u32) -> bool {
    v >= 2 && v.count_ones() == 1
}

#[test]
fn played_game_keeps_cells_powers_of_two() {
    // drive the engine as the shell would: move, spawn, check the flag
    let mut game = MyGame::new();
    let dirs = [
        Direction::Up,
        Direction::Left,
        Direction::Down,
        Direction::Right,
    ];
    for turn in 0..200 {
        if game.game_over() {
            break;
        }
        let changed = game.apply_move(dirs[turn % 4]);
        if changed {
            assert!(game.gen_new_tiles());
            game.update_gameover();
        }
        for row in game.grid() {
            for &v in row {
                assert!(v == 0 || is_power_of_two(v));
            }
        }
    }
}

#[test]
fn spawn_adds_exactly_one_seed_tile() {
    let mut game = MyGame::from_rows(vec![
        vec![0, 0, 0, 0],
        vec![0, 0, 0, 0],
        vec![0, 0, 0, 0],
        vec![0, 0, 0, 0],
    ]);
    assert!(game.gen_new_tiles());
    assert_eq!(count_tiles(&game), 1);
    assert!(game.gen_new_tiles());
    assert_eq!(count_tiles(&game), 2);
    for row in game.grid() {
        for &v in row {
            assert!(v == 0 || v == 2);
        }
    }
}
