//! Fixture moves in all four directions on one asymmetric board,
//! checking that each move returns the grid in its normal orientation
//! with the expected cells and score.

use twenty48::engine::{Direction, MyGame};

fn start_grid() -> Vec<Vec<u32>> {
    vec![
        vec![2, 2, 4, 0],
        vec![0, 2, 0, 2],
        vec![4, 0, 0, 4],
        vec![2, 0, 0, 0],
    ]
}

#[test]
fn move_up_fixture() {
    let mut game = MyGame::from_rows(start_grid());
    let changed = game.apply_move(Direction::Up);
    assert!(changed);
    assert_eq!(
        *game.grid(),
        vec![
            vec![4, 4, 0, 0],
            vec![4, 0, 0, 0],
            vec![8, 0, 0, 0],
            vec![2, 0, 0, 0],
        ]
    );
    assert_eq!(game.score(), 16);
}

#[test]
fn move_down_fixture() {
    let mut game = MyGame::from_rows(start_grid());
    let changed = game.apply_move(Direction::Down);
    assert!(changed);
    assert_eq!(
        *game.grid(),
        vec![
            vec![0, 0, 4, 4],
            vec![0, 0, 0, 4],
            vec![0, 0, 0, 8],
            vec![0, 0, 0, 2],
        ]
    );
    assert_eq!(game.score(), 16);
}

#[test]
fn move_left_fixture() {
    let mut game = MyGame::from_rows(start_grid());
    let changed = game.apply_move(Direction::Left);
    assert!(changed);
    assert_eq!(
        *game.grid(),
        vec![
            vec![2, 4, 4, 2],
            vec![4, 0, 0, 4],
            vec![2, 0, 0, 0],
            vec![0, 0, 0, 0],
        ]
    );
    assert_eq!(game.score(), 4);
}

#[test]
fn move_right_fixture() {
    let mut game = MyGame::from_rows(start_grid());
    let changed = game.apply_move(Direction::Right);
    assert!(changed);
    assert_eq!(
        *game.grid(),
        vec![
            vec![0, 0, 0, 0],
            vec![2, 0, 0, 0],
            vec![4, 0, 0, 2],
            vec![2, 4, 4, 4],
        ]
    );
    assert_eq!(game.score(), 4);
}

#[test]
fn moves_preserve_the_cell_sum() {
    for dir in [
        Direction::Up,
        Direction::Down,
        Direction::Left,
        Direction::Right,
    ] {
        let mut game = MyGame::from_rows(start_grid());
        let before: u32 = game.grid().iter().flatten().sum();
        game.apply_move(dir);
        let after: u32 = game.grid().iter().flatten().sum();
        assert_eq!(before, after);
    }
}
