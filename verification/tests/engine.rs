use tetris::selector::PieceSelector;
use tetris::tetrimino::{PieceKind, Tetrimino};
use tetris::tetris::{is_time_over, Tetris};

#[test]
fn i_piece_drops_to_floor_and_locks() {
    let mut game = Tetris::new();
    let mut piece = Tetrimino::new(PieceKind::I);
    assert!(piece.test_current_position(&game.game_map));
    let mut y: usize = 0;
    while piece.change_position(&game.game_map, 4, y + 1) {
        y += 1;
    }
    assert_eq!(y, 12);
    assert_eq!(piece.y, 12);
    assert!(!piece.change_position(&game.game_map, 4, 13));
    game.current_tetrimino = Some(piece);
    game.make_permanent();
    assert!(game.current_tetrimino.is_none());
    for (ry, row) in game.game_map.iter().enumerate() {
        for (rx, &cell) in row.iter().enumerate() {
            let expected = if ry == 15 && (4..8).contains(&rx) { 1 } else { 0 };
            assert_eq!(cell, expected);
        }
    }
    assert_eq!(game.score, 1);
    assert_eq!(game.number_of_lines, 0);
    assert_eq!(game.current_level, 1);
}

#[test]
fn filling_the_gap_clears_the_row() {
    let mut game = Tetris::new();
    for x in 0..10 {
        if !(4..8).contains(&x) {
            game.game_map[15][x] = 2;
        }
    }
    let mut piece = Tetrimino::new(PieceKind::I);
    while piece.change_position(&game.game_map, 4, piece.y + 1) {}
    assert_eq!(piece.y, 12);
    game.current_tetrimino = Some(piece);
    game.make_permanent();
    assert_eq!(game.number_of_lines, 1);
    assert_eq!(game.score, 2);
    assert_eq!(game.game_map.len(), 16);
    for row in &game.game_map {
        assert_eq!(row.len(), 10);
        for &cell in row {
            assert_eq!(cell, 0);
        }
    }
}

#[test]
fn locking_without_a_piece_changes_nothing() {
    let mut game = Tetris::new();
    game.make_permanent();
    assert_eq!(game.score, 0);
    assert_eq!(game.number_of_lines, 0);
    assert_eq!(game.current_level, 1);
    assert!(game.current_tetrimino.is_none());
}

#[test]
fn test_position_bounds_and_collisions() {
    let mut game = Tetris::new();
    let piece = Tetrimino::new(PieceKind::O);
    assert!(piece.test_position(&game.game_map, 0, 0, 0));
    assert!(!piece.test_position(&game.game_map, 0, -1, 0));
    assert!(piece.test_position(&game.game_map, 0, 8, 0));
    assert!(!piece.test_position(&game.game_map, 0, 9, 0));
    assert!(piece.test_position(&game.game_map, 0, 0, 14));
    assert!(!piece.test_position(&game.game_map, 0, 0, 15));
    game.game_map[5][5] = 3;
    assert!(!piece.test_position(&game.game_map, 0, 4, 4));
    assert!(piece.test_position(&game.game_map, 0, 6, 4));
}

#[test]
fn rotation_on_open_board() {
    let game = Tetris::new();
    let mut piece = Tetrimino::new(PieceKind::I);
    assert!(piece.rotate(&game.game_map));
    assert_eq!(piece.current_state, 1);
    assert_eq!(piece.x, 4);
    assert!(piece.rotate(&game.game_map));
    assert_eq!(piece.current_state, 0);
    assert!(piece.test_current_position(&game.game_map));
}

#[test]
fn rotation_kicks_off_the_right_wall() {
    let game = Tetris::new();
    let mut piece = Tetrimino::new(PieceKind::I);
    assert!(piece.rotate(&game.game_map));
    assert!(piece.change_position(&game.game_map, 8, 0));
    assert!(piece.rotate(&game.game_map));
    assert_eq!(piece.current_state, 0);
    assert_eq!(piece.x, 6);
    assert!(piece.test_current_position(&game.game_map));
}

#[test]
fn twenty_lines_reach_level_two() {
    let mut game = Tetris::new();
    for _ in 0..5 {
        for y in 12..16 {
            for x in 0..10 {
                if x != 4 {
                    game.game_map[y][x] = 2;
                }
            }
        }
        let mut piece = Tetrimino::new(PieceKind::I);
        assert!(piece.rotate(&game.game_map));
        assert!(piece.change_position(&game.game_map, 3, 0));
        while piece.change_position(&game.game_map, 3, piece.y + 1) {}
        assert_eq!(piece.y, 12);
        game.current_tetrimino = Some(piece);
        game.make_permanent();
    }
    assert_eq!(game.number_of_lines, 20);
    assert_eq!(game.current_level, 2);
    assert_eq!(game.score, 25);
}

#[test]
fn selector_policy() {
    assert_eq!(PieceSelector::select(7, 3, 3), 3);
    assert_eq!(PieceSelector::select(3, 3, 5), 5);
    assert_eq!(PieceSelector::select(3, 5, 3), 5);
    assert_eq!(PieceSelector::select(2, 2, 2), 2);
}

#[test]
fn selector_draws_valid_kinds() {
    let mut selector = PieceSelector::new();
    assert_eq!(selector.prev, 7);
    for _ in 0..50 {
        let kind = selector.next();
        let index = match kind {
            PieceKind::I => 0,
            PieceKind::L => 1,
            PieceKind::J => 2,
            PieceKind::O => 3,
            PieceKind::S => 4,
            PieceKind::Z => 5,
            PieceKind::T => 6,
        };
        assert!(index < 7);
        assert_eq!(selector.prev, index);
    }
}

#[test]
fn created_piece_spawns_at_anchor() {
    let mut game = Tetris::new();
    let piece = game.create_new_tetrimino();
    assert_eq!(piece.x, 4);
    assert_eq!(piece.y, 0);
    assert_eq!(piece.current_state, 0);
    assert!(!piece.states.is_empty());
    assert!(game.selector.prev < 7);
    assert!(piece.test_current_position(&game.game_map));
    assert_eq!(game.score, 0);
}

#[test]
fn gravity_interval_by_level() {
    let game = Tetris::new();
    assert!(!is_time_over(&game, 1000));
    assert!(is_time_over(&game, 1001));
}
