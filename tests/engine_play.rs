use tictactoe::board::{BoardPos, Cell, Engine, GameStatus};

fn engine_from(rows: [&str; 3], is_x_turn: bool) -> Engine {
    let mut board = [[Cell::Empty; 3]; 3];
    for (y, row) in rows.iter().enumerate() {
        for (x, ch) in row.chars().enumerate() {
            board[y][x] = match ch {
                'x' => Cell::X,
                'o' => Cell::O,
                _ => Cell::Empty,
            };
        }
    }
    Engine { board, is_x_turn }
}

fn same_game(a: &Engine, b: &Engine) -> bool {
    a.board == b.board && a.is_x_turn == b.is_x_turn
}

#[test]
fn new_engine_is_empty_with_x_to_move() {
    let e = Engine::new();
    assert!(e.is_x_turn);
    for y in 0..3u8 {
        for x in 0..3u8 {
            assert_eq!(e.cell(x, y), Cell::Empty);
        }
    }
    assert_eq!(e.get_game_status(), GameStatus::NotOver);
    assert!(!e.is_game_over());
}

#[test]
fn make_move_places_mark_and_passes_turn() {
    let mut e = Engine::new();
    assert!(e.make_move(&BoardPos { x: 2, y: 0 }));
    assert_eq!(e.board[0][2], Cell::X);
    assert!(!e.is_x_turn);
    assert!(e.make_move(&BoardPos { x: 0, y: 1 }));
    assert_eq!(e.board[1][0], Cell::O);
    assert!(e.is_x_turn);
}

#[test]
fn make_move_on_occupied_cell_fails_without_change() {
    let mut e = engine_from(["x  ", "   ", "   "], false);
    let before = engine_from(["x  ", "   ", "   "], false);
    assert!(!e.make_move(&BoardPos { x: 0, y: 0 }));
    assert!(same_game(&e, &before));
}

#[test]
fn make_move_out_of_range_fails_without_change() {
    let mut e = Engine::new();
    assert!(!e.make_move(&BoardPos { x: 3, y: 0 }));
    assert!(!e.make_move(&BoardPos { x: 0, y: 3 }));
    assert!(!e.make_move(&BoardPos { x: 255, y: 255 }));
    assert!(same_game(&e, &Engine::new()));
}

#[test]
fn move_then_undo_restores_game() {
    let mut e = engine_from(["xo ", " x ", "o  "], false);
    let before = engine_from(["xo ", " x ", "o  "], false);
    let pos = BoardPos { x: 2, y: 2 };
    assert!(e.make_move(&pos));
    assert_eq!(e.board[2][2], Cell::O);
    e.undo_move(&pos);
    assert!(same_game(&e, &before));
}

#[test]
fn positions_in_row_major_order() {
    let e = engine_from(["x o", " x ", "o  "], true);
    let got: Vec<(u8, u8)> = e.get_positions().iter().map(|p| (p.x, p.y)).collect();
    assert_eq!(got, vec![(1, 0), (0, 1), (2, 1), (1, 2), (2, 2)]);
}

#[test]
fn positions_on_full_board_are_empty() {
    let e = engine_from(["xox", "xoo", "oxx"], true);
    assert!(e.get_positions().is_empty());
}

#[test]
fn status_row_column_and_diagonals() {
    assert_eq!(engine_from(["   ", "xxx", "oo "], false).get_game_status(), GameStatus::XWins);
    assert_eq!(engine_from(["xxo", "x o", "  o"], true).get_game_status(), GameStatus::OWins);
    assert_eq!(engine_from(["x o", " xo", "  x"], false).get_game_status(), GameStatus::XWins);
    assert_eq!(engine_from(["xxo", " o ", "ox "], true).get_game_status(), GameStatus::OWins);
}

#[test]
fn status_draw_and_running() {
    let draw = engine_from(["xox", "xoo", "oxx"], true);
    assert_eq!(draw.get_game_status(), GameStatus::CatsGame);
    assert!(draw.is_game_over());
    let running = engine_from(["xo ", "   ", "   "], true);
    assert_eq!(running.get_game_status(), GameStatus::NotOver);
    assert!(!running.is_game_over());
}

#[test]
fn status_first_complete_line_in_scan_order_decides() {
    // Not reachable in play: row 1 is O's and column 0 is X's; rows come first.
    assert_eq!(engine_from(["x  ", "ooo", "x  "], true).get_game_status(), GameStatus::OWins);
    assert_eq!(engine_from(["xxx", "o  ", "ooo"], true).get_game_status(), GameStatus::XWins);
}

#[test]
fn minimax_values() {
    let mut won = engine_from(["xxx", "oo ", "   "], false);
    assert_eq!(won.minimax(false), 1);
    let mut x_wins_next = engine_from(["xx ", "oo ", "   "], true);
    assert_eq!(x_wins_next.minimax(true), 1);
    assert!(same_game(&x_wins_next, &engine_from(["xx ", "oo ", "   "], true)));
    let mut o_wins_next = engine_from(["xx ", "oo ", "x  "], false);
    assert_eq!(o_wins_next.minimax(false), -1);
    let mut draw = engine_from(["xox", "xoo", "oxx"], true);
    assert_eq!(draw.minimax(true), 0);
}

#[test]
fn computer_completes_top_row() {
    let mut e = engine_from(["xx ", "oo ", "   "], true);
    let played = e.make_computer_move();
    assert_eq!(played, Some(BoardPos { x: 2, y: 0 }));
    assert_eq!(e.board[0][2], Cell::X);
    assert_eq!(e.get_game_status(), GameStatus::XWins);
}

#[test]
fn computer_takes_winning_column() {
    let mut e = engine_from(["   ", "xoo", "x  "], true);
    assert_eq!(e.make_computer_move(), Some(BoardPos { x: 0, y: 0 }));
    assert_eq!(e.get_game_status(), GameStatus::XWins);
}

#[test]
fn computer_blocks_threat() {
    let mut e = engine_from(["xo ", " o ", "  x"], true);
    assert_eq!(e.make_computer_move(), Some(BoardPos { x: 1, y: 2 }));
    assert_eq!(e.board[2][1], Cell::X);
}

#[test]
fn computer_as_o_blocks_threat() {
    let mut e = engine_from(["x o", " x ", "   "], false);
    assert_eq!(e.make_computer_move(), Some(BoardPos { x: 2, y: 2 }));
    assert_eq!(e.board[2][2], Cell::O);
    assert!(e.is_x_turn);
}

#[test]
fn computer_move_on_full_board_changes_nothing() {
    let mut e = engine_from(["xox", "xoo", "oxx"], true);
    assert_eq!(e.make_computer_move(), None);
    assert!(same_game(&e, &engine_from(["xox", "xoo", "oxx"], true)));
}

#[test]
fn computer_move_on_won_board_changes_nothing() {
    let mut e = engine_from(["xxx", "oo ", "   "], false);
    assert_eq!(e.make_computer_move(), None);
    assert!(same_game(&e, &engine_from(["xxx", "oo ", "   "], false)));
}

#[test]
fn optimal_play_from_empty_board_is_a_draw() {
    let mut e = Engine::new();
    let mut moves = 0;
    while !e.is_game_over() {
        assert!(e.make_computer_move().is_some());
        moves += 1;
    }
    assert_eq!(moves, 9);
    assert_eq!(e.get_game_status(), GameStatus::CatsGame);
}

#[test]
fn computer_prefers_earlier_forced_win_to_later_immediate_win() {
    // (2,2) wins at once, but (0,0) comes first in row-major order and also
    // wins under optimal play (it threatens (0,1) and (2,2) together).
    let mut e = engine_from([" o ", "  o", "xx "], true);
    assert_eq!(e.make_computer_move(), Some(BoardPos { x: 0, y: 0 }));
    assert_eq!(e.get_game_status(), GameStatus::NotOver);
}
