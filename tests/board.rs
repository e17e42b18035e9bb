use connect_server::game::{
    check_win, create_game_board, redact_for_viewer, Cell, GameState, PlayError, BOARD_HEIGHT, BOARD_WIDTH,
};

fn game_for(players: &[&str]) -> GameState {
    GameState {
        board: create_game_board(BOARD_WIDTH, BOARD_HEIGHT),
        turn_index: 0,
        player_turn_order: players.iter().map(|p| p.to_string()).collect(),
    }
}

#[test]
fn new_board_is_empty_with_given_size() {
    let board = create_game_board(7, 6);
    assert_eq!(board.len(), 7);
    for col in &board {
        assert_eq!(col.len(), 6);
        assert!(col.iter().all(|c| *c == Cell::Empty));
    }
    assert!(create_game_board(0, 3).is_empty());
}

#[test]
fn play_fills_column_from_bottom() {
    let mut g = game_for(&["A", "B"]);
    assert_eq!(g.play(2, 0), Ok(false));
    assert_eq!(g.board[2][0], Cell::Owned(0));
    assert_eq!(g.play(2, 1), Ok(false));
    assert_eq!(g.board[2][1], Cell::Owned(1));
    assert_eq!(g.board[2][0], Cell::Owned(0));
    assert_eq!(g.board[2][2], Cell::Empty);
}

#[test]
fn column_takes_exactly_its_height() {
    let mut g = game_for(&["A", "B", "C"]);
    for k in 0..BOARD_HEIGHT {
        assert!(g.play(4, k % 3).is_ok(), "play {} should succeed", k);
    }
    let before = g.board.clone();
    let turn = g.turn_index;
    assert_eq!(g.play(4, 0), Err(PlayError::ColumnFull));
    assert_eq!(g.play(4, 1), Err(PlayError::ColumnFull));
    assert_eq!(g.board, before);
    assert_eq!(g.turn_index, turn);
}

#[test]
fn missing_column_is_full() {
    let mut g = game_for(&["A", "B"]);
    assert_eq!(g.play(BOARD_WIDTH, 0), Err(PlayError::ColumnFull));
    assert_eq!(g.play(usize::MAX, 1), Err(PlayError::ColumnFull));
    assert_eq!(g.turn_index, 0);
}

#[test]
fn turn_index_counts_plays_mod_players() {
    let mut g = game_for(&["A", "B", "C"]);
    for n in 1..=10usize {
        g.play(n % BOARD_WIDTH, 0).unwrap();
        assert_eq!(g.turn_index, n % 3);
    }
}

#[test]
fn horizontal_four_wins_and_three_does_not() {
    let mut board = create_game_board(7, 6);
    board[0][0] = Cell::Owned(0);
    board[0][1] = Cell::Owned(0);
    board[0][2] = Cell::Owned(0);
    board[1][0] = Cell::Owned(0);
    board[2][0] = Cell::Owned(0);
    assert!(!check_win(&board, 0, 2, 0, 4));
    board[3][0] = Cell::Owned(0);
    assert!(check_win(&board, 0, 3, 0, 4));
    assert!(check_win(&board, 0, 1, 0, 4));
}

#[test]
fn vertical_and_diagonal_runs_win() {
    let mut board = create_game_board(7, 6);
    for r in 0..4 {
        board[5][r] = Cell::Owned(1);
    }
    assert!(check_win(&board, 3, 5, 1, 4));
    assert!(!check_win(&board, 3, 5, 0, 4));
    let mut diag = create_game_board(7, 6);
    for k in 0..4 {
        diag[k][k] = Cell::Owned(0);
    }
    assert!(check_win(&diag, 2, 2, 0, 4));
    let mut anti = create_game_board(7, 6);
    for k in 0..4 {
        anti[k][3 - k] = Cell::Owned(1);
    }
    assert!(check_win(&anti, 0, 3, 1, 4));
    anti[1][2] = Cell::Owned(0);
    assert!(!check_win(&anti, 0, 3, 1, 4));
}

#[test]
fn game_play_reports_win() {
    let mut g = game_for(&["A", "B"]);
    for c in 0..3 {
        assert_eq!(g.play(c, 0), Ok(false));
        assert_eq!(g.play(c, 1), Ok(false));
    }
    assert_eq!(g.play(3, 0), Ok(true));
}

#[test]
fn redaction_shows_only_own_tokens() {
    let order = vec!["A".to_string(), "B".to_string()];
    let mut board = create_game_board(3, 2);
    board[0][0] = Cell::Owned(0);
    board[1][0] = Cell::Owned(1);
    board[2][0] = Cell::Owned(7);
    let for_b = redact_for_viewer(&board, &order, Some("B"));
    assert_eq!(for_b[0][0], Cell::Unknown);
    assert_eq!(for_b[1][0], Cell::Owned(1));
    assert_eq!(for_b[2][0], Cell::Unknown);
    assert_eq!(for_b[0][1], Cell::Unknown);
    for col in &for_b {
        assert!(col.iter().all(|c| *c == Cell::Unknown || *c == Cell::Owned(1)));
    }
    let again = redact_for_viewer(&for_b, &order, Some("B"));
    assert_eq!(again, for_b);
    let stranger = redact_for_viewer(&board, &order, Some("Z"));
    assert!(stranger.iter().all(|col| col.iter().all(|c| *c == Cell::Unknown)));
    assert_eq!(redact_for_viewer(&board, &order, None), board);
}

#[test]
fn shared_game_data_redacts_per_viewer() {
    let mut g = game_for(&["A", "B"]);
    g.play(0, 0).unwrap();
    let for_a = g.as_shared_game_data(Some("A"));
    assert_eq!(for_a.turn_index, 1);
    assert_eq!(for_a.player_order, vec!["A".to_string(), "B".to_string()]);
    assert_eq!(for_a.play_indexes[0][0], Cell::Owned(0));
    let for_b = g.as_shared_game_data(Some("B"));
    assert_eq!(for_b.play_indexes[0][0], Cell::Unknown);
    let raw = g.as_shared_game_data(None);
    assert_eq!(raw.play_indexes, g.board);
}

#[test]
fn turn_player_and_player_index() {
    let mut g = game_for(&["A", "B", "C"]);
    assert_eq!(g.get_turn_player(), "A");
    g.play(0, 0).unwrap();
    assert_eq!(g.get_turn_player(), "B");
    assert_eq!(g.get_player_index("C"), Some(2));
    assert_eq!(g.get_player_index("Q"), None);
}

#[test]
fn win_ignores_cells_off_the_four_lines() {
    let mut board = create_game_board(7, 6);
    for c in 0..3 {
        board[c][0] = Cell::Owned(0);
    }
    board[3][0] = Cell::Owned(0);
    let won = check_win(&board, 0, 3, 0, 4);
    board[5][1] = Cell::Owned(0);
    board[1][2] = Cell::Owned(1);
    assert_eq!(check_win(&board, 0, 3, 0, 4), won);
    assert!(won);
}
