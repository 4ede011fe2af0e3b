use tictactoe::engine::{Game, GameError, Outcome, Player};

fn fresh_game() -> Game {
    let ann = Player { name: String::from("Ann") };
    let bob = Player { name: String::from("Bob") };
    Game::new('X', 'O', &ann, &bob)
}

fn snapshot(g: &Game) -> Vec<char> {
    let mut cells = Vec::new();
    for row in 0..3 {
        for col in 0..3 {
            cells.push(g.cell(row, col));
        }
    }
    cells
}

#[test]
fn new_game_is_empty_and_player1_starts() {
    let g = fresh_game();
    for row in 0..3 {
        for col in 0..3 {
            assert_eq!(g.cell(row, col), ' ');
        }
    }
    assert_eq!(g.current_marker(), 'X');
    assert_eq!(g.current_player_name(), "Ann");
    assert_eq!(g.last_player_name(), "Bob");
    assert!(matches!(g.evaluate_outcome(), Outcome::InProgress));
}

#[test]
fn switch_player_alternates() {
    let mut g = fresh_game();
    g.switch_player();
    assert_eq!(g.current_marker(), 'O');
    assert_eq!(g.current_player_name(), "Bob");
    g.switch_player();
    assert_eq!(g.current_marker(), 'X');
}

#[test]
fn identity_for_maps_markers_to_names() {
    let g = fresh_game();
    assert_eq!(g.identity_for('X'), "Ann");
    assert_eq!(g.identity_for('O'), "Bob");
}

#[test]
fn set_players_replaces_names_and_markers() {
    let mut g = fresh_game();
    let cara = Player { name: String::from("Cara") };
    let dan = Player { name: String::from("Dan") };
    g.set_players('#', '+', &cara, &dan);
    assert_eq!(g.current_marker(), '#');
    assert_eq!(g.current_player_name(), "Cara");
    assert_eq!(g.identity_for('+'), "Dan");
}

#[test]
fn make_move_marks_the_cell() {
    let mut g = fresh_game();
    assert!(g.make_move(1, 2).is_ok());
    assert_eq!(g.cell(1, 2), 'X');
    g.switch_player();
    assert!(g.make_move(0, 0).is_ok());
    assert_eq!(g.cell(0, 0), 'O');
}

#[test]
fn occupied_cell_is_refused_and_board_unchanged() {
    let mut g = fresh_game();
    assert!(g.make_move(1, 1).is_ok());
    let before = snapshot(&g);
    let r = g.make_move(1, 1);
    assert!(matches!(r, Err(GameError::IllegalMove)));
    assert_eq!(snapshot(&g), before);
    assert_eq!(g.current_marker(), 'X');
}

#[test]
fn out_of_range_move_is_refused_and_board_unchanged() {
    let mut g = fresh_game();
    let before = snapshot(&g);
    assert!(matches!(g.make_move(3, 0), Err(GameError::IllegalMove)));
    assert!(matches!(g.make_move(0, 3), Err(GameError::IllegalMove)));
    assert!(matches!(g.make_move(7, 9), Err(GameError::IllegalMove)));
    assert_eq!(snapshot(&g), before);
}

#[test]
fn no_moves_after_a_win() {
    let mut g = fresh_game();
    // X takes the top row; O plays elsewhere.
    assert!(g.make_move(0, 0).is_ok());
    g.switch_player();
    assert!(g.make_move(1, 0).is_ok());
    g.switch_player();
    assert!(g.make_move(0, 1).is_ok());
    g.switch_player();
    assert!(g.make_move(1, 1).is_ok());
    g.switch_player();
    assert!(g.make_move(0, 2).is_ok());
    assert!(matches!(g.evaluate_outcome(), Outcome::Winner('X')));
    let before = snapshot(&g);
    assert!(matches!(g.make_move(2, 2), Err(GameError::IllegalMove)));
    assert_eq!(snapshot(&g), before);
}

#[test]
fn scenario_diagonal_win_exactly_on_third_x_move() {
    let mut g = fresh_game();
    // X plays (0,0), (1,1), (2,2); O never completes a line.
    assert!(g.make_move(0, 0).is_ok());
    assert!(matches!(g.evaluate_outcome(), Outcome::InProgress));
    g.switch_player();
    assert!(g.make_move(1, 0).is_ok());
    assert!(matches!(g.evaluate_outcome(), Outcome::InProgress));
    g.switch_player();
    assert!(g.make_move(1, 1).is_ok());
    assert!(matches!(g.evaluate_outcome(), Outcome::InProgress));
    g.switch_player();
    assert!(g.make_move(2, 0).is_ok());
    assert!(matches!(g.evaluate_outcome(), Outcome::InProgress));
    g.switch_player();
    assert!(g.make_move(2, 2).is_ok());
    assert!(matches!(g.evaluate_outcome(), Outcome::Winner('X')));
    assert!(matches!(g.check_winner(), Some('X')));
}

#[test]
fn scenario_full_board_without_line_is_drawn() {
    let mut g = fresh_game();
    // Final board:  X X O / O O X / X O X  — no three in a row.
    let moves = [
        (0, 0), // X
        (0, 2), // O
        (0, 1), // X
        (1, 0), // O
        (1, 2), // X
        (1, 1), // O
        (2, 0), // X
        (2, 1), // O
        (2, 2), // X
    ];
    for (i, &(row, col)) in moves.iter().enumerate() {
        assert!(g.make_move(row, col).is_ok());
        if i + 1 < moves.len() {
            assert!(matches!(g.evaluate_outcome(), Outcome::InProgress));
            g.switch_player();
        }
    }
    assert!(g.board_full_check());
    assert!(g.check_winner().is_none());
    assert!(matches!(g.evaluate_outcome(), Outcome::Drawn));
}

#[test]
fn fewer_than_five_marks_is_always_in_progress() {
    let mut g = fresh_game();
    assert!(g.make_move(0, 0).is_ok());
    g.switch_player();
    assert!(g.make_move(2, 2).is_ok());
    g.switch_player();
    assert!(g.make_move(0, 1).is_ok());
    g.switch_player();
    assert!(g.make_move(2, 1).is_ok());
    // Four marks on the board: the match cannot be over yet.
    assert!(matches!(g.evaluate_outcome(), Outcome::InProgress));
    assert!(g.check_winner().is_none());
    assert!(!g.board_full_check());
}

#[test]
fn column_and_row_wins_name_the_right_marker() {
    // O completes the middle column.
    let mut g = fresh_game();
    assert!(g.make_move(0, 0).is_ok());
    g.switch_player();
    assert!(g.make_move(0, 1).is_ok());
    g.switch_player();
    assert!(g.make_move(1, 0).is_ok());
    g.switch_player();
    assert!(g.make_move(1, 1).is_ok());
    g.switch_player();
    assert!(g.make_move(2, 2).is_ok());
    g.switch_player();
    assert!(g.make_move(2, 1).is_ok());
    assert!(matches!(g.evaluate_outcome(), Outcome::Winner('O')));
    // After the winning move the turn has not switched back: the
    // winner is still the current player.
    assert_eq!(g.current_player_name(), "Bob");
    assert_eq!(g.identity_for('O'), "Bob");
}
