use tabua::board::grid::{Grid, GridBuilder, GridExt};
use tabua::tictactoe::error::Error;
use tabua::tictactoe::{
    Action, CellState, EndGameState, PlayerId, Position, TicTacToeEngine, TicTacToeState,
};

fn empty_board() -> Grid<CellState> {
    GridBuilder::new_square_grid()
        .with_rows(3)
        .with_columns(3)
        .with_initial_value(CellState::Empty)
        .build()
}

#[test]
fn get_initial_state() {
    let engine = TicTacToeEngine::new(TicTacToeState::default());
    let current_state = engine.public_state();
    println!("{current_state:?}");

    assert_eq!(current_state, &TicTacToeState::default());
}

#[test]
fn one_move() {
    let mut engine = TicTacToeEngine::new(TicTacToeState::default());
    engine
        .apply_action(Action::MarkBoard {
            player_id: PlayerId::Cross,
            pos: Position::new(0, 0),
        })
        .unwrap();

    let new_state = engine.public_state();

    let expected = {
        let mut board = empty_board();
        *board.get_mut(&(0, 0)).unwrap() = CellState::Cross;
        TicTacToeState::from_parts(board, 3, PlayerId::Circle)
    };

    println!("{new_state:?}");
    assert_eq!(new_state, &expected);
}

#[test]
fn two_moves() {
    let mut engine = TicTacToeEngine::new(TicTacToeState::default());
    engine
        .apply_action(Action::MarkBoard {
            player_id: PlayerId::Cross,
            pos: Position::new(0, 0),
        })
        .unwrap();
    engine
        .apply_action(Action::MarkBoard {
            player_id: PlayerId::Circle,
            pos: Position::new(1, 0),
        })
        .unwrap();

    let new_state = engine.public_state();

    let expected = {
        let mut board = empty_board();
        *board.get_mut(&(0, 0)).unwrap() = CellState::Cross;
        *board.get_mut(&(1, 0)).unwrap() = CellState::Circle;
        TicTacToeState::from_parts(board, 3, PlayerId::Cross)
    };

    println!("{new_state:?}");
    assert_eq!(new_state, &expected);
}

#[test]
fn invalid_move() {
    let mut engine = TicTacToeEngine::new(TicTacToeState::default());
    engine
        .apply_action(Action::MarkBoard {
            player_id: PlayerId::Cross,
            pos: Position::new(0, 0),
        })
        .unwrap();

    assert!(engine
        .apply_action(Action::MarkBoard {
            player_id: PlayerId::Circle,
            pos: Position::new(0, 0),
        })
        .is_err())
}

#[test]
fn wrong_player() {
    let mut engine = TicTacToeEngine::new(TicTacToeState::default());
    assert!(engine
        .apply_action(Action::MarkBoard {
            player_id: PlayerId::Circle,
            pos: Position::new(0, 0),
        })
        .is_err());
}

#[test]
fn game_not_over() {
    let engine = TicTacToeEngine::new(TicTacToeState::default());
    assert_eq!(engine.results(), EndGameState::GameNotOver);
}

#[test]
fn player_cross_victory_row() {
    let engine = TicTacToeEngine::new(TicTacToeState::default());
    assert_eq!(engine.results(), EndGameState::GameNotOver);
    let board = Grid::new_square_grid(vec![
        vec![CellState::Cross, CellState::Cross, CellState::Cross],
        vec![CellState::Empty, CellState::Empty, CellState::Empty],
        vec![CellState::Empty, CellState::Empty, CellState::Empty],
    ]);
    let engine = TicTacToeEngine::new(TicTacToeState::from_parts(board, 3, PlayerId::Cross));
    assert_eq!(engine.results(), EndGameState::Winner(PlayerId::Cross));
}

#[test]
fn player_cross_victory_column() {
    let engine = TicTacToeEngine::new(TicTacToeState::default());
    assert_eq!(engine.results(), EndGameState::GameNotOver);
    let board = Grid::new_square_grid(vec![
        vec![CellState::Cross, CellState::Empty, CellState::Empty],
        vec![CellState::Cross, CellState::Empty, CellState::Empty],
        vec![CellState::Cross, CellState::Empty, CellState::Empty],
    ]);
    let engine = TicTacToeEngine::new(TicTacToeState::from_parts(board, 3, PlayerId::Cross));
    assert_eq!(engine.results(), EndGameState::Winner(PlayerId::Cross));
}

#[test]
fn player_cross_victory_diagonal() {
    let engine = TicTacToeEngine::new(TicTacToeState::default());
    assert_eq!(engine.results(), EndGameState::GameNotOver);
    let board = Grid::new_square_grid(vec![
        vec![CellState::Cross, CellState::Empty, CellState::Empty],
        vec![CellState::Empty, CellState::Cross, CellState::Empty],
        vec![CellState::Empty, CellState::Empty, CellState::Cross],
    ]);
    let engine = TicTacToeEngine::new(TicTacToeState::from_parts(board, 3, PlayerId::Cross));
    assert_eq!(engine.results(), EndGameState::Winner(PlayerId::Cross));
}

#[test]
fn player_circle_victory_row() {
    let engine = TicTacToeEngine::new(TicTacToeState::default());
    assert_eq!(engine.results(), EndGameState::GameNotOver);
    let board = Grid::new_square_grid(vec![
        vec![CellState::Empty, CellState::Empty, CellState::Empty],
        vec![CellState::Circle, CellState::Circle, CellState::Circle],
        vec![CellState::Empty, CellState::Empty, CellState::Empty],
    ]);
    let engine = TicTacToeEngine::new(TicTacToeState::from_parts(board, 3, PlayerId::Cross));
    assert_eq!(engine.results(), EndGameState::Winner(PlayerId::Circle));
}

#[test]
fn player_circle_victory_column() {
    let engine = TicTacToeEngine::new(TicTacToeState::default());
    assert_eq!(engine.results(), EndGameState::GameNotOver);
    let board = Grid::new_square_grid(vec![
        vec![CellState::Empty, CellState::Circle, CellState::Empty],
        vec![CellState::Empty, CellState::Circle, CellState::Empty],
        vec![CellState::Empty, CellState::Circle, CellState::Empty],
    ]);
    let engine = TicTacToeEngine::new(TicTacToeState::from_parts(board, 3, PlayerId::Cross));
    assert_eq!(engine.results(), EndGameState::Winner(PlayerId::Circle));
}

#[test]
fn player_circle_victory_diagonal() {
    let engine = TicTacToeEngine::new(TicTacToeState::default());
    assert_eq!(engine.results(), EndGameState::GameNotOver);
    let board = Grid::new_square_grid(vec![
        vec![CellState::Empty, CellState::Empty, CellState::Circle],
        vec![CellState::Empty, CellState::Circle, CellState::Empty],
        vec![CellState::Circle, CellState::Empty, CellState::Empty],
    ]);
    let engine = TicTacToeEngine::new(TicTacToeState::from_parts(board, 3, PlayerId::Cross));
    assert_eq!(engine.results(), EndGameState::Winner(PlayerId::Circle));
}

#[test]
fn no_moves_available() {
    let engine = TicTacToeEngine::new(TicTacToeState::default());
    assert_eq!(engine.results(), EndGameState::GameNotOver);
    let board = Grid::new_square_grid(vec![
        vec![CellState::Circle, CellState::Cross, CellState::Circle],
        vec![CellState::Cross, CellState::Cross, CellState::Circle],
        vec![CellState::Circle, CellState::Circle, CellState::Cross],
    ]);
    let mut engine = TicTacToeEngine::new(TicTacToeState::from_parts(board, 3, PlayerId::Cross));
    let action = Action::MarkBoard {
        player_id: PlayerId::Circle,
        pos: Position::new(0, 0),
    };
    assert!(engine.validate_action(&action).is_err());
    assert!(engine.apply_action(action).is_err());
    assert_eq!(engine.results(), EndGameState::Tie);
}

#[test]
fn new_state_rejects_an_oversized_sequence() {
    let err = TicTacToeState::new(3, 4).unwrap_err();
    assert_eq!(err, Error::InvalidGameCondition);
    assert!(TicTacToeState::new(3, 3).is_ok());
}

#[test]
fn state_accessors_report_the_configuration() {
    let state = TicTacToeState::new(4, 3).unwrap();
    assert_eq!(state.board().row_len(), 4);
    assert_eq!(state.board().column_len(), 4);
    assert_eq!(state.required_sequence_length(), 3);
    assert_eq!(state.current_player(), PlayerId::Cross);
    assert!(engine_has_empty(&state));
}

fn engine_has_empty(state: &TicTacToeState) -> bool {
    TicTacToeEngine::new(state.clone()).has_empty_cell()
}

#[test]
fn out_of_bounds_move_is_an_illegal_target() {
    let engine = TicTacToeEngine::new(TicTacToeState::default());
    let action = Action::MarkBoard {
        player_id: PlayerId::Cross,
        pos: Position::new(3, 0),
    };
    assert_eq!(engine.validate_action(&action), Err(Error::CellAlreadyMarked));
}

#[test]
fn occupied_cell_is_an_illegal_target() {
    let mut engine = TicTacToeEngine::new(TicTacToeState::default());
    engine
        .apply_action(Action::MarkBoard {
            player_id: PlayerId::Cross,
            pos: Position::new(1, 1),
        })
        .unwrap();
    engine
        .apply_action(Action::MarkBoard {
            player_id: PlayerId::Circle,
            pos: Position::new(0, 0),
        })
        .unwrap();
    let action = Action::MarkBoard {
        player_id: PlayerId::Cross,
        pos: Position::new(1, 1),
    };
    assert_eq!(engine.validate_action(&action), Err(Error::CellAlreadyMarked));
}

#[test]
fn out_of_turn_move_is_rejected() {
    let engine = TicTacToeEngine::new(TicTacToeState::default());
    let action = Action::MarkBoard {
        player_id: PlayerId::Circle,
        pos: Position::new(0, 0),
    };
    assert_eq!(engine.validate_action(&action), Err(Error::NotPlayerTurn));
}

#[test]
fn concluded_game_rejects_further_moves() {
    let board = Grid::new_square_grid(vec![
        vec![CellState::Cross, CellState::Cross, CellState::Cross],
        vec![CellState::Empty, CellState::Empty, CellState::Empty],
        vec![CellState::Empty, CellState::Empty, CellState::Empty],
    ]);
    let engine = TicTacToeEngine::new(TicTacToeState::from_parts(board, 3, PlayerId::Cross));
    let action = Action::MarkBoard {
        player_id: PlayerId::Cross,
        pos: Position::new(1, 0),
    };
    assert_eq!(engine.validate_action(&action), Err(Error::GameOver));
}

#[test]
fn applied_action_cannot_be_applied_twice() {
    let mut engine = TicTacToeEngine::new(TicTacToeState::default());
    let action = Action::MarkBoard {
        player_id: PlayerId::Cross,
        pos: Position::new(2, 2),
    };
    engine.apply_action(action).unwrap();
    assert_eq!(engine.validate_action(&action), Err(Error::NotPlayerTurn));
    assert!(engine.apply_action(action).is_err());
}

#[test]
fn turns_alternate_strictly() {
    let mut engine = TicTacToeEngine::new(TicTacToeState::default());
    assert_eq!(engine.current_players(), PlayerId::Cross);
    engine
        .apply_action(Action::MarkBoard {
            player_id: PlayerId::Cross,
            pos: Position::new(0, 0),
        })
        .unwrap();
    assert_eq!(engine.current_players(), PlayerId::Circle);
    engine
        .apply_action(Action::MarkBoard {
            player_id: PlayerId::Circle,
            pos: Position::new(0, 1),
        })
        .unwrap();
    assert_eq!(engine.current_players(), PlayerId::Cross);
}

#[test]
fn results_are_stable_without_moves() {
    let board = Grid::new_square_grid(vec![
        vec![CellState::Cross, CellState::Cross, CellState::Cross],
        vec![CellState::Circle, CellState::Circle, CellState::Empty],
        vec![CellState::Empty, CellState::Empty, CellState::Empty],
    ]);
    let engine = TicTacToeEngine::new(TicTacToeState::from_parts(board, 3, PlayerId::Circle));
    let first = engine.results();
    let second = engine.results();
    assert_eq!(first, EndGameState::Winner(PlayerId::Cross));
    assert_eq!(first, second);
}

#[test]
fn anti_diagonal_from_the_top_row_wins() {
    let board = Grid::new_square_grid(vec![
        vec![CellState::Empty, CellState::Empty, CellState::Empty, CellState::Cross],
        vec![CellState::Empty, CellState::Empty, CellState::Cross, CellState::Empty],
        vec![CellState::Empty, CellState::Cross, CellState::Empty, CellState::Empty],
        vec![CellState::Empty, CellState::Empty, CellState::Empty, CellState::Empty],
    ]);
    let engine = TicTacToeEngine::new(TicTacToeState::from_parts(board, 3, PlayerId::Cross));
    assert_eq!(engine.results(), EndGameState::Winner(PlayerId::Cross));
}

#[test]
fn private_state_is_empty() {
    let engine = TicTacToeEngine::new(TicTacToeState::default());
    assert!(engine.private_state(&PlayerId::Cross).is_empty());
}
