use mu_torere::animation::{
    accept, animate_pieces, check_animation_complete, handle_move_events, is_any_piece_moving,
    is_piece_moving, Board, MoveEvent, MovingPiece, PROGRESS_COMPLETE,
};
use mu_torere::board::{is_node_empty, Piece};
use mu_torere::state::{
    GameMode, GameOverEvent, GameSettings, GameState, Notification, PieceColor, TurnChangeEvent,
};

fn board_with(white: [usize; 4], black: [usize; 4]) -> Board {
    let mut pieces = Vec::new();
    for node_index in white {
        pieces.push(Piece { color: PieceColor::White, node_index });
    }
    for node_index in black {
        pieces.push(Piece { color: PieceColor::Black, node_index });
    }
    Board { pieces, moving: vec![None; 8] }
}

fn animated() -> GameSettings {
    GameSettings { mode: GameMode::VsPlayer, instant_animation: false }
}

fn instant() -> GameSettings {
    GameSettings { mode: GameMode::VsPlayer, instant_animation: true }
}

fn occupied_nodes(board: &Board) -> Vec<usize> {
    let mut nodes: Vec<usize> = board.pieces.iter().map(|p| p.node_index).collect();
    nodes.sort();
    nodes
}

#[test]
fn reset_gives_initial_setup() {
    let mut board = Board::new();
    let mut state = GameState::default();
    let settings = animated();
    assert!(accept(&mut board, &state, &settings, &MoveEvent { piece_entity: 0, target_node: 8 }));
    state.current_turn = PieceColor::Black;
    state.game_over = true;
    state.winner = Some(PieceColor::Black);
    board.reset();
    state.reset();
    for i in 0..4 {
        assert_eq!(board.pieces[i], Piece { color: PieceColor::White, node_index: i });
    }
    for i in 4..8 {
        assert_eq!(board.pieces[i], Piece { color: PieceColor::Black, node_index: i });
    }
    assert!(is_node_empty(8, &board.pieces));
    assert!(!is_any_piece_moving(&board));
    assert_eq!(state.current_turn, PieceColor::White);
    assert!(!state.game_over);
    assert_eq!(state.winner, None);
}

#[test]
fn simple_rim_move_passes_turn_to_black() {
    let mut board = board_with([0, 1, 2, 3], [4, 5, 6, 8]);
    let mut state = GameState::default();
    let settings = animated();
    let wish = MoveEvent { piece_entity: 0, target_node: 7 };
    assert!(accept(&mut board, &state, &settings, &wish));
    // The piece stands on its target at once; the turn has not passed yet.
    assert_eq!(board.pieces[0].node_index, 7);
    assert_eq!(
        board.moving[0],
        Some(MovingPiece { start_node: 0, target_node: 7, progress: 0 })
    );
    assert_eq!(state.current_turn, PieceColor::White);
    assert!(check_animation_complete(&mut board, &mut state).is_empty());
    assert_eq!(state.current_turn, PieceColor::White);

    animate_pieces(&mut board, 100_000, &settings);
    assert_eq!(board.moving[0].unwrap().progress, 500_000);
    assert!(check_animation_complete(&mut board, &mut state).is_empty());

    animate_pieces(&mut board, 100_000, &settings);
    assert_eq!(board.moving[0].unwrap().progress, PROGRESS_COMPLETE);
    let notices = check_animation_complete(&mut board, &mut state);
    assert_eq!(
        notices,
        vec![Notification::TurnChange(TurnChangeEvent { new_turn: PieceColor::Black })]
    );
    assert_eq!(state.current_turn, PieceColor::Black);
    assert!(!state.game_over);
    assert_eq!(state.winner, None);
    assert!(!is_any_piece_moving(&board));
    assert!(is_node_empty(0, &board.pieces));
}

#[test]
fn stalemate_gives_white_the_win() {
    // White moves 0 -> 1; then 0 is free and fenced in by White.
    let mut board = board_with([0, 7, 8, 2], [3, 4, 5, 6]);
    let mut state = GameState::default();
    let settings = instant();
    assert!(accept(&mut board, &state, &settings, &MoveEvent { piece_entity: 0, target_node: 1 }));
    assert!(!state.game_over);
    let notices = check_animation_complete(&mut board, &mut state);
    assert_eq!(notices, vec![Notification::GameOver(GameOverEvent { winner: PieceColor::White })]);
    assert!(state.game_over);
    assert_eq!(state.winner, Some(PieceColor::White));
    assert_eq!(state.current_turn, PieceColor::White);
    // Nothing more is taken once the game is over.
    assert!(!accept(&mut board, &state, &settings, &MoveEvent { piece_entity: 1, target_node: 0 }));
    assert_eq!(board.pieces[1].node_index, 7);
}

#[test]
fn instant_mode_starts_complete_at_the_target() {
    let mut board = Board::new();
    let state = GameState::default();
    assert!(accept(&mut board, &state, &instant(), &MoveEvent { piece_entity: 3, target_node: 8 }));
    assert_eq!(
        board.moving[3],
        Some(MovingPiece { start_node: 8, target_node: 8, progress: PROGRESS_COMPLETE })
    );
    assert_eq!(board.pieces[3].node_index, 8);
}

#[test]
fn no_second_move_while_a_piece_is_in_flight() {
    let mut board = Board::new();
    let state = GameState::default();
    let settings = animated();
    assert!(accept(&mut board, &state, &settings, &MoveEvent { piece_entity: 0, target_node: 8 }));
    assert!(is_any_piece_moving(&board));
    assert!(is_piece_moving(0, &board));
    assert!(!is_piece_moving(1, &board));
    assert!(!is_piece_moving(99, &board));
    // Position 0 is free now and 1 is next to it, yet the wish is turned away.
    let before = board.pieces.clone();
    assert!(!accept(&mut board, &state, &settings, &MoveEvent { piece_entity: 1, target_node: 0 }));
    assert_eq!(board.pieces, before);
    // Also once the flight has arrived but is not recorded yet.
    animate_pieces(&mut board, 1_000_000, &settings);
    assert_eq!(board.moving[0].unwrap().progress, PROGRESS_COMPLETE);
    assert!(!accept(&mut board, &state, &settings, &MoveEvent { piece_entity: 1, target_node: 0 }));
    assert_eq!(board.pieces, before);
}

#[test]
fn only_first_acceptable_wish_of_a_batch_is_taken() {
    let mut board = Board::new();
    let state = GameState::default();
    let wishes = vec![
        MoveEvent { piece_entity: 1, target_node: 8 },
        MoveEvent { piece_entity: 3, target_node: 8 },
        MoveEvent { piece_entity: 0, target_node: 8 },
    ];
    let taken = handle_move_events(&mut board, &state, &animated(), &wishes);
    assert_eq!(taken, 1);
    assert_eq!(board.pieces[1].node_index, 1);
    assert_eq!(board.pieces[3].node_index, 8);
    assert_eq!(board.pieces[0].node_index, 0);
    assert!(is_piece_moving(3, &board));
    assert!(!is_piece_moving(0, &board));
    let none: Vec<MoveEvent> = Vec::new();
    assert_eq!(handle_move_events(&mut board, &state, &animated(), &none), 0);
}

#[test]
fn illegal_wishes_change_nothing() {
    let state = GameState::default();
    let settings = animated();
    let wishes = [
        MoveEvent { piece_entity: 1, target_node: 8 },  // not next to an opponent
        MoveEvent { piece_entity: 0, target_node: 1 },  // occupied
        MoveEvent { piece_entity: 0, target_node: 4 },  // not joined
        MoveEvent { piece_entity: 0, target_node: 0 },  // no move at all
        MoveEvent { piece_entity: 0, target_node: 9 },  // no such position
        MoveEvent { piece_entity: 4, target_node: 8 },  // not Black's turn
        MoveEvent { piece_entity: 8, target_node: 8 },  // no such piece
    ];
    for wish in &wishes {
        let mut board = Board::new();
        assert!(!accept(&mut board, &state, &settings, wish));
        assert_eq!(board.pieces, Board::new().pieces);
        assert!(!is_any_piece_moving(&board));
    }
}

#[test]
fn occupancy_holds_through_a_sequence_of_moves() {
    let mut board = Board::new();
    let mut state = GameState::default();
    let settings = instant();
    let wishes = [
        MoveEvent { piece_entity: 0, target_node: 8 },
        MoveEvent { piece_entity: 7, target_node: 0 },
        MoveEvent { piece_entity: 0, target_node: 7 },
        MoveEvent { piece_entity: 4, target_node: 8 },
    ];
    let mut turn = PieceColor::White;
    for wish in &wishes {
        assert_eq!(state.current_turn, turn);
        assert!(accept(&mut board, &state, &settings, wish));
        let notices = check_animation_complete(&mut board, &mut state);
        assert_eq!(notices.len(), 1);
        let nodes = occupied_nodes(&board);
        let mut distinct = nodes.clone();
        distinct.dedup();
        assert_eq!(distinct.len(), 8);
        let empty: Vec<usize> = (0..9).filter(|n| is_node_empty(*n, &board.pieces)).collect();
        assert_eq!(empty.len(), 1);
        turn = turn.opposite();
    }
}

#[test]
fn progress_advances_by_time_times_speed_and_stops_at_one() {
    let mut board = Board::new();
    let state = GameState::default();
    let settings = animated();
    assert!(accept(&mut board, &state, &settings, &MoveEvent { piece_entity: 0, target_node: 8 }));
    animate_pieces(&mut board, 0, &settings);
    assert_eq!(board.moving[0].unwrap().progress, 0);
    animate_pieces(&mut board, 16_667, &settings);
    assert_eq!(board.moving[0].unwrap().progress, 83_335);
    animate_pieces(&mut board, 1, &settings);
    assert_eq!(board.moving[0].unwrap().progress, 83_340);
    animate_pieces(&mut board, 183_331, &settings);
    assert_eq!(board.moving[0].unwrap().progress, 999_995);
    animate_pieces(&mut board, 1, &settings);
    assert_eq!(board.moving[0].unwrap().progress, 1_000_000);
    animate_pieces(&mut board, u64::MAX, &settings);
    assert_eq!(board.moving[0].unwrap().progress, 1_000_000);
    assert_eq!(board.moving[0].unwrap().start_node, 0);
    assert_eq!(board.moving[0].unwrap().target_node, 8);
}

#[test]
fn huge_time_step_completes_without_overflow() {
    let mut board = Board::new();
    let state = GameState::default();
    let settings = animated();
    assert!(accept(&mut board, &state, &settings, &MoveEvent { piece_entity: 0, target_node: 8 }));
    animate_pieces(&mut board, u64::MAX, &settings);
    assert_eq!(board.moving[0].unwrap().progress, PROGRESS_COMPLETE);
}

#[test]
fn instant_setting_speeds_up_a_flight_already_under_way() {
    let mut board = Board::new();
    let state = GameState::default();
    assert!(accept(&mut board, &state, &animated(), &MoveEvent { piece_entity: 0, target_node: 8 }));
    animate_pieces(&mut board, 999, &instant());
    assert_eq!(board.moving[0].unwrap().progress, 999_000);
    animate_pieces(&mut board, 1, &instant());
    assert_eq!(board.moving[0].unwrap().progress, PROGRESS_COMPLETE);
}

#[test]
fn several_arrivals_are_recorded_in_piece_order() {
    // Not reachable by play, but handled: two flights that have both arrived.
    let mut board = board_with([0, 1, 2, 3], [4, 5, 6, 8]);
    board.moving[5] = Some(MovingPiece { start_node: 5, target_node: 5, progress: 1_000_000 });
    board.moving[2] = Some(MovingPiece { start_node: 2, target_node: 2, progress: 1_000_000 });
    board.moving[0] = Some(MovingPiece { start_node: 0, target_node: 0, progress: 10 });
    let mut state = GameState::default();
    let notices = check_animation_complete(&mut board, &mut state);
    assert_eq!(
        notices,
        vec![
            Notification::TurnChange(TurnChangeEvent { new_turn: PieceColor::Black }),
            Notification::TurnChange(TurnChangeEvent { new_turn: PieceColor::White }),
        ]
    );
    assert_eq!(state.current_turn, PieceColor::White);
    assert_eq!(board.moving[5], None);
    assert_eq!(board.moving[2], None);
    assert_eq!(board.moving[0].unwrap().progress, 10);
}

#[test]
fn well_formed_boards_are_told_from_broken_ones() {
    assert!(Board::new().is_well_formed());
    let mut board = Board::new();
    let state = GameState::default();
    assert!(accept(&mut board, &state, &animated(), &MoveEvent { piece_entity: 0, target_node: 8 }));
    assert!(board.is_well_formed());

    let mut short = Board::new();
    short.moving.pop();
    assert!(!short.is_well_formed());

    let mut astray = Board::new();
    astray.moving[2] = Some(MovingPiece { start_node: 1, target_node: 8, progress: 0 });
    assert!(!astray.is_well_formed());

    let mut overdone = Board::new();
    overdone.moving[2] = Some(MovingPiece { start_node: 1, target_node: 2, progress: 1_000_001 });
    assert!(!overdone.is_well_formed());

    let mut doubled = Board::new();
    doubled.pieces[1].node_index = 0;
    assert!(!doubled.is_well_formed());
}
