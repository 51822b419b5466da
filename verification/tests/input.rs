use mu_torere::animation::{accept, Board, MoveEvent};
use mu_torere::board::Piece;
use mu_torere::input::{
    clear_selection_on_game_over, handle_click, highlighted_pieces, ClickHits, SelectedPiece,
};
use mu_torere::state::{GameMode, GameSettings, GameState, PieceColor};

fn two_players() -> GameSettings {
    GameSettings { mode: GameMode::VsPlayer, instant_animation: false }
}

fn versus_computer() -> GameSettings {
    GameSettings { mode: GameMode::VsComputer, instant_animation: false }
}

fn click_on_piece(entity: usize) -> ClickHits {
    let mut near_piece = vec![false; 8];
    near_piece[entity] = true;
    ClickHits { near_piece, near_node: vec![false; 9] }
}

fn click_on_node(node: usize) -> ClickHits {
    let mut near_node = vec![false; 9];
    near_node[node] = true;
    ClickHits { near_piece: vec![false; 8], near_node }
}

fn click_nowhere() -> ClickHits {
    ClickHits { near_piece: vec![false; 8], near_node: vec![false; 9] }
}

fn board_with(white: [usize; 4], black: [usize; 4]) -> Board {
    let mut pieces = Vec::new();
    for node_index in white {
        pieces.push(Piece { color: PieceColor::White, node_index });
    }
    for node_index in black {
        pieces.push(Piece { color: PieceColor::Black, node_index });
    }
    Board { pieces, moving: vec![None; 8] }
}

#[test]
fn selection_starts_empty() {
    assert_eq!(SelectedPiece::default().entity, None);
}

#[test]
fn first_click_selects_a_movable_piece_of_the_side_to_move() {
    let board = Board::new();
    let state = GameState::default();
    let mut selected = SelectedPiece::default();
    let wish = handle_click(&mut selected, &click_on_piece(0), &two_players(), &state, &board);
    assert_eq!(wish, None);
    assert_eq!(selected.entity, Some(0));
}

#[test]
fn click_on_a_piece_that_cannot_move_clears_the_selection() {
    let board = Board::new();
    let state = GameState::default();
    let mut selected = SelectedPiece { entity: Some(0) };
    let wish = handle_click(&mut selected, &click_on_piece(1), &two_players(), &state, &board);
    assert_eq!(wish, None);
    assert_eq!(selected.entity, None);
}

#[test]
fn click_on_an_opposing_piece_selects_nothing() {
    let board = Board::new();
    let state = GameState::default();
    let mut selected = SelectedPiece::default();
    let wish = handle_click(&mut selected, &click_on_piece(4), &two_players(), &state, &board);
    assert_eq!(wish, None);
    assert_eq!(selected.entity, None);
}

#[test]
fn second_click_on_a_legal_destination_asks_for_the_move() {
    let board = Board::new();
    let state = GameState::default();
    let mut selected = SelectedPiece { entity: Some(3) };
    let wish = handle_click(&mut selected, &click_on_node(8), &two_players(), &state, &board);
    assert_eq!(wish, Some(MoveEvent { piece_entity: 3, target_node: 8 }));
    assert_eq!(selected.entity, None);
    let mut board = board;
    assert!(accept(&mut board, &state, &two_players(), &wish.unwrap()));
}

#[test]
fn second_click_elsewhere_clears_the_selection() {
    let board = Board::new();
    let state = GameState::default();
    let mut selected = SelectedPiece { entity: Some(3) };
    let wish = handle_click(&mut selected, &click_on_node(5), &two_players(), &state, &board);
    assert_eq!(wish, None);
    assert_eq!(selected.entity, None);
    let mut selected = SelectedPiece { entity: Some(3) };
    let wish = handle_click(&mut selected, &click_nowhere(), &two_players(), &state, &board);
    assert_eq!(wish, None);
    assert_eq!(selected.entity, None);
}

#[test]
fn destination_wins_over_a_piece_under_the_same_click() {
    // White on 0 may go to 7; the click is close to position 7 and to the
    // white piece on 1.
    let board = board_with([0, 1, 2, 3], [4, 5, 6, 8]);
    let state = GameState::default();
    let mut click = click_on_node(7);
    click.near_piece[1] = true;
    let mut selected = SelectedPiece { entity: Some(0) };
    let wish = handle_click(&mut selected, &click, &two_players(), &state, &board);
    assert_eq!(wish, Some(MoveEvent { piece_entity: 0, target_node: 7 }));
    assert_eq!(selected.entity, None);
}

#[test]
fn first_destination_in_adjacency_order_is_taken() {
    let board = Board {
        pieces: vec![
            Piece { color: PieceColor::White, node_index: 0 },
            Piece { color: PieceColor::Black, node_index: 4 },
        ],
        moving: vec![None, None],
    };
    let state = GameState::default();
    let click = ClickHits { near_piece: vec![false, false], near_node: vec![true; 9] };
    let mut selected = SelectedPiece { entity: Some(0) };
    // Both ring neighbours and the centre are free and close to the click.
    let wish = handle_click(&mut selected, &click, &two_players(), &state, &board);
    assert_eq!(wish, Some(MoveEvent { piece_entity: 0, target_node: 7 }));
}

#[test]
fn first_selectable_piece_under_the_click_is_picked() {
    let board = Board::new();
    let state = GameState::default();
    let click = ClickHits { near_piece: vec![true; 8], near_node: vec![false; 9] };
    let mut selected = SelectedPiece::default();
    assert_eq!(handle_click(&mut selected, &click, &two_players(), &state, &board), None);
    assert_eq!(selected.entity, Some(0));
    let black = GameState { current_turn: PieceColor::Black, game_over: false, winner: None };
    let mut selected = SelectedPiece::default();
    assert_eq!(handle_click(&mut selected, &click, &two_players(), &black, &board), None);
    assert_eq!(selected.entity, Some(4));
}

#[test]
fn short_hit_lists_count_as_misses() {
    let board = Board::new();
    let state = GameState::default();
    let click = ClickHits { near_piece: Vec::new(), near_node: Vec::new() };
    let mut selected = SelectedPiece { entity: Some(0) };
    assert_eq!(handle_click(&mut selected, &click, &two_players(), &state, &board), None);
    assert_eq!(selected.entity, None);
}

#[test]
fn stale_selection_of_a_missing_piece_is_dropped() {
    let board = Board::new();
    let state = GameState::default();
    let mut selected = SelectedPiece { entity: Some(42) };
    assert_eq!(handle_click(&mut selected, &click_on_node(8), &two_players(), &state, &board), None);
    assert_eq!(selected.entity, None);
}

#[test]
fn clicks_are_ignored_when_no_player_may_click() {
    let board = Board::new();
    let click = click_on_node(8);

    let over =
        GameState { current_turn: PieceColor::White, game_over: true, winner: Some(PieceColor::Black) };
    let mut selected = SelectedPiece { entity: Some(3) };
    assert_eq!(handle_click(&mut selected, &click, &two_players(), &over, &board), None);
    assert_eq!(selected.entity, Some(3));

    let black = GameState { current_turn: PieceColor::Black, game_over: false, winner: None };
    let mut selected = SelectedPiece { entity: Some(4) };
    assert_eq!(handle_click(&mut selected, &click, &versus_computer(), &black, &board), None);
    assert_eq!(selected.entity, Some(4));

    let mut flying = Board::new();
    let white = GameState::default();
    assert!(accept(&mut flying, &white, &two_players(), &MoveEvent { piece_entity: 0, target_node: 8 }));
    let mut selected = SelectedPiece { entity: Some(7) };
    assert_eq!(handle_click(&mut selected, &click_on_node(0), &two_players(), &black, &flying), None);
    assert_eq!(selected.entity, Some(7));
}

#[test]
fn white_may_click_against_the_computer() {
    let board = Board::new();
    let state = GameState::default();
    let mut selected = SelectedPiece { entity: Some(0) };
    let wish = handle_click(&mut selected, &click_on_node(8), &versus_computer(), &state, &board);
    assert_eq!(wish, Some(MoveEvent { piece_entity: 0, target_node: 8 }));
}

#[test]
fn black_may_click_against_a_player() {
    let board = Board::new();
    let black = GameState { current_turn: PieceColor::Black, game_over: false, winner: None };
    let mut selected = SelectedPiece { entity: Some(7) };
    let wish = handle_click(&mut selected, &click_on_node(8), &two_players(), &black, &board);
    assert_eq!(wish, Some(MoveEvent { piece_entity: 7, target_node: 8 }));
}

#[test]
fn selection_is_cleared_when_the_game_is_over() {
    let over =
        GameState { current_turn: PieceColor::White, game_over: true, winner: Some(PieceColor::White) };
    let mut selected = SelectedPiece { entity: Some(2) };
    clear_selection_on_game_over(&over, &mut selected);
    assert_eq!(selected.entity, None);
    let mut selected = SelectedPiece { entity: Some(2) };
    clear_selection_on_game_over(&GameState::default(), &mut selected);
    assert_eq!(selected.entity, Some(2));
}

#[test]
fn highlights_mark_the_movable_pieces_of_the_side_to_move() {
    let pieces = Board::new().pieces;
    let white = GameState::default();
    assert_eq!(
        highlighted_pieces(&white, &pieces),
        vec![true, false, false, true, false, false, false, false]
    );
    let black = GameState { current_turn: PieceColor::Black, game_over: false, winner: None };
    assert_eq!(
        highlighted_pieces(&black, &pieces),
        vec![false, false, false, false, true, false, false, true]
    );
    let over =
        GameState { current_turn: PieceColor::White, game_over: true, winner: Some(PieceColor::Black) };
    assert_eq!(highlighted_pieces(&over, &pieces), vec![false; 8]);
}
