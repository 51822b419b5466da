//! A player's clicks: the first click on a piece that can move selects it, a
//! click on one of its legal destinations then asks for the move, and any
//! other click drops the selection.

use vstd::prelude::*;

use crate::animation::{is_any_piece_moving, Board, BoardView, MoveEvent};
use crate::board::{
    can_move, can_piece_move, get_valid_moves, legal_destinations, legal_move, on_board, Piece,
};
use crate::state::{GameMode, GameSettings, GameState, PieceColor};

verus! {

/// The piece that the player has picked up, by its place in the board's list.
#[derive(Debug, Clone, Copy, PartialEq, Eq, Structural)]
pub struct SelectedPiece {
    pub entity: Option<usize>,
}

impl Default for SelectedPiece {
    fn default() -> (selected: Self)
        ensures
            selected.entity is None,
    {
        SelectedPiece { entity: None }
    }
}

/// What a click lies close to. `near_piece[i]` says that it lies within
/// reach of the piece at place `i` as shown, `near_node[n]` that it lies
/// within reach of position `n`. A place beyond the end of a list is not
/// close.
#[derive(Debug)]
pub struct ClickHits {
    pub near_piece: Vec<bool>,
    pub near_node: Vec<bool>,
}

/// The flag at place `i` is there and set.
pub open spec fn is_hit(flags: Seq<bool>, i: int) -> bool {
    0 <= i < flags.len() && flags[i]
}

/// A player may click now: the game is in progress, nothing is in flight,
/// and the side to move is played by a person.
pub open spec fn player_may_click(settings: GameSettings, state: GameState, board: BoardView) -> bool {
    &&& !state.game_over
    &&& !board.any_moving()
    &&& (settings.mode == GameMode::VsPlayer || state.current_turn == PieceColor::White)
}

/// The first of `targets` that the click lies close to.
pub open spec fn first_hit(targets: Seq<usize>, near_node: Seq<bool>) -> Option<usize>
    decreases targets.len(),
{
    if targets.len() == 0 {
        None
    } else if is_hit(near_node, targets[0] as int) {
        Some(targets[0])
    } else {
        first_hit(targets.drop_first(), near_node)
    }
}

/// The piece at place `i` can be picked up: the click lies close to it, it
/// belongs to the side to move, and it has a legal move.
pub open spec fn selectable(
    i: int,
    near_piece: Seq<bool>,
    state: GameState,
    pieces: Seq<Piece>,
) -> bool {
    is_hit(near_piece, i) && pieces[i].color == state.current_turn && can_move(pieces[i], pieces)
}

/// The first piece from place `from` on that can be picked up.
pub open spec fn first_selectable(
    from: int,
    near_piece: Seq<bool>,
    state: GameState,
    pieces: Seq<Piece>,
) -> Option<usize>
    decreases pieces.len() - from,
{
    if from < 0 || from >= pieces.len() {
        None
    } else if selectable(from, near_piece, state, pieces) {
        Some(from as usize)
    } else {
        first_selectable(from + 1, near_piece, state, pieces)
    }
}

/// The destination that the click asks for, if a piece is picked up and the
/// click lies close to one of its legal destinations.
pub open spec fn clicked_target(
    selected: SelectedPiece,
    near_node: Seq<bool>,
    pieces: Seq<Piece>,
) -> Option<usize> {
    match selected.entity {
        Some(entity) if entity < pieces.len() => first_hit(
            legal_destinations(pieces[entity as int], pieces),
            near_node,
        ),
        _ => None,
    }
}

/// The selection after a click and the move it asks for. A click that comes
/// while no player may click changes nothing. A click close to a legal
/// destination of the piece picked up asks for that move and puts the piece
/// down. Any other click picks up the first piece it can, or none.
pub open spec fn click_outcome(
    selected: SelectedPiece,
    near_piece: Seq<bool>,
    near_node: Seq<bool>,
    settings: GameSettings,
    state: GameState,
    board: BoardView,
) -> (SelectedPiece, Option<MoveEvent>) {
    if !player_may_click(settings, state, board) {
        (selected, None)
    } else {
        match clicked_target(selected, near_node, board.pieces) {
            Some(target) => (
                SelectedPiece { entity: None },
                Some(MoveEvent { piece_entity: selected.entity->0, target_node: target }),
            ),
            None => (
                SelectedPiece { entity: first_selectable(0, near_piece, state, board.pieces) },
                None,
            ),
        }
    }
}

/// Whether the flag at place `i` is there and set.
fn hit_at(flags: &Vec<bool>, i: usize) -> (hit: bool)
    ensures
        hit == is_hit(flags@, i as int),
{
    i < flags.len() && flags[i]
}

/// The first hit among the targets is one of them and is hit.
pub proof fn lemma_first_hit_is_target(targets: Seq<usize>, near_node: Seq<bool>)
    ensures
        first_hit(targets, near_node) matches Some(target) ==> targets.contains(target) && is_hit(
            near_node,
            target as int,
        ),
        first_hit(targets, near_node) is None ==> forall|k: int|
            0 <= k < targets.len() ==> !is_hit(near_node, #[trigger] targets[k] as int),
    decreases targets.len(),
{
    if targets.len() > 0 {
        if is_hit(near_node, targets[0] as int) {
            assert(targets[0] == targets[0]);
        } else {
            lemma_first_hit_is_target(targets.drop_first(), near_node);
            let rest = targets.drop_first();
            if first_hit(rest, near_node) is Some {
                let target = first_hit(rest, near_node)->0;
                let k = choose|k: int| 0 <= k < rest.len() && rest[k] == target;
                assert(targets[k + 1] == target);
            } else {
                assert forall|k: int| 0 <= k < targets.len() implies !is_hit(
                    near_node,
                    #[trigger] targets[k] as int,
                ) by {
                    if k > 0 {
                        assert(rest[k - 1] == targets[k]);
                    }
                }
            }
        }
    }
}

/// Handles one click of the left button. `selected` is the piece picked up
/// so far; the result is the move that the click asks for, if any.
#[verifier::loop_isolation(false)]
pub fn handle_click(
    selected: &mut SelectedPiece,
    click: &ClickHits,
    settings: &GameSettings,
    state: &GameState,
    board: &Board,
) -> (wish: Option<MoveEvent>)
    requires
        on_board(board@.pieces),
    ensures
        (*final(selected), wish) == click_outcome(
            *old(selected),
            click.near_piece@,
            click.near_node@,
            *settings,
            *state,
            board@,
        ),
        wish matches Some(event) ==> event.piece_entity < board@.pieces.len() && legal_move(
            board@.pieces[event.piece_entity as int],
            board@.pieces,
            event.target_node,
        ),
        wish matches Some(event) ==> (board@.pieces[event.piece_entity as int].color
            == state.current_turn ==> board@.accepts(*state, event)),
{
    if state.game_over {
        return None;
    }
    if is_any_piece_moving(board) {
        return None;
    }
    let is_player_turn = match settings.mode {
        GameMode::VsPlayer => true,
        GameMode::VsComputer => state.current_turn == PieceColor::White,
    };
    if !is_player_turn {
        return None;
    }
    if let Some(selected_entity) = selected.entity {
        if selected_entity < board.pieces.len() {
            let piece = board.pieces[selected_entity];
            let valid_moves = get_valid_moves(&piece, &board.pieces);
            let mut k: usize = 0;
            assert(valid_moves@.subrange(0, valid_moves@.len() as int) =~= valid_moves@);
            while k < valid_moves.len()
                invariant
                    k <= valid_moves.len(),
                    *selected == *old(selected),
                    first_hit(valid_moves@, click.near_node@) == first_hit(
                        valid_moves@.subrange(k as int, valid_moves@.len() as int),
                        click.near_node@,
                    ),
                decreases valid_moves.len() - k,
            {
                let target_node = valid_moves[k];
                let ghost rest = valid_moves@.subrange(k as int, valid_moves@.len() as int);
                assert(rest[0] == target_node);
                if hit_at(&click.near_node, target_node) {
                    proof {
                        lemma_first_hit_is_target(valid_moves@, click.near_node@);
                    }
                    selected.entity = None;
                    return Some(
                        MoveEvent { piece_entity: selected_entity, target_node: target_node },
                    );
                }
                assert(rest.drop_first() =~= valid_moves@.subrange(
                    k + 1,
                    valid_moves@.len() as int,
                ));
                k += 1;
            }
            assert(valid_moves@.subrange(k as int, valid_moves@.len() as int).len() == 0);
        }
    }
    let mut i: usize = 0;
    while i < board.pieces.len()
        invariant
            i <= board.pieces.len(),
            *selected == *old(selected),
            first_selectable(0, click.near_piece@, *state, board@.pieces) == first_selectable(
                i as int,
                click.near_piece@,
                *state,
                board@.pieces,
            ),
        decreases board.pieces.len() - i,
    {
        let piece = board.pieces[i];
        if hit_at(&click.near_piece, i) {
            if piece.color == state.current_turn {
                if can_piece_move(&piece, &board.pieces) {
                    selected.entity = Some(i);
                    return None;
                }
            }
        }
        i += 1;
    }
    selected.entity = None;
    None
}

/// Puts down the piece picked up once the game is over.
pub fn clear_selection_on_game_over(state: &GameState, selected: &mut SelectedPiece)
    ensures
        state.game_over ==> final(selected).entity is None,
        !state.game_over ==> *final(selected) == *old(selected),
{
    if state.game_over {
        selected.entity = None;
    }
}

/// For each piece, whether it is to be shown as one that can move now: the
/// game is in progress, the piece belongs to the side to move, and it has a
/// legal move.
pub fn highlighted_pieces(state: &GameState, pieces: &Vec<Piece>) -> (marks: Vec<bool>)
    requires
        on_board(pieces@),
    ensures
        marks@.len() == pieces@.len(),
        forall|i: int|
            0 <= i < pieces@.len() ==> #[trigger] marks@[i] == (!state.game_over
                && pieces@[i].color == state.current_turn && can_move(pieces@[i], pieces@)),
{
    let mut marks: Vec<bool> = Vec::new();
    let mut i: usize = 0;
    while i < pieces.len()
        invariant
            i <= pieces.len(),
            marks@.len() == i,
            on_board(pieces@),
            forall|k: int|
                0 <= k < i ==> #[trigger] marks@[k] == (!state.game_over && pieces@[k].color
                    == state.current_turn && can_move(pieces@[k], pieces@)),
        decreases pieces.len() - i,
    {
        let piece = pieces[i];
        let can = !state.game_over && piece.color == state.current_turn && can_piece_move(
            &piece,
            pieces,
        );
        marks.push(can);
        i += 1;
    }
    marks
}

} // verus!
