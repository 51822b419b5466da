//! A game as a whole: the board and the turn state, and what holds of them
//! however the game has run.

use vstd::prelude::*;

use crate::animation::{
    lemma_accepted_move_keeps_board, lemma_animated_keeps_board, lemma_landed_keeps_board,
    BoardView, MoveEvent,
};
use crate::board::{
    lemma_exactly_one_node_empty, node_empty, side_can_move, valid_placement, CENTER_INDEX,
};
use crate::state::{lemma_game_over_iff_blocked, GameSettings, GameState};

verus! {

/// The board together with the turn state.
pub struct GameView {
    pub board: BoardView,
    pub state: GameState,
}

/// One thing that can happen to a game.
pub enum Step {
    /// A wish for a move comes in.
    Wish { settings: GameSettings, event: MoveEvent },
    /// Time passes and the pieces in flight travel.
    Travel { settings: GameSettings, elapsed_micros: u64 },
    /// The moves that have arrived are recorded.
    Land,
    /// A new game is started.
    Reset,
}

impl GameView {
    /// The start of a game.
    pub open spec fn initial() -> GameView {
        GameView { board: BoardView::initial(), state: GameState::initial() }
    }

    /// The game after one step.
    pub open spec fn after(self, step: Step) -> GameView {
        match step {
            Step::Wish { settings, event } => GameView {
                board: self.board.handle(self.state, settings, event),
                ..self
            },
            Step::Travel { settings, elapsed_micros } => GameView {
                board: self.board.animated(elapsed_micros, settings),
                ..self
            },
            Step::Land => GameView {
                board: self.board.landed(),
                state: self.board.state_after_arrivals(self.state, self.board.pieces.len() as int),
            },
            Step::Reset => GameView::initial(),
        }
    }

    /// The game after the given steps, from the start of a game.
    pub open spec fn after_all(steps: Seq<Step>) -> GameView
        decreases steps.len(),
    {
        if steps.len() == 0 {
            GameView::initial()
        } else {
            GameView::after_all(steps.drop_last()).after(steps.last())
        }
    }

    /// What holds of every game: the eight pieces stand on distinct
    /// positions, at most one of them is in flight, a winner is recorded
    /// exactly when the game is over, and once it is over nothing is in
    /// flight.
    pub open spec fn sound(self) -> bool {
        &&& self.board.well_formed()
        &&& self.board.serialized()
        &&& self.state.wf()
        &&& self.state.game_over ==> !self.board.any_moving()
    }
}

/// Recording the arrivals on a board with at most one piece in flight records
/// at most one move: that of the piece that has arrived, if there is one.
pub proof fn lemma_single_arrival(board: BoardView, state: GameState, upto: int)
    requires
        board.well_formed(),
        board.serialized(),
        0 <= upto <= board.pieces.len(),
    ensures
        (forall|i: int| 0 <= i < upto ==> !board.arrived(i)) ==> board.state_after_arrivals(
            state,
            upto,
        ) == state && board.notices_for_arrivals(upto).len() == 0,
        forall|i: int|
            0 <= i < upto && board.arrived(i) ==> board.state_after_arrivals(state, upto)
                == state.after_move(
                board.pieces[i].color,
                side_can_move(board.pieces[i].color.spec_opposite(), board.pieces),
            ) && board.notices_for_arrivals(upto).len() == 1,
    decreases upto,
{
    if upto > 0 {
        lemma_single_arrival(board, state, upto - 1);
        assert forall|i: int| 0 <= i < upto && board.arrived(i) implies board.state_after_arrivals(
            state,
            upto,
        ) == state.after_move(
            board.pieces[i].color,
            side_can_move(board.pieces[i].color.spec_opposite(), board.pieces),
        ) && board.notices_for_arrivals(upto).len() == 1 by {
            if i == upto - 1 {
                assert forall|k: int| 0 <= k < upto - 1 implies !board.arrived(k) by {
                    if board.arrived(k) {
                        assert(board.moving[k] is Some);
                        assert(board.moving[i] is Some);
                    }
                }
            } else {
                if board.arrived(upto - 1) {
                    assert(board.moving[upto - 1] is Some);
                    assert(board.moving[i] is Some);
                }
            }
        }
    }
}

/// One step keeps a sound game sound.
pub proof fn lemma_step_keeps_game_sound(game: GameView, step: Step)
    requires
        game.sound(),
    ensures
        game.after(step).sound(),
{
    let next = game.after(step);
    match step {
        Step::Wish { settings, event } => {
            if game.board.accepts(game.state, event) {
                lemma_accepted_move_keeps_board(game.board, game.state, settings, event);
            }
        },
        Step::Travel { settings, elapsed_micros } => {
            lemma_animated_keeps_board(game.board, elapsed_micros, settings);
        },
        Step::Land => {
            lemma_landed_keeps_board(game.board);
            lemma_single_arrival(game.board, game.state, game.board.pieces.len() as int);
            if exists|i: int| 0 <= i < game.board.pieces.len() && game.board.arrived(i) {
                let i = choose|i: int| 0 <= i < game.board.pieces.len() && game.board.arrived(i);
                assert(game.board.moving[i] is Some);
                assert(!game.state.game_over);
                lemma_game_over_iff_blocked(
                    game.state,
                    game.board.pieces[i].color,
                    side_can_move(game.board.pieces[i].color.spec_opposite(), game.board.pieces),
                );
                assert forall|k: int| 0 <= k < next.board.moving.len() implies next.board.moving[k]
                    is None by {
                    if k != i && game.board.moving[k] is Some {
                        assert(game.board.moving[i] is Some);
                    }
                }
            } else {
                if next.board.any_moving() {
                    let k = choose|k: int|
                        0 <= k < next.board.moving.len() && #[trigger] next.board.moving[k] is Some;
                    assert(game.board.moving[k] is Some);
                }
            }
        },
        Step::Reset => {
            lemma_initial_game_sound();
        },
    }
}

/// The start of a game is sound.
pub proof fn lemma_initial_game_sound()
    ensures
        GameView::initial().sound(),
{
    let board = BoardView::initial();
    assert(valid_placement(board.pieces));
}

/// However a game has run, the pieces stand on distinct positions and
/// exactly one of the nine positions is free; at most one piece is in flight;
/// and a winner is recorded exactly when the game is over.
pub proof fn lemma_every_game_is_sound(steps: Seq<Step>)
    ensures
        GameView::after_all(steps).sound(),
        exists|free: usize|
            free <= CENTER_INDEX && #[trigger] node_empty(
                free,
                GameView::after_all(steps).board.pieces,
            ) && forall|other: usize|
                other <= CENTER_INDEX && #[trigger] node_empty(
                    other,
                    GameView::after_all(steps).board.pieces,
                ) ==> other == free,
    decreases steps.len(),
{
    if steps.len() == 0 {
        lemma_initial_game_sound();
    } else {
        lemma_every_game_is_sound(steps.drop_last());
        lemma_step_keeps_game_sound(GameView::after_all(steps.drop_last()), steps.last());
    }
    lemma_exactly_one_node_empty(GameView::after_all(steps).board.pieces);
}

/// When a move has arrived in a game that is in progress, recording it ends
/// the game exactly when the other side has no legal move; the mover has then
/// won, and otherwise the other side is to move.
pub proof fn lemma_win_exactly_when_opponent_blocked(game: GameView, mover: int)
    requires
        game.sound(),
        0 <= mover < game.board.pieces.len(),
        game.board.arrived(mover),
    ensures
        ({
            let color = game.board.pieces[mover].color;
            let blocked = !side_can_move(color.spec_opposite(), game.board.pieces);
            let next = game.after(Step::Land).state;
            &&& next.game_over <==> blocked
            &&& blocked ==> next.winner == Some(color)
            &&& !blocked ==> next.winner is None && next.current_turn == color.spec_opposite()
        }),
{
    lemma_single_arrival(game.board, game.state, game.board.pieces.len() as int);
    assert(game.board.moving[mover] is Some);
    assert(!game.state.game_over);
}

/// While any piece is in flight, whether it has arrived or not, no wish for
/// a move is taken, and the board stays as it is.
pub proof fn lemma_no_move_while_in_flight(
    board: BoardView,
    state: GameState,
    settings: GameSettings,
    event: MoveEvent,
    piece: int,
)
    requires
        0 <= piece < board.moving.len(),
        board.moving[piece] is Some,
    ensures
        !board.accepts(state, event),
        board.handle(state, settings, event) == board,
{
}

} // verus!
