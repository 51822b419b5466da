//! The computer opponent: it plays Black, waits half a second before it
//! moves, and then makes one of its legal moves, chosen by chance.

use vstd::prelude::*;

use crate::animation::{is_any_piece_moving, Board, BoardView, MoveEvent};
use crate::board::{
    can_move, get_valid_moves, legal_destinations, legal_move, lemma_legal_destinations_members,
    on_board, side_can_move, Piece,
};
use crate::random::choose_move;
use crate::state::{GameMode, GameSettings, GameState, PieceColor};

verus! {

/// How long the computer waits before it moves, in microseconds.
pub const THINK_DELAY_MICROS: u64 = 500_000;

/// The computer's waiting: whether it is waiting, and for how long it has.
#[derive(Debug, Clone, Copy, PartialEq, Eq, Structural)]
pub struct ComputerThinkTimer {
    pub elapsed_micros: u64,
    pub thinking: bool,
}

impl Default for ComputerThinkTimer {
    fn default() -> (timer: Self)
        ensures
            timer == (ComputerThinkTimer { elapsed_micros: 0, thinking: false }),
    {
        ComputerThinkTimer { elapsed_micros: 0, thinking: false }
    }
}

impl ComputerThinkTimer {
    /// The wait is over.
    pub open spec fn finished(self) -> bool {
        self.elapsed_micros >= THINK_DELAY_MICROS
    }

    /// The timer after `delta_micros` more microseconds: a wait that is over
    /// stays as it is, another grows and stops at the full delay.
    pub open spec fn ticked(self, delta_micros: u64) -> ComputerThinkTimer {
        if self.finished() {
            self
        } else if self.elapsed_micros + delta_micros >= THINK_DELAY_MICROS {
            ComputerThinkTimer { elapsed_micros: THINK_DELAY_MICROS, ..self }
        } else {
            ComputerThinkTimer {
                elapsed_micros: (self.elapsed_micros + delta_micros) as u64,
                ..self
            }
        }
    }

    /// The timer after one step of the game.
    pub open spec fn stepped(
        self,
        delta_micros: u64,
        settings: GameSettings,
        state: GameState,
        board: BoardView,
    ) -> ComputerThinkTimer {
        if settings.mode != GameMode::VsComputer {
            self
        } else if !computer_may_move(settings, state, board) {
            ComputerThinkTimer { thinking: false, ..self }
        } else if !self.thinking {
            ComputerThinkTimer { elapsed_micros: 0, thinking: true }
        } else if self.ticked(delta_micros).finished() {
            ComputerThinkTimer { thinking: false, ..self.ticked(delta_micros) }
        } else {
            self.ticked(delta_micros)
        }
    }

    /// In this step the wait ends and the computer decides on its move.
    pub open spec fn decides(
        self,
        delta_micros: u64,
        settings: GameSettings,
        state: GameState,
        board: BoardView,
    ) -> bool {
        computer_may_move(settings, state, board) && self.thinking && self.ticked(
            delta_micros,
        ).finished()
    }

    /// Advances the timer by `delta_micros` microseconds and says whether the
    /// wait is over.
    pub fn tick(&mut self, delta_micros: u64) -> (finished: bool)
        ensures
            *final(self) == old(self).ticked(delta_micros),
            finished == final(self).finished(),
    {
        if self.elapsed_micros < THINK_DELAY_MICROS {
            if delta_micros >= THINK_DELAY_MICROS - self.elapsed_micros {
                self.elapsed_micros = THINK_DELAY_MICROS;
            } else {
                self.elapsed_micros = self.elapsed_micros + delta_micros;
            }
        }
        self.elapsed_micros >= THINK_DELAY_MICROS
    }
}

/// It is for the computer to move: it plays, the game is in progress, Black
/// is to move and nothing is in flight.
pub open spec fn computer_may_move(settings: GameSettings, state: GameState, board: BoardView) -> bool {
    &&& settings.mode == GameMode::VsComputer
    &&& !state.game_over
    &&& state.current_turn == PieceColor::Black
    &&& !board.any_moving()
}

/// The legal moves of the piece at place `entity`, in the order of its legal
/// destinations.
pub open spec fn moves_of_piece(entity: int, pieces: Seq<Piece>) -> Seq<MoveEvent> {
    let targets = legal_destinations(pieces[entity], pieces);
    Seq::new(
        targets.len(),
        |k: int| MoveEvent { piece_entity: entity as usize, target_node: targets[k] },
    )
}

/// The legal moves of the pieces of `color` among the first `upto` pieces,
/// piece by piece in their order.
pub open spec fn moves_of_side(color: PieceColor, pieces: Seq<Piece>, upto: int) -> Seq<MoveEvent>
    decreases upto,
{
    if upto <= 0 {
        Seq::empty()
    } else {
        let before = moves_of_side(color, pieces, upto - 1);
        if pieces[upto - 1].color == color {
            before + moves_of_piece(upto - 1, pieces)
        } else {
            before
        }
    }
}

/// A move is listed for a side exactly when it names a piece of that side
/// and the rules allow it.
pub proof fn lemma_moves_of_side_members(color: PieceColor, pieces: Seq<Piece>, upto: int)
    requires
        0 <= upto <= pieces.len() <= usize::MAX,
        on_board(pieces),
    ensures
        forall|event: MoveEvent| #[trigger]
            moves_of_side(color, pieces, upto).contains(event) <==> {
                &&& event.piece_entity < upto
                &&& pieces[event.piece_entity as int].color == color
                &&& legal_move(pieces[event.piece_entity as int], pieces, event.target_node)
            },
    decreases upto,
{
    if upto > 0 {
        lemma_moves_of_side_members(color, pieces, upto - 1);
        let before = moves_of_side(color, pieces, upto - 1);
        let own = moves_of_piece(upto - 1, pieces);
        let all = moves_of_side(color, pieces, upto);
        let piece = pieces[upto - 1];
        let targets = legal_destinations(piece, pieces);
        lemma_legal_destinations_members(piece, pieces);
        assert forall|event: MoveEvent| #[trigger] all.contains(event) <==> {
            &&& event.piece_entity < upto
            &&& pieces[event.piece_entity as int].color == color
            &&& legal_move(pieces[event.piece_entity as int], pieces, event.target_node)
        } by {
            let listed = {
                &&& event.piece_entity < upto
                &&& pieces[event.piece_entity as int].color == color
                &&& legal_move(pieces[event.piece_entity as int], pieces, event.target_node)
            };
            if all.contains(event) {
                let k = choose|k: int| 0 <= k < all.len() && all[k] == event;
                if k < before.len() {
                    assert(before[k] == event);
                    assert(before.contains(event));
                } else {
                    assert(piece.color == color);
                    assert(own[k - before.len()] == event);
                    assert(targets.contains(targets[k - before.len()]));
                }
                assert(listed);
            }
            if listed {
                if event.piece_entity < upto - 1 {
                    assert(before.contains(event));
                    let k = choose|k: int| 0 <= k < before.len() && before[k] == event;
                    assert(all[k] == event);
                } else {
                    assert(event.piece_entity == upto - 1);
                    assert(targets.contains(event.target_node));
                    let k = choose|k: int|
                        0 <= k < targets.len() && targets[k] == event.target_node;
                    assert(own[k] == event);
                    assert(all[before.len() + k] == event);
                }
                assert(all.contains(event));
            }
        }
    }
}

/// A side has a move to list exactly when it is not blocked.
pub proof fn lemma_moves_of_side_nonempty(color: PieceColor, pieces: Seq<Piece>)
    requires
        pieces.len() <= usize::MAX,
        on_board(pieces),
    ensures
        moves_of_side(color, pieces, pieces.len() as int).len() > 0 <==> side_can_move(
            color,
            pieces,
        ),
{
    let all = moves_of_side(color, pieces, pieces.len() as int);
    lemma_moves_of_side_members(color, pieces, pieces.len() as int);
    if all.len() > 0 {
        assert(all.contains(all[0]));
        let entity = all[0].piece_entity as int;
        lemma_legal_destinations_members(pieces[entity], pieces);
        assert(can_move(pieces[entity], pieces));
    }
    if side_can_move(color, pieces) {
        let i = choose|i: int|
            0 <= i < pieces.len() && (#[trigger] pieces[i]).color == color && can_move(
                pieces[i],
                pieces,
            );
        lemma_legal_destinations_members(pieces[i], pieces);
        let target = choose|target: usize| legal_move(pieces[i], pieces, target);
        let event = MoveEvent { piece_entity: i as usize, target_node: target };
        assert(all.contains(event));
    }
}

/// Every legal move of the pieces of `color`, piece by piece in their order
/// and for each piece in the order of its legal destinations.
pub fn enumerate_moves(color: PieceColor, pieces: &Vec<Piece>) -> (moves: Vec<MoveEvent>)
    requires
        on_board(pieces@),
    ensures
        moves@ == moves_of_side(color, pieces@, pieces@.len() as int),
        forall|event: MoveEvent| #[trigger]
            moves@.contains(event) <==> {
                &&& event.piece_entity < pieces@.len()
                &&& pieces@[event.piece_entity as int].color == color
                &&& legal_move(pieces@[event.piece_entity as int], pieces@, event.target_node)
            },
        moves@.len() > 0 <==> side_can_move(color, pieces@),
{
    let mut moves: Vec<MoveEvent> = Vec::new();
    let mut i: usize = 0;
    while i < pieces.len()
        invariant
            i <= pieces.len(),
            on_board(pieces@),
            moves@ == moves_of_side(color, pieces@, i as int),
        decreases pieces.len() - i,
    {
        let piece = pieces[i];
        if piece.color == color {
            let targets = get_valid_moves(&piece, pieces);
            let ghost before = moves@;
            let mut j: usize = 0;
            while j < targets.len()
                invariant
                    j <= targets.len(),
                    i < pieces.len(),
                    targets@ == legal_destinations(pieces@[i as int], pieces@),
                    moves@ == before + moves_of_piece(i as int, pieces@).take(j as int),
                decreases targets.len() - j,
            {
                moves.push(MoveEvent { piece_entity: i, target_node: targets[j] });
                assert(moves_of_piece(i as int, pieces@).take(j + 1) =~= moves_of_piece(
                    i as int,
                    pieces@,
                ).take(j as int).push(moves_of_piece(i as int, pieces@)[j as int]));
                j += 1;
            }
            assert(moves_of_piece(i as int, pieces@).take(j as int) =~= moves_of_piece(
                i as int,
                pieces@,
            ));
        }
        i += 1;
    }
    proof {
        lemma_moves_of_side_members(color, pieces@, pieces@.len() as int);
        lemma_moves_of_side_nonempty(color, pieces@);
    }
    moves
}

/// One step of the computer opponent. It does nothing unless it plays; it
/// stops waiting whenever it is not for it to move; it starts its wait when
/// its turn has come; and when the wait is over it makes one of Black's legal
/// moves, if there is any, and waits no longer.
pub fn computer_turn(
    delta_micros: u64,
    think_timer: &mut ComputerThinkTimer,
    settings: &GameSettings,
    state: &GameState,
    board: &Board,
) -> (chosen: Option<MoveEvent>)
    requires
        on_board(board@.pieces),
    ensures
        *final(think_timer) == old(think_timer).stepped(delta_micros, *settings, *state, board@),
        chosen is Some <==> old(think_timer).decides(delta_micros, *settings, *state, board@)
            && side_can_move(PieceColor::Black, board@.pieces),
        chosen matches Some(event) ==> moves_of_side(
            PieceColor::Black,
            board@.pieces,
            board@.pieces.len() as int,
        ).contains(event) && board@.accepts(*state, event),
{
    if settings.mode != GameMode::VsComputer {
        return None;
    }
    if state.game_over {
        think_timer.thinking = false;
        return None;
    }
    if state.current_turn != PieceColor::Black {
        think_timer.thinking = false;
        return None;
    }
    if is_any_piece_moving(board) {
        think_timer.thinking = false;
        return None;
    }
    if !think_timer.thinking {
        think_timer.thinking = true;
        think_timer.elapsed_micros = 0;
        return None;
    }
    if !think_timer.tick(delta_micros) {
        return None;
    }
    let valid_moves = enumerate_moves(PieceColor::Black, &board.pieces);
    let mut rng = rand::rng();
    let chosen = choose_move(&mut rng, &valid_moves);
    think_timer.thinking = false;
    chosen
}

} // verus!
