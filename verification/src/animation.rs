//! Moves in flight: a move that was accepted changes the placement at once,
//! travels for a while, and passes the turn only when it has arrived. While a
//! piece travels no other move is taken.

use vstd::prelude::*;

use crate::board::{
    contains_node, get_valid_moves, has_any_valid_moves, initial_pieces, initial_placement,
    is_valid_placement, legal_move, node_empty, side_can_move, valid_placement, Piece,
    CENTER_INDEX, PIECE_COUNT,
};
use crate::state::{GameSettings, GameState, Notification};

verus! {

/// The progress of a move that has arrived. Progress is counted in millionths
/// of the way from start to target.
pub const PROGRESS_COMPLETE: u32 = 1_000_000;

/// How much of the way a piece covers per second, in whole ways.
pub const ANIMATION_SPEED: u64 = 5;

/// The speed of a move when moves are shown at once.
pub const INSTANT_SPEED: u64 = 1000;

/// The wish to move a piece, named by its place in the board's list of
/// pieces, to a position.
#[derive(Debug, Clone, Copy, PartialEq, Eq, Structural)]
pub struct MoveEvent {
    pub piece_entity: usize,
    pub target_node: usize,
}

/// A move in flight: where the piece is shown to start from, where it is
/// going, and how far it has come.
#[derive(Debug, Clone, Copy, PartialEq, Eq, Structural)]
pub struct MovingPiece {
    pub start_node: usize,
    pub target_node: usize,
    pub progress: u32,
}

impl MovingPiece {
    /// The move has arrived.
    pub open spec fn is_complete(self) -> bool {
        self.progress >= PROGRESS_COMPLETE
    }

    /// The move as it stands after `elapsed_micros` microseconds more at the
    /// given speed: a move that has arrived stays as it is, another advances
    /// by time times speed and stops at the target.
    pub open spec fn advanced(self, elapsed_micros: u64, speed: u64) -> MovingPiece {
        if self.progress < PROGRESS_COMPLETE {
            let reached = self.progress + elapsed_micros * speed;
            MovingPiece {
                progress: if reached < PROGRESS_COMPLETE {
                    reached as u32
                } else {
                    PROGRESS_COMPLETE
                },
                ..self
            }
        } else {
            self
        }
    }
}

/// The pieces, and for each of them its move in flight, if it has one.
#[derive(Debug)]
pub struct Board {
    pub pieces: Vec<Piece>,
    pub moving: Vec<Option<MovingPiece>>,
}

/// What a board holds, as mathematical sequences.
pub struct BoardView {
    pub pieces: Seq<Piece>,
    pub moving: Seq<Option<MovingPiece>>,
}

impl View for Board {
    type V = BoardView;

    open spec fn view(&self) -> BoardView {
        BoardView { pieces: self.pieces@, moving: self.moving@ }
    }
}

/// The speed at which moves travel under the given settings.
pub open spec fn animation_speed(settings: GameSettings) -> u64 {
    if settings.instant_animation {
        INSTANT_SPEED
    } else {
        ANIMATION_SPEED
    }
}

impl BoardView {
    /// The eight pieces stand on distinct positions, and a piece in flight
    /// already counts as standing on its target.
    pub open spec fn well_formed(self) -> bool {
        &&& valid_placement(self.pieces)
        &&& self.moving.len() == self.pieces.len()
        &&& forall|i: int|
            0 <= i < self.moving.len() ==> (#[trigger] self.moving[i] matches Some(flight)
                ==> flight.progress <= PROGRESS_COMPLETE && flight.target_node
                == self.pieces[i].node_index && flight.start_node <= CENTER_INDEX)
    }

    /// Some piece is in flight.
    pub open spec fn any_moving(self) -> bool {
        exists|i: int| 0 <= i < self.moving.len() && #[trigger] self.moving[i] is Some
    }

    /// At most one piece is in flight.
    pub open spec fn serialized(self) -> bool {
        forall|i: int, j: int|
            0 <= i < self.moving.len() && 0 <= j < self.moving.len() && #[trigger] self.moving[i]
                is Some && #[trigger] self.moving[j] is Some ==> i == j
    }

    /// The board at the start of a game, nothing in flight.
    pub open spec fn initial() -> BoardView {
        BoardView {
            pieces: initial_placement(),
            moving: Seq::new(PIECE_COUNT as nat, |i: int| None::<MovingPiece>),
        }
    }

    /// The move is taken: the game is in progress, nothing is in flight, the
    /// piece exists and belongs to the side to move, and the rules allow the
    /// move.
    pub open spec fn accepts(self, state: GameState, event: MoveEvent) -> bool {
        &&& !state.game_over
        &&& !self.any_moving()
        &&& event.piece_entity < self.pieces.len()
        &&& self.pieces[event.piece_entity as int].color == state.current_turn
        &&& legal_move(self.pieces[event.piece_entity as int], self.pieces, event.target_node)
    }

    /// The board once the move is under way: the piece stands on its target
    /// at once and starts its flight there, or, when moves are shown at once,
    /// has already arrived.
    pub open spec fn with_move(self, settings: GameSettings, event: MoveEvent) -> BoardView {
        let piece = self.pieces[event.piece_entity as int];
        let flight = if settings.instant_animation {
            MovingPiece {
                start_node: event.target_node,
                target_node: event.target_node,
                progress: PROGRESS_COMPLETE,
            }
        } else {
            MovingPiece { start_node: piece.node_index, target_node: event.target_node, progress: 0 }
        };
        BoardView {
            pieces: self.pieces.update(
                event.piece_entity as int,
                Piece { node_index: event.target_node, ..piece },
            ),
            moving: self.moving.update(event.piece_entity as int, Some(flight)),
        }
    }

    /// The board after one wish: changed when it is taken, else as it was.
    pub open spec fn handle(
        self,
        state: GameState,
        settings: GameSettings,
        event: MoveEvent,
    ) -> BoardView {
        if self.accepts(state, event) {
            self.with_move(settings, event)
        } else {
            self
        }
    }

    /// The board after a list of wishes, handled in their order.
    pub open spec fn handle_all(
        self,
        state: GameState,
        settings: GameSettings,
        events: Seq<MoveEvent>,
    ) -> BoardView
        decreases events.len(),
    {
        if events.len() == 0 {
            self
        } else {
            self.handle_all(state, settings, events.drop_last()).handle(
                state,
                settings,
                events.last(),
            )
        }
    }

    /// The board after `elapsed_micros` microseconds of travel.
    pub open spec fn animated(self, elapsed_micros: u64, settings: GameSettings) -> BoardView {
        BoardView {
            pieces: self.pieces,
            moving: Seq::new(
                self.moving.len(),
                |i: int|
                    match self.moving[i] {
                        Some(flight) => Some(
                            flight.advanced(elapsed_micros, animation_speed(settings)),
                        ),
                        None => None,
                    },
            ),
        }
    }

    /// The piece at place `i` is in flight and has arrived.
    pub open spec fn arrived(self, i: int) -> bool {
        self.moving[i] matches Some(flight) && flight.is_complete()
    }

    /// The board once every move that has arrived is taken out of flight.
    pub open spec fn landed(self) -> BoardView {
        BoardView {
            pieces: self.pieces,
            moving: Seq::new(
                self.moving.len(),
                |i: int|
                    if self.arrived(i) {
                        None
                    } else {
                        self.moving[i]
                    },
            ),
        }
    }

    /// The turn state after the moves that have arrived among the first
    /// `upto` pieces were each recorded, in the order of the pieces.
    pub open spec fn state_after_arrivals(self, state: GameState, upto: int) -> GameState
        decreases upto,
    {
        if upto <= 0 {
            state
        } else {
            let before = self.state_after_arrivals(state, upto - 1);
            if self.arrived(upto - 1) {
                let mover = self.pieces[upto - 1].color;
                before.after_move(mover, side_can_move(mover.spec_opposite(), self.pieces))
            } else {
                before
            }
        }
    }

    /// The notices that go out for the moves that have arrived among the
    /// first `upto` pieces, in the order of the pieces.
    pub open spec fn notices_for_arrivals(self, upto: int) -> Seq<Notification>
        decreases upto,
    {
        if upto <= 0 {
            Seq::empty()
        } else {
            let before = self.notices_for_arrivals(upto - 1);
            if self.arrived(upto - 1) {
                let mover = self.pieces[upto - 1].color;
                before.push(
                    Notification::after_move(
                        mover,
                        side_can_move(mover.spec_opposite(), self.pieces),
                    ),
                )
            } else {
                before
            }
        }
    }
}

impl Board {
    /// The board at the start of a game.
    pub fn new() -> (board: Board)
        ensures
            board@ == BoardView::initial(),
            board@.well_formed(),
            !board@.any_moving(),
    {
        let pieces = initial_pieces();
        let mut moving: Vec<Option<MovingPiece>> = Vec::new();
        let mut i: usize = 0;
        while i < PIECE_COUNT
            invariant
                i <= PIECE_COUNT,
                moving@.len() == i,
                forall|k: int| 0 <= k < i ==> #[trigger] moving@[k] is None,
            decreases PIECE_COUNT - i,
        {
            moving.push(None);
            i += 1;
        }
        let board = Board { pieces, moving };
        assert(board@.moving =~= BoardView::initial().moving);
        board
    }

    /// Whether the board is well formed: eight pieces on distinct positions,
    /// and every piece in flight on its target already.
    pub fn is_well_formed(&self) -> (valid: bool)
        ensures
            valid == self@.well_formed(),
    {
        if !is_valid_placement(&self.pieces) || self.moving.len() != self.pieces.len() {
            return false;
        }
        let mut i: usize = 0;
        while i < self.moving.len()
            invariant
                i <= self.moving.len(),
                self.moving@.len() == self.pieces@.len(),
                forall|k: int|
                    0 <= k < i ==> (#[trigger] self.moving@[k] matches Some(flight)
                        ==> flight.progress <= PROGRESS_COMPLETE && flight.target_node
                        == self.pieces@[k].node_index && flight.start_node <= CENTER_INDEX),
            decreases self.moving.len() - i,
        {
            if let Some(flight) = self.moving[i] {
                if flight.progress > PROGRESS_COMPLETE || flight.target_node
                    != self.pieces[i].node_index || flight.start_node > CENTER_INDEX {
                    return false;
                }
            }
            i += 1;
        }
        true
    }

    /// Puts the pieces back where a game starts and ends every flight.
    pub fn reset(&mut self)
        ensures
            final(self)@ == BoardView::initial(),
            final(self)@.well_formed(),
            !final(self)@.any_moving(),
    {
        *self = Board::new();
    }
}

/// Whether any piece is in flight.
pub fn is_any_piece_moving(board: &Board) -> (moving: bool)
    ensures
        moving == board@.any_moving(),
{
    let mut i: usize = 0;
    while i < board.moving.len()
        invariant
            i <= board.moving.len(),
            forall|k: int| 0 <= k < i ==> #[trigger] board.moving@[k] is None,
        decreases board.moving.len() - i,
    {
        if board.moving[i].is_some() {
            return true;
        }
        i += 1;
    }
    false
}

/// Whether the piece at place `entity` is in flight. A place that holds no
/// piece is not.
pub fn is_piece_moving(entity: usize, board: &Board) -> (moving: bool)
    ensures
        moving == (entity < board@.moving.len() && board@.moving[entity as int] is Some),
{
    entity < board.moving.len() && board.moving[entity].is_some()
}

/// A move that the board takes leaves it well formed, with exactly the moved
/// piece in flight.
pub proof fn lemma_accepted_move_keeps_board(
    board: BoardView,
    state: GameState,
    settings: GameSettings,
    event: MoveEvent,
)
    requires
        board.well_formed(),
        board.accepts(state, event),
    ensures
        board.with_move(settings, event).well_formed(),
        board.with_move(settings, event).serialized(),
        board.with_move(settings, event).any_moving(),
        node_empty(
            board.pieces[event.piece_entity as int].node_index,
            board.with_move(settings, event).pieces,
        ),
{
    let after = board.with_move(settings, event);
    let moved = event.piece_entity as int;
    assert(after.moving[moved] is Some);
    assert forall|i: int| 0 <= i < after.moving.len() && i != moved implies after.moving[i]
        is None by {
        assert(board.moving[i] is None);
    }
    assert forall|i: int, j: int| 0 <= i < j < after.pieces.len() implies (
    #[trigger] after.pieces[i]).node_index != (#[trigger] after.pieces[j]).node_index by {
        assert(board.pieces[i].node_index != board.pieces[j].node_index);
        assert(board.pieces[i].node_index != event.target_node);
        assert(board.pieces[j].node_index != event.target_node);
    }
    assert forall|i: int| 0 <= i < after.pieces.len() implies (
    #[trigger] after.pieces[i]).node_index != board.pieces[moved].node_index by {
        if i != moved {
            if i < moved {
                assert(board.pieces[i].node_index != board.pieces[moved].node_index);
            } else {
                assert(board.pieces[moved].node_index != board.pieces[i].node_index);
            }
        }
    }
}

/// Takes a move if the game is in progress, nothing is in flight, the piece
/// belongs to the side to move and the rules allow the move; any other wish
/// leaves the board as it was. A move that is taken puts the piece on its
/// target at once and starts its flight.
pub fn accept(
    board: &mut Board,
    state: &GameState,
    settings: &GameSettings,
    event: &MoveEvent,
) -> (accepted: bool)
    requires
        old(board)@.well_formed(),
    ensures
        accepted == old(board)@.accepts(*state, *event),
        final(board)@ == old(board)@.handle(*state, *settings, *event),
        final(board)@.well_formed(),
        old(board)@.serialized() ==> final(board)@.serialized(),
        old(board)@.any_moving() || state.game_over ==> !accepted && final(board)@ == old(board)@,
        accepted ==> final(board)@.any_moving(),
{
    if state.game_over || is_any_piece_moving(board) {
        return false;
    }
    if event.piece_entity >= board.pieces.len() {
        return false;
    }
    let piece = board.pieces[event.piece_entity];
    if piece.color != state.current_turn {
        return false;
    }
    let moves = get_valid_moves(&piece, &board.pieces);
    if !contains_node(&moves, event.target_node) {
        return false;
    }
    proof {
        lemma_accepted_move_keeps_board(board@, *state, *settings, *event);
    }
    let flight = if settings.instant_animation {
        MovingPiece {
            start_node: event.target_node,
            target_node: event.target_node,
            progress: PROGRESS_COMPLETE,
        }
    } else {
        MovingPiece { start_node: piece.node_index, target_node: event.target_node, progress: 0 }
    };
    board.pieces.set(
        event.piece_entity,
        Piece { color: piece.color, node_index: event.target_node },
    );
    board.moving.set(event.piece_entity, Some(flight));
    assert(board@ == old(board)@.with_move(*settings, *event));
    true
}

/// Handles the wishes of one step in their order. The first one that can be
/// taken starts a flight, and every later one is then turned away.
pub fn handle_move_events(
    board: &mut Board,
    state: &GameState,
    settings: &GameSettings,
    events: &Vec<MoveEvent>,
) -> (accepted: usize)
    requires
        old(board)@.well_formed(),
    ensures
        final(board)@ == old(board)@.handle_all(*state, *settings, events@),
        final(board)@.well_formed(),
        old(board)@.serialized() ==> final(board)@.serialized(),
        old(board)@.any_moving() || state.game_over ==> accepted == 0 && final(board)@ == old(
            board,
        )@,
        accepted <= 1,
        accepted == 1 <==> final(board)@ != old(board)@,
{
    let mut accepted: usize = 0;
    let mut i: usize = 0;
    while i < events.len()
        invariant
            i <= events.len(),
            board@.well_formed(),
            board@ == old(board)@.handle_all(*state, *settings, events@.take(i as int)),
            old(board)@.serialized() ==> board@.serialized(),
            old(board)@.any_moving() || state.game_over ==> accepted == 0 && board@ == old(
                board,
            )@,
            accepted <= 1,
            accepted == 1 ==> board@.any_moving() && !old(board)@.any_moving(),
            accepted == 1 <==> board@ != old(board)@,
        decreases events.len() - i,
    {
        assert(events@.take(i + 1).drop_last() =~= events@.take(i as int));
        let ghost before = board@;
        if accept(board, state, settings, &events[i]) {
            assert(before.moving[events@[i as int].piece_entity as int] is None);
            accepted += 1;
        }
        i += 1;
    }
    assert(events@.take(i as int) =~= events@);
    accepted
}

/// Advances every flight by `elapsed_micros` microseconds. A flight that has
/// arrived stays where it is.
pub fn animate_pieces(board: &mut Board, elapsed_micros: u64, settings: &GameSettings)
    requires
        old(board)@.well_formed(),
    ensures
        final(board)@ == old(board)@.animated(elapsed_micros, *settings),
        final(board)@.well_formed(),
        final(board)@.any_moving() == old(board)@.any_moving(),
        old(board)@.serialized() ==> final(board)@.serialized(),
{
    let speed: u64 = if settings.instant_animation {
        INSTANT_SPEED
    } else {
        ANIMATION_SPEED
    };
    let mut i: usize = 0;
    while i < board.moving.len()
        invariant
            i <= board.moving.len(),
            speed == animation_speed(*settings),
            board.pieces == old(board).pieces,
            board.moving@.len() == old(board).moving@.len(),
            old(board)@.well_formed(),
            forall|k: int|
                0 <= k < i ==> #[trigger] board.moving@[k] == old(board)@.animated(
                    elapsed_micros,
                    *settings,
                ).moving[k],
            forall|k: int| i <= k < board.moving@.len() ==> board.moving@[k] == old(board).moving@[k],
        decreases board.moving.len() - i,
    {
        if let Some(flight) = board.moving[i] {
            if flight.progress < PROGRESS_COMPLETE {
                let progress: u32 = if elapsed_micros >= 1_000_000 {
                    assert(elapsed_micros * speed >= 1_000_000) by (nonlinear_arith)
                        requires
                            elapsed_micros >= 1_000_000,
                            speed >= 1,
                    ;
                    PROGRESS_COMPLETE
                } else {
                    assert(elapsed_micros * speed <= 1_000_000_000) by (nonlinear_arith)
                        requires
                            elapsed_micros < 1_000_000,
                            speed <= 1000,
                    ;
                    let reached: u64 = flight.progress as u64 + elapsed_micros * speed;
                    if reached < PROGRESS_COMPLETE as u64 {
                        reached as u32
                    } else {
                        PROGRESS_COMPLETE
                    }
                };
                board.moving.set(
                    i,
                    Some(
                        MovingPiece {
                            start_node: flight.start_node,
                            target_node: flight.target_node,
                            progress,
                        },
                    ),
                );
            }
        }
        i += 1;
    }
    proof {
        let after = old(board)@.animated(elapsed_micros, *settings);
        assert(board@.moving =~= after.moving);
        lemma_animated_keeps_board(old(board)@, elapsed_micros, *settings);
    }
}

/// Travel changes no placement and keeps every flight a flight.
pub proof fn lemma_animated_keeps_board(
    board: BoardView,
    elapsed_micros: u64,
    settings: GameSettings,
)
    requires
        board.well_formed(),
    ensures
        board.animated(elapsed_micros, settings).well_formed(),
        board.animated(elapsed_micros, settings).any_moving() == board.any_moving(),
        board.serialized() ==> board.animated(elapsed_micros, settings).serialized(),
        board.animated(elapsed_micros, settings).pieces == board.pieces,
{
    let after = board.animated(elapsed_micros, settings);
    assert forall|i: int| 0 <= i < after.moving.len() implies (after.moving[i] is Some)
        == (board.moving[i] is Some) by {}
    if board.any_moving() {
        let i = choose|i: int| 0 <= i < board.moving.len() && #[trigger] board.moving[i] is Some;
        assert(after.moving[i] is Some);
    }
    if after.any_moving() {
        let i = choose|i: int| 0 <= i < after.moving.len() && #[trigger] after.moving[i] is Some;
        assert(board.moving[i] is Some);
    }
    if board.serialized() {
        assert forall|i: int, j: int|
            0 <= i < after.moving.len() && 0 <= j < after.moving.len() && #[trigger] after.moving[i]
                is Some && #[trigger] after.moving[j] is Some implies i == j by {
            assert(board.moving[i] is Some);
            assert(board.moving[j] is Some);
        }
    }
}

/// Takes every move that has arrived out of flight and records it in the
/// turn state, in the order of the pieces: the game ends in the mover's favour
/// when the other side has no legal move, and otherwise the turn passes to the
/// other side. Returns one notice for each move that has arrived.
pub fn check_animation_complete(board: &mut Board, state: &mut GameState) -> (notices: Vec<
    Notification,
>)
    requires
        old(board)@.well_formed(),
    ensures
        final(board)@ == old(board)@.landed(),
        final(board)@.well_formed(),
        *final(state) == old(board)@.state_after_arrivals(
            *old(state),
            old(board)@.pieces.len() as int,
        ),
        notices@ == old(board)@.notices_for_arrivals(old(board)@.pieces.len() as int),
        old(state).wf() ==> final(state).wf(),
        old(board)@.serialized() ==> final(board)@.serialized(),
{
    let mut notices: Vec<Notification> = Vec::new();
    let mut i: usize = 0;
    while i < board.moving.len()
        invariant
            i <= board.moving.len(),
            board.pieces == old(board).pieces,
            board.moving@.len() == old(board).moving@.len(),
            old(board)@.well_formed(),
            forall|k: int|
                0 <= k < i ==> #[trigger] board.moving@[k] == old(board)@.landed().moving[k],
            forall|k: int| i <= k < board.moving@.len() ==> board.moving@[k] == old(board).moving@[k],
            *state == old(board)@.state_after_arrivals(*old(state), i as int),
            notices@ == old(board)@.notices_for_arrivals(i as int),
            old(state).wf() ==> state.wf(),
        decreases board.moving.len() - i,
    {
        if let Some(flight) = board.moving[i] {
            if flight.progress >= PROGRESS_COMPLETE {
                board.moving.set(i, None);
                let mover = board.pieces[i].color;
                let opponent_can_move = has_any_valid_moves(mover.opposite(), &board.pieces);
                let notice = state.finish_move(mover, opponent_can_move);
                notices.push(notice);
            }
        }
        i += 1;
    }
    proof {
        assert(board@.moving =~= old(board)@.landed().moving);
        lemma_landed_keeps_board(old(board)@);
    }
    notices
}

/// Landing changes no placement, leaves no arrived move in flight, and puts
/// nothing new in flight.
pub proof fn lemma_landed_keeps_board(board: BoardView)
    requires
        board.well_formed(),
    ensures
        board.landed().well_formed(),
        board.landed().pieces == board.pieces,
        board.serialized() ==> board.landed().serialized(),
        forall|i: int| 0 <= i < board.moving.len() ==> !board.landed().arrived(i),
{
    let after = board.landed();
    if board.serialized() {
        assert forall|i: int, j: int|
            0 <= i < after.moving.len() && 0 <= j < after.moving.len() && #[trigger] after.moving[i]
                is Some && #[trigger] after.moving[j] is Some implies i == j by {
            assert(board.moving[i] is Some);
            assert(board.moving[j] is Some);
        }
    }
}

} // verus!
