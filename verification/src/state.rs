//! Whose turn it is, whether the game has ended, and who won.

use vstd::prelude::*;

verus! {

/// Who controls Black.
#[derive(Debug, Clone, Copy, PartialEq, Eq, Structural, Hash)]
pub enum GameMode {
    VsPlayer,
    VsComputer,
}

impl Default for GameMode {
    fn default() -> (mode: Self)
        ensures
            mode == GameMode::VsPlayer,
    {
        GameMode::VsPlayer
    }
}

/// The two sides.
#[derive(Debug, Clone, Copy, PartialEq, Eq, Structural, Hash)]
pub enum PieceColor {
    White,
    Black,
}

impl Default for PieceColor {
    fn default() -> (color: Self)
        ensures
            color == PieceColor::White,
    {
        PieceColor::White
    }
}

impl PieceColor {
    /// The other side.
    pub open spec fn spec_opposite(self) -> PieceColor {
        match self {
            PieceColor::White => PieceColor::Black,
            PieceColor::Black => PieceColor::White,
        }
    }

    /// The other side.
    #[verifier::when_used_as_spec(spec_opposite)]
    pub fn opposite(self) -> (other: Self)
        ensures
            other == self.spec_opposite(),
            other != self,
    {
        match self {
            PieceColor::White => PieceColor::Black,
            PieceColor::Black => PieceColor::White,
        }
    }
}

/// Options chosen outside the game.
#[derive(Debug, Clone, Copy, PartialEq, Eq, Structural)]
pub struct GameSettings {
    pub mode: GameMode,
    pub instant_animation: bool,
}

impl Default for GameSettings {
    fn default() -> (settings: Self)
        ensures
            settings == (GameSettings { mode: GameMode::VsPlayer, instant_animation: false }),
    {
        GameSettings { mode: GameMode::VsPlayer, instant_animation: false }
    }
}

/// The turn state: in progress with a side to move, or over with a winner.
#[derive(Debug, Clone, Copy, PartialEq, Eq, Structural)]
pub struct GameState {
    pub current_turn: PieceColor,
    pub game_over: bool,
    pub winner: Option<PieceColor>,
}

impl Default for GameState {
    fn default() -> (state: Self)
        ensures
            state == GameState::initial(),
    {
        GameState { current_turn: PieceColor::White, game_over: false, winner: None }
    }
}

impl GameState {
    /// A winner is recorded exactly when the game is over.
    pub open spec fn wf(self) -> bool {
        self.game_over <==> self.winner is Some
    }

    /// The state a game starts in: White to move, nobody has won.
    pub open spec fn initial() -> GameState {
        GameState { current_turn: PieceColor::White, game_over: false, winner: None }
    }

    /// The state after `mover` has finished a move, where `opponent_can_move`
    /// says whether the other side has any legal move left.
    pub open spec fn after_move(self, mover: PieceColor, opponent_can_move: bool) -> GameState {
        if opponent_can_move {
            GameState { current_turn: mover.spec_opposite(), ..self }
        } else {
            GameState { game_over: true, winner: Some(mover), ..self }
        }
    }

    /// Records that `mover` has finished a move: the game ends in the mover's
    /// favour when the other side is blocked, and otherwise the turn passes.
    /// Returns the notice to hand to whoever shows the game.
    pub fn finish_move(&mut self, mover: PieceColor, opponent_can_move: bool) -> (notice:
        Notification)
        ensures
            *final(self) == old(self).after_move(mover, opponent_can_move),
            notice == Notification::after_move(mover, opponent_can_move),
            old(self).wf() ==> final(self).wf(),
    {
        if opponent_can_move {
            let next = mover.opposite();
            self.current_turn = next;
            Notification::TurnChange(TurnChangeEvent { new_turn: next })
        } else {
            self.game_over = true;
            self.winner = Some(mover);
            Notification::GameOver(GameOverEvent { winner: mover })
        }
    }

    /// Returns to the start of a game.
    pub fn reset(&mut self)
        ensures
            *final(self) == GameState::initial(),
            final(self).wf(),
    {
        self.current_turn = PieceColor::White;
        self.game_over = false;
        self.winner = None;
    }
}

/// Notice that the turn has passed to `new_turn`.
#[derive(Debug, Clone, Copy, PartialEq, Eq, Structural)]
pub struct TurnChangeEvent {
    pub new_turn: PieceColor,
}

/// Notice that the game has ended in favour of `winner`.
#[derive(Debug, Clone, Copy, PartialEq, Eq, Structural)]
pub struct GameOverEvent {
    pub winner: PieceColor,
}

/// What the game tells its surroundings: the turn has passed, or the game
/// has ended.
#[derive(Debug, Clone, Copy, PartialEq, Eq, Structural)]
pub enum Notification {
    TurnChange(TurnChangeEvent),
    GameOver(GameOverEvent),
}

impl Notification {
    /// The notice that goes out when `mover` has finished a move.
    pub open spec fn after_move(mover: PieceColor, opponent_can_move: bool) -> Notification {
        if opponent_can_move {
            Notification::TurnChange(TurnChangeEvent { new_turn: mover.spec_opposite() })
        } else {
            Notification::GameOver(GameOverEvent { winner: mover })
        }
    }
}

/// A game that is in progress ends with a finished move exactly when the other
/// side is left without a legal move; the mover is then the winner, and
/// otherwise the other side is to move.
pub proof fn lemma_game_over_iff_blocked(
    state: GameState,
    mover: PieceColor,
    opponent_can_move: bool,
)
    requires
        state.wf(),
        !state.game_over,
    ensures
        state.after_move(mover, opponent_can_move).wf(),
        state.after_move(mover, opponent_can_move).game_over <==> !opponent_can_move,
        !opponent_can_move ==> state.after_move(mover, opponent_can_move).winner == Some(mover),
        opponent_can_move ==> state.after_move(mover, opponent_can_move).current_turn
            == mover.spec_opposite(),
{
}

} // verus!
