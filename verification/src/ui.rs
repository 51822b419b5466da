//! The words that go with the state of a game.

use vstd::prelude::*;

use crate::expression::{decimal, number_text};
use crate::problem::MathProblem;
use crate::state::{GameState, PieceColor};

verus! {

/// The line that says who has won.
pub fn winner_text(winner: PieceColor) -> (text: &'static str)
    ensures
        text@ == match winner {
            PieceColor::White => "White Wins!"@,
            PieceColor::Black => "Black Wins!"@,
        },
{
    match winner {
        PieceColor::White => "White Wins!",
        PieceColor::Black => "Black Wins!",
    }
}

/// The line above the board: who has won once the game is over, and whose
/// turn it is before that.
pub fn turn_indicator_text(state: &GameState) -> (text: &'static str)
    ensures
        text@ == if state.game_over {
            match state.winner {
                Some(PieceColor::White) => "White Wins!"@,
                Some(PieceColor::Black) => "Black Wins!"@,
                None => "Game Over"@,
            }
        } else {
            match state.current_turn {
                PieceColor::White => "White's Turn"@,
                PieceColor::Black => "Black's Turn"@,
            }
        },
{
    if state.game_over {
        match state.winner {
            Some(winner) => winner_text(winner),
            None => "Game Over",
        }
    } else {
        match state.current_turn {
            PieceColor::White => "White's Turn",
            PieceColor::Black => "Black's Turn",
        }
    }
}

/// How an answer on offer is shown.
#[derive(Debug, Clone, Copy, PartialEq, Eq, Structural)]
pub enum ChoiceMark {
    /// No answer has been given yet.
    Open,
    /// The right answer, once an answer has been given.
    Right,
    /// The wrong answer that the player chose.
    Wrong,
    /// Another wrong answer.
    Dimmed,
}

/// How the answer at place `index` is shown.
pub fn choice_mark(problem: &MathProblem, index: usize) -> (mark: ChoiceMark)
    ensures
        mark == if !problem.answered {
            ChoiceMark::Open
        } else if index == problem.correct_index {
            ChoiceMark::Right
        } else if problem.player_choice == Some(index) {
            ChoiceMark::Wrong
        } else {
            ChoiceMark::Dimmed
        },
{
    if !problem.answered {
        ChoiceMark::Open
    } else if index == problem.correct_index {
        ChoiceMark::Right
    } else {
        match problem.player_choice {
            Some(choice) if choice == index => ChoiceMark::Wrong,
            _ => ChoiceMark::Dimmed,
        }
    }
}

/// The line under a problem: nothing before the player has answered, then
/// praise for the right answer, or else the right answer itself.
pub fn result_text(problem: &MathProblem) -> (text: String)
    ensures
        text@ == if !problem.answered {
            Seq::<char>::empty()
        } else if problem.player_choice == Some(problem.correct_index) {
            "Correct!"@
        } else {
            "The answer was "@ + decimal(problem.answer as int)
        },
{
    if problem.answered {
        if problem.is_correct() {
            String::from_str("Correct!")
        } else {
            let mut text = String::from_str("The answer was ");
            text.append(number_text(problem.answer).as_str());
            text
        }
    } else {
        String::new()
    }
}

} // verus!
