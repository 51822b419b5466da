//! Rules, turn handling and move sequencing for Mū Tōrere, a two-player game
//! played on eight rim positions around one centre, together with a small
//! arithmetic quiz.

pub mod animation;
pub mod board;
pub mod computer;
pub mod expression;
pub mod game;
pub mod input;
pub mod problem;
pub mod random;
pub mod reader;
pub mod scanner;
pub mod screens;
pub mod state;
pub mod ui;
