//! Which screen is shown, and which menu lies over it.

use vstd::prelude::*;

verus! {

/// The games on offer.
#[derive(Debug, Clone, Copy, PartialEq, Eq, Structural, Hash)]
pub enum ActiveGame {
    MuTorere,
    MentalMath,
}

/// The screens: the main menu, and for each game its loading screen and the
/// game itself.
#[derive(Debug, Clone, Copy, PartialEq, Eq, Structural, Hash)]
pub enum Screen {
    MainMenu,
    Loading(ActiveGame),
    Playing(ActiveGame),
}

impl Default for Screen {
    fn default() -> (screen: Self)
        ensures
            screen == Screen::MainMenu,
    {
        Screen::MainMenu
    }
}

/// The menus that can lie over a screen.
#[derive(Debug, Clone, Copy, PartialEq, Eq, Structural, Hash)]
pub enum Menu {
    /// No menu is open.
    Closed,
    GameSelect,
    GameOptions,
    Settings,
    Pause,
}

impl Default for Menu {
    fn default() -> (menu: Self)
        ensures
            menu == Menu::Closed,
    {
        Menu::Closed
    }
}

/// The game that the player picked in the menu, if any.
#[derive(Debug, Clone, Copy, PartialEq, Eq, Structural)]
pub struct SelectedGame {
    pub game: Option<ActiveGame>,
}

impl Default for SelectedGame {
    fn default() -> (selected: Self)
        ensures
            selected.game is None,
    {
        SelectedGame { game: None }
    }
}

/// Whether some game is being played.
pub fn is_playing(screen: &Screen) -> (playing: bool)
    ensures
        playing == (*screen is Playing),
{
    match screen {
        Screen::Playing(_) => true,
        _ => false,
    }
}

/// Whether some game is being loaded.
pub fn is_loading(screen: &Screen) -> (loading: bool)
    ensures
        loading == (*screen is Loading),
{
    match screen {
        Screen::Loading(_) => true,
        _ => false,
    }
}

/// Whether the board game is being played.
pub fn is_playing_mu_torere(screen: &Screen) -> (playing: bool)
    ensures
        playing == (*screen == Screen::Playing(ActiveGame::MuTorere)),
{
    match screen {
        Screen::Playing(ActiveGame::MuTorere) => true,
        _ => false,
    }
}

/// Whether the arithmetic quiz is being played.
pub fn is_playing_mental_math(screen: &Screen) -> (playing: bool)
    ensures
        playing == (*screen == Screen::Playing(ActiveGame::MentalMath)),
{
    match screen {
        Screen::Playing(ActiveGame::MentalMath) => true,
        _ => false,
    }
}

/// The screen on which `game` starts: the game itself when everything it
/// needs is loaded, its loading screen otherwise.
pub fn starting_screen(game: ActiveGame, all_loaded: bool) -> (screen: Screen)
    ensures
        screen == if all_loaded {
            Screen::Playing(game)
        } else {
            Screen::Loading(game)
        },
{
    if all_loaded {
        Screen::Playing(game)
    } else {
        Screen::Loading(game)
    }
}

/// The screen that follows once loading is done: a loading screen gives way
/// to its game, any other screen stays.
pub fn screen_after_loading(screen: Screen) -> (next: Screen)
    ensures
        next == match screen {
            Screen::Loading(game) => Screen::Playing(game),
            other => other,
        },
{
    match screen {
        Screen::Loading(game) => Screen::Playing(game),
        other => other,
    }
}

} // verus!
