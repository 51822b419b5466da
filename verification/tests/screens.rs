use mu_torere::screens::{
    is_loading, is_playing, is_playing_mental_math, is_playing_mu_torere, screen_after_loading,
    starting_screen, ActiveGame, Menu, Screen, SelectedGame,
};

#[test]
fn defaults_are_main_menu_and_no_menu() {
    assert_eq!(Screen::default(), Screen::MainMenu);
    assert_eq!(Menu::default(), Menu::Closed);
    assert_eq!(SelectedGame::default().game, None);
}

#[test]
fn playing_and_loading_are_told_apart() {
    let screens = [
        Screen::MainMenu,
        Screen::Loading(ActiveGame::MuTorere),
        Screen::Loading(ActiveGame::MentalMath),
        Screen::Playing(ActiveGame::MuTorere),
        Screen::Playing(ActiveGame::MentalMath),
    ];
    let playing: Vec<bool> = screens.iter().map(is_playing).collect();
    assert_eq!(playing, vec![false, false, false, true, true]);
    let loading: Vec<bool> = screens.iter().map(is_loading).collect();
    assert_eq!(loading, vec![false, true, true, false, false]);
    let board: Vec<bool> = screens.iter().map(is_playing_mu_torere).collect();
    assert_eq!(board, vec![false, false, false, true, false]);
    let quiz: Vec<bool> = screens.iter().map(is_playing_mental_math).collect();
    assert_eq!(quiz, vec![false, false, false, false, true]);
}

#[test]
fn a_game_starts_on_its_loading_screen_until_loaded() {
    assert_eq!(
        starting_screen(ActiveGame::MuTorere, false),
        Screen::Loading(ActiveGame::MuTorere)
    );
    assert_eq!(
        starting_screen(ActiveGame::MuTorere, true),
        Screen::Playing(ActiveGame::MuTorere)
    );
    assert_eq!(
        starting_screen(ActiveGame::MentalMath, true),
        Screen::Playing(ActiveGame::MentalMath)
    );
}

#[test]
fn loading_gives_way_to_the_game() {
    assert_eq!(
        screen_after_loading(Screen::Loading(ActiveGame::MentalMath)),
        Screen::Playing(ActiveGame::MentalMath)
    );
    assert_eq!(
        screen_after_loading(Screen::Loading(ActiveGame::MuTorere)),
        Screen::Playing(ActiveGame::MuTorere)
    );
    assert_eq!(screen_after_loading(Screen::MainMenu), Screen::MainMenu);
    assert_eq!(
        screen_after_loading(Screen::Playing(ActiveGame::MuTorere)),
        Screen::Playing(ActiveGame::MuTorere)
    );
}
