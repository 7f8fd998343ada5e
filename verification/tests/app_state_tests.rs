use magic_eye::app_state::{
    cap_web_viewport, global_escape, menu_input, settings_input, toggle_label, AppState,
    DEFAULT_HEIGHT, DEFAULT_WIDTH,
};
use magic_eye::tetris::{test_piece_cells, COLS, ROWS};

#[test]
fn default_state_is_menu() {
    assert_eq!(AppState::default(), AppState::Menu);
}

#[test]
fn escape_returns_to_menu() {
    assert_eq!(global_escape(true, AppState::Pong), Some(AppState::Menu));
    assert_eq!(global_escape(true, AppState::Tetris), Some(AppState::Menu));
    assert_eq!(global_escape(true, AppState::Settings), Some(AppState::Menu));
    assert_eq!(global_escape(true, AppState::Menu), None);
    assert_eq!(global_escape(false, AppState::Pong), None);
}

#[test]
fn menu_takes_last_pressed_button() {
    assert_eq!(menu_input(&vec![]), None);
    assert_eq!(menu_input(&vec![(false, AppState::Tetris)]), None);
    assert_eq!(menu_input(&vec![(true, AppState::Tetris)]), Some(AppState::Tetris));
    assert_eq!(
        menu_input(&vec![(true, AppState::Tetris), (true, AppState::Pong), (false, AppState::Tetris)]),
        Some(AppState::Pong)
    );
}

#[test]
fn settings_toggle_flips_per_press() {
    assert_eq!(settings_input(true, &vec![true], &vec![]), (false, None));
    assert_eq!(settings_input(false, &vec![true, false], &vec![false]), (true, None));
    assert_eq!(settings_input(true, &vec![true, true], &vec![]), (true, None));
    assert_eq!(settings_input(false, &vec![], &vec![false, true]), (false, Some(AppState::Menu)));
}

#[test]
fn toggle_labels() {
    assert_eq!(toggle_label(true), "Magic Eye: ON");
    assert_eq!(toggle_label(false), "Magic Eye: OFF");
}

#[test]
fn web_viewport_is_capped() {
    assert_eq!(cap_web_viewport(390, 844), (390, 844));
    assert_eq!(cap_web_viewport(1920, 1080), (430, 932));
    assert_eq!(cap_web_viewport(430, 932), (430, 932));
    assert_eq!((DEFAULT_WIDTH, DEFAULT_HEIGHT), (400, 800));
}

#[test]
fn test_piece_sits_on_the_board() {
    let cells = test_piece_cells();
    assert_eq!(cells, vec![(3, 18), (4, 18), (5, 18), (6, 18)]);
    assert!(cells.iter().all(|&(c, r)| 0 <= c && c < COLS && 0 <= r && r < ROWS));
}
