use maze_core::level::MazeLevel;
use maze_core::menu::{
    activate_menu, apply_complexity, build_pause_menu, build_start_menu, cycle_complexity,
    new_game, restart_game, MenuAction, NewGameRequested, MENU_ZINDEX,
};
use maze_core::settings::{AppState, Complexity, GameSettings};

#[test]
fn the_menu_is_drawn_in_front() {
    assert_eq!(MENU_ZINDEX, i32::MAX - 10);
}

#[test]
fn start_menu_entries() {
    let menu = build_start_menu(7, true);
    let labels: Vec<&str> = menu.items.iter().map(|item| item.label.as_str()).collect();
    assert_eq!(labels, vec!["New Game", "Size: 30x30", "Exit"]);
    assert_eq!(
        menu.items[0].action,
        MenuAction::RunSystem { system: 7, next_state: Some(AppState::InGame) }
    );
    assert_eq!(menu.items[1].action, MenuAction::CycleComplexity);
    assert_eq!(menu.items[2].action, MenuAction::Exit);
    let menu = build_start_menu(7, false);
    assert_eq!(menu.items.len(), 2);
    assert_eq!(menu.items[1].label, "Size: 30x30");
}

#[test]
fn pause_menu_entries() {
    let menu = build_pause_menu(2, true);
    let labels: Vec<&str> = menu.items.iter().map(|item| item.label.as_str()).collect();
    assert_eq!(labels, vec!["Resume", "Restart", "Size: 30x30", "Exit"]);
    assert_eq!(menu.items[0].action, MenuAction::ChangeState(AppState::InGame));
    assert_eq!(
        menu.items[1].action,
        MenuAction::RunSystem { system: 2, next_state: Some(AppState::InGame) }
    );
    assert_eq!(menu.items[2].action, MenuAction::CycleComplexity);
    assert_eq!(menu.items[3].action, MenuAction::Exit);
    assert_eq!(build_pause_menu(2, false).items.len(), 3);
}

#[test]
fn choosing_sets_off_the_entry_picked_out() {
    let menu = build_pause_menu(2, true);
    assert_eq!(activate_menu(&menu.items, 0, true), Some(MenuAction::ChangeState(AppState::InGame)));
    assert_eq!(activate_menu(&menu.items, 3, true), Some(MenuAction::Exit));
    assert_eq!(activate_menu(&menu.items, 4, true), None);
    assert_eq!(activate_menu(&menu.items, 0, false), None);
    assert_eq!(activate_menu(&Vec::new(), 0, true), None);
}

#[test]
fn a_new_game_is_taken_note_of() {
    let mut requested = NewGameRequested::default();
    assert_eq!(requested, NewGameRequested(false));
    new_game(&mut requested);
    assert_eq!(requested, NewGameRequested(true));
}

#[test]
fn restart_rebuilds_in_the_size_that_is_set() {
    let mut level = MazeLevel::new(2, 2);
    let settings = GameSettings { complexity: Complexity::Small };
    restart_game(&mut level, &settings);
    assert_eq!(level.dimensions(), (31, 31));
    assert_eq!(level.generation, 1);
    restart_game(&mut level, &settings);
    assert_eq!(level.generation, 2);
}

#[test]
fn without_a_request_the_maze_stays() {
    let mut level = MazeLevel::new(2, 2);
    let map = level.map.clone();
    let mut requested = NewGameRequested(false);
    apply_complexity(&mut level, &GameSettings::default(), &mut requested);
    assert_eq!(level.map, map);
    assert_eq!(level.generation, 0);
    assert_eq!(requested, NewGameRequested(false));
}

#[test]
fn a_request_rebuilds_the_maze_and_is_taken_off() {
    let mut level = MazeLevel::new(2, 2);
    let mut requested = NewGameRequested(true);
    apply_complexity(&mut level, &GameSettings::default(), &mut requested);
    assert_eq!(level.dimensions(), (61, 61));
    assert_eq!(level.generation, 1);
    assert_eq!(requested, NewGameRequested(false));
}

#[test]
fn a_maze_as_wide_and_high_as_the_rooms_asked_for_stays() {
    // 15 cells a side is what 7 rooms a side give
    let mut level = MazeLevel::new(7, 7);
    let map = level.map.clone();
    let mut requested = NewGameRequested(true);
    apply_complexity(&mut level, &GameSettings { complexity: Complexity::Small }, &mut requested);
    assert_eq!(level.map, map);
    assert_eq!(level.generation, 0);
    assert_eq!(requested, NewGameRequested(false));
}

#[test]
fn sizes_go_round() {
    let mut settings = GameSettings::default();
    cycle_complexity(&mut settings);
    assert_eq!(settings.complexity, Complexity::Large);
    cycle_complexity(&mut settings);
    assert_eq!(settings.complexity, Complexity::Small);
    cycle_complexity(&mut settings);
    assert_eq!(settings.complexity, Complexity::Medium);
}
