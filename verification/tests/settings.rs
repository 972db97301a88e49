use maze_core::markers::{CameraSwawned, ExitPoint, MazeGamePlugins, OverlayCamera, OverlayCameraSpawned, ToolsPlugins};
use maze_core::settings::{update_mini_map_viewport, AppState, Complexity, GameSettings, MenuSelection};

#[test]
fn complexity_maze_sizes() {
    assert_eq!(Complexity::Small.maze_size(), (15, 15));
    assert_eq!(Complexity::Medium.maze_size(), (30, 30));
    assert_eq!(Complexity::Large.maze_size(), (60, 60));
}

#[test]
fn complexity_cycles_through_all_levels() {
    let small = Complexity::Small;
    let medium = small.next();
    let large = medium.next();
    let back_to_small = large.next();

    assert_eq!(medium, Complexity::Medium);
    assert_eq!(large, Complexity::Large);
    assert_eq!(back_to_small, Complexity::Small);
}

#[test]
fn complexity_labels() {
    assert_eq!(Complexity::Small.label(), "15x15");
    assert_eq!(Complexity::Medium.label(), "30x30");
    assert_eq!(Complexity::Large.label(), "60x60");
}

#[test]
fn default_complexity_is_medium() {
    assert_eq!(Complexity::default(), Complexity::Medium);
}

#[test]
fn default_game_settings_has_medium_complexity() {
    let settings = GameSettings::default();
    assert_eq!(settings.complexity, Complexity::Medium);
}

#[test]
fn the_program_begins_in_the_menu() {
    assert_eq!(AppState::default(), AppState::Menu);
}

#[test]
fn escape_pauses_and_resumes() {
    assert_eq!(AppState::InGame.after_escape(), Some(AppState::Paused));
    assert_eq!(AppState::Paused.after_escape(), Some(AppState::InGame));
    assert_eq!(AppState::Menu.after_escape(), None);
}

#[test]
fn selection_begins_at_the_top() {
    assert_eq!(MenuSelection::default(), MenuSelection(0));
}

#[test]
fn selection_steps_and_wraps() {
    let mut selection = MenuSelection(0);
    selection.navigate(3, false, true);
    assert_eq!(selection, MenuSelection(1));
    selection.navigate(3, false, true);
    assert_eq!(selection, MenuSelection(2));
    selection.navigate(3, false, true);
    assert_eq!(selection, MenuSelection(0));
    selection.navigate(3, true, false);
    assert_eq!(selection, MenuSelection(2));
    selection.navigate(3, true, false);
    assert_eq!(selection, MenuSelection(1));
    selection.navigate(3, false, false);
    assert_eq!(selection, MenuSelection(1));
}

#[test]
fn selection_up_and_down_at_once() {
    let mut selection = MenuSelection(1);
    selection.navigate(3, true, true);
    assert_eq!(selection, MenuSelection(1));
    let mut selection = MenuSelection(0);
    selection.navigate(3, true, true);
    assert_eq!(selection, MenuSelection(0));
    let mut selection = MenuSelection(0);
    selection.navigate(1, true, true);
    assert_eq!(selection, MenuSelection(0));
}

#[test]
fn the_greatest_selection_can_step_up_and_then_down() {
    let mut selection = MenuSelection(usize::MAX);
    selection.navigate(3, true, true);
    assert_eq!(selection, MenuSelection(usize::MAX % 3));
    let mut selection = MenuSelection(usize::MAX);
    selection.navigate(0, false, true);
    assert_eq!(selection, MenuSelection(usize::MAX));
}

#[test]
fn an_empty_menu_keeps_its_selection() {
    let mut selection = MenuSelection(4);
    selection.navigate(0, true, true);
    assert_eq!(selection, MenuSelection(4));
}

#[test]
fn a_selection_beyond_the_menu_comes_back_into_it() {
    let mut selection = MenuSelection(7);
    selection.navigate(3, false, true);
    assert_eq!(selection, MenuSelection(2));
    let mut selection = MenuSelection(7);
    selection.navigate(3, true, false);
    assert_eq!(selection, MenuSelection(6));
}

#[test]
fn mini_map_sits_in_the_top_right_corner() {
    assert_eq!(update_mini_map_viewport(1280, 1460), ((956, 4), (320, 320)));
    assert_eq!(update_mini_map_viewport(1280, 600), ((1076, 4), (200, 200)));
    assert_eq!(update_mini_map_viewport(800, 600), ((596, 4), (200, 200)));
    assert_eq!(update_mini_map_viewport(6, 0), ((2, 4), (0, 0)));
    assert_eq!(update_mini_map_viewport(4, 0), ((0, 4), (0, 0)));
    assert_eq!(update_mini_map_viewport(5, 100), ((0, 4), (1, 1)));
    assert_eq!(update_mini_map_viewport(6, 100), ((1, 4), (1, 1)));
    assert_eq!(
        update_mini_map_viewport(u32::MAX, u32::MAX),
        ((u32::MAX - u32::MAX / 4 - 4, 4), (u32::MAX / 4, u32::MAX / 4))
    );
}

#[test]
fn markers_are_plain_values() {
    assert_eq!(CameraSwawned, CameraSwawned);
    assert_eq!(OverlayCameraSpawned, OverlayCameraSpawned.clone());
    assert_eq!(OverlayCamera, OverlayCamera);
    assert_eq!(ExitPoint, ExitPoint);
    assert_eq!(MazeGamePlugins, MazeGamePlugins);
    assert_eq!(ToolsPlugins, ToolsPlugins);
}
