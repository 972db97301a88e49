use maze_core::grid::{Vec2i, Vec3i};
use maze_core::level::MazeLevel;
use maze_core::motion::{
    animate_player_movement, get_pressed_index_delta, keyboard_input_system,
    reset_player_on_maze_change, AnimationState, PlayerAnimation, PressedDirectionIndex,
    PressedKeys, TrackedGeneration, VisualUpdate, MOVEMENT_TIME,
};

const NO_KEYS: PressedKeys = PressedKeys { shift: false, up: false, right: false, down: false, left: false };

fn keys(up: bool, right: bool, down: bool, left: bool) -> PressedKeys {
    PressedKeys { shift: false, up, right, down, left }
}

// The player stands at (1, 1): open to the right and below, wall above and to
// the left.
fn level() -> MazeLevel {
    let rows = ["#####", "#   #", "# # #", "#   #", "#####"];
    MazeLevel {
        width: 5,
        height: 5,
        map: rows.iter().map(|row| row.chars().collect()).collect(),
        player_position: Vec2i(1, 1),
        exit_position: Vec2i(3, 3),
        generation: 0,
    }
}

const LOOKING_UP: Vec3i = Vec3i(0, -300, -1000);
const LOOKING_RIGHT: Vec3i = Vec3i(1000, -300, 0);

#[test]
fn movement_time_is_a_fifth_of_a_second() {
    assert_eq!(MOVEMENT_TIME, 200_000);
}

#[test]
fn keys_give_quarter_turns() {
    assert_eq!(get_pressed_index_delta(NO_KEYS), None);
    assert_eq!(get_pressed_index_delta(keys(true, false, false, false)), Some(0));
    assert_eq!(get_pressed_index_delta(keys(false, true, false, false)), Some(1));
    assert_eq!(get_pressed_index_delta(keys(false, false, true, false)), Some(2));
    assert_eq!(get_pressed_index_delta(keys(false, false, false, true)), Some(3));
}

#[test]
fn the_first_key_held_wins() {
    assert_eq!(get_pressed_index_delta(keys(true, true, true, true)), Some(0));
    assert_eq!(get_pressed_index_delta(keys(false, true, true, true)), Some(1));
    assert_eq!(get_pressed_index_delta(keys(false, false, true, true)), Some(2));
}

#[test]
fn shift_silences_the_arrows() {
    let held = PressedKeys { shift: true, up: true, right: true, down: true, left: true };
    assert_eq!(get_pressed_index_delta(held), None);
    let shift_only = PressedKeys { shift: true, ..NO_KEYS };
    assert_eq!(get_pressed_index_delta(shift_only), None);
}

#[test]
fn a_step_toward_a_wall_is_not_begun() {
    let level = level();
    let before = level.player_position;
    let mut animation = PlayerAnimation(None);
    let mut asked = PressedDirectionIndex(None);
    // up is a wall
    keyboard_input_system(keys(true, false, false, false), &level, Some(LOOKING_UP), &mut animation, &mut asked);
    assert_eq!(animation, PlayerAnimation(None));
    assert_eq!(asked, PressedDirectionIndex(Some(0)));
    assert_eq!(level.player_position, before);
    // left is a wall
    keyboard_input_system(keys(false, false, false, true), &level, Some(LOOKING_UP), &mut animation, &mut asked);
    assert_eq!(animation, PlayerAnimation(None));
    assert_eq!(asked, PressedDirectionIndex(Some(3)));
    assert_eq!(level.player_position, before);
}

#[test]
fn a_step_off_the_grid_is_not_begun() {
    let mut level = level();
    level.player_position = Vec2i(0, 0);
    let mut animation = PlayerAnimation(None);
    let mut asked = PressedDirectionIndex(None);
    keyboard_input_system(keys(true, false, false, false), &level, Some(LOOKING_UP), &mut animation, &mut asked);
    assert_eq!(animation, PlayerAnimation(None));
    keyboard_input_system(keys(false, false, false, true), &level, Some(LOOKING_UP), &mut animation, &mut asked);
    assert_eq!(animation, PlayerAnimation(None));
}

#[test]
fn a_step_toward_an_open_cell_begins() {
    let level = level();
    let mut animation = PlayerAnimation(None);
    let mut asked = PressedDirectionIndex(None);
    keyboard_input_system(keys(false, true, false, false), &level, Some(LOOKING_UP), &mut animation, &mut asked);
    assert_eq!(animation, PlayerAnimation(Some(AnimationState { time: 0, direction_index: 1 })));
    assert_eq!(asked, PressedDirectionIndex(Some(1)));
}

#[test]
fn keys_are_read_as_the_camera_looks() {
    let level = level();
    let mut animation = PlayerAnimation(None);
    let mut asked = PressedDirectionIndex(None);
    // camera looks right: "up" means right, "right" means down
    keyboard_input_system(keys(true, false, false, false), &level, Some(LOOKING_RIGHT), &mut animation, &mut asked);
    assert_eq!(asked, PressedDirectionIndex(Some(1)));
    assert_eq!(animation, PlayerAnimation(Some(AnimationState { time: 0, direction_index: 1 })));
    let mut animation = PlayerAnimation(None);
    keyboard_input_system(keys(false, false, false, true), &level, Some(LOOKING_RIGHT), &mut animation, &mut asked);
    // "left" means up, a wall
    assert_eq!(asked, PressedDirectionIndex(Some(0)));
    assert_eq!(animation, PlayerAnimation(None));
    keyboard_input_system(keys(false, true, false, false), &level, Some(LOOKING_RIGHT), &mut animation, &mut asked);
    assert_eq!(asked, PressedDirectionIndex(Some(2)));
    assert_eq!(animation, PlayerAnimation(Some(AnimationState { time: 0, direction_index: 2 })));
}

#[test]
fn a_step_in_flight_is_not_replaced() {
    let level = level();
    let flying = PlayerAnimation(Some(AnimationState { time: 70_000, direction_index: 2 }));
    let mut animation = flying;
    let mut asked = PressedDirectionIndex(Some(2));
    keyboard_input_system(keys(false, true, false, false), &level, Some(LOOKING_UP), &mut animation, &mut asked);
    assert_eq!(animation, flying);
    assert_eq!(asked, PressedDirectionIndex(Some(1)));
}

#[test]
fn no_key_clears_the_direction_asked_for() {
    let level = level();
    let flying = PlayerAnimation(Some(AnimationState { time: 70_000, direction_index: 2 }));
    let mut animation = flying;
    let mut asked = PressedDirectionIndex(Some(2));
    keyboard_input_system(NO_KEYS, &level, Some(LOOKING_UP), &mut animation, &mut asked);
    assert_eq!(animation, flying);
    assert_eq!(asked, PressedDirectionIndex(None));
}

#[test]
fn a_key_without_a_camera_changes_nothing() {
    let level = level();
    let mut animation = PlayerAnimation(None);
    let mut asked = PressedDirectionIndex(Some(3));
    keyboard_input_system(keys(false, true, false, false), &level, None, &mut animation, &mut asked);
    assert_eq!(animation, PlayerAnimation(None));
    assert_eq!(asked, PressedDirectionIndex(Some(3)));
}

#[test]
fn at_rest_nothing_moves() {
    let mut level = level();
    let mut animation = PlayerAnimation(None);
    let update = animate_player_movement(&mut level, 16_000, &mut animation, &PressedDirectionIndex(Some(1)));
    assert_eq!(update, VisualUpdate::Stay);
    assert_eq!(animation, PlayerAnimation(None));
    assert_eq!(level.player_position, Vec2i(1, 1));
}

#[test]
fn a_step_glides_until_its_time_is_up() {
    let mut level = level();
    let mut animation = PlayerAnimation(Some(AnimationState { time: 0, direction_index: 1 }));
    let asked = PressedDirectionIndex(Some(1));
    let update = animate_player_movement(&mut level, 50_000, &mut animation, &asked);
    assert_eq!(update, VisualUpdate::Glide { direction_index: 1, delta: 50_000 });
    assert_eq!(animation, PlayerAnimation(Some(AnimationState { time: 50_000, direction_index: 1 })));
    assert_eq!(level.player_position, Vec2i(1, 1));
    let update = animate_player_movement(&mut level, 149_999, &mut animation, &asked);
    assert_eq!(update, VisualUpdate::Glide { direction_index: 1, delta: 149_999 });
    assert_eq!(animation, PlayerAnimation(Some(AnimationState { time: 199_999, direction_index: 1 })));
    assert_eq!(level.player_position, Vec2i(1, 1));
}

#[test]
fn a_finished_step_goes_on_while_the_key_is_held_and_the_way_is_open() {
    let mut level = level();
    let mut animation = PlayerAnimation(Some(AnimationState { time: 190_000, direction_index: 1 }));
    let asked = PressedDirectionIndex(Some(1));
    let update = animate_player_movement(&mut level, 30_000, &mut animation, &asked);
    assert_eq!(level.player_position, Vec2i(2, 1));
    assert_eq!(update, VisualUpdate::Glide { direction_index: 1, delta: 30_000 });
    assert_eq!(animation, PlayerAnimation(Some(AnimationState { time: 20_000, direction_index: 1 })));
}

#[test]
fn a_step_ends_exactly_when_its_time_is_reached() {
    let mut level = level();
    let mut animation = PlayerAnimation(Some(AnimationState { time: 150_000, direction_index: 1 }));
    let update = animate_player_movement(&mut level, 50_000, &mut animation, &PressedDirectionIndex(Some(1)));
    assert_eq!(level.player_position, Vec2i(2, 1));
    assert_eq!(update, VisualUpdate::Glide { direction_index: 1, delta: 50_000 });
    assert_eq!(animation, PlayerAnimation(Some(AnimationState { time: 0, direction_index: 1 })));
}

#[test]
fn a_finished_step_comes_to_rest_before_a_wall() {
    let mut level = level();
    level.player_position = Vec2i(2, 1);
    let mut animation = PlayerAnimation(Some(AnimationState { time: 190_000, direction_index: 1 }));
    let update = animate_player_movement(&mut level, 30_000, &mut animation, &PressedDirectionIndex(Some(1)));
    assert_eq!(level.player_position, Vec2i(3, 1));
    assert_eq!(update, VisualUpdate::Snap(Vec2i(3, 1)));
    assert_eq!(animation, PlayerAnimation(None));
}

#[test]
fn a_finished_step_comes_to_rest_when_the_key_is_let_go_or_changed() {
    for asked in [PressedDirectionIndex(None), PressedDirectionIndex(Some(2))] {
        let mut level = level();
        let mut animation = PlayerAnimation(Some(AnimationState { time: 190_000, direction_index: 1 }));
        let update = animate_player_movement(&mut level, 30_000, &mut animation, &asked);
        assert_eq!(level.player_position, Vec2i(2, 1));
        assert_eq!(update, VisualUpdate::Snap(Vec2i(2, 1)));
        assert_eq!(animation, PlayerAnimation(None));
    }
}

#[test]
fn a_long_frame_leaves_more_than_a_step_of_time() {
    let mut level = level();
    let mut animation = PlayerAnimation(Some(AnimationState { time: 100_000, direction_index: 1 }));
    let asked = PressedDirectionIndex(Some(1));
    let update = animate_player_movement(&mut level, 1_000_000, &mut animation, &asked);
    assert_eq!(level.player_position, Vec2i(2, 1));
    assert_eq!(update, VisualUpdate::Glide { direction_index: 1, delta: 1_000_000 });
    assert_eq!(animation, PlayerAnimation(Some(AnimationState { time: 900_000, direction_index: 1 })));
    let update = animate_player_movement(&mut level, 0, &mut animation, &asked);
    assert_eq!(level.player_position, Vec2i(3, 1));
    assert_eq!(update, VisualUpdate::Snap(Vec2i(3, 1)));
    assert_eq!(animation, PlayerAnimation(None));
}

#[test]
fn time_stops_at_the_greatest_number() {
    let mut level = level();
    let mut animation = PlayerAnimation(Some(AnimationState { time: u64::MAX - 5, direction_index: 1 }));
    let asked = PressedDirectionIndex(Some(1));
    let update = animate_player_movement(&mut level, 10, &mut animation, &asked);
    assert_eq!(update, VisualUpdate::Glide { direction_index: 1, delta: 10 });
    assert_eq!(
        animation,
        PlayerAnimation(Some(AnimationState { time: u64::MAX - MOVEMENT_TIME, direction_index: 1 }))
    );
}

#[test]
fn moving_leaves_the_maze_as_it_is() {
    let mut level = level();
    let map = level.map.clone();
    let mut animation = PlayerAnimation(Some(AnimationState { time: 199_000, direction_index: 2 }));
    animate_player_movement(&mut level, 5_000, &mut animation, &PressedDirectionIndex(None));
    assert_eq!(level.player_position, Vec2i(1, 2));
    assert_eq!(level.map, map);
    assert_eq!(level.generation, 0);
    assert_eq!(level.exit_position, Vec2i(3, 3));
    assert_eq!((level.width, level.height), (5, 5));
}

#[test]
fn tracked_generation_tells_a_change_once() {
    let mut seen = TrackedGeneration(None);
    assert!(seen.observe(0));
    assert_eq!(seen, TrackedGeneration(Some(0)));
    assert!(!seen.observe(0));
    assert!(seen.observe(1));
    assert!(!seen.observe(1));
    assert!(seen.observe(0));
    assert_eq!(seen, TrackedGeneration(Some(0)));
}

#[test]
fn a_rebuilt_maze_brings_the_player_to_rest_on_the_new_start() {
    let mut level = MazeLevel::new(3, 3);
    let mut seen = TrackedGeneration(None);
    let mut animation = PlayerAnimation(None);
    assert_eq!(reset_player_on_maze_change(&level, &mut seen, &mut animation), Some(level.player_position));
    assert_eq!(seen, TrackedGeneration(Some(0)));

    let flying = PlayerAnimation(Some(AnimationState { time: 120_000, direction_index: 3 }));
    animation = flying;
    assert_eq!(reset_player_on_maze_change(&level, &mut seen, &mut animation), None);
    assert_eq!(animation, flying);

    level.regenerate_with_size(3, 3);
    assert_eq!(reset_player_on_maze_change(&level, &mut seen, &mut animation), Some(level.player_position));
    assert_eq!(animation, PlayerAnimation(None));
    assert_eq!(seen, TrackedGeneration(Some(1)));
    assert_eq!(reset_player_on_maze_change(&level, &mut seen, &mut animation), None);
}

#[test]
fn a_wall_beside_the_start_of_a_fresh_maze_stops_the_player() {
    let level = MazeLevel::new(6, 6);
    let before = level.player_position;
    for direction in 0..4usize {
        if !level.is_cell_empty(before.get_next(direction)) {
            // camera looks up, so the key's quarter turns are the direction itself
            let held = keys(direction == 0, direction == 1, direction == 2, direction == 3);
            let mut animation = PlayerAnimation(None);
            let mut asked = PressedDirectionIndex(None);
            keyboard_input_system(held, &level, Some(LOOKING_UP), &mut animation, &mut asked);
            assert_eq!(animation, PlayerAnimation(None));
            assert_eq!(asked, PressedDirectionIndex(Some(direction)));
            assert_eq!(level.player_position, before);
        }
    }
}
