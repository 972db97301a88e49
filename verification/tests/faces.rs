use maze_core::faces::{face_direction, floor_tiles, is_wall_at, should_render, wall_faces, FACE_COUNT};
use maze_core::grid::Vec2i;
use maze_core::level::MazeLevel;

fn hand_made(rows: &[&str]) -> MazeLevel {
    let map: Vec<Vec<char>> = rows.iter().map(|row| row.chars().collect()).collect();
    MazeLevel {
        width: map[0].len(),
        height: map.len(),
        map,
        player_position: Vec2i(1, 1),
        exit_position: Vec2i(1, 1),
        generation: 0,
    }
}

#[test]
fn a_place_off_the_grid_is_no_wall() {
    let level = hand_made(&["###", "# #", "###"]);
    assert!(!is_wall_at(&level, -1, 0));
    assert!(!is_wall_at(&level, 0, -1));
    assert!(!is_wall_at(&level, 3, 0));
    assert!(!is_wall_at(&level, 0, 3));
    assert!(!is_wall_at(&level, i32::MIN, i32::MIN));
    assert!(!is_wall_at(&level, i32::MAX, i32::MAX));
    assert!(is_wall_at(&level, 0, 0));
    assert!(is_wall_at(&level, 2, 2));
    assert!(is_wall_at(&level, 1, 0));
    assert!(!is_wall_at(&level, 1, 1));
}

#[test]
fn is_wall_at_goes_by_the_rows_as_they_are() {
    let mut level = hand_made(&["###", "# #", "###"]);
    level.map[1].push('#');
    assert!(is_wall_at(&level, 3, 1));
    assert!(!is_wall_at(&level, 3, 0));
}

#[test]
fn the_five_faces() {
    assert_eq!(FACE_COUNT, 5);
    assert_eq!(face_direction(0), (0, 1));
    assert_eq!(face_direction(1), (0, -1));
    assert_eq!(face_direction(2), (1, 0));
    assert_eq!(face_direction(3), (-1, 0));
    assert_eq!(face_direction(4), (0, 0));
}

#[test]
fn a_face_is_hidden_by_a_wall_beside_it() {
    let level = hand_made(&["###", "# #", "###"]);
    // the block in the top left corner: walls to the right and in front
    assert!(!should_render(&level, 0, 0, 0));
    assert!(should_render(&level, 0, 0, 1));
    assert!(!should_render(&level, 0, 0, 2));
    assert!(should_render(&level, 0, 0, 3));
    assert!(should_render(&level, 0, 0, 4));
    // the block above the room: its front looks into the room
    assert!(should_render(&level, 1, 0, 0));
    assert!(should_render(&level, 1, 0, 1));
    assert!(!should_render(&level, 1, 0, 2));
    assert!(!should_render(&level, 1, 0, 3));
    assert!(should_render(&level, 1, 0, 4));
}

#[test]
fn wall_faces_of_a_single_room() {
    let level = hand_made(&["###", "# #", "###"]);
    assert_eq!(
        wall_faces(&level),
        vec![
            (0, 0, 1), (0, 0, 3), (0, 0, 4),
            (1, 0, 0), (1, 0, 1), (1, 0, 4),
            (2, 0, 1), (2, 0, 2), (2, 0, 4),
            (0, 1, 2), (0, 1, 3), (0, 1, 4),
            (2, 1, 2), (2, 1, 3), (2, 1, 4),
            (0, 2, 0), (0, 2, 3), (0, 2, 4),
            (1, 2, 0), (1, 2, 1), (1, 2, 4),
            (2, 2, 0), (2, 2, 2), (2, 2, 4),
        ]
    );
}

#[test]
fn wall_faces_of_a_maze_cover_every_wall_once() {
    let level = MazeLevel::new(4, 3);
    let faces = wall_faces(&level);
    let walls = level.map.iter().flatten().filter(|&&c| c == '#').count();
    assert_eq!(faces.iter().filter(|face| face.2 == 4).count(), walls);
    for window in faces.windows(2) {
        let (a, b) = (window[0], window[1]);
        assert!((a.1, a.0, a.2) < (b.1, b.0, b.2));
    }
    for &(x, z, face) in &faces {
        assert_eq!(level.map[z][x], '#');
        assert!(should_render(&level, x, z, face));
    }
    let mut expected = 0;
    for z in 0..level.height {
        for x in 0..level.width {
            for face in 0..5 {
                if level.map[z][x] == '#' && should_render(&level, x, z, face) {
                    expected += 1;
                }
            }
        }
    }
    assert_eq!(faces.len(), expected);
}

#[test]
fn floor_tiles_go_row_by_row() {
    let level = hand_made(&["#####", "#   #", "### #", "#   #", "#####"]);
    assert_eq!(
        floor_tiles(&level),
        vec![(1, 1), (2, 1), (3, 1), (3, 2), (1, 3), (2, 3), (3, 3)]
    );
    let level = hand_made(&["##", "##"]);
    assert_eq!(floor_tiles(&level), vec![]);
    let level = hand_made(&[" #", "# "]);
    assert_eq!(floor_tiles(&level), vec![(0, 0), (1, 1)]);
}
