use maze_core::grid::Vec2i;
use maze_core::level::MazeLevel;

#[test]
fn border_exist() {
    let level = MazeLevel::new(20, 20);

    for (z, s) in level.map.iter().enumerate() {
        for (x, &c) in s.iter().enumerate() {
            if z == 0 || x == 0 || z == level.map.len() - 1 || x == s.len() - 1 {
                assert_eq!(c, '#');
            }
        }
    }
}

#[test]
fn maze_generation() {
    let level = MazeLevel::new(20, 20);
    let (start, exit) = level.random_player_and_exit_positions();

    assert_eq!(level.map[start.1][start.0], ' ');
    assert_eq!(level.map[exit.1][exit.0], ' ');
}

#[test]
fn is_cell_empty_correctly_identifies_empty_cells() {
    let level = MazeLevel::new(20, 20);

    // Check all cells in the maze
    for x in 0..level.width {
        for y in 0..level.height {
            let position = Vec2i(x as i32, y as i32);
            let is_empty = level.is_cell_empty(position);
            let cell_value = level.map[y][x];

            if cell_value == ' ' {
                assert!(is_empty, "Cell at ({}, {}) should be empty", x, y);
            } else {
                assert!(!is_empty, "Cell at ({}, {}) should not be empty", x, y);
            }
        }
    }
}

#[test]
fn player_placement_is_always_in_empty_cell() {
    let level = MazeLevel::new(20, 20);
    let player_pos = level.player_position;

    // Convert to usize for map access
    let x = player_pos.0 as usize;
    let y = player_pos.1 as usize;

    // Check that the player is placed in an empty cell
    assert_eq!(
        level.map[y][x], ' ',
        "Player should be placed in an empty cell"
    );

    // Check that is_cell_empty returns true for the player position
    assert!(
        level.is_cell_empty(player_pos),
        "is_cell_empty should return true for player position"
    );
}

#[test]
fn movement_in_all_directions() {
    let level = MazeLevel::new(20, 20);
    let player_pos = level.player_position;

    // Test movement in all four directions
    for direction in 0..4 {
        let next_pos = player_pos.get_next(direction);

        // Use safe indexing for test
        if let Some((x, y)) = next_pos.to_usize() {
            if x < level.width && y < level.height && level.map[y][x] == ' ' {
                assert!(
                    level.is_cell_empty(next_pos),
                    "Movement to ({}, {}) should be allowed",
                    next_pos.0,
                    next_pos.1
                );
            } else {
                assert!(
                    !level.is_cell_empty(next_pos),
                    "Movement to ({}, {}) should not be allowed",
                    next_pos.0,
                    next_pos.1
                );
            }
        } else {
            // Out of bounds or negative, must not be empty
            assert!(
                !level.is_cell_empty(next_pos),
                "Movement to ({}, {}) should not be allowed (out of bounds)",
                next_pos.0,
                next_pos.1
            );
        }
    }
}

fn open_cells(level: &MazeLevel) -> Vec<(usize, usize)> {
    let mut cells = Vec::new();
    for y in 0..level.height {
        for x in 0..level.width {
            if level.map[y][x] != '#' {
                cells.push((x, y));
            }
        }
    }
    cells
}

fn reached_from(level: &MazeLevel, start: Vec2i) -> Vec<Vec<bool>> {
    let mut seen = vec![vec![false; level.width]; level.height];
    let mut work = vec![start];
    seen[start.1 as usize][start.0 as usize] = true;
    while let Some(cell) = work.pop() {
        for direction in 0..4 {
            let next = cell.get_next(direction);
            if level.is_cell_empty(next) && !seen[next.1 as usize][next.0 as usize] {
                seen[next.1 as usize][next.0 as usize] = true;
                work.push(next);
            }
        }
    }
    seen
}

fn hand_made(rows: &[&str]) -> MazeLevel {
    let map: Vec<Vec<char>> = rows.iter().map(|row| row.chars().collect()).collect();
    MazeLevel {
        width: map[0].len(),
        height: map.len(),
        map,
        player_position: Vec2i(1, 1),
        exit_position: Vec2i(1, 1),
        generation: 0,
    }
}

#[test]
fn size_is_twice_the_rooms_plus_one() {
    let level = MazeLevel::new(4, 7);
    assert_eq!(level.width, 9);
    assert_eq!(level.height, 15);
    assert_eq!(level.map.len(), 15);
    for row in &level.map {
        assert_eq!(row.len(), 9);
    }
    assert_eq!(level.dimensions(), (9, 15));
}

#[test]
fn no_rooms_along_a_side_gives_one() {
    let level = MazeLevel::new(0, 3);
    assert_eq!(level.dimensions(), (3, 7));
    let level = MazeLevel::new(5, 0);
    assert_eq!(level.dimensions(), (11, 3));
    let level = MazeLevel::new(0, 0);
    assert_eq!(level.dimensions(), (3, 3));
    assert_eq!(level.map[1][1], ' ');
}

#[test]
fn border_is_wall_for_many_sizes() {
    for (m, n) in [(1, 1), (1, 5), (6, 1), (3, 4), (12, 9)] {
        let level = MazeLevel::new(m, n);
        for y in 0..level.height {
            for x in 0..level.width {
                if x == 0 || y == 0 || x == level.width - 1 || y == level.height - 1 {
                    assert_eq!(level.map[y][x], '#');
                }
            }
        }
    }
}

#[test]
fn cells_are_walls_or_open() {
    let level = MazeLevel::new(8, 5);
    for row in &level.map {
        for &c in row {
            assert!(c == '#' || c == ' ');
        }
    }
}

#[test]
fn every_room_is_open_and_every_pillar_is_wall() {
    let level = MazeLevel::new(9, 6);
    for y in 0..level.height {
        for x in 0..level.width {
            if x % 2 == 1 && y % 2 == 1 {
                assert_eq!(level.map[y][x], ' ');
            }
            if x % 2 == 0 && y % 2 == 0 {
                assert_eq!(level.map[y][x], '#');
            }
        }
    }
}

#[test]
fn open_cells_form_one_component() {
    for (m, n) in [(1, 1), (2, 2), (7, 3), (10, 10)] {
        let level = MazeLevel::new(m, n);
        let seen = reached_from(&level, level.player_position);
        for (x, y) in open_cells(&level) {
            assert!(seen[y][x], "cell ({}, {}) is cut off", x, y);
        }
    }
}

#[test]
fn passages_are_one_fewer_than_rooms() {
    for (m, n) in [(1, 1), (2, 3), (5, 5), (11, 4)] {
        let level = MazeLevel::new(m, n);
        assert_eq!(open_cells(&level).len(), 2 * m * n - 1);
        let walls = level.width * level.height - open_cells(&level).len();
        assert_eq!(walls + 2 * m * n - 1, level.width * level.height);
    }
}

#[test]
fn start_and_exit_are_open_and_apart() {
    for _ in 0..20 {
        let level = MazeLevel::new(3, 2);
        assert!(level.is_cell_empty(level.player_position));
        assert!(level.is_cell_empty(level.exit_position));
        assert_ne!(level.player_position, level.exit_position);
    }
}

#[test]
fn single_room_maze() {
    let level = MazeLevel::new(1, 1);
    assert_eq!(level.width, 3);
    assert_eq!(level.height, 3);
    for y in 0..3 {
        for x in 0..3 {
            let expected = if (x, y) == (1, 1) { ' ' } else { '#' };
            assert_eq!(level.map[y][x], expected);
        }
    }
    assert_eq!(level.player_position, Vec2i(1, 1));
    assert_eq!(level.exit_position, Vec2i(1, 1));
    assert_eq!(level.to_text(), "###\n# #\n###\n");
}

#[test]
fn new_level_has_generation_zero() {
    assert_eq!(MazeLevel::new(2, 2).generation, 0);
}

#[test]
fn regeneration_counts_up_by_one() {
    let mut level = MazeLevel::new(3, 3);
    let g = level.generation;
    level.regenerate_with_size(4, 2);
    assert_eq!(level.generation, g + 1);
    assert_eq!(level.dimensions(), (9, 5));
    level.regenerate_with_size(2, 2);
    assert_eq!(level.generation, g + 2);
    assert_eq!(level.dimensions(), (5, 5));
    assert!(level.is_cell_empty(level.player_position));
    assert!(level.is_cell_empty(level.exit_position));
}

#[test]
fn is_cell_empty_rejects_what_is_off_the_grid() {
    let level = MazeLevel::new(2, 2);
    assert!(!level.is_cell_empty(Vec2i(-1, 1)));
    assert!(!level.is_cell_empty(Vec2i(1, -1)));
    assert!(!level.is_cell_empty(Vec2i(-3, -7)));
    assert!(!level.is_cell_empty(Vec2i(5, 1)));
    assert!(!level.is_cell_empty(Vec2i(1, 5)));
    assert!(!level.is_cell_empty(Vec2i(i32::MAX, i32::MAX)));
    assert!(!level.is_cell_empty(Vec2i(i32::MIN, 0)));
    assert!(!level.is_cell_empty(Vec2i(0, 0)));
    assert!(level.is_cell_empty(Vec2i(1, 1)));
}

#[test]
fn is_cell_empty_takes_anything_but_a_wall_for_open() {
    let level = hand_made(&["###", "#.#", "###"]);
    assert!(level.is_cell_empty(Vec2i(1, 1)));
    assert!(!level.is_cell_empty(Vec2i(0, 1)));
}

#[test]
fn cell_and_open_cell() {
    let mut level = hand_made(&["####", "#  #", "####"]);
    assert_eq!(level.cell(0, 0), '#');
    assert_eq!(level.cell(2, 1), ' ');
    level.open_cell(3, 1);
    assert_eq!(level.cell(3, 1), ' ');
    assert_eq!(level.map, vec![vec!['#', '#', '#', '#'], vec!['#', ' ', ' ', ' '], vec!['#', '#', '#', '#']]);
}

#[test]
fn text_has_one_line_for_each_row() {
    let level = hand_made(&["#####", "#   #", "### #", "#   #", "#####"]);
    assert_eq!(level.to_text(), "#####\n#   #\n### #\n#   #\n#####\n");
    let level = MazeLevel::new(3, 2);
    let text = level.to_text();
    let lines: Vec<&str> = text.lines().collect();
    assert_eq!(lines.len(), 5);
    for (y, line) in lines.iter().enumerate() {
        assert_eq!(line.chars().collect::<Vec<char>>(), level.map[y]);
    }
    assert!(text.ends_with('\n'));
}

#[test]
fn empty_cells_go_column_by_column() {
    let level = hand_made(&["#####", "#   #", "### #", "#   #", "#####"]);
    assert_eq!(
        level.empty_cells(),
        vec![(1, 1), (1, 3), (2, 1), (2, 3), (3, 1), (3, 2), (3, 3)]
    );
    let level = hand_made(&["###", "###", "###"]);
    assert_eq!(level.empty_cells(), vec![]);
}

#[test]
fn bfs_finds_the_far_end_of_a_corridor() {
    let level = hand_made(&["#####", "#   #", "### #", "#   #", "#####"]);
    assert_eq!(level.bfs(1, 1), ((1, 3), 6));
    assert_eq!(level.bfs(1, 3), ((1, 1), 6));
    assert_eq!(level.bfs(3, 2), ((1, 1), 3));
    assert_eq!(level.bfs(2, 1), ((1, 3), 5));
}

#[test]
fn bfs_from_a_lone_cell_stays_there() {
    let level = hand_made(&["###", "# #", "###"]);
    assert_eq!(level.bfs(1, 1), ((1, 1), 0));
}

#[test]
fn bfs_takes_the_first_cell_reached_at_the_greatest_distance() {
    // From the middle the four ends are equally far; the search looks left
    // first.
    let level = hand_made(&["#####", "## ##", "#   #", "## ##", "#####"]);
    assert_eq!(level.bfs(2, 2), ((1, 2), 1));
    // Two ends three steps away: the one whose branch is entered first.
    let level = hand_made(&["#######", "#     #", "# ### #", "#######"]);
    assert_eq!(level.bfs(3, 1), ((1, 2), 3));
}

#[test]
fn bfs_stays_within_its_component() {
    let level = hand_made(&["######", "#  # #", "######"]);
    assert_eq!(level.bfs(1, 1), ((2, 1), 1));
    assert_eq!(level.bfs(4, 1), ((4, 1), 0));
}

#[test]
fn exit_is_as_far_from_the_start_as_any_cell() {
    for _ in 0..10 {
        let level = MazeLevel::new(5, 4);
        let start = (level.player_position.0 as usize, level.player_position.1 as usize);
        let exit = (level.exit_position.0 as usize, level.exit_position.1 as usize);
        let (far, distance) = level.bfs(start.0, start.1);
        assert_eq!(far, exit);
        // no open cell is farther: measure each by a search back to the start
        for (x, y) in open_cells(&level) {
            let mut steps = vec![vec![usize::MAX; level.width]; level.height];
            steps[start.1][start.0] = 0;
            let mut work = std::collections::VecDeque::new();
            work.push_back(start);
            while let Some((cx, cy)) = work.pop_front() {
                for (dx, dy) in [(-1i32, 0i32), (1, 0), (0, -1), (0, 1)] {
                    let next = Vec2i(cx as i32 + dx, cy as i32 + dy);
                    if level.is_cell_empty(next) {
                        let (nx, ny) = (next.0 as usize, next.1 as usize);
                        if steps[ny][nx] == usize::MAX {
                            steps[ny][nx] = steps[cy][cx] + 1;
                            work.push_back((nx, ny));
                        }
                    }
                }
            }
            assert!(steps[y][x] <= distance);
            if (x, y) == exit {
                assert_eq!(steps[y][x], distance);
            }
        }
    }
}

#[test]
fn placement_picks_an_open_start_and_the_farthest_exit() {
    let level = hand_made(&["#####", "#   #", "### #", "#   #", "#####"]);
    for _ in 0..50 {
        let (start, exit) = level.random_player_and_exit_positions();
        assert_eq!(level.map[start.1][start.0], ' ');
        assert_eq!(exit, level.bfs(start.0, start.1).0);
    }
}

#[test]
fn placement_does_not_always_pick_the_same_start() {
    let level = hand_made(&["#####", "#   #", "### #", "#   #", "#####"]);
    let first = level.random_player_and_exit_positions().0;
    let mut differs = false;
    for _ in 0..200 {
        if level.random_player_and_exit_positions().0 != first {
            differs = true;
        }
    }
    assert!(differs);
}

#[test]
fn mazes_differ_from_one_another() {
    let first = MazeLevel::new(8, 8);
    let mut differs = false;
    for _ in 0..20 {
        if MazeLevel::new(8, 8).map != first.map {
            differs = true;
        }
    }
    assert!(differs);
}

#[test]
fn carving_can_begin_in_any_room() {
    let mut level = MazeLevel {
        width: 7,
        height: 5,
        map: vec![vec!['#'; 7]; 5],
        player_position: Vec2i(0, 0),
        exit_position: Vec2i(0, 0),
        generation: 3,
    };
    level.generate_maze(5, 3);
    assert_eq!(open_cells(&level).len(), 2 * 3 * 2 - 1);
    let seen = reached_from(&level, Vec2i(5, 3));
    for (x, y) in open_cells(&level) {
        assert!(seen[y][x]);
    }
    assert_eq!(level.generation, 3);
    assert_eq!(level.player_position, Vec2i(0, 0));
    assert_eq!(level.exit_position, Vec2i(0, 0));
}
