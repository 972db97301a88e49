//! The maze level: the grid, the player's cell, the exit and the number of the
//! current layout.

use crate::cells::{connected, grid_of, is_open, rectangular, OPEN, WALL};
use crate::grid::Vec2i;
use crate::placement::{is_empty_cell, is_search_result, lemma_farthest_is_elsewhere};
use crate::structure::{is_interior, is_perfect_maze, is_room};
use vstd::prelude::*;

verus! {

/// Largest number of rooms along one side for which every cell coordinate
/// still fits in an `i32`.
pub const MAX_ROOMS: usize = 0x3fff_ffff;

/// `String::push` of std appends one character to the end of the string.
pub assume_specification[ String::push ](s: &mut String, ch: char)
    ensures
        final(s)@ == old(s)@.push(ch),
;

/// The text of the first `rows` rows of `g`: each row's characters, and a line
/// feed after each row.
pub open spec fn text_of(g: Seq<Seq<char>>, rows: int) -> Seq<char>
    decreases rows,
{
    if rows <= 0 {
        Seq::empty()
    } else {
        text_of(g, rows - 1) + g[rows - 1].push('\n')
    }
}

/// Number of rooms along a side that a request for `rooms` rooms gives: at
/// least one.
pub open spec fn at_least_one(rooms: int) -> int {
    if rooms < 1 {
        1
    } else {
        rooms
    }
}

/// A maze and the player in it.
pub struct MazeLevel {
    /// Number of cell columns.
    pub width: usize,
    /// Number of cell rows.
    pub height: usize,
    /// The cells, row by row: `map[y][x]` is `'#'` for a wall and `' '` for an
    /// open cell.
    pub map: Vec<Vec<char>>,
    /// The cell the player stands in.
    pub player_position: Vec2i,
    /// The cell to reach.
    pub exit_position: Vec2i,
    /// Number of the current layout; goes up by one each time the maze is
    /// rebuilt, and never on a move of the player.
    pub generation: u32,
}

impl MazeLevel {
    /// The cells as a mathematical grid: cell `(x, y)` is `grid()[y][x]`.
    pub open spec fn grid(&self) -> Seq<Seq<char>> {
        grid_of(self.map@)
    }

    /// `map` has `height` rows of `width` cells.
    pub open spec fn shape_ok(&self) -> bool {
        rectangular(self.grid(), self.width as int, self.height as int)
    }

    /// The size is that of a grid of rooms: odd, at least 3 and within `i32`
    /// along both sides.
    pub open spec fn size_ok(&self) -> bool {
        &&& 3 <= self.width <= i32::MAX
        &&& 3 <= self.height <= i32::MAX
        &&& self.width % 2 == 1
        &&& self.height % 2 == 1
    }

    /// A grid of the right size in which every cell is a wall.
    pub open spec fn blank(&self) -> bool {
        &&& self.size_ok()
        &&& self.shape_ok()
        &&& forall|x: int, y: int|
            0 <= x < self.width && 0 <= y < self.height ==> #[trigger] self.grid()[y][x] == WALL
    }

    /// Whether `map` has `height` rows of `width` cells each.
    pub fn has_shape(&self) -> (ok: bool)
        ensures
            ok == self.shape_ok(),
    {
        if self.map.len() != self.height {
            return false;
        }
        let mut y: usize = 0;
        while y < self.height
            invariant
                self.map.len() == self.height,
                y <= self.height,
                forall|r: int| 0 <= r < y ==> (#[trigger] self.grid()[r]).len() == self.width,
            decreases self.height - y,
        {
            assert(self.grid()[y as int] == self.map@[y as int]@);
            if self.map[y].len() != self.width {
                return false;
            }
            y += 1;
        }
        true
    }

    /// The character in cell `(x, y)`.
    pub fn cell(&self, x: usize, y: usize) -> (c: char)
        requires
            self.shape_ok(),
            x < self.width,
            y < self.height,
        ensures
            c == self.grid()[y as int][x as int],
    {
        assert(self.grid()[y as int] == self.map@[y as int]@);
        self.map[y][x]
    }

    /// Opens cell `(x, y)` and leaves every other cell as it is.
    pub fn open_cell(&mut self, x: usize, y: usize)
        requires
            old(self).shape_ok(),
            x < old(self).width,
            y < old(self).height,
        ensures
            final(self).shape_ok(),
            final(self).width == old(self).width,
            final(self).height == old(self).height,
            final(self).player_position == old(self).player_position,
            final(self).exit_position == old(self).exit_position,
            final(self).generation == old(self).generation,
            final(self).grid() == old(self).grid().update(
                y as int,
                old(self).grid()[y as int].update(x as int, OPEN),
            ),
    {
        assert(self.grid()[y as int] == self.map@[y as int]@);
        self.map[y][x] = OPEN;
        assert(self.grid() =~= old(self).grid().update(
            y as int,
            old(self).grid()[y as int].update(x as int, OPEN),
        )) by {
            assert forall|r: int| 0 <= r < self.grid().len() implies self.grid()[r] == old(
                self,
            ).grid().update(y as int, old(self).grid()[y as int].update(x as int, OPEN))[r] by {
                assert(self.grid()[r] == self.map@[r]@);
                assert(old(self).grid()[r] == old(self).map@[r]@);
            }
        }
    }

    /// The level holds a perfect maze, and the player and the exit are in
    /// open cells.
    pub open spec fn wf(&self) -> bool {
        &&& self.size_ok()
        &&& is_perfect_maze(self.grid(), self.width as int, self.height as int)
        &&& is_open(self.grid(), self.player_position@)
        &&& is_open(self.grid(), self.exit_position@)
    }

    /// The exit is the cell that a breadth-first search from the player
    /// finds: it lies as far from the player as any open cell does.
    pub open spec fn placed_apart(&self) -> bool {
        exists|distance: int|
            is_search_result(self.grid(), self.player_position@, self.exit_position@, distance)
    }

    /// A new maze of `x` by `y` rooms, `2 * x + 1` by `2 * y + 1` cells, with
    /// the player in a random open cell and the exit farthest from it. A
    /// request for no rooms along a side gives one.
    pub fn new(x: usize, y: usize) -> (level: MazeLevel)
        requires
            x <= MAX_ROOMS,
            y <= MAX_ROOMS,
        ensures
            level.wf(),
            level.width == 2 * at_least_one(x as int) + 1,
            level.height == 2 * at_least_one(y as int) + 1,
            level.generation == 0,
            level.placed_apart(),
    {
        let rooms_x: usize = if x < 1 {
            1
        } else {
            x
        };
        let rooms_y: usize = if y < 1 {
            1
        } else {
            y
        };
        let width: usize = (2 * rooms_x) + 1;
        let height: usize = (2 * rooms_y) + 1;
        let mut maze = MazeLevel {
            width,
            height,
            map: vec![vec![WALL; width]; height],
            player_position: Vec2i(0, 0),
            exit_position: Vec2i(0, 0),
            generation: 0,
        };
        proof {
            assert forall|r: int| 0 <= r < height implies (#[trigger] maze.grid()[r]).len() == width by {
                assert(maze.grid()[r] == maze.map@[r]@);
            }
            assert forall|cx: int, cy: int| 0 <= cx < width && 0 <= cy < height implies #[trigger] maze.grid()[cy][cx]
                == WALL by {
                assert(maze.grid()[cy] == maze.map@[cy]@);
            }
        }
        maze.generate_maze(1, 1);
        proof {
            assert(is_room(width as int, height as int, (1, 1)));
            assert(is_open(maze.grid(), (1, 1)));
            assert(is_empty_cell(maze.grid(), width as int, height as int, (1usize, 1usize)));
        }
        let (start, exit) = maze.random_player_and_exit_positions();
        let ghost distance = choose|distance: int|
            is_search_result(
                maze.grid(),
                (start.0 as int, start.1 as int),
                (exit.0 as int, exit.1 as int),
                distance,
            );
        maze.player_position = Vec2i::new(start);
        maze.exit_position = Vec2i::new(exit);
        proof {
            assert(maze.player_position@ == (start.0 as int, start.1 as int));
            assert(maze.exit_position@ == (exit.0 as int, exit.1 as int));
            assert(is_search_result(
                maze.grid(),
                maze.player_position@,
                maze.exit_position@,
                distance,
            ));
        }
        maze
    }

    /// Replaces the maze by a new one of `x` by `y` rooms and counts the
    /// layout up by one.
    pub fn regenerate_with_size(&mut self, x: usize, y: usize)
        requires
            x <= MAX_ROOMS,
            y <= MAX_ROOMS,
            old(self).generation < u32::MAX,
        ensures
            final(self).wf(),
            final(self).width == 2 * at_least_one(x as int) + 1,
            final(self).height == 2 * at_least_one(y as int) + 1,
            final(self).generation == old(self).generation + 1,
            final(self).placed_apart(),
    {
        let next: u32 = self.generation + 1;
        let mut fresh = MazeLevel::new(x, y);
        fresh.generation = next;
        *self = fresh;
    }

    /// Width and height of the grid, in cells.
    pub fn dimensions(&self) -> (size: (usize, usize))
        ensures
            size == (self.width, self.height),
    {
        (self.width, self.height)
    }

    /// Whether `position` is a cell of the grid and not a wall. Coordinates
    /// that are negative or beyond the grid give `false`.
    pub fn is_cell_empty(&self, position: Vec2i) -> (empty: bool)
        requires
            self.shape_ok(),
        ensures
            empty == is_open(self.grid(), position@),
    {
        match position.to_usize() {
            Some((x, y)) => x < self.width && y < self.height && self.cell(x, y) != WALL,
            None => false,
        }
    }

    /// The maze as text: one line for each row, each ended by a line feed.
    pub fn to_text(&self) -> (text: String)
        requires
            self.shape_ok(),
        ensures
            text@ == text_of(self.grid(), self.height as int),
    {
        let mut text = String::new();
        let mut y: usize = 0;
        while y < self.height
            invariant
                self.shape_ok(),
                y <= self.height,
                text@ == text_of(self.grid(), y as int),
            decreases self.height - y,
        {
            let ghost before = text@;
            let mut x: usize = 0;
            while x < self.width
                invariant
                    self.shape_ok(),
                    y < self.height,
                    x <= self.width,
                    text@ == before + self.grid()[y as int].subrange(0, x as int),
                decreases self.width - x,
            {
                text.push(self.cell(x, y));
                assert(self.grid()[y as int].subrange(0, x as int).push(self.grid()[y as int][x as int])
                    =~= self.grid()[y as int].subrange(0, x + 1));
                x += 1;
            }
            text.push('\n');
            assert(self.grid()[y as int].subrange(0, self.width as int) =~= self.grid()[y as int]);
            assert(text@ =~= before + self.grid()[y as int].push('\n'));
            y += 1;
        }
        text
    }
}

/// Every cell on the outer ring of a level's maze is a wall.
pub proof fn lemma_border_is_wall(level: MazeLevel, x: int, y: int)
    requires
        level.wf(),
        0 <= x < level.width,
        0 <= y < level.height,
        x == 0 || y == 0 || x == level.width - 1 || y == level.height - 1,
    ensures
        level.grid()[y][x] == WALL,
{
    if level.grid()[y][x] != WALL {
        assert(is_open(level.grid(), (x, y)));
    }
}

/// Any two open cells of a level's maze are connected by a walk over open
/// cells.
pub proof fn lemma_open_cells_connected(level: MazeLevel, a: (int, int), b: (int, int))
    requires
        level.wf(),
        is_open(level.grid(), a),
        is_open(level.grid(), b),
    ensures
        connected(level.grid(), a, b),
{
}

/// In a level as it is made, the player and the exit are in different cells
/// as soon as the maze has an open cell besides the player's.
pub proof fn lemma_exit_is_elsewhere(level: MazeLevel, other: (int, int))
    requires
        level.wf(),
        level.placed_apart(),
        is_open(level.grid(), other),
        other != level.player_position@,
    ensures
        level.exit_position@ != level.player_position@,
{
    let distance = choose|distance: int|
        is_search_result(level.grid(), level.player_position@, level.exit_position@, distance);
    assert(connected(level.grid(), level.player_position@, other));
    lemma_farthest_is_elsewhere(
        level.grid(),
        level.player_position@,
        level.exit_position@,
        distance,
        other,
    );
}

/// A level of a single room has that room, the cell `(1, 1)`, as its only
/// open cell, and both the player and the exit are in it.
pub proof fn lemma_single_room(level: MazeLevel)
    requires
        level.wf(),
        level.width == 3,
        level.height == 3,
    ensures
        forall|c: (int, int)| is_open(level.grid(), c) <==> c == (1int, 1int),
        level.player_position@ == (1int, 1int),
        level.exit_position@ == (1int, 1int),
{
    assert(is_room(3, 3, (1, 1)));
    assert forall|c: (int, int)| is_open(level.grid(), c) implies c == (1int, 1int) by {
        assert(is_interior(3, 3, c));
    }
}

} // verus!
