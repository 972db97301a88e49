//! What a finished maze looks like: rooms on odd coordinates, passages between
//! neighbouring rooms, walls everywhere else, and exactly one way between any
//! two open cells.

use crate::cells::{
    all_open_connected, count_with, is_open, lemma_count_bounded, lemma_count_drops,
    lemma_id_cell, ids_with, rectangular, two_valued, WALL,
};
use vstd::prelude::*;

verus! {

/// `c` lies strictly inside the outer ring of a `width` by `height` grid.
pub open spec fn is_interior(width: int, height: int, c: (int, int)) -> bool {
    0 < c.0 < width - 1 && 0 < c.1 < height - 1
}

/// `c` is a room position: an interior cell with two odd coordinates.
pub open spec fn is_room(width: int, height: int, c: (int, int)) -> bool {
    is_interior(width, height, c) && c.0 % 2 == 1 && c.1 % 2 == 1
}

/// `c` is a passage position: an interior cell between two neighbouring
/// rooms, with one odd and one even coordinate.
pub open spec fn is_passage(width: int, height: int, c: (int, int)) -> bool {
    is_interior(width, height, c) && (c.0 + c.1) % 2 == 1
}

/// The two room positions that the passage position `c` lies between.
pub open spec fn passage_ends(c: (int, int)) -> ((int, int), (int, int)) {
    if c.0 % 2 == 0 {
        ((c.0 - 1, c.1), (c.0 + 1, c.1))
    } else {
        ((c.0, c.1 - 1), (c.0, c.1 + 1))
    }
}

/// Number of room columns (or rows) of a grid that is `size` cells wide (or
/// high).
pub open spec fn rooms_along(size: int) -> int {
    (size - 1) / 2
}

/// The passage position `c` joins two open rooms.
#[verifier::opaque]
pub open spec fn joins(g: Seq<Seq<char>>, c: (int, int)) -> bool {
    is_open(g, passage_ends(c).0) && is_open(g, passage_ends(c).1)
}

/// The shape that carving keeps at every step: a rectangular grid of walls
/// and open cells, in which only rooms and passages are open and every open
/// passage joins two open rooms. In particular the outer ring is all wall.
pub open spec fn carved(g: Seq<Seq<char>>, width: int, height: int) -> bool {
    &&& rectangular(g, width, height)
    &&& two_valued(g)
    &&& forall|c: (int, int)| #[trigger]
        is_open(g, c) ==> is_room(width, height, c) || (is_passage(width, height, c) && joins(g, c))
}

/// What `joins` says.
pub proof fn lemma_joins(g: Seq<Seq<char>>, c: (int, int))
    ensures
        joins(g, c) <==> is_open(g, passage_ends(c).0) && is_open(g, passage_ends(c).1),
{
    reveal(joins);
}

/// Every room position of `g` is open.
pub open spec fn all_rooms_open(g: Seq<Seq<char>>, width: int, height: int) -> bool {
    forall|c: (int, int)| #[trigger] is_room(width, height, c) ==> is_open(g, c)
}

/// `g` is a perfect maze: every room is open, the open cells hang together,
/// and there is one open passage fewer than there are rooms, so that the
/// passages form a spanning tree over the rooms and no walk can go in a
/// circle.
pub open spec fn is_perfect_maze(g: Seq<Seq<char>>, width: int, height: int) -> bool {
    &&& carved(g, width, height)
    &&& all_rooms_open(g, width, height)
    &&& all_open_connected(g)
    &&& count_with(g, width, height, WALL) + 2 * rooms_along(width) * rooms_along(height) - 1
        == width * height
}

/// Which rooms are open, room by room: entry `[j][i]` stands for the room in
/// room column `i` and room row `j`, the cell `(2 * i + 1, 2 * j + 1)`.
pub open spec fn room_grid(g: Seq<Seq<char>>, width: int, height: int) -> Seq<Seq<bool>> {
    Seq::new(
        rooms_along(height) as nat,
        |j: int| Seq::new(rooms_along(width) as nat, |i: int| g[2 * j + 1][2 * i + 1] != WALL),
    )
}

/// How many rooms of `g` are still walled up.
#[verifier::opaque]
pub open spec fn closed_rooms(g: Seq<Seq<char>>, width: int, height: int) -> nat {
    count_with(room_grid(g, width, height), rooms_along(width), rooms_along(height), false)
}

/// In a grid where every room is open, no room is walled up.
pub proof fn lemma_no_closed_rooms(g: Seq<Seq<char>>, width: int, height: int)
    requires
        width >= 3,
        height >= 3,
        width % 2 == 1,
        height % 2 == 1,
        rectangular(g, width, height),
        all_rooms_open(g, width, height),
    ensures
        closed_rooms(g, width, height) == 0,
{
    reveal(closed_rooms);
    reveal(count_with);
    let rx = rooms_along(width);
    let ry = rooms_along(height);
    let rg = room_grid(g, width, height);
    assert forall|id: int| !ids_with(rg, rx, ry, false).contains(id) by {
        if 0 <= id < rx * ry {
            lemma_id_cell(rx, ry, id);
            let i = id % rx;
            let j = id / rx;
            assert(is_room(width, height, (2 * i + 1, 2 * j + 1)));
            assert(is_open(g, (2 * i + 1, 2 * j + 1)));
            assert(rg[j][i]);
        }
    }
    assert(ids_with(rg, rx, ry, false) =~= Set::empty());
}

/// Opening the passage `m` and the room `n`, both walls before, takes two
/// walls off the grid and one room off the rooms that are walled up.
pub proof fn lemma_opening_counts(
    g: Seq<Seq<char>>,
    g2: Seq<Seq<char>>,
    width: int,
    height: int,
    m: (int, int),
    n: (int, int),
)
    requires
        width >= 3,
        height >= 3,
        width % 2 == 1,
        height % 2 == 1,
        rectangular(g, width, height),
        rectangular(g2, width, height),
        is_passage(width, height, m),
        is_room(width, height, n),
        g[m.1][m.0] == WALL,
        g[n.1][n.0] == WALL,
        g2[m.1][m.0] != WALL,
        g2[n.1][n.0] != WALL,
        forall|x: int, y: int|
            0 <= x < width && 0 <= y < height && (x, y) != m && (x, y) != n ==> #[trigger] g2[y][x]
                == g[y][x],
    ensures
        count_with(g, width, height, WALL) >= 2,
        count_with(g2, width, height, WALL) == count_with(g, width, height, WALL) - 2,
        closed_rooms(g, width, height) >= 1,
        closed_rooms(g2, width, height) == closed_rooms(g, width, height) - 1,
{
    reveal(closed_rooms);
    reveal(count_with);
    let mid = g.update(m.1, g[m.1].update(m.0, g2[m.1][m.0]));
    assert forall|x: int, y: int|
        0 <= x < width && 0 <= y < height && !(x == m.0 && y == m.1) implies #[trigger] mid[y][x]
        == g[y][x] by {}
    lemma_count_drops(g, mid, width, height, WALL, m.0, m.1);
    assert forall|x: int, y: int|
        0 <= x < width && 0 <= y < height && !(x == n.0 && y == n.1) implies #[trigger] g2[y][x]
        == mid[y][x] by {
        if x == m.0 && y == m.1 {
        } else {
            assert(g2[y][x] == g[y][x]);
        }
    }
    assert(mid[n.1][n.0] == WALL);
    lemma_count_drops(mid, g2, width, height, WALL, n.0, n.1);

    let rx = rooms_along(width);
    let ry = rooms_along(height);
    let rg = room_grid(g, width, height);
    let rg2 = room_grid(g2, width, height);
    let ni = (n.0 - 1) / 2;
    let nj = (n.1 - 1) / 2;
    assert(2 * ni + 1 == n.0 && 2 * nj + 1 == n.1);
    assert(0 <= ni < rx && 0 <= nj < ry);
    assert forall|i: int, j: int|
        0 <= i < rx && 0 <= j < ry && !(i == ni && j == nj) implies #[trigger] rg2[j][i]
        == rg[j][i] by {
        let x = 2 * i + 1;
        let y = 2 * j + 1;
        assert((x, y) != m);
        assert((x, y) != n);
        assert(g2[y][x] == g[y][x]);
    }
    assert(rg[nj][ni] == false);
    assert(rg2[nj][ni] != false);
    lemma_count_drops(rg, rg2, rx, ry, false, ni, nj);
}

/// Opening the first room of a grid that is all wall.
pub proof fn lemma_first_opening_counts(
    g: Seq<Seq<char>>,
    g2: Seq<Seq<char>>,
    width: int,
    height: int,
    n: (int, int),
)
    requires
        width >= 3,
        height >= 3,
        width % 2 == 1,
        height % 2 == 1,
        rectangular(g, width, height),
        rectangular(g2, width, height),
        is_room(width, height, n),
        forall|x: int, y: int| 0 <= x < width && 0 <= y < height ==> #[trigger] g[y][x] == WALL,
        g2[n.1][n.0] != WALL,
        forall|x: int, y: int|
            0 <= x < width && 0 <= y < height && (x, y) != n ==> #[trigger] g2[y][x] == g[y][x],
    ensures
        count_with(g2, width, height, WALL) == width * height - 1,
        closed_rooms(g2, width, height) == rooms_along(width) * rooms_along(height) - 1,
{
    reveal(closed_rooms);
    reveal(count_with);
    crate::cells::lemma_count_full(g, width, height, WALL);
    assert forall|x: int, y: int|
        0 <= x < width && 0 <= y < height && !(x == n.0 && y == n.1) implies #[trigger] g2[y][x]
        == g[y][x] by {
        assert((x, y) != n);
    }
    lemma_count_drops(g, g2, width, height, WALL, n.0, n.1);

    let rx = rooms_along(width);
    let ry = rooms_along(height);
    let rg = room_grid(g, width, height);
    let rg2 = room_grid(g2, width, height);
    let ni = (n.0 - 1) / 2;
    let nj = (n.1 - 1) / 2;
    assert(2 * ni + 1 == n.0 && 2 * nj + 1 == n.1);
    assert(0 <= ni < rx && 0 <= nj < ry);
    assert(rectangular(rg, rx, ry));
    assert forall|i: int, j: int| 0 <= i < rx && 0 <= j < ry implies #[trigger] rg[j][i]
        == false by {
        assert(g[2 * j + 1][2 * i + 1] == WALL);
    }
    crate::cells::lemma_count_full(rg, rx, ry, false);
    assert forall|i: int, j: int|
        0 <= i < rx && 0 <= j < ry && !(i == ni && j == nj) implies #[trigger] rg2[j][i]
        == rg[j][i] by {
        let x = 2 * i + 1;
        let y = 2 * j + 1;
        assert((x, y) != n);
        assert(g2[y][x] == g[y][x]);
    }
    assert(rg2[nj][ni] != false);
    lemma_count_drops(rg, rg2, rx, ry, false, ni, nj);
    lemma_count_bounded(rg2, rx, ry, false);
}

} // verus!
