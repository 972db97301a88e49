//! Which faces of the wall blocks and which floor tiles a picture of the maze
//! has to show.

use crate::cells::WALL;
use crate::level::MazeLevel;
use vstd::prelude::*;

verus! {

/// Number of faces that a wall block can show: front, back, right, left and
/// top. The bottom is never seen.
pub const FACE_COUNT: usize = 5;

/// The step from a block to the block that hides face `face`: front `(0, 1)`,
/// back `(0, -1)`, right `(1, 0)`, left `(-1, 0)`. The top, face 4, has
/// `(0, 0)`: nothing hides it.
pub open spec fn face_delta(face: int) -> (int, int) {
    if face == 0 {
        (0, 1)
    } else if face == 1 {
        (0, -1)
    } else if face == 2 {
        (1, 0)
    } else if face == 3 {
        (-1, 0)
    } else {
        (0, 0)
    }
}

/// Cell `(x, z)` lies on the grid and is a wall.
pub open spec fn wall_at(g: Seq<Seq<char>>, x: int, z: int) -> bool {
    0 <= z < g.len() && 0 <= x < g[z].len() && g[z][x] == WALL
}

/// Face `face` of the block at `(x, z)` is to be seen: it is the top, or the
/// cell it looks at is no wall.
pub open spec fn face_shows(g: Seq<Seq<char>>, x: int, z: int, face: int) -> bool {
    face == 4 || !wall_at(g, x + face_delta(face).0, z + face_delta(face).1)
}

/// Face `a` comes before face `b` when the blocks are read row by row and the
/// faces of each block in their order. A face is `(x, z, face)`.
pub open spec fn face_before(a: (usize, usize, usize), b: (usize, usize, usize)) -> bool {
    a.1 < b.1 || (a.1 == b.1 && (a.0 < b.0 || (a.0 == b.0 && a.2 < b.2)))
}

/// `f` is a face of a wall block that is to be seen.
pub open spec fn is_seen_face(
    g: Seq<Seq<char>>,
    width: int,
    height: int,
    f: (usize, usize, usize),
) -> bool {
    f.0 < width && f.1 < height && f.2 < 5 && g[f.1 as int][f.0 as int] == WALL && face_shows(
        g,
        f.0 as int,
        f.1 as int,
        f.2 as int,
    )
}

/// `faces` lists, row by row and each once, the faces to be seen that come
/// before `bound`.
pub open spec fn lists_wall_faces_before(
    g: Seq<Seq<char>>,
    width: int,
    height: int,
    faces: Seq<(usize, usize, usize)>,
    bound: (usize, usize, usize),
) -> bool {
    &&& forall|i: int|
        0 <= i < faces.len() ==> is_seen_face(g, width, height, #[trigger] faces[i])
            && face_before(faces[i], bound)
    &&& forall|i: int, j: int|
        0 <= i < j < faces.len() ==> face_before(#[trigger] faces[i], #[trigger] faces[j])
    &&& forall|f: (usize, usize, usize)|
        #[trigger] is_seen_face(g, width, height, f) && face_before(f, bound) ==> faces.contains(f)
}

/// `faces` lists, row by row and each once, the faces of wall blocks that are
/// to be seen.
pub open spec fn lists_wall_faces(
    g: Seq<Seq<char>>,
    width: int,
    height: int,
    faces: Seq<(usize, usize, usize)>,
) -> bool {
    &&& forall|i: int| 0 <= i < faces.len() ==> is_seen_face(g, width, height, #[trigger] faces[i])
    &&& forall|i: int, j: int|
        0 <= i < j < faces.len() ==> face_before(#[trigger] faces[i], #[trigger] faces[j])
    &&& forall|f: (usize, usize, usize)| #[trigger] is_seen_face(g, width, height, f) ==> faces.contains(f)
}

/// Tile `a` comes before tile `b` when the grid is read row by row. A tile is
/// `(x, z)`.
pub open spec fn tile_before(a: (usize, usize), b: (usize, usize)) -> bool {
    a.1 < b.1 || (a.1 == b.1 && a.0 < b.0)
}

/// `t` is a cell of the grid that is no wall.
pub open spec fn is_floor_tile(g: Seq<Seq<char>>, width: int, height: int, t: (usize, usize)) -> bool {
    t.0 < width && t.1 < height && g[t.1 as int][t.0 as int] != WALL
}

/// `tiles` lists, row by row and each once, the floor tiles that come before
/// `bound`.
pub open spec fn lists_floor_tiles_before(
    g: Seq<Seq<char>>,
    width: int,
    height: int,
    tiles: Seq<(usize, usize)>,
    bound: (usize, usize),
) -> bool {
    &&& forall|i: int|
        0 <= i < tiles.len() ==> is_floor_tile(g, width, height, #[trigger] tiles[i])
            && tile_before(tiles[i], bound)
    &&& forall|i: int, j: int|
        0 <= i < j < tiles.len() ==> tile_before(#[trigger] tiles[i], #[trigger] tiles[j])
    &&& forall|t: (usize, usize)|
        #[trigger] is_floor_tile(g, width, height, t) && tile_before(t, bound) ==> tiles.contains(t)
}

/// `tiles` lists, row by row and each once, the cells that are no wall.
pub open spec fn lists_floor_tiles(
    g: Seq<Seq<char>>,
    width: int,
    height: int,
    tiles: Seq<(usize, usize)>,
) -> bool {
    &&& forall|i: int| 0 <= i < tiles.len() ==> is_floor_tile(g, width, height, #[trigger] tiles[i])
    &&& forall|i: int, j: int|
        0 <= i < j < tiles.len() ==> tile_before(#[trigger] tiles[i], #[trigger] tiles[j])
    &&& forall|t: (usize, usize)| #[trigger] is_floor_tile(g, width, height, t) ==> tiles.contains(t)
}

/// A list is still the list of the faces to be seen before a bound when the
/// bound moves on over a face that is not to be seen, or when the face it
/// moves over joins the list.
proof fn lemma_faces_grow(
    g: Seq<Seq<char>>,
    width: int,
    height: int,
    faces: Seq<(usize, usize, usize)>,
    at: (usize, usize, usize),
    next: (usize, usize, usize),
)
    requires
        lists_wall_faces_before(g, width, height, faces, at),
        face_before(at, next),
        forall|f: (usize, usize, usize)|
            #[trigger] is_seen_face(g, width, height, f) && face_before(f, next) ==> face_before(
                f,
                at,
            ) || f == at,
    ensures
        !is_seen_face(g, width, height, at) ==> lists_wall_faces_before(
            g,
            width,
            height,
            faces,
            next,
        ),
        is_seen_face(g, width, height, at) ==> lists_wall_faces_before(
            g,
            width,
            height,
            faces.push(at),
            next,
        ),
{
    if is_seen_face(g, width, height, at) {
        let more = faces.push(at);
        assert forall|f: (usize, usize, usize)|
            #[trigger] is_seen_face(g, width, height, f) && face_before(
                f,
                next,
            ) implies more.contains(f) by {
            if f == at {
                assert(more[faces.len() as int] == f);
            } else {
                assert(faces.contains(f));
                let i = choose|i: int| 0 <= i < faces.len() && faces[i] == f;
                assert(more[i] == f);
            }
        }
    }
}

/// The same for floor tiles.
proof fn lemma_tiles_grow(
    g: Seq<Seq<char>>,
    width: int,
    height: int,
    tiles: Seq<(usize, usize)>,
    at: (usize, usize),
    next: (usize, usize),
)
    requires
        lists_floor_tiles_before(g, width, height, tiles, at),
        tile_before(at, next),
        forall|t: (usize, usize)|
            #[trigger] is_floor_tile(g, width, height, t) && tile_before(t, next) ==> tile_before(
                t,
                at,
            ) || t == at,
    ensures
        !is_floor_tile(g, width, height, at) ==> lists_floor_tiles_before(
            g,
            width,
            height,
            tiles,
            next,
        ),
        is_floor_tile(g, width, height, at) ==> lists_floor_tiles_before(
            g,
            width,
            height,
            tiles.push(at),
            next,
        ),
{
    if is_floor_tile(g, width, height, at) {
        let more = tiles.push(at);
        assert forall|t: (usize, usize)|
            #[trigger] is_floor_tile(g, width, height, t) && tile_before(
                t,
                next,
            ) implies more.contains(t) by {
            if t == at {
                assert(more[tiles.len() as int] == t);
            } else {
                assert(tiles.contains(t));
                let i = choose|i: int| 0 <= i < tiles.len() && tiles[i] == t;
                assert(more[i] == t);
            }
        }
    }
}

/// Whether `(x, z)` is a wall. A place off the grid is none, so that the
/// faces on the outer side of the maze are seen.
pub fn is_wall_at(level: &MazeLevel, x: i32, z: i32) -> (wall: bool)
    ensures
        wall == wall_at(level.grid(), x as int, z as int),
{
    if x < 0 || z < 0 {
        return false;
    }
    let xu: usize = x as usize;
    let zu: usize = z as usize;
    if zu >= level.map.len() {
        return false;
    }
    assert(level.grid()[zu as int] == level.map@[zu as int]@);
    if xu >= level.map[zu].len() {
        return false;
    }
    level.map[zu][xu] == WALL
}

/// The step from a block to the block that hides face `face`.
pub fn face_direction(face: usize) -> (d: (i32, i32))
    requires
        face < 5,
    ensures
        (d.0 as int, d.1 as int) == face_delta(face as int),
{
    if face == 0 {
        (0, 1)
    } else if face == 1 {
        (0, -1)
    } else if face == 2 {
        (1, 0)
    } else if face == 3 {
        (-1, 0)
    } else {
        (0, 0)
    }
}

/// Whether face `face` of the block at `(x, z)` is to be seen.
pub fn should_render(level: &MazeLevel, x: usize, z: usize, face: usize) -> (shown: bool)
    requires
        face < 5,
        x < i32::MAX,
        z < i32::MAX,
    ensures
        shown == face_shows(level.grid(), x as int, z as int, face as int),
{
    let check_dir = face_direction(face);
    if check_dir.0 == 0 && check_dir.1 == 0 {
        true
    } else {
        !is_wall_at(level, x as i32 + check_dir.0, z as i32 + check_dir.1)
    }
}

/// The faces of wall blocks that are to be seen, as `(x, z, face)`, in the
/// order in which the mesh of the walls holds them.
pub fn wall_faces(level: &MazeLevel) -> (faces: Vec<(usize, usize, usize)>)
    requires
        level.shape_ok(),
        level.width <= i32::MAX,
        level.height <= i32::MAX,
    ensures
        lists_wall_faces(level.grid(), level.width as int, level.height as int, faces@),
{
    let ghost g = level.grid();
    let ghost w = level.width as int;
    let ghost h = level.height as int;
    let mut faces: Vec<(usize, usize, usize)> = Vec::new();
    let mut z: usize = 0;
    while z < level.height
        invariant
            level.shape_ok(),
            g == level.grid(),
            w == level.width,
            h == level.height,
            w <= i32::MAX,
            h <= i32::MAX,
            lists_wall_faces_before(g, w, h, faces@, (0, z, 0)),
        decreases level.height - z,
    {
        let mut x: usize = 0;
        while x < level.width
            invariant
                level.shape_ok(),
                g == level.grid(),
                w == level.width,
                h == level.height,
                w <= i32::MAX,
                h <= i32::MAX,
                z < level.height,
                lists_wall_faces_before(g, w, h, faces@, (x, z, 0)),
            decreases level.width - x,
        {
            if level.cell(x, z) == WALL {
                let mut face: usize = 0;
                while face < FACE_COUNT
                    invariant
                        level.shape_ok(),
                        g == level.grid(),
                        w == level.width,
                        h == level.height,
                        w <= i32::MAX,
                        h <= i32::MAX,
                        z < level.height,
                        x < level.width,
                        face <= 5,
                        g[z as int][x as int] == WALL,
                        lists_wall_faces_before(g, w, h, faces@, (x, z, face)),
                    decreases 5 - face,
                {
                    proof {
                        lemma_faces_grow(g, w, h, faces@, (x, z, face), (x, z, (face + 1) as usize));
                    }
                    if should_render(level, x, z, face) {
                        faces.push((x, z, face));
                    }
                    face += 1;
                }
            }
            x += 1;
        }
        z += 1;
    }
    faces
}

/// The cells that are no wall, as `(x, z)`, in the order in which the mesh of
/// the floor holds their tiles.
pub fn floor_tiles(level: &MazeLevel) -> (tiles: Vec<(usize, usize)>)
    requires
        level.shape_ok(),
    ensures
        lists_floor_tiles(level.grid(), level.width as int, level.height as int, tiles@),
{
    let ghost g = level.grid();
    let ghost w = level.width as int;
    let ghost h = level.height as int;
    let mut tiles: Vec<(usize, usize)> = Vec::new();
    let mut z: usize = 0;
    while z < level.height
        invariant
            level.shape_ok(),
            g == level.grid(),
            w == level.width,
            h == level.height,
            lists_floor_tiles_before(g, w, h, tiles@, (0, z)),
        decreases level.height - z,
    {
        let mut x: usize = 0;
        while x < level.width
            invariant
                level.shape_ok(),
                g == level.grid(),
                w == level.width,
                h == level.height,
                z < level.height,
                lists_floor_tiles_before(g, w, h, tiles@, (x, z)),
            decreases level.width - x,
        {
            proof {
                lemma_tiles_grow(g, w, h, tiles@, (x, z), ((x + 1) as usize, z));
            }
            if level.cell(x, z) != WALL {
                tiles.push((x, z));
            }
            x += 1;
        }
        z += 1;
    }
    tiles
}

} // verus!
