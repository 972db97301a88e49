//! The mathematical model of a grid: cells, open paths, connectivity and the
//! counting of cells that carry a given value.

use vstd::arithmetic::div_mod::lemma_fundamental_div_mod;
use vstd::arithmetic::div_mod::lemma_fundamental_div_mod_converse;
use vstd::prelude::*;
use vstd::set_lib::lemma_int_range;
use vstd::set_lib::lemma_len_subset;
use vstd::set_lib::set_int_range;

verus! {

/// The character of a wall cell.
pub const WALL: char = '#';

/// The character of an open cell.
pub const OPEN: char = ' ';

/// The rows of a map as sequences: cell `(x, y)` is `grid_of(map)[y][x]`.
pub open spec fn grid_of<T>(map: Seq<Vec<T>>) -> Seq<Seq<T>> {
    Seq::new(map.len(), |y: int| map[y]@)
}

/// `g` has `height` rows of `width` cells each.
pub open spec fn rectangular<T>(g: Seq<Seq<T>>, width: int, height: int) -> bool {
    &&& g.len() == height
    &&& forall|y: int| 0 <= y < height ==> (#[trigger] g[y]).len() == width
}

/// Cell `c = (x, y)` lies on the grid.
pub open spec fn in_bounds(g: Seq<Seq<char>>, c: (int, int)) -> bool {
    0 <= c.1 < g.len() && 0 <= c.0 < g[c.1].len()
}

/// Cell `c = (x, y)` lies on the grid and is not a wall.
pub open spec fn is_open(g: Seq<Seq<char>>, c: (int, int)) -> bool {
    in_bounds(g, c) && g[c.1][c.0] != WALL
}

/// Every cell of `g` is either a wall or open.
pub open spec fn two_valued(g: Seq<Seq<char>>) -> bool {
    forall|x: int, y: int|
        0 <= y < g.len() && 0 <= x < g[y].len() ==> #[trigger] g[y][x] == WALL || g[y][x] == OPEN
}

/// Cells `a` and `b` share an edge.
pub open spec fn adjacent(a: (int, int), b: (int, int)) -> bool {
    ||| a.1 == b.1 && (a.0 == b.0 + 1 || a.0 + 1 == b.0)
    ||| a.0 == b.0 && (a.1 == b.1 + 1 || a.1 + 1 == b.1)
}

/// `p` is a non-empty walk over open cells of `g` in which each cell shares an
/// edge with the next.
pub open spec fn is_path(g: Seq<Seq<char>>, p: Seq<(int, int)>) -> bool {
    &&& p.len() > 0
    &&& forall|i: int| 0 <= i < p.len() ==> is_open(g, #[trigger] p[i])
    &&& forall|i: int, j: int|
        0 <= i && j == i + 1 && j < p.len() ==> adjacent(#[trigger] p[i], #[trigger] p[j])
}

/// `p` is an open walk from `a` to `b`.
pub open spec fn path_between(g: Seq<Seq<char>>, a: (int, int), b: (int, int), p: Seq<(int, int)>) -> bool {
    is_path(g, p) && p[0] == a && p[p.len() - 1] == b
}

/// Some open walk leads from `a` to `b`.
pub open spec fn connected(g: Seq<Seq<char>>, a: (int, int), b: (int, int)) -> bool {
    exists|p: Seq<(int, int)>| path_between(g, a, b, p)
}

/// Some open walk of at most `steps` steps leads from `a` to `b`.
#[verifier::opaque]
pub open spec fn reachable_within(g: Seq<Seq<char>>, a: (int, int), b: (int, int), steps: int) -> bool {
    exists|p: Seq<(int, int)>| path_between(g, a, b, p) && p.len() <= steps + 1
}

/// The open cells of `g` form one connected component.
pub open spec fn all_open_connected(g: Seq<Seq<char>>) -> bool {
    forall|a: (int, int), b: (int, int)|
        is_open(g, a) && is_open(g, b) ==> #[trigger] connected(g, a, b)
}

/// Every cell that is open in `g` is open in `g2`.
pub open spec fn opens_kept(g: Seq<Seq<char>>, g2: Seq<Seq<char>>) -> bool {
    forall|c: (int, int)| is_open(g, c) ==> is_open(g2, c)
}

/// An open cell is connected to itself.
pub proof fn lemma_path_single(g: Seq<Seq<char>>, a: (int, int))
    requires
        is_open(g, a),
    ensures
        path_between(g, a, a, seq![a]),
        connected(g, a, a),
        reachable_within(g, a, a, 0),
{
    reveal(reachable_within);
    let p = seq![a];
    assert(path_between(g, a, a, p));
}

/// What lies within some steps is connected, and lies within more steps too.
pub proof fn lemma_within_more(g: Seq<Seq<char>>, a: (int, int), b: (int, int), steps: int, more: int)
    requires
        reachable_within(g, a, b, steps),
        steps <= more,
    ensures
        reachable_within(g, a, b, more),
        connected(g, a, b),
        steps >= 0,
        steps == 0 ==> a == b,
{
    reveal(reachable_within);
    let p = choose|p: Seq<(int, int)>| path_between(g, a, b, p) && p.len() <= steps + 1;
    assert(path_between(g, a, b, p) && p.len() <= more + 1);
}

/// One step further from a cell within `steps` steps lies within `steps + 1`.
pub proof fn lemma_within_step(
    g: Seq<Seq<char>>,
    a: (int, int),
    b: (int, int),
    c: (int, int),
    steps: int,
)
    requires
        reachable_within(g, a, b, steps),
        adjacent(b, c),
        is_open(g, c),
    ensures
        reachable_within(g, a, c, steps + 1),
{
    reveal(reachable_within);
    let p = choose|p: Seq<(int, int)>| path_between(g, a, b, p) && p.len() <= steps + 1;
    lemma_path_extend(g, a, b, p, c);
    assert(path_between(g, a, c, p.push(c)) && p.push(c).len() <= steps + 1 + 1);
}

/// A walk can be prolonged by an open neighbour of its last cell.
pub proof fn lemma_path_extend(
    g: Seq<Seq<char>>,
    a: (int, int),
    b: (int, int),
    p: Seq<(int, int)>,
    c: (int, int),
)
    requires
        path_between(g, a, b, p),
        is_open(g, c),
        adjacent(b, c),
    ensures
        path_between(g, a, c, p.push(c)),
        p.push(c).len() == p.len() + 1,
{
    let q = p.push(c);
    assert forall|i: int| 0 <= i < q.len() implies is_open(g, #[trigger] q[i]) by {
        if i < p.len() {
            assert(q[i] == p[i]);
        }
    }
    assert forall|i: int, j: int| 0 <= i && j == i + 1 && j < q.len() implies adjacent(
        #[trigger] q[i],
        #[trigger] q[j],
    ) by {
        if j < p.len() {
            assert(adjacent(p[i], p[j]));
        } else {
            assert(q[i] == p[p.len() - 1]);
        }
    }
}

/// A walk stays a walk when more cells are opened.
pub proof fn lemma_path_kept(g: Seq<Seq<char>>, g2: Seq<Seq<char>>, p: Seq<(int, int)>)
    requires
        is_path(g, p),
        opens_kept(g, g2),
    ensures
        is_path(g2, p),
{
}

/// A walk read backwards is a walk.
pub proof fn lemma_path_reverse(g: Seq<Seq<char>>, a: (int, int), b: (int, int), p: Seq<(int, int)>)
    requires
        path_between(g, a, b, p),
    ensures
        path_between(g, b, a, Seq::new(p.len(), |i: int| p[p.len() - 1 - i])),
{
    let r = Seq::new(p.len(), |i: int| p[p.len() - 1 - i]);
    assert forall|i: int| 0 <= i < r.len() implies is_open(g, #[trigger] r[i]) by {
        assert(r[i] == p[p.len() - 1 - i]);
    }
    assert forall|i: int, j: int| 0 <= i && j == i + 1 && j < r.len() implies adjacent(
        #[trigger] r[i],
        #[trigger] r[j],
    ) by {
        let k = p.len() - 2 - i;
        assert(adjacent(p[k], p[k + 1]));
    }
}

/// Two walks that meet end to start join into one.
pub proof fn lemma_path_join(
    g: Seq<Seq<char>>,
    a: (int, int),
    b: (int, int),
    c: (int, int),
    p: Seq<(int, int)>,
    q: Seq<(int, int)>,
)
    requires
        path_between(g, a, b, p),
        path_between(g, b, c, q),
    ensures
        path_between(g, a, c, p + q.subrange(1, q.len() as int)),
{
    let r = p + q.subrange(1, q.len() as int);
    assert forall|i: int| 0 <= i < r.len() implies is_open(g, #[trigger] r[i]) by {
        if i < p.len() {
            assert(r[i] == p[i]);
        } else {
            assert(r[i] == q[i - p.len() + 1]);
        }
    }
    assert forall|i: int, j: int| 0 <= i && j == i + 1 && j < r.len() implies adjacent(
        #[trigger] r[i],
        #[trigger] r[j],
    ) by {
        if j < p.len() {
            assert(adjacent(p[i], p[j]));
        } else if i == p.len() - 1 {
            assert(r[i] == q[0]);
            assert(r[j] == q[1]);
            assert(adjacent(q[0], q[1]));
        } else {
            let k = i - p.len() + 1;
            assert(r[i] == q[k]);
            assert(r[j] == q[k + 1]);
            assert(adjacent(q[k], q[k + 1]));
        }
    }
    if q.len() == 1 {
        assert(r =~= p);
    } else {
        assert(r[r.len() - 1] == q[q.len() - 1]);
    }
}

/// Connectivity is symmetric.
pub proof fn lemma_connected_symmetric(g: Seq<Seq<char>>, a: (int, int), b: (int, int))
    requires
        connected(g, a, b),
    ensures
        connected(g, b, a),
{
    let p = choose|p: Seq<(int, int)>| path_between(g, a, b, p);
    lemma_path_reverse(g, a, b, p);
}

/// Connectivity is transitive.
pub proof fn lemma_connected_transitive(
    g: Seq<Seq<char>>,
    a: (int, int),
    b: (int, int),
    c: (int, int),
)
    requires
        connected(g, a, b),
        connected(g, b, c),
    ensures
        connected(g, a, c),
{
    let p = choose|p: Seq<(int, int)>| path_between(g, a, b, p);
    let q = choose|q: Seq<(int, int)>| path_between(g, b, c, q);
    lemma_path_join(g, a, b, c, p, q);
}

/// Connectivity survives the opening of more cells.
pub proof fn lemma_connected_kept(g: Seq<Seq<char>>, g2: Seq<Seq<char>>, a: (int, int), b: (int, int))
    requires
        connected(g, a, b),
        opens_kept(g, g2),
    ensures
        connected(g2, a, b),
{
    let p = choose|p: Seq<(int, int)>| path_between(g, a, b, p);
    lemma_path_kept(g, g2, p);
    assert(path_between(g2, a, b, p));
}

/// If every open cell is connected to `hub`, any two open cells are connected.
pub proof fn lemma_hub_connects_all(g: Seq<Seq<char>>, hub: (int, int))
    requires
        forall|c: (int, int)| is_open(g, c) ==> #[trigger] connected(g, hub, c),
    ensures
        all_open_connected(g),
{
    assert forall|a: (int, int), b: (int, int)| is_open(g, a) && is_open(g, b) implies #[trigger] connected(
        g,
        a,
        b,
    ) by {
        assert(connected(g, hub, a));
        assert(connected(g, hub, b));
        lemma_connected_symmetric(g, hub, a);
        lemma_connected_transitive(g, a, hub, b);
    }
}

/// The number that stands for cell `(x, y)` on a grid of the given width.
pub open spec fn cell_id(width: int, x: int, y: int) -> int {
    y * width + x
}

/// The numbers of the cells of a `width` by `height` grid that hold `value`.
pub open spec fn ids_with<T>(g: Seq<Seq<T>>, width: int, height: int, value: T) -> Set<int> {
    Set::new(|i: int| 0 <= i < width * height && g[i / width][i % width] == value)
}

/// How many cells of a `width` by `height` grid hold `value`.
#[verifier::opaque]
pub open spec fn count_with<T>(g: Seq<Seq<T>>, width: int, height: int, value: T) -> nat {
    ids_with(g, width, height, value).len()
}

/// A cell's number determines the cell, and lies below `width * height`.
pub proof fn lemma_cell_id(width: int, height: int, x: int, y: int)
    requires
        0 <= x < width,
        0 <= y < height,
    ensures
        0 <= cell_id(width, x, y) < width * height,
        cell_id(width, x, y) % width == x,
        cell_id(width, x, y) / width == y,
{
    lemma_fundamental_div_mod_converse(cell_id(width, x, y), width, y, x);
    assert(0 <= y * width && y * width + width <= height * width) by (nonlinear_arith)
        requires
            0 <= y < height,
            0 < width,
    ;
    assert(height * width == width * height) by (nonlinear_arith);
}

/// Every number below `width * height` stands for a cell of the grid.
pub proof fn lemma_id_cell(width: int, height: int, i: int)
    requires
        0 < width,
        0 <= i < width * height,
    ensures
        0 <= i % width < width,
        0 <= i / width < height,
        cell_id(width, i % width, i / width) == i,
{
    lemma_fundamental_div_mod(i, width);
    let q = i / width;
    let r = i % width;
    assert(width * q == q * width) by (nonlinear_arith);
    assert(0 <= q < height) by (nonlinear_arith)
        requires
            0 < width,
            0 <= r < width,
            0 <= q * width + r < width * height,
    ;
}

/// The cells that hold a value are finitely many, no more than the grid has.
pub proof fn lemma_count_bounded<T>(g: Seq<Seq<T>>, width: int, height: int, value: T)
    requires
        0 < width,
        0 <= height,
    ensures
        ids_with(g, width, height, value).finite(),
        count_with(g, width, height, value) <= width * height,
{
    reveal(count_with);
    assert(0 <= width * height) by (nonlinear_arith)
        requires
            0 < width,
            0 <= height,
    ;
    lemma_int_range(0, width * height);
    assert(ids_with(g, width, height, value).subset_of(set_int_range(0, width * height)));
    lemma_len_subset(ids_with(g, width, height, value), set_int_range(0, width * height));
}

/// A grid whose every cell holds `value` counts `width * height` of them.
pub proof fn lemma_count_full<T>(g: Seq<Seq<T>>, width: int, height: int, value: T)
    requires
        0 < width,
        0 <= height,
        rectangular(g, width, height),
        forall|x: int, y: int| 0 <= x < width && 0 <= y < height ==> #[trigger] g[y][x] == value,
    ensures
        count_with(g, width, height, value) == width * height,
{
    reveal(count_with);
    assert(0 <= width * height) by (nonlinear_arith)
        requires
            0 < width,
            0 <= height,
    ;
    lemma_int_range(0, width * height);
    assert forall|i: int| 0 <= i < width * height implies ids_with(g, width, height, value).contains(
        i,
    ) by {
        lemma_id_cell(width, height, i);
        assert(g[i / width][i % width] == value);
    }
    assert(ids_with(g, width, height, value) =~= set_int_range(0, width * height));
}

/// Changing one cell from `value` to something else lowers the count by one.
pub proof fn lemma_count_drops<T>(
    g: Seq<Seq<T>>,
    g2: Seq<Seq<T>>,
    width: int,
    height: int,
    value: T,
    x: int,
    y: int,
)
    requires
        0 <= x < width,
        0 <= y < height,
        g[y][x] == value,
        g2[y][x] != value,
        forall|x2: int, y2: int|
            0 <= x2 < width && 0 <= y2 < height && !(x2 == x && y2 == y) ==> #[trigger] g2[y2][x2]
                == g[y2][x2],
    ensures
        ids_with(g, width, height, value).finite(),
        ids_with(g2, width, height, value).finite(),
        count_with(g, width, height, value) >= 1,
        count_with(g2, width, height, value) == count_with(g, width, height, value) - 1,
{
    reveal(count_with);
    let id = cell_id(width, x, y);
    let before = ids_with(g, width, height, value);
    let after = ids_with(g2, width, height, value);
    lemma_cell_id(width, height, x, y);
    lemma_count_bounded(g, width, height, value);
    lemma_count_bounded(g2, width, height, value);
    assert(before.contains(id));
    assert forall|i: int| after.contains(i) <==> before.remove(id).contains(i) by {
        if 0 <= i < width * height {
            lemma_id_cell(width, height, i);
            let x2 = i % width;
            let y2 = i / width;
            if x2 == x && y2 == y {
                assert(i == id);
            } else {
                assert(g2[y2][x2] == g[y2][x2]);
            }
        }
    }
    assert(after =~= before.remove(id));
}

} // verus!
