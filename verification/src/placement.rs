//! Placing the player and the exit: a random open cell, and the open cell
//! that a breadth-first search finds farthest from it.

use crate::cells::{
    adjacent, connected, count_with, grid_of, is_open, lemma_count_bounded, lemma_count_drops,
    lemma_path_single, lemma_within_more, path_between, reachable_within, rectangular,
    two_valued, OPEN,
};
use crate::level::MazeLevel;
use crate::random::{choose_cell, thread_rng};
use crate::search::{
    cell_of, lemma_first_of_the_farthest, lemma_neighbour_on_side, lemma_order_begin,
    lemma_order_end, lemma_order_next, lemma_order_pass, lemma_order_visit, lemma_search_begin,
    lemma_search_end, lemma_search_head, lemma_search_next, lemma_search_pass,
    lemma_search_visit, lemma_side_to, marked, ordering, searching,
};
use vstd::prelude::*;

verus! {

/// `far` is an open cell farthest from `start`: it lies `distance` steps away
/// and no nearer, and every cell connected to `start` lies within `distance`
/// steps.
pub open spec fn is_farthest(g: Seq<Seq<char>>, start: (int, int), far: (int, int), distance: int) -> bool {
    &&& reachable_within(g, start, far, distance)
    &&& !reachable_within(g, start, far, distance - 1)
    &&& forall|c: (int, int)| #[trigger] connected(g, start, c) ==> reachable_within(g, start, c, distance)
}

/// The step to the neighbour on side `side`, in the order in which the search
/// looks at them: left, right, up, down.
pub open spec fn side_delta(side: int) -> (int, int) {
    if side == 0 {
        (-1, 0)
    } else if side == 1 {
        (1, 0)
    } else if side == 2 {
        (0, -1)
    } else {
        (0, 1)
    }
}

/// The neighbour of `c` on side `side`.
pub open spec fn neighbour(c: (int, int), side: int) -> (int, int) {
    (c.0 + side_delta(side).0, c.1 + side_delta(side).1)
}

/// The side of `a` on which its neighbour `b` lies.
pub open spec fn side_to(a: (int, int), b: (int, int)) -> int {
    if b.0 == a.0 - 1 {
        0
    } else if b.0 == a.0 + 1 {
        1
    } else if b.1 == a.1 - 1 {
        2
    } else {
        3
    }
}

/// The cell at place `i` of `order` was reached from the cell at place `j`:
/// that is the first cell of `order` that it is a neighbour of.
pub open spec fn reached_from(order: Seq<(int, int)>, i: int, j: int) -> bool {
    &&& 0 <= j < i < order.len()
    &&& adjacent(order[j], order[i])
    &&& forall|k: int| 0 <= k < j ==> !adjacent(#[trigger] order[k], order[i])
}

/// The cell at place `i` of `order` was reached from an earlier one.
pub open spec fn was_reached(order: Seq<(int, int)>, i: int) -> bool {
    exists|j: int| reached_from(order, i, j)
}

/// `order` is the order in which a breadth-first search from `start` reaches
/// the open cells of `g`: it begins with `start`, holds no cell twice, holds
/// every open neighbour of each of its cells, and each later cell comes
/// after all that were reached from an earlier cell, or from the same cell
/// on an earlier side.
#[verifier::opaque]
pub open spec fn is_search_order(g: Seq<Seq<char>>, start: (int, int), order: Seq<(int, int)>) -> bool {
    &&& order.len() >= 1
    &&& order[0] == start
    &&& forall|i: int| 0 <= i < order.len() ==> is_open(g, #[trigger] order[i])
    &&& forall|i: int, k: int| 0 <= i < k < order.len() ==> #[trigger] order[i] != #[trigger] order[k]
    &&& forall|i: int, side: int|
        0 <= i < order.len() && 0 <= side < 4 && is_open(g, neighbour(order[i], side))
            ==> order.contains(#[trigger] neighbour(order[i], side))
    &&& forall|i: int| 0 < i < order.len() ==> #[trigger] was_reached(order, i)
    &&& forall|i: int, k: int, ji: int, jk: int|
        0 < i < k < order.len() && #[trigger] reached_from(order, i, ji) && #[trigger] reached_from(
            order,
            k,
            jk,
        ) ==> ji < jk || (ji == jk && side_to(order[ji], order[i]) < side_to(order[jk], order[k]))
}

/// `far` is the first cell that a breadth-first search from `start` reaches
/// at `distance` steps: every cell that the search reaches before it lies
/// nearer.
pub open spec fn is_first_reached(g: Seq<Seq<char>>, start: (int, int), far: (int, int), distance: int) -> bool {
    exists|order: Seq<(int, int)>, place: int|
        {
            &&& is_search_order(g, start, order)
            &&& 0 <= place < order.len()
            &&& #[trigger] order[place] == far
            &&& forall|i: int|
                0 <= i < place ==> reachable_within(g, start, #[trigger] order[i], distance - 1)
        }
}

/// `far`, at `distance` steps, is what a breadth-first search from `start`
/// finds: the first cell that it reaches at the greatest distance there is.
pub open spec fn is_search_result(g: Seq<Seq<char>>, start: (int, int), far: (int, int), distance: int) -> bool {
    is_farthest(g, start, far, distance) && is_first_reached(g, start, far, distance)
}

/// Cell `a` comes before cell `b` when the grid is read column by column.
pub open spec fn comes_before(a: (usize, usize), b: (usize, usize)) -> bool {
    a.0 < b.0 || (a.0 == b.0 && a.1 < b.1)
}

/// Cell `c` holds the open character and lies off the first row and the first
/// column.
pub open spec fn is_empty_cell(g: Seq<Seq<char>>, width: int, height: int, c: (usize, usize)) -> bool {
    1 <= c.0 < width && 1 <= c.1 < height && g[c.1 as int][c.0 as int] == OPEN
}

/// `cells` lists, column by column and each once, the empty cells of `g` that
/// come before `bound`.
pub open spec fn lists_empty_cells_before(
    g: Seq<Seq<char>>,
    width: int,
    height: int,
    cells: Seq<(usize, usize)>,
    bound: (usize, usize),
) -> bool {
    &&& forall|i: int|
        0 <= i < cells.len() ==> is_empty_cell(g, width, height, #[trigger] cells[i])
            && comes_before(cells[i], bound)
    &&& forall|i: int, j: int|
        0 <= i < j < cells.len() ==> comes_before(#[trigger] cells[i], #[trigger] cells[j])
    &&& forall|c: (usize, usize)|
        #[trigger] is_empty_cell(g, width, height, c) && comes_before(c, bound) ==> cells.contains(c)
}

/// `cells` lists, column by column and each once, the cells of `g` that hold
/// the open character and lie off the first row and the first column.
pub open spec fn lists_open_cells(
    g: Seq<Seq<char>>,
    width: int,
    height: int,
    cells: Seq<(usize, usize)>,
) -> bool {
    &&& forall|i: int| 0 <= i < cells.len() ==> is_empty_cell(g, width, height, #[trigger] cells[i])
    &&& forall|i: int, j: int|
        0 <= i < j < cells.len() ==> comes_before(#[trigger] cells[i], #[trigger] cells[j])
    &&& forall|c: (usize, usize)| #[trigger] is_empty_cell(g, width, height, c) ==> cells.contains(c)
}

/// A list is still the list of the empty cells before a bound when the bound
/// moves on over a cell that is not empty, or when the cell it moves over
/// joins the list.
proof fn lemma_list_grows(
    g: Seq<Seq<char>>,
    width: int,
    height: int,
    cells: Seq<(usize, usize)>,
    at: (usize, usize),
    next: (usize, usize),
)
    requires
        lists_empty_cells_before(g, width, height, cells, at),
        comes_before(at, next),
        forall|c: (usize, usize)|
            #[trigger] is_empty_cell(g, width, height, c) && comes_before(c, next) ==> comes_before(
                c,
                at,
            ) || c == at,
    ensures
        !is_empty_cell(g, width, height, at) ==> lists_empty_cells_before(
            g,
            width,
            height,
            cells,
            next,
        ),
        is_empty_cell(g, width, height, at) ==> lists_empty_cells_before(
            g,
            width,
            height,
            cells.push(at),
            next,
        ),
{
    if is_empty_cell(g, width, height, at) {
        let more = cells.push(at);
        assert forall|c: (usize, usize)|
            #[trigger] is_empty_cell(g, width, height, c) && comes_before(
                c,
                next,
            ) implies more.contains(c) by {
            if c == at {
                assert(more[cells.len() as int] == c);
            } else {
                assert(cells.contains(c));
                let i = choose|i: int| 0 <= i < cells.len() && cells[i] == c;
                assert(more[i] == c);
            }
        }
    }
}

/// Where two search orders agree on their first `i` cells and the cell at
/// place `i` of the first was reached from an earlier place, or from the same
/// place on an earlier side, than that of the second, they agree on the cell
/// at place `i` too.
proof fn lemma_orders_agree_at(
    g: Seq<Seq<char>>,
    start: (int, int),
    a: Seq<(int, int)>,
    b: Seq<(int, int)>,
    i: int,
    ja: int,
    jb: int,
)
    requires
        is_search_order(g, start, a),
        is_search_order(g, start, b),
        0 < i < a.len(),
        i < b.len(),
        forall|k: int| 0 <= k < i ==> a[k] == b[k],
        reached_from(a, i, ja),
        reached_from(b, i, jb),
        ja < jb || (ja == jb && side_to(a[ja], a[i]) <= side_to(b[jb], b[i])),
    ensures
        a[i] == b[i],
{
    reveal(is_search_order);
    let c = a[i];
    let sa = side_to(a[ja], a[i]);
    let sb = side_to(b[jb], b[i]);
    lemma_neighbour_on_side(a[ja], a[i]);
    lemma_neighbour_on_side(b[jb], b[i]);
    assert(a[ja] == b[ja]);
    assert(c == neighbour(b[ja], sa));
    lemma_side_to(b[ja], sa);
    assert(is_open(g, a[i]));
    assert(b.contains(neighbour(b[ja], sa)));
    let m = choose|m: int| 0 <= m < b.len() && b[m] == c;
    if m < i {
        assert(a[m] == b[m]);
        assert(a[m] != a[i]);
    } else if m > i {
        assert(was_reached(b, m));
        let jm = choose|jm: int| reached_from(b, m, jm);
        assert(jm <= ja) by {
            if jm > ja {
                assert(!adjacent(b[ja], b[m]));
            }
        }
        assert(jb < jm || (jb == jm && sb < side_to(b[jm], b[m])));
    }
}

/// Two search orders agree on their first `n` cells.
proof fn lemma_orders_agree(
    g: Seq<Seq<char>>,
    start: (int, int),
    a: Seq<(int, int)>,
    b: Seq<(int, int)>,
    n: int,
)
    requires
        is_search_order(g, start, a),
        is_search_order(g, start, b),
        0 <= n <= a.len(),
        n <= b.len(),
    ensures
        forall|k: int| 0 <= k < n ==> a[k] == b[k],
    decreases n,
{
    if n == 1 {
        reveal(is_search_order);
    } else if n > 1 {
        lemma_orders_agree(g, start, a, b, n - 1);
        let i = n - 1;
        let (ja, jb) = lemma_sources(g, start, a, b, i);
        if ja < jb || (ja == jb && side_to(a[ja], a[i]) <= side_to(b[jb], b[i])) {
            lemma_orders_agree_at(g, start, a, b, i, ja, jb);
        } else {
            lemma_orders_agree_at(g, start, b, a, i, jb, ja);
        }
    }
}

/// The places from which the cells at place `i` of two search orders were
/// reached.
proof fn lemma_sources(
    g: Seq<Seq<char>>,
    start: (int, int),
    a: Seq<(int, int)>,
    b: Seq<(int, int)>,
    i: int,
) -> (sources: (int, int))
    requires
        is_search_order(g, start, a),
        is_search_order(g, start, b),
        0 < i < a.len(),
        i < b.len(),
    ensures
        reached_from(a, i, sources.0),
        reached_from(b, i, sources.1),
{
    reveal(is_search_order);
    assert(was_reached(a, i));
    assert(was_reached(b, i));
    (choose|j: int| reached_from(a, i, j), choose|j: int| reached_from(b, i, j))
}

/// A search order that agrees with another on all its own cells is not the
/// shorter of the two.
proof fn lemma_order_is_not_shorter(
    g: Seq<Seq<char>>,
    start: (int, int),
    a: Seq<(int, int)>,
    b: Seq<(int, int)>,
)
    requires
        is_search_order(g, start, a),
        is_search_order(g, start, b),
        a.len() <= b.len(),
        forall|k: int| 0 <= k < a.len() ==> a[k] == b[k],
    ensures
        a.len() == b.len(),
{
    reveal(is_search_order);
    if a.len() < b.len() {
        let n = a.len() as int;
        assert(was_reached(b, n));
        let j = choose|j: int| reached_from(b, n, j);
        lemma_neighbour_on_side(b[j], b[n]);
        let side = side_to(b[j], b[n]);
        assert(a[j] == b[j]);
        assert(is_open(g, b[n]));
        assert(a.contains(neighbour(a[j], side)));
        let m = choose|m: int| 0 <= m < a.len() && a[m] == b[n];
        assert(a[m] == b[m]);
        assert(b[m] != b[n]);
    }
}

/// There is but one search order from `start`: the cell that comes first at
/// the greatest distance is always the same.
pub proof fn lemma_search_order_is_one(
    g: Seq<Seq<char>>,
    start: (int, int),
    a: Seq<(int, int)>,
    b: Seq<(int, int)>,
)
    requires
        is_search_order(g, start, a),
        is_search_order(g, start, b),
    ensures
        a == b,
{
    if a.len() <= b.len() {
        lemma_orders_agree(g, start, a, b, a.len() as int);
        lemma_order_is_not_shorter(g, start, a, b);
    } else {
        lemma_orders_agree(g, start, a, b, b.len() as int);
        assert forall|k: int| 0 <= k < b.len() implies b[k] == a[k] by {}
        lemma_order_is_not_shorter(g, start, b, a);
    }
    assert(a =~= b);
}

/// What a breadth-first search from `start` finds is one cell and one
/// distance.
pub proof fn lemma_search_result_is_one(
    g: Seq<Seq<char>>,
    start: (int, int),
    far: (int, int),
    distance: int,
    far2: (int, int),
    distance2: int,
)
    requires
        is_search_result(g, start, far, distance),
        is_search_result(g, start, far2, distance2),
    ensures
        far == far2,
        distance == distance2,
{
    lemma_within_more(g, start, far, distance, distance);
    lemma_within_more(g, start, far2, distance2, distance2);
    assert(reachable_within(g, start, far2, distance));
    assert(reachable_within(g, start, far, distance2));
    if distance < distance2 {
        lemma_within_more(g, start, far2, distance, distance2 - 1);
    }
    if distance2 < distance {
        lemma_within_more(g, start, far, distance2, distance - 1);
    }
    let (order, place) = choose|order: Seq<(int, int)>, place: int|
        {
            &&& is_search_order(g, start, order)
            &&& 0 <= place < order.len()
            &&& #[trigger] order[place] == far
            &&& forall|i: int|
                0 <= i < place ==> reachable_within(g, start, #[trigger] order[i], distance - 1)
        };
    let (order2, place2) = choose|order: Seq<(int, int)>, place: int|
        {
            &&& is_search_order(g, start, order)
            &&& 0 <= place < order.len()
            &&& #[trigger] order[place] == far2
            &&& forall|i: int|
                0 <= i < place ==> reachable_within(g, start, #[trigger] order[i], distance2 - 1)
        };
    lemma_search_order_is_one(g, start, order, order2);
    if place < place2 {
        assert(reachable_within(g, start, order2[place], distance2 - 1));
    } else if place2 < place {
        assert(reachable_within(g, start, order[place2], distance - 1));
    }
}

/// If the cell farthest from `start` is `start` itself, no other cell is
/// connected to it. So where two or more open cells hang together, the start
/// and the farthest cell differ.
pub proof fn lemma_farthest_is_elsewhere(
    g: Seq<Seq<char>>,
    start: (int, int),
    far: (int, int),
    distance: int,
    other: (int, int),
)
    requires
        is_farthest(g, start, far, distance),
        connected(g, start, other),
        other != start,
    ensures
        far != start,
        distance >= 1,
{
    assert(reachable_within(g, start, other, distance));
    lemma_within_more(g, start, other, distance, distance);
    if far == start {
        lemma_within_more(g, start, far, distance, distance);
        let p = choose|p: Seq<(int, int)>| path_between(g, start, other, p);
        assert(crate::cells::is_open(g, p[0]));
        lemma_path_single(g, start);
        lemma_within_more(g, start, start, 0, distance - 1);
    }
}

/// Marks cell `(x, y)` and leaves every other mark as it is.
fn mark(visited: &mut Vec<Vec<bool>>, x: usize, y: usize)
    requires
        y < old(visited).len(),
        x < old(visited)[y as int].len(),
    ensures
        grid_of(final(visited)@) == grid_of(old(visited)@).update(
            y as int,
            grid_of(old(visited)@)[y as int].update(x as int, true),
        ),
{
    assert(grid_of(visited@)[y as int] == visited@[y as int]@);
    visited[y][x] = true;
    assert(grid_of(visited@) =~= grid_of(old(visited)@).update(
        y as int,
        grid_of(old(visited)@)[y as int].update(x as int, true),
    )) by {
        assert forall|r: int| 0 <= r < visited@.len() implies grid_of(visited@)[r] == grid_of(
            old(visited)@,
        ).update(y as int, grid_of(old(visited)@)[y as int].update(x as int, true))[r] by {
            assert(grid_of(visited@)[r] == visited@[r]@);
            assert(grid_of(old(visited)@)[r] == old(visited)@[r]@);
        }
    }
}

/// Whether cell `(x, y)` is marked.
fn is_marked(visited: &Vec<Vec<bool>>, x: usize, y: usize) -> (m: bool)
    requires
        y < visited.len(),
        x < visited[y as int].len(),
    ensures
        m == grid_of(visited@)[y as int][x as int],
{
    assert(grid_of(visited@)[y as int] == visited@[y as int]@);
    visited[y][x]
}

/// The step to the neighbour on side `side`.
fn side_step(side: usize) -> (d: (i32, i32))
    requires
        side < 4,
    ensures
        (d.0 as int, d.1 as int) == side_delta(side as int),
{
    if side == 0 {
        (-1, 0)
    } else if side == 1 {
        (1, 0)
    } else if side == 2 {
        (0, -1)
    } else {
        (0, 1)
    }
}

impl MazeLevel {
    /// The cells that hold the open character, column by column. The first
    /// row and the first column, which belong to the outer ring, are left out.
    pub fn empty_cells(&self) -> (cells: Vec<(usize, usize)>)
        requires
            self.shape_ok(),
        ensures
            lists_open_cells(self.grid(), self.width as int, self.height as int, cells@),
    {
        let ghost g = self.grid();
        let ghost w = self.width as int;
        let ghost h = self.height as int;
        let mut cells: Vec<(usize, usize)> = Vec::new();
        let mut x: usize = 1;
        while x < self.width
            invariant
                self.shape_ok(),
                g == self.grid(),
                w == self.width,
                h == self.height,
                1 <= x,
                lists_empty_cells_before(g, w, h, cells@, (x, 0)),
            decreases self.width - x,
        {
            let mut y: usize = 1;
            while y < self.height
                invariant
                    self.shape_ok(),
                    g == self.grid(),
                    w == self.width,
                    h == self.height,
                    1 <= x < self.width,
                    1 <= y,
                    lists_empty_cells_before(g, w, h, cells@, (x, y)),
                decreases self.height - y,
            {
                proof {
                    lemma_list_grows(g, w, h, cells@, (x, y), (x, (y + 1) as usize));
                }
                if self.cell(x, y) == OPEN {
                    cells.push((x, y));
                }
                y += 1;
            }
            x += 1;
        }
        cells
    }

    /// Breadth-first search over the open cells from `(start_x, start_y)`.
    /// Returns the first cell that the search reaches at the greatest number
    /// of steps, with that number.
    pub fn bfs(&self, start_x: usize, start_y: usize) -> (found: ((usize, usize), usize))
        requires
            self.shape_ok(),
            two_valued(self.grid()),
            0 < self.width <= i32::MAX,
            self.height <= i32::MAX,
            is_open(self.grid(), (start_x as int, start_y as int)),
        ensures
            is_search_result(
                self.grid(),
                (start_x as int, start_y as int),
                (found.0.0 as int, found.0.1 as int),
                found.1 as int,
            ),
            is_open(self.grid(), (found.0.0 as int, found.0.1 as int)),
    {
        let ghost g = self.grid();
        let ghost w = self.width as int;
        let ghost h = self.height as int;
        let ghost start = (start_x as int, start_y as int);
        let mut visited: Vec<Vec<bool>> = vec![vec![false; self.width]; self.height];
        let mut queue: Vec<(usize, usize, usize)> = Vec::new();
        assert(rectangular(grid_of(visited@), w, h)) by {
            assert forall|y: int| 0 <= y < h implies (#[trigger] grid_of(visited@)[y]).len() == w by {
                assert(grid_of(visited@)[y] == visited@[y]@);
            }
        }
        assert forall|c: (int, int)| !marked(grid_of(visited@), c) by {
            if 0 <= c.1 < h && 0 <= c.0 < w {
                assert(grid_of(visited@)[c.1] == visited@[c.1]@);
                assert(visited@[c.1]@[c.0] == false);
            }
        }
        mark(&mut visited, start_x, start_y);
        queue.push((start_x, start_y, 0));
        let mut head: usize = 0;
        let mut max_distance: usize = 0;
        let mut farthest_cell: (usize, usize) = (start_x, start_y);
        let ghost mut best: int = 0;
        let ghost mut parents: Seq<int> = seq![0int];
        let ghost mut sides: Seq<int> = seq![0int];
        proof {
            lemma_search_begin(g, w, h, start, queue@, grid_of(visited@));
            lemma_order_begin(queue@);
            lemma_count_bounded(grid_of(visited@), w, h, false);
        }
        while head < queue.len()
            invariant
                self.shape_ok(),
                g == self.grid(),
                w == self.width,
                h == self.height,
                0 < w <= i32::MAX,
                h <= i32::MAX,
                two_valued(g),
                head <= queue.len(),
                searching(g, w, h, start, queue@, grid_of(visited@), head as int, 0),
                ordering(queue@, parents, sides, head as int, 0),
                0 <= best < queue.len(),
                queue@[best] == (farthest_cell.0, farthest_cell.1, max_distance),
                forall|i: int| 0 <= i < queue.len() ==> (#[trigger] queue@[i]).2 <= max_distance,
                forall|i: int| 0 <= i < best ==> (#[trigger] queue@[i]).2 < max_distance,
            decreases count_with(grid_of(visited@), w, h, false) + queue.len() - head,
        {
            let entry = queue[head];
            let x: usize = entry.0;
            let y: usize = entry.1;
            let dist: usize = entry.2;
            let ghost total = count_with(grid_of(visited@), w, h, false) + queue.len();
            let mut side: usize = 0;
            while side < 4
                invariant
                    self.shape_ok(),
                    g == self.grid(),
                    w == self.width,
                    h == self.height,
                    0 < w <= i32::MAX,
                    h <= i32::MAX,
                    two_valued(g),
                    head < queue.len(),
                    side <= 4,
                    queue@[head as int] == (x, y, dist),
                    searching(g, w, h, start, queue@, grid_of(visited@), head as int, side as int),
                    ordering(queue@, parents, sides, head as int, side as int),
                    count_with(grid_of(visited@), w, h, false) + queue.len() == total,
                    0 <= best < queue.len(),
                    queue@[best] == (farthest_cell.0, farthest_cell.1, max_distance),
                    forall|i: int| 0 <= i < queue.len() ==> (#[trigger] queue@[i]).2 <= max_distance,
                    forall|i: int| 0 <= i < best ==> (#[trigger] queue@[i]).2 < max_distance,
                decreases 4 - side,
            {
                let ghost q = queue@;
                let ghost v = grid_of(visited@);
                proof {
                    lemma_search_head(g, w, h, start, q, v, head as int, side as int);
                }
                let d = side_step(side);
                let nx: i32 = x as i32 + d.0;
                let ny: i32 = y as i32 + d.1;
                let mut visit: bool = false;
                if nx >= 0 && ny >= 0 {
                    let nx_usize: usize = nx as usize;
                    let ny_usize: usize = ny as usize;
                    if nx_usize < self.width && ny_usize < self.height {
                        assert(v[ny_usize as int].len() == w);
                        if self.cell(nx_usize, ny_usize) == OPEN && !is_marked(
                            &visited,
                            nx_usize,
                            ny_usize,
                        ) {
                            visit = true;
                            assert(visited@[ny_usize as int]@ == v[ny_usize as int]);
                            mark(&mut visited, nx_usize, ny_usize);
                            queue.push((nx_usize, ny_usize, dist + 1));
                            proof {
                                let ghost v2 = grid_of(visited@);
                                let ghost e = (nx_usize, ny_usize, (dist + 1) as usize);
                                assert(rectangular(v2, w, h)) by {
                                    assert forall|r: int| 0 <= r < h implies (#[trigger] v2[r]).len()
                                        == w by {
                                        assert(v[r].len() == w);
                                    }
                                }
                                assert forall|c: (int, int)| #[trigger] marked(v2, c) <==> marked(v, c)
                                    || c == cell_of(e) by {
                                    if 0 <= c.1 < h && 0 <= c.0 < w {
                                        assert(v[c.1].len() == w);
                                    }
                                }
                                lemma_order_visit(
                                    g,
                                    w,
                                    h,
                                    start,
                                    q,
                                    v,
                                    parents,
                                    sides,
                                    head as int,
                                    side as int,
                                    e,
                                );
                                parents = parents.push(head as int);
                                sides = sides.push(side as int);
                                lemma_search_visit(g, w, h, start, q, v, head as int, side as int, v2, e);
                                assert forall|x2: int, y2: int|
                                    0 <= x2 < w && 0 <= y2 < h && !(x2 == nx_usize && y2 == ny_usize) implies #[trigger] v2[y2][x2]
                                    == v[y2][x2] by {
                                    assert(v[y2].len() == w);
                                }
                                lemma_count_drops(v, v2, w, h, false, nx_usize as int, ny_usize as int);
                            }
                            if dist + 1 > max_distance {
                                max_distance = dist + 1;
                                farthest_cell = (nx_usize, ny_usize);
                                proof {
                                    best = q.len() as int;
                                }
                            }
                        }
                    }
                }
                proof {
                    if !visit {
                        lemma_order_pass(q, parents, sides, head as int, side as int);
                        lemma_search_pass(g, w, h, start, q, v, head as int, side as int);
                    }
                }
                side += 1;
            }
            proof {
                lemma_search_next(g, w, h, start, queue@, grid_of(visited@), head as int);
                lemma_order_next(queue@, parents, sides, head as int, 4);
            }
            head += 1;
        }
        proof {
            lemma_search_end(g, w, h, start, queue@, grid_of(visited@), best);
            lemma_order_end(g, w, h, start, queue@, grid_of(visited@), parents, sides);
            lemma_first_of_the_farthest(
                g,
                w,
                h,
                start,
                queue@,
                grid_of(visited@),
                best,
            );
            lemma_within_more(
                g,
                start,
                (farthest_cell.0 as int, farthest_cell.1 as int),
                max_distance as int,
                max_distance as int,
            );
            lemma_end_is_open(g, start, (farthest_cell.0 as int, farthest_cell.1 as int));
        }
        (farthest_cell, max_distance)
    }

    /// A random open cell for the player and, for the exit, the cell that
    /// `bfs` finds farthest from it.
    pub fn random_player_and_exit_positions(&self) -> (placed: ((usize, usize), (usize, usize)))
        requires
            self.shape_ok(),
            two_valued(self.grid()),
            0 < self.width <= i32::MAX,
            self.height <= i32::MAX,
            exists|c: (usize, usize)|
                is_empty_cell(self.grid(), self.width as int, self.height as int, c),
        ensures
            is_empty_cell(self.grid(), self.width as int, self.height as int, placed.0),
            is_open(self.grid(), (placed.1.0 as int, placed.1.1 as int)),
            exists|distance: int|
                is_search_result(
                    self.grid(),
                    (placed.0.0 as int, placed.0.1 as int),
                    (placed.1.0 as int, placed.1.1 as int),
                    distance,
                ),
    {
        let mut rng = thread_rng();
        let empty_cells = self.empty_cells();
        proof {
            let c = choose|c: (usize, usize)|
                is_empty_cell(self.grid(), self.width as int, self.height as int, c);
            assert(empty_cells@.contains(c));
        }
        match choose_cell(&mut rng, &empty_cells) {
            Some(start) => {
                proof {
                    let i = choose|i: int| 0 <= i < empty_cells@.len() && empty_cells@[i] == start;
                    assert(empty_cells@[i] == start);
                }
                let found = self.bfs(start.0, start.1);
                (start, found.0)
            },
            None => {
                proof {
                    assert(false);
                }
                ((0, 0), (0, 0))
            },
        }
    }
}

/// A connected cell is open.
proof fn lemma_end_is_open(g: Seq<Seq<char>>, a: (int, int), b: (int, int))
    requires
        connected(g, a, b),
    ensures
        is_open(g, b),
{
    let p = choose|p: Seq<(int, int)>| path_between(g, a, b, p);
    assert(is_open(g, p[p.len() - 1]));
}

} // verus!
