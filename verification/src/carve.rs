//! Carving a perfect maze into a grid of walls by randomized depth-first
//! search with an explicit stack.

use crate::cells::{
    adjacent, connected, count_with, is_open, lemma_connected_kept, lemma_hub_connects_all,
    lemma_path_extend, lemma_path_single, opens_kept, path_between, rectangular, two_valued,
    OPEN, WALL,
};
use crate::level::MazeLevel;
use crate::random::{choose_multiple, is_sample_of, thread_rng};
use crate::structure::{
    carved, closed_rooms, is_interior, is_passage, is_perfect_maze, is_room, joins,
    lemma_first_opening_counts, lemma_joins, lemma_no_closed_rooms, lemma_opening_counts,
    passage_ends, rooms_along,
};
use vstd::prelude::*;

verus! {

/// A room under exploration: its cell, the order in which its four sides are
/// tried, and how many of them have been tried.
pub struct Frame {
    pub x: usize,
    pub y: usize,
    pub order: Vec<(i32, i32)>,
    pub next: usize,
}

/// The four single steps from a cell, in the order they are handed to the
/// random choice: down, right, up, left.
pub open spec fn step_list() -> Seq<(i32, i32)> {
    seq![(0i32, 1i32), (1i32, 0i32), (0i32, -1i32), (-1i32, 0i32)]
}

/// `d` is one of the four single steps.
pub open spec fn is_step(d: (i32, i32)) -> bool {
    d == (0i32, 1i32) || d == (1i32, 0i32) || d == (0i32, -1i32) || d == (-1i32, 0i32)
}

/// The cell one step from `c` along `d`.
pub open spec fn one_step(c: (int, int), d: (i32, i32)) -> (int, int) {
    (c.0 + d.0, c.1 + d.1)
}

/// The cell two steps from `c` along `d`: the room next door.
pub open spec fn two_steps(c: (int, int), d: (i32, i32)) -> (int, int) {
    (c.0 + 2 * d.0, c.1 + 2 * d.1)
}

/// The side `d` of room `c` needs no more work: the room next door, if there
/// is one, is open.
pub open spec fn tried(g: Seq<Seq<char>>, width: int, height: int, c: (int, int), d: (i32, i32)) -> bool {
    is_room(width, height, two_steps(c, d)) ==> is_open(g, two_steps(c, d))
}

/// All four sides of room `c` need no more work.
#[verifier::opaque]
pub open spec fn finished(g: Seq<Seq<char>>, width: int, height: int, c: (int, int)) -> bool {
    &&& tried(g, width, height, c, (0i32, 1i32))
    &&& tried(g, width, height, c, (1i32, 0i32))
    &&& tried(g, width, height, c, (0i32, -1i32))
    &&& tried(g, width, height, c, (-1i32, 0i32))
}

/// What `finished` says.
proof fn lemma_finished(g: Seq<Seq<char>>, width: int, height: int, c: (int, int))
    ensures
        finished(g, width, height, c) <==> tried(g, width, height, c, (0i32, 1i32)) && tried(
            g,
            width,
            height,
            c,
            (1i32, 0i32),
        ) && tried(g, width, height, c, (0i32, -1i32)) && tried(g, width, height, c, (-1i32, 0i32)),
{
    reveal(finished);
}

/// A finished room stays finished when more cells are opened.
proof fn lemma_finished_kept(
    g: Seq<Seq<char>>,
    g2: Seq<Seq<char>>,
    width: int,
    height: int,
    c: (int, int),
)
    requires
        finished(g, width, height, c),
        opens_kept(g, g2),
    ensures
        finished(g2, width, height, c),
{
    lemma_finished(g, width, height, c);
    lemma_finished(g2, width, height, c);
}

/// The cell of a frame.
pub open spec fn frame_cell(f: Frame) -> (int, int) {
    (f.x as int, f.y as int)
}

/// `d` stands somewhere in `order`, which has four entries.
pub open spec fn has_step(order: Seq<(i32, i32)>, d: (i32, i32)) -> bool {
    order[0] == d || order[1] == d || order[2] == d || order[3] == d
}

/// `order` holds each of the four steps.
pub open spec fn full_order(order: Seq<(i32, i32)>) -> bool {
    &&& order.len() == 4
    &&& is_step(order[0])
    &&& is_step(order[1])
    &&& is_step(order[2])
    &&& is_step(order[3])
    &&& has_step(order, (0i32, 1i32))
    &&& has_step(order, (1i32, 0i32))
    &&& has_step(order, (0i32, -1i32))
    &&& has_step(order, (-1i32, 0i32))
}

/// A sample of all four steps holds each of them.
proof fn lemma_order_is_full(order: Seq<(i32, i32)>)
    requires
        is_sample_of(order, step_list(), 4),
    ensures
        full_order(order),
{
    let items = step_list();
    let positions = choose|positions: Seq<int>|
        {
            &&& positions.len() == 4
            &&& order.len() == 4
            &&& forall|k: int|
                0 <= k < 4 ==> 0 <= #[trigger] positions[k] < items.len() && order[k]
                    == items[positions[k]]
            &&& forall|k: int, l: int|
                0 <= k < l < 4 ==> #[trigger] positions[k] != #[trigger] positions[l]
        };
    let a = positions[0];
    let b = positions[1];
    let c = positions[2];
    let d = positions[3];
    assert(a != b && a != c && a != d && b != c && b != d && c != d);
    assert(order[0] == items[a] && order[1] == items[b] && order[2] == items[c] && order[3]
        == items[d]);
    assert(items[0] == (0i32, 1i32) && items[1] == (1i32, 0i32) && items[2] == (0i32, -1i32)
        && items[3] == (-1i32, 0i32));
}

/// A frame is sound: it stands on an open room, its order holds all four
/// steps, and the sides it has gone through need no more work.
pub open spec fn frame_ok(g: Seq<Seq<char>>, width: int, height: int, f: Frame) -> bool {
    &&& is_room(width, height, frame_cell(f))
    &&& is_open(g, frame_cell(f))
    &&& f.next <= 4
    &&& full_order(f.order@)
    &&& forall|k: int| 0 <= k < f.next ==> tried(g, width, height, frame_cell(f), #[trigger] f.order@[k])
}

/// Some frame of `stack` stands on `c`.
pub open spec fn on_stack(stack: Seq<Frame>, c: (int, int)) -> bool {
    exists|i: int| 0 <= i < stack.len() && frame_cell(#[trigger] stack[i]) == c
}

/// What holds between two steps of the search that began in `start`.
#[verifier::opaque]
pub open spec fn carving(
    g: Seq<Seq<char>>,
    width: int,
    height: int,
    start: (int, int),
    stack: Seq<Frame>,
) -> bool {
    &&& carved(g, width, height)
    &&& is_room(width, height, start)
    &&& is_open(g, start)
    &&& forall|c: (int, int)| is_open(g, c) ==> #[trigger] connected(g, start, c)
    &&& forall|i: int| 0 <= i < stack.len() ==> frame_ok(g, width, height, #[trigger] stack[i])
    &&& forall|c: (int, int)|
        is_room(width, height, c) && #[trigger] is_open(g, c) ==> finished(g, width, height, c)
            || on_stack(stack, c)
}

/// How many sides the top frame has left to try.
pub open spec fn sides_left(stack: Seq<Frame>) -> int {
    if stack.len() == 0 {
        0
    } else {
        4 - stack[stack.len() - 1].next
    }
}

/// `g2` is `g` with the cells `m` and `n` opened.
pub open spec fn opened_two(
    g: Seq<Seq<char>>,
    g2: Seq<Seq<char>>,
    width: int,
    height: int,
    m: (int, int),
    n: (int, int),
) -> bool {
    &&& rectangular(g2, width, height)
    &&& g2[m.1][m.0] == OPEN
    &&& g2[n.1][n.0] == OPEN
    &&& forall|x: int, y: int|
        0 <= x < width && 0 <= y < height && (x, y) != m && (x, y) != n ==> #[trigger] g2[y][x]
            == g[y][x]
}

/// `s2` is `s` with one more side of the top frame gone through.
pub open spec fn top_advanced(s: Seq<Frame>, s2: Seq<Frame>) -> bool {
    &&& s.len() > 0
    &&& s2.len() == s.len()
    &&& forall|i: int| 0 <= i < s.len() - 1 ==> #[trigger] s2[i] == s[i]
    &&& s2[s.len() - 1].x == s[s.len() - 1].x
    &&& s2[s.len() - 1].y == s[s.len() - 1].y
    &&& s2[s.len() - 1].order == s[s.len() - 1].order
    &&& s2[s.len() - 1].next == s[s.len() - 1].next + 1
}

/// The search may begin: a grid with the one room `start` open.
proof fn lemma_begin(
    g: Seq<Seq<char>>,
    g2: Seq<Seq<char>>,
    width: int,
    height: int,
    start: (int, int),
    first: Frame,
)
    requires
        width >= 3,
        height >= 3,
        width % 2 == 1,
        height % 2 == 1,
        rectangular(g, width, height),
        rectangular(g2, width, height),
        forall|x: int, y: int| 0 <= x < width && 0 <= y < height ==> #[trigger] g[y][x] == WALL,
        is_room(width, height, start),
        g2[start.1][start.0] == OPEN,
        forall|x: int, y: int|
            0 <= x < width && 0 <= y < height && (x, y) != start ==> #[trigger] g2[y][x] == g[y][x],
        frame_cell(first) == start,
        first.next == 0,
        full_order(first.order@),
    ensures
        carving(g2, width, height, start, seq![first]),
        count_with(g2, width, height, WALL) == width * height - 1,
        closed_rooms(g2, width, height) == rooms_along(width) * rooms_along(height) - 1,
{
    reveal(carving);
    lemma_first_opening_counts(g, g2, width, height, start);
    let stack = seq![first];
    assert forall|c: (int, int)| is_open(g2, c) implies c == start by {
        if c != start {
            assert(g2[c.1][c.0] == g[c.1][c.0]);
        }
    }
    assert(two_valued(g2)) by {
        assert forall|x: int, y: int| 0 <= y < g2.len() && 0 <= x < g2[y].len() implies #[trigger] g2[y][x]
            == WALL || g2[y][x] == OPEN by {
            if (x, y) != start {
                assert(g2[y][x] == g[y][x]);
            }
        }
    }
    lemma_path_single(g2, start);
    assert(frame_ok(g2, width, height, stack[0]));
    assert(on_stack(stack, start)) by {
        assert(frame_cell(stack[0]) == start);
    }
}

/// A side that needs no work is passed over.
proof fn lemma_skip(
    g: Seq<Seq<char>>,
    width: int,
    height: int,
    start: (int, int),
    s: Seq<Frame>,
    s2: Seq<Frame>,
)
    requires
        carving(g, width, height, start, s),
        top_advanced(s, s2),
        s[s.len() - 1].next < 4,
        !is_interior(
            width,
            height,
            two_steps(frame_cell(s[s.len() - 1]), s[s.len() - 1].order@[s[s.len() - 1].next as int]),
        ) || is_open(
            g,
            two_steps(frame_cell(s[s.len() - 1]), s[s.len() - 1].order@[s[s.len() - 1].next as int]),
        ),
    ensures
        carving(g, width, height, start, s2),
{
    reveal(carving);
    let top = s.len() - 1;
    assert forall|i: int| 0 <= i < s2.len() implies frame_ok(g, width, height, #[trigger] s2[i]) by {
        assert(frame_ok(g, width, height, s[i]));
        if i == top {
            assert(frame_cell(s2[i]) == frame_cell(s[i]));
        }
    }
    assert forall|c: (int, int)| is_room(width, height, c) && #[trigger] is_open(g, c) implies finished(
        g,
        width,
        height,
        c,
    ) || on_stack(s2, c) by {
        if !finished(g, width, height, c) {
            assert(on_stack(s, c));
            let i = choose|i: int| 0 <= i < s.len() && frame_cell(#[trigger] s[i]) == c;
            assert(frame_cell(s2[i]) == c);
        }
    }
}

/// A room whose four sides have been gone through leaves the stack.
proof fn lemma_leave(
    g: Seq<Seq<char>>,
    width: int,
    height: int,
    start: (int, int),
    s: Seq<Frame>,
)
    requires
        carving(g, width, height, start, s),
        s.len() > 0,
        s[s.len() - 1].next >= 4,
    ensures
        carving(g, width, height, start, s.drop_last()),
{
    reveal(carving);
    let top = s.len() - 1;
    let s2 = s.drop_last();
    let f = s[top];
    assert(frame_ok(g, width, height, f));
    assert(finished(g, width, height, frame_cell(f))) by {
        lemma_finished(g, width, height, frame_cell(f));
        assert(tried(g, width, height, frame_cell(f), f.order@[0]));
        assert(tried(g, width, height, frame_cell(f), f.order@[1]));
        assert(tried(g, width, height, frame_cell(f), f.order@[2]));
        assert(tried(g, width, height, frame_cell(f), f.order@[3]));
    }
    assert forall|i: int| 0 <= i < s2.len() implies frame_ok(g, width, height, #[trigger] s2[i]) by {
        assert(s2[i] == s[i]);
    }
    assert forall|c: (int, int)| is_room(width, height, c) && #[trigger] is_open(g, c) implies finished(
        g,
        width,
        height,
        c,
    ) || on_stack(s2, c) by {
        if !finished(g, width, height, c) {
            assert(on_stack(s, c));
            let i = choose|i: int| 0 <= i < s.len() && frame_cell(#[trigger] s[i]) == c;
            assert(i != top);
            assert(frame_cell(s2[i]) == c);
        }
    }
}

/// The room next door is opened, with the passage to it, and goes onto the
/// stack.
proof fn lemma_enter(
    g: Seq<Seq<char>>,
    g2: Seq<Seq<char>>,
    width: int,
    height: int,
    start: (int, int),
    s: Seq<Frame>,
    s2: Seq<Frame>,
    d: (i32, i32),
    fresh: Frame,
)
    requires
        carving(g, width, height, start, s),
        top_advanced(s, s2),
        s[s.len() - 1].next < 4,
        d == s[s.len() - 1].order@[s[s.len() - 1].next as int],
        width >= 3,
        height >= 3,
        width % 2 == 1,
        height % 2 == 1,
        is_interior(width, height, two_steps(frame_cell(s[s.len() - 1]), d)),
        !is_open(g, two_steps(frame_cell(s[s.len() - 1]), d)),
        opened_two(
            g,
            g2,
            width,
            height,
            one_step(frame_cell(s[s.len() - 1]), d),
            two_steps(frame_cell(s[s.len() - 1]), d),
        ),
        frame_cell(fresh) == two_steps(frame_cell(s[s.len() - 1]), d),
        fresh.next == 0,
        full_order(fresh.order@),
    ensures
        carving(g2, width, height, start, s2.push(fresh)),
        closed_rooms(g, width, height) >= 1,
        closed_rooms(g2, width, height) == closed_rooms(g, width, height) - 1,
        count_with(g2, width, height, WALL) == count_with(g, width, height, WALL) - 2,
{
    reveal(carving);
    let top = s.len() - 1;
    let cur = frame_cell(s[top]);
    let m = one_step(cur, d);
    let n = two_steps(cur, d);
    let s3 = s2.push(fresh);
    assert(frame_ok(g, width, height, s[top]));
    assert(is_step(d));
    assert(is_room(width, height, n));
    assert(is_passage(width, height, m));
    assert(passage_ends(m) == (cur, n) || passage_ends(m) == (n, cur));
    assert(!is_open(g, m)) by {
        if is_open(g, m) {
            lemma_joins(g, m);
        }
    }
    assert(opens_kept(g, g2)) by {
        assert forall|c: (int, int)| is_open(g, c) implies is_open(g2, c) by {
            assert(c != m && c != n);
            assert(g2[c.1][c.0] == g[c.1][c.0]);
        }
    }
    assert forall|c: (int, int)| is_open(g2, c) implies c == m || c == n || is_open(g, c) by {
        if c != m && c != n {
            assert(g2[c.1][c.0] == g[c.1][c.0]);
        }
    }
    assert(two_valued(g2)) by {
        assert forall|x: int, y: int| 0 <= y < g2.len() && 0 <= x < g2[y].len() implies #[trigger] g2[y][x]
            == WALL || g2[y][x] == OPEN by {
            if (x, y) != m && (x, y) != n {
                assert(g2[y][x] == g[y][x]);
            }
        }
    }
    assert(is_open(g2, m) && is_open(g2, n) && is_open(g2, cur));
    assert(carved(g2, width, height)) by {
        assert forall|c: (int, int)| #[trigger] is_open(g2, c) implies is_room(width, height, c) || (
        is_passage(width, height, c) && joins(g2, c)) by {
            lemma_joins(g2, c);
            if c == m {
            } else if c == n {
            } else {
                assert(is_open(g, c));
                if !is_room(width, height, c) {
                    lemma_joins(g, c);
                }
            }
        }
    }
    assert forall|c: (int, int)| is_open(g2, c) implies #[trigger] connected(g2, start, c) by {
        assert(connected(g, start, cur));
        lemma_connected_kept(g, g2, start, cur);
        let p = choose|p: Seq<(int, int)>| path_between(g2, start, cur, p);
        assert(adjacent(cur, m));
        lemma_path_extend(g2, start, cur, p, m);
        assert(adjacent(m, n));
        lemma_path_extend(g2, start, m, p.push(m), n);
        if c == m {
            assert(path_between(g2, start, m, p.push(m)));
        } else if c == n {
            assert(path_between(g2, start, n, p.push(m).push(n)));
        } else {
            assert(connected(g, start, c));
            lemma_connected_kept(g, g2, start, c);
        }
    }
    assert forall|c: (int, int), e: (i32, i32)| tried(g, width, height, c, e) implies tried(
        g2,
        width,
        height,
        c,
        e,
    ) by {}
    assert forall|i: int| 0 <= i < s3.len() implies frame_ok(g2, width, height, #[trigger] s3[i]) by {
        if i < top {
            assert(s3[i] == s[i]);
            assert(frame_ok(g, width, height, s[i]));
        } else if i == top {
            assert(s3[i] == s2[top]);
            assert(frame_cell(s3[i]) == cur);
            assert forall|k: int| 0 <= k < s3[i].next implies tried(
                g2,
                width,
                height,
                cur,
                #[trigger] s3[i].order@[k],
            ) by {
                if k < s[top].next {
                    assert(tried(g, width, height, cur, s[top].order@[k]));
                }
            }
        } else {
            assert(s3[i] == fresh);
        }
    }
    assert forall|c: (int, int)| is_room(width, height, c) && #[trigger] is_open(g2, c) implies finished(
        g2,
        width,
        height,
        c,
    ) || on_stack(s3, c) by {
        if c == n {
            assert(frame_cell(s3[s3.len() - 1]) == n);
        } else {
            assert(c != m);
            assert(is_open(g, c));
            if finished(g, width, height, c) {
                lemma_finished_kept(g, g2, width, height, c);
            } else {
                assert(on_stack(s, c));
                let i = choose|i: int| 0 <= i < s.len() && frame_cell(#[trigger] s[i]) == c;
                assert(frame_cell(s3[i]) == c);
            }
        }
    }
    assert(g[m.1][m.0] == WALL && g[n.1][n.0] == WALL);
    lemma_opening_counts(g, g2, width, height, m, n);
}

/// Once the stack is empty, every room has been reached and the maze is
/// perfect.
proof fn lemma_done(
    g: Seq<Seq<char>>,
    width: int,
    height: int,
    start: (int, int),
)
    requires
        width >= 3,
        height >= 3,
        width % 2 == 1,
        height % 2 == 1,
        carving(g, width, height, start, Seq::<Frame>::empty()),
        count_with(g, width, height, WALL) + 2 * (rooms_along(width) * rooms_along(height)
            - closed_rooms(g, width, height)) - 1 == width * height,
    ensures
        is_perfect_maze(g, width, height),
{
    reveal(carving);
    let empty = Seq::<Frame>::empty();
    assert forall|c: (int, int)| is_room(width, height, c) && #[trigger] is_open(g, c) implies finished(
        g,
        width,
        height,
        c,
    ) by {
        assert(!on_stack(empty, c));
    }
    assert forall|c: (int, int)| #[trigger] is_room(width, height, c) implies is_open(g, c) by {
        lemma_room_reached(g, width, height, start, c);
    }
    lemma_hub_connects_all(g, start);
    lemma_no_closed_rooms(g, width, height);
    assert(2 * (rooms_along(width) * rooms_along(height)) == 2 * rooms_along(width) * rooms_along(
        height,
    )) by (nonlinear_arith);
}

/// Distance between two rooms, counted in rooms.
pub open spec fn room_distance(a: (int, int), b: (int, int)) -> int {
    (if a.0 >= b.0 {
        a.0 - b.0
    } else {
        b.0 - a.0
    }) + (if a.1 >= b.1 {
        a.1 - b.1
    } else {
        b.1 - a.1
    })
}

/// If every open room has all its neighbours open, every room is open.
proof fn lemma_room_reached(
    g: Seq<Seq<char>>,
    width: int,
    height: int,
    start: (int, int),
    c: (int, int),
)
    requires
        is_room(width, height, start),
        is_open(g, start),
        is_room(width, height, c),
        forall|r: (int, int)|
            is_room(width, height, r) && #[trigger] is_open(g, r) ==> finished(g, width, height, r),
    ensures
        is_open(g, c),
    decreases room_distance(c, start),
{
    if c.0 > start.0 {
        let prev = (c.0 - 2, c.1);
        lemma_room_reached(g, width, height, start, prev);
        lemma_finished(g, width, height, prev);
        assert(tried(g, width, height, prev, (1i32, 0i32)));
        assert(two_steps(prev, (1i32, 0i32)) == c);
    } else if c.0 < start.0 {
        let prev = (c.0 + 2, c.1);
        lemma_room_reached(g, width, height, start, prev);
        lemma_finished(g, width, height, prev);
        assert(tried(g, width, height, prev, (-1i32, 0i32)));
        assert(two_steps(prev, (-1i32, 0i32)) == c);
    } else if c.1 > start.1 {
        let prev = (c.0, c.1 - 2);
        lemma_room_reached(g, width, height, start, prev);
        lemma_finished(g, width, height, prev);
        assert(tried(g, width, height, prev, (0i32, 1i32)));
        assert(two_steps(prev, (0i32, 1i32)) == c);
    } else if c.1 < start.1 {
        let prev = (c.0, c.1 + 2);
        lemma_room_reached(g, width, height, start, prev);
        lemma_finished(g, width, height, prev);
        assert(tried(g, width, height, prev, (0i32, -1i32)));
        assert(two_steps(prev, (0i32, -1i32)) == c);
    }
}

/// The top frame of a search in progress, and the shape of its grid.
proof fn lemma_top_frame(
    g: Seq<Seq<char>>,
    width: int,
    height: int,
    start: (int, int),
    s: Seq<Frame>,
)
    requires
        carving(g, width, height, start, s),
        s.len() > 0,
    ensures
        rectangular(g, width, height),
        0 < s[s.len() - 1].x < width - 1,
        0 < s[s.len() - 1].y < height - 1,
        s[s.len() - 1].next <= 4,
        s[s.len() - 1].order@.len() == 4,
        s[s.len() - 1].next < 4 ==> is_step(s[s.len() - 1].order@[s[s.len() - 1].next as int]),
{
    reveal(carving);
    assert(frame_ok(g, width, height, s[s.len() - 1]));
}

/// Opening two cells one after the other opens just these two.
proof fn lemma_two_opened(g: Seq<Seq<char>>, width: int, height: int, m: (int, int), n: (int, int))
    requires
        rectangular(g, width, height),
        0 <= m.0 < width,
        0 <= m.1 < height,
        0 <= n.0 < width,
        0 <= n.1 < height,
    ensures
        opened_two(
            g,
            g.update(m.1, g[m.1].update(m.0, OPEN)).update(
                n.1,
                g.update(m.1, g[m.1].update(m.0, OPEN))[n.1].update(n.0, OPEN),
            ),
            width,
            height,
            m,
            n,
        ),
{
}

/// Opening one cell of a grid that is all wall.
proof fn lemma_one_opened(g: Seq<Seq<char>>, width: int, height: int, n: (int, int))
    requires
        rectangular(g, width, height),
        0 <= n.0 < width,
        0 <= n.1 < height,
    ensures
        rectangular(g.update(n.1, g[n.1].update(n.0, OPEN)), width, height),
        g.update(n.1, g[n.1].update(n.0, OPEN))[n.1][n.0] == OPEN,
        forall|x: int, y: int|
            0 <= x < width && 0 <= y < height && (x, y) != n ==> #[trigger] g.update(
                n.1,
                g[n.1].update(n.0, OPEN),
            )[y][x] == g[y][x],
{
}

impl MazeLevel {
    /// Carves a perfect maze into a level that is all wall, beginning with the
    /// room `(x, y)`. At each room the four sides are tried in a random order
    /// of their own; a side is opened, and the search goes on from the room
    /// behind it, if that room is still walled up.
    pub fn generate_maze(&mut self, x: usize, y: usize)
        requires
            old(self).blank(),
            is_room(old(self).width as int, old(self).height as int, (x as int, y as int)),
        ensures
            final(self).width == old(self).width,
            final(self).height == old(self).height,
            final(self).player_position == old(self).player_position,
            final(self).exit_position == old(self).exit_position,
            final(self).generation == old(self).generation,
            is_perfect_maze(final(self).grid(), old(self).width as int, old(self).height as int),
    {
        let ghost w = self.width as int;
        let ghost h = self.height as int;
        let ghost start = (x as int, y as int);
        let ghost blank_grid = self.grid();
        let ghost player = self.player_position;
        let ghost exit = self.exit_position;
        let ghost generation = self.generation;
        let ghost rooms = rooms_along(w) * rooms_along(h);
        let ghost cells = w * h;
        let mut rng = thread_rng();
        let directions = Self::steps();
        self.open_cell(x, y);
        let order = choose_multiple(&mut rng, &directions, 4);
        let first = Frame { x, y, order, next: 0 };
        let mut stack: Vec<Frame> = Vec::new();
        stack.push(first);
        proof {
            lemma_order_is_full(stack@[0].order@);
            lemma_one_opened(blank_grid, w, h, start);
            lemma_begin(blank_grid, self.grid(), w, h, start, stack@[0]);
            assert(stack@ =~= seq![stack@[0]]);
        }
        while stack.len() > 0
            invariant
                self.width == w,
                self.height == h,
                self.player_position == player,
                self.exit_position == exit,
                self.generation == generation,
                3 <= w <= i32::MAX,
                3 <= h <= i32::MAX,
                w % 2 == 1,
                h % 2 == 1,
                directions@ == step_list(),
                carving(self.grid(), w, h, start, stack@),
                count_with(self.grid(), w, h, WALL) + 2 * (rooms - closed_rooms(self.grid(), w, h))
                    - 1 == cells,
            decreases closed_rooms(self.grid(), w, h), stack.len(), sides_left(stack@),
        {
            let ghost g = self.grid();
            let ghost s = stack@;
            let top: usize = stack.len() - 1;
            proof {
                lemma_top_frame(g, w, h, start, s);
            }
            let cx: usize = stack[top].x;
            let cy: usize = stack[top].y;
            let k: usize = stack[top].next;
            if k < 4 {
                let d: (i32, i32) = stack[top].order[k];
                stack[top].next = k + 1;
                assert(top_advanced(s, stack@));
                let ghost s2 = stack@;
                let ghost cur = (cx as int, cy as int);
                let nx: i32 = cx as i32 + 2 * d.0;
                let ny: i32 = cy as i32 + 2 * d.1;
                if nx > 0 && ny > 0 && (nx as usize) < self.width - 1 && (ny as usize) < self.height
                    - 1 && self.cell(nx as usize, ny as usize) == WALL {
                    let wall_x: usize = (cx as i32 + d.0) as usize;
                    let wall_y: usize = (cy as i32 + d.1) as usize;
                    self.open_cell(wall_x, wall_y);
                    self.open_cell(nx as usize, ny as usize);
                    let order = choose_multiple(&mut rng, &directions, 4);
                    stack.push(Frame { x: nx as usize, y: ny as usize, order, next: 0 });
                    proof {
                        let ghost fresh = stack@[stack@.len() - 1];
                        lemma_order_is_full(fresh.order@);
                        lemma_two_opened(g, w, h, one_step(cur, d), two_steps(cur, d));
                        lemma_enter(g, self.grid(), w, h, start, s, s2, d, fresh);
                        assert(stack@ =~= s2.push(fresh));
                    }
                } else {
                    proof {
                        lemma_skip(g, w, h, start, s, s2);
                    }
                }
            } else {
                stack.pop();
                proof {
                    lemma_leave(g, w, h, start, s);
                }
            }
        }
        proof {
            assert(stack@ =~= Seq::<Frame>::empty());
            lemma_done(self.grid(), w, h, start);
        }
    }

    /// The four single steps, in the order in which they are handed to the
    /// random choice.
    fn steps() -> (directions: Vec<(i32, i32)>)
        ensures
            directions@ == step_list(),
    {
        let mut directions: Vec<(i32, i32)> = Vec::new();
        directions.push((0, 1));
        directions.push((1, 0));
        directions.push((0, -1));
        directions.push((-1, 0));
        assert(directions@ =~= step_list());
        directions
    }
}

} // verus!
