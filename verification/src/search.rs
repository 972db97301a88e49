//! How the breadth-first search goes: what holds of its queue and its marks
//! between two steps, and why the cell it ends with is the first of the
//! farthest.

use crate::cells::{
    adjacent, connected, is_open, lemma_path_single, lemma_within_more, lemma_within_step,
    path_between, reachable_within, rectangular,
};
use crate::placement::{
    is_farthest, is_first_reached, is_search_order, neighbour, reached_from, side_to, was_reached,
};
use vstd::prelude::*;

verus! {

/// The cell of an entry of the search queue.
pub open spec fn cell_of(e: (usize, usize, usize)) -> (int, int) {
    (e.0 as int, e.1 as int)
}

/// Some entry of `q` stands for cell `c`.
#[verifier::opaque]
pub open spec fn listed(q: Seq<(usize, usize, usize)>, c: (int, int)) -> bool {
    exists|i: int| 0 <= i < q.len() && cell_of(#[trigger] q[i]) == c
}

/// Cell `c` lies on the grid of marks and is marked.
pub open spec fn marked(v: Seq<Seq<bool>>, c: (int, int)) -> bool {
    0 <= c.1 < v.len() && 0 <= c.0 < v[c.1].len() && v[c.1][c.0]
}

/// Entry `e`, at place `i` of the queue, is sound: its cell is open and
/// marked, and lies within `e.2` steps of `start`, which are no more than `i`.
pub open spec fn entry_ok(
    g: Seq<Seq<char>>,
    start: (int, int),
    v: Seq<Seq<bool>>,
    e: (usize, usize, usize),
    i: int,
) -> bool {
    &&& is_open(g, cell_of(e))
    &&& marked(v, cell_of(e))
    &&& e.2 <= i
    &&& reachable_within(g, start, cell_of(e), e.2 as int)
}

/// What holds between two steps of the search from `start`: `q` is every
/// cell reached so far in the order of reaching, `v` marks them, the entries
/// before `head` have had all four neighbours looked at and the entry at
/// `head` the first `sides` of them.
#[verifier::opaque]
pub open spec fn searching(
    g: Seq<Seq<char>>,
    width: int,
    height: int,
    start: (int, int),
    q: Seq<(usize, usize, usize)>,
    v: Seq<Seq<bool>>,
    head: int,
    sides: int,
) -> bool {
    &&& rectangular(g, width, height)
    &&& rectangular(v, width, height)
    &&& 0 <= head <= q.len()
    &&& 0 <= sides <= 4
    &&& q.len() >= 1
    &&& cell_of(q[0]) == start
    &&& q[0].2 == 0
    &&& forall|i: int| 0 <= i < q.len() ==> entry_ok(g, start, v, #[trigger] q[i], i)
    &&& forall|c: (int, int)| #[trigger] marked(v, c) ==> listed(q, c)
    &&& forall|i: int, j: int|
        0 <= i < j < q.len() ==> cell_of(#[trigger] q[i]) != cell_of(#[trigger] q[j])
    &&& forall|i: int, j: int| 0 <= i <= j < q.len() ==> (#[trigger] q[i]).2 <= (#[trigger] q[j]).2
    &&& head < q.len() ==> forall|i: int| 0 <= i < q.len() ==> (#[trigger] q[i]).2 <= q[head].2 + 1
    &&& forall|i: int, side: int|
        0 <= i < head && 0 <= side < 4 && is_open(g, neighbour(cell_of(q[i]), side)) ==> marked(
            v,
            #[trigger] neighbour(cell_of(q[i]), side),
        )
    &&& head < q.len() ==> forall|side: int|
        0 <= side < sides && is_open(g, neighbour(cell_of(q[head]), side)) ==> marked(
            v,
            #[trigger] neighbour(cell_of(q[head]), side),
        )
    &&& forall|i: int, j: int|
        0 <= i < q.len() && 0 <= j < q.len() && #[trigger] adjacent(cell_of(q[i]), cell_of(q[j]))
            ==> q[j].2 <= q[i].2 + 1
}

/// An entry of the queue shows that its cell is listed.
pub proof fn lemma_listed(q: Seq<(usize, usize, usize)>, i: int)
    requires
        0 <= i < q.len(),
    ensures
        listed(q, cell_of(q[i])),
{
    reveal(listed);
}

/// A listed cell has an entry in the queue.
pub proof fn lemma_place_of(q: Seq<(usize, usize, usize)>, c: (int, int)) -> (i: int)
    requires
        listed(q, c),
    ensures
        0 <= i < q.len(),
        cell_of(q[i]) == c,
{
    reveal(listed);
    choose|i: int| 0 <= i < q.len() && cell_of(#[trigger] q[i]) == c
}

/// A neighbour lies on the side that `side_to` names.
pub proof fn lemma_neighbour_on_side(a: (int, int), b: (int, int))
    requires
        adjacent(a, b),
    ensures
        0 <= side_to(a, b) < 4,
        neighbour(a, side_to(a, b)) == b,
{
}

/// The search may begin: the queue holds `start`, and `start` alone is marked.
pub proof fn lemma_search_begin(
    g: Seq<Seq<char>>,
    width: int,
    height: int,
    start: (int, int),
    q: Seq<(usize, usize, usize)>,
    v: Seq<Seq<bool>>,
)
    requires
        rectangular(g, width, height),
        rectangular(v, width, height),
        is_open(g, start),
        q.len() == 1,
        cell_of(q[0]) == start,
        q[0].2 == 0,
        forall|c: (int, int)| #[trigger] marked(v, c) <==> c == start,
    ensures
        searching(g, width, height, start, q, v, 0, 0),
{
    reveal(searching);
    lemma_path_single(g, start);
    lemma_listed(q, 0);
}

/// The head of the queue during a search.
pub proof fn lemma_search_head(
    g: Seq<Seq<char>>,
    width: int,
    height: int,
    start: (int, int),
    q: Seq<(usize, usize, usize)>,
    v: Seq<Seq<bool>>,
    head: int,
    sides: int,
)
    requires
        searching(g, width, height, start, q, v, head, sides),
        head < q.len(),
    ensures
        rectangular(v, width, height),
        rectangular(g, width, height),
        0 <= head,
        0 <= sides <= 4,
        q[head].0 < width,
        q[head].1 < height,
        q[head].2 + 1 <= q.len(),
{
    reveal(searching);
    assert(entry_ok(g, start, v, q[head], head));
}

/// The head's next neighbour needs no visit: it is off the grid, not open, or
/// marked already.
pub proof fn lemma_search_pass(
    g: Seq<Seq<char>>,
    width: int,
    height: int,
    start: (int, int),
    q: Seq<(usize, usize, usize)>,
    v: Seq<Seq<bool>>,
    head: int,
    sides: int,
)
    requires
        searching(g, width, height, start, q, v, head, sides),
        head < q.len(),
        sides < 4,
        !is_open(g, neighbour(cell_of(q[head]), sides)) || marked(
            v,
            neighbour(cell_of(q[head]), sides),
        ),
    ensures
        searching(g, width, height, start, q, v, head, sides + 1),
{
    reveal(searching);
}

/// The head's next neighbour is open and unmarked: it is marked and joins the
/// queue, one step farther than the head.
pub proof fn lemma_search_visit(
    g: Seq<Seq<char>>,
    width: int,
    height: int,
    start: (int, int),
    q: Seq<(usize, usize, usize)>,
    v: Seq<Seq<bool>>,
    head: int,
    sides: int,
    v2: Seq<Seq<bool>>,
    e: (usize, usize, usize),
)
    requires
        searching(g, width, height, start, q, v, head, sides),
        head < q.len(),
        sides < 4,
        cell_of(e) == neighbour(cell_of(q[head]), sides),
        e.2 == q[head].2 + 1,
        is_open(g, cell_of(e)),
        !marked(v, cell_of(e)),
        rectangular(v2, width, height),
        forall|c: (int, int)| #[trigger] marked(v2, c) <==> marked(v, c) || c == cell_of(e),
    ensures
        searching(g, width, height, start, q.push(e), v2, head, sides + 1),
{
    reveal(searching);
    let q2 = q.push(e);
    let n = cell_of(e);
    let u = cell_of(q[head]);
    let level = q[head].2;
    assert(entry_ok(g, start, v, q[head], head));
    assert(adjacent(u, n));
    lemma_within_step(g, start, u, n, level as int);
    assert forall|i: int| 0 <= i < q2.len() implies entry_ok(g, start, v2, #[trigger] q2[i], i) by {
        if i < q.len() {
            assert(q2[i] == q[i]);
            assert(entry_ok(g, start, v, q[i], i));
            assert(marked(v2, cell_of(q[i])));
        } else {
            assert(q2[i] == e);
            assert(marked(v2, n));
        }
    }
    assert forall|c: (int, int)| #[trigger] marked(v2, c) implies listed(q2, c) by {
        if c == n {
            assert(q2[q.len() as int] == e);
            lemma_listed(q2, q.len() as int);
        } else {
            assert(marked(v, c));
            let i = lemma_place_of(q, c);
            assert(q2[i] == q[i]);
            lemma_listed(q2, i);
        }
    }
    assert forall|i: int, j: int| 0 <= i < j < q2.len() implies cell_of(#[trigger] q2[i]) != cell_of(
        #[trigger] q2[j],
    ) by {
        assert(q2[i] == q[i]);
        if j < q.len() {
            assert(q2[j] == q[j]);
        } else {
            assert(entry_ok(g, start, v, q[i], i));
        }
    }
    assert forall|i: int, j: int| 0 <= i <= j < q2.len() implies (#[trigger] q2[i]).2 <= (
    #[trigger] q2[j]).2 by {
        if j < q.len() {
            assert(q2[i] == q[i]);
            assert(q2[j] == q[j]);
        } else if i < q.len() {
            assert(q2[i] == q[i]);
        }
    }
    assert(q2[head] == q[head]);
    assert forall|i: int| 0 <= i < q2.len() implies (#[trigger] q2[i]).2 <= q2[head].2 + 1 by {
        if i < q.len() {
            assert(q2[i] == q[i]);
        }
    }
    assert forall|i: int, side: int|
        0 <= i < head && 0 <= side < 4 && is_open(g, neighbour(cell_of(q2[i]), side)) implies marked(
        v2,
        #[trigger] neighbour(cell_of(q2[i]), side),
    ) by {
        assert(q2[i] == q[i]);
        assert(marked(v, neighbour(cell_of(q[i]), side)));
    }
    assert forall|side: int|
        0 <= side < sides + 1 && is_open(g, neighbour(cell_of(q2[head]), side)) implies marked(
        v2,
        #[trigger] neighbour(cell_of(q2[head]), side),
    ) by {
        if side < sides {
            assert(marked(v, neighbour(cell_of(q[head]), side)));
        }
    }
    assert forall|i: int, j: int|
        0 <= i < q2.len() && 0 <= j < q2.len() && #[trigger] adjacent(
            cell_of(q2[i]),
            cell_of(q2[j]),
        ) implies q2[j].2 <= q2[i].2 + 1 by {
        if i < q.len() && j < q.len() {
            assert(q2[i] == q[i]);
            assert(q2[j] == q[j]);
            assert(adjacent(cell_of(q[i]), cell_of(q[j])));
        } else if i < q.len() {
            // the new entry next to an older one
            assert(q2[i] == q[i]);
            if q[i].2 < level {
                assert(i < head) by {
                    if i >= head {
                        assert(q[head].2 <= q[i].2);
                    }
                }
                lemma_neighbour_on_side(cell_of(q[i]), n);
                assert(marked(v, neighbour(cell_of(q[i]), side_to(cell_of(q[i]), n))));
            }
        } else if j < q.len() {
            assert(q2[j] == q[j]);
        }
    }
}

/// All four neighbours of the head have been looked at: the search moves on
/// to the next entry.
pub proof fn lemma_search_next(
    g: Seq<Seq<char>>,
    width: int,
    height: int,
    start: (int, int),
    q: Seq<(usize, usize, usize)>,
    v: Seq<Seq<bool>>,
    head: int,
)
    requires
        searching(g, width, height, start, q, v, head, 4),
        head < q.len(),
    ensures
        searching(g, width, height, start, q, v, head + 1, 0),
{
    reveal(searching);
    if head + 1 < q.len() {
        assert forall|i: int| 0 <= i < q.len() implies (#[trigger] q[i]).2 <= q[head + 1].2 + 1 by {
            assert(q[head].2 <= q[head + 1].2);
        }
    }
    assert forall|i: int, side: int|
        0 <= i < head + 1 && 0 <= side < 4 && is_open(g, neighbour(cell_of(q[i]), side)) implies marked(
        v,
        #[trigger] neighbour(cell_of(q[i]), side),
    ) by {}
}

/// After the search every walk from `start` ends in a listed cell whose entry
/// counts no more steps than the walk has.
pub proof fn lemma_search_sees_all(
    g: Seq<Seq<char>>,
    width: int,
    height: int,
    start: (int, int),
    q: Seq<(usize, usize, usize)>,
    v: Seq<Seq<bool>>,
    c: (int, int),
    p: Seq<(int, int)>,
) -> (j: int)
    requires
        searching(g, width, height, start, q, v, q.len() as int, 0),
        path_between(g, start, c, p),
    ensures
        0 <= j < q.len(),
        cell_of(q[j]) == c,
        q[j].2 <= p.len() - 1,
    decreases p.len(),
{
    if p.len() == 1 {
        reveal(searching);
        0
    } else {
        let shorter = p.subrange(0, p.len() - 1);
        let before = p[p.len() - 2];
        assert(path_between(g, start, before, shorter)) by {
            assert forall|i: int| 0 <= i < shorter.len() implies is_open(g, #[trigger] shorter[i]) by {
                assert(shorter[i] == p[i]);
            }
            assert forall|i: int, k: int| 0 <= i && k == i + 1 && k < shorter.len() implies adjacent(
                #[trigger] shorter[i],
                #[trigger] shorter[k],
            ) by {
                assert(adjacent(p[i], p[k]));
            }
        }
        let i = lemma_search_sees_all(g, width, height, start, q, v, before, shorter);
        reveal(searching);
        assert(adjacent(p[p.len() - 2], p[p.len() - 1]));
        lemma_neighbour_on_side(before, c);
        assert(is_open(g, p[p.len() - 1]));
        assert(marked(v, neighbour(cell_of(q[i]), side_to(before, c))));
        let j = lemma_place_of(q, c);
        assert(adjacent(cell_of(q[i]), cell_of(q[j])));
        j
    }
}

/// After the search the entry with the most steps stands for a cell farthest
/// from `start`.
pub proof fn lemma_search_end(
    g: Seq<Seq<char>>,
    width: int,
    height: int,
    start: (int, int),
    q: Seq<(usize, usize, usize)>,
    v: Seq<Seq<bool>>,
    best: int,
)
    requires
        searching(g, width, height, start, q, v, q.len() as int, 0),
        0 <= best < q.len(),
        forall|i: int| 0 <= i < q.len() ==> (#[trigger] q[i]).2 <= q[best].2,
    ensures
        is_farthest(g, start, cell_of(q[best]), q[best].2 as int),
{
    let far = cell_of(q[best]);
    let d = q[best].2 as int;
    assert(reachable_within(g, start, far, d)) by {
        reveal(searching);
        assert(entry_ok(g, start, v, q[best], best));
    }
    if reachable_within(g, start, far, d - 1) {
        reveal(reachable_within);
        let p = choose|p: Seq<(int, int)>| path_between(g, start, far, p) && p.len() <= d - 1 + 1;
        let j = lemma_search_sees_all(g, width, height, start, q, v, far, p);
        reveal(searching);
        assert(j == best) by {
            if j < best {
                assert(cell_of(q[j]) != cell_of(q[best]));
            } else if best < j {
                assert(cell_of(q[best]) != cell_of(q[j]));
            }
        }
    }
    assert forall|c: (int, int)| #[trigger] connected(g, start, c) implies reachable_within(
        g,
        start,
        c,
        d,
    ) by {
        let p = choose|p: Seq<(int, int)>| path_between(g, start, c, p);
        let j = lemma_search_sees_all(g, width, height, start, q, v, c, p);
        assert(reachable_within(g, start, c, q[j].2 as int)) by {
            reveal(searching);
            assert(entry_ok(g, start, v, q[j], j));
        }
        lemma_within_more(g, start, c, q[j].2 as int, d);
    }
}

/// The cells of the queue in their order.
pub open spec fn cells_of(q: Seq<(usize, usize, usize)>) -> Seq<(int, int)> {
    Seq::new(q.len(), |i: int| cell_of(q[i]))
}

/// What holds of the order of the queue between two steps of the search:
/// `parents[i]` is the place of the entry from which entry `i` was reached,
/// and `sides[i]` the side on which it was reached.
#[verifier::opaque]
pub open spec fn ordering(
    q: Seq<(usize, usize, usize)>,
    parents: Seq<int>,
    sides: Seq<int>,
    head: int,
    done: int,
) -> bool {
    &&& parents.len() == q.len()
    &&& sides.len() == q.len()
    &&& forall|i: int|
        0 < i < q.len() ==> 0 <= #[trigger] parents[i] < i && parents[i] <= head && 0 <= sides[i] < 4
            && cell_of(q[i]) == neighbour(cell_of(q[parents[i]]), sides[i]) && (parents[i] == head
            ==> sides[i] < done)
    &&& forall|i: int, k: int|
        0 < i < k < q.len() ==> #[trigger] parents[i] < #[trigger] parents[k] || (parents[i]
            == parents[k] && sides[i] < sides[k])
    &&& forall|i: int, j: int|
        0 < i < q.len() && 0 <= j < parents[i] ==> !#[trigger] adjacent(cell_of(q[j]), cell_of(q[i]))
}

/// The order may begin with the first entry alone.
pub proof fn lemma_order_begin(q: Seq<(usize, usize, usize)>)
    requires
        q.len() == 1,
    ensures
        ordering(q, seq![0int], seq![0int], 0, 0),
{
    reveal(ordering);
}

/// The order holds when a neighbour of the head is passed over.
pub proof fn lemma_order_pass(
    q: Seq<(usize, usize, usize)>,
    parents: Seq<int>,
    sides: Seq<int>,
    head: int,
    done: int,
)
    requires
        ordering(q, parents, sides, head, done),
    ensures
        ordering(q, parents, sides, head, done + 1),
{
    reveal(ordering);
}

/// The order holds when the search moves on to the next entry.
pub proof fn lemma_order_next(
    q: Seq<(usize, usize, usize)>,
    parents: Seq<int>,
    sides: Seq<int>,
    head: int,
    done: int,
)
    requires
        ordering(q, parents, sides, head, done),
        head < q.len(),
    ensures
        ordering(q, parents, sides, head + 1, 0),
{
    reveal(ordering);
}

/// The order holds when the neighbour of the head on side `done` joins the
/// queue.
pub proof fn lemma_order_visit(
    g: Seq<Seq<char>>,
    width: int,
    height: int,
    start: (int, int),
    q: Seq<(usize, usize, usize)>,
    v: Seq<Seq<bool>>,
    parents: Seq<int>,
    sides: Seq<int>,
    head: int,
    done: int,
    e: (usize, usize, usize),
)
    requires
        searching(g, width, height, start, q, v, head, done),
        ordering(q, parents, sides, head, done),
        head < q.len(),
        done < 4,
        cell_of(e) == neighbour(cell_of(q[head]), done),
        is_open(g, cell_of(e)),
        !marked(v, cell_of(e)),
    ensures
        ordering(q.push(e), parents.push(head), sides.push(done), head, done + 1),
{
    reveal(ordering);
    reveal(searching);
    let q2 = q.push(e);
    let parents2 = parents.push(head);
    let sides2 = sides.push(done);
    let n = cell_of(e);
    assert forall|i: int| 0 < i < q2.len() implies 0 <= #[trigger] parents2[i] < i && parents2[i]
        <= head && 0 <= sides2[i] < 4 && cell_of(q2[i]) == neighbour(
        cell_of(q2[parents2[i]]),
        sides2[i],
    ) && (parents2[i] == head ==> sides2[i] < done + 1) by {
        if i < q.len() {
            assert(parents2[i] == parents[i]);
            assert(q2[parents[i]] == q[parents[i]]);
        }
    }
    assert forall|i: int, k: int| 0 < i < k < q2.len() implies #[trigger] parents2[i]
        < #[trigger] parents2[k] || (parents2[i] == parents2[k] && sides2[i] < sides2[k]) by {
        assert(parents2[i] == parents[i]);
        if k < q.len() {
            assert(parents2[k] == parents[k]);
        }
    }
    assert forall|i: int, j: int| 0 < i < q2.len() && 0 <= j < parents2[i] implies !#[trigger] adjacent(
        cell_of(q2[j]),
        cell_of(q2[i]),
    ) by {
        if i < q.len() {
            assert(parents2[i] == parents[i]);
            assert(!adjacent(cell_of(q[j]), cell_of(q[i])));
        } else {
            if adjacent(cell_of(q[j]), n) {
                lemma_neighbour_on_side(cell_of(q[j]), n);
                assert(marked(v, neighbour(cell_of(q[j]), side_to(cell_of(q[j]), n))));
            }
        }
    }
}

/// The side on which a neighbour lies is the side it was taken on.
pub proof fn lemma_side_to(a: (int, int), side: int)
    requires
        0 <= side < 4,
    ensures
        side_to(a, neighbour(a, side)) == side,
        adjacent(a, neighbour(a, side)),
{
}

/// After the search the cells of the queue stand in search order.
pub proof fn lemma_order_end(
    g: Seq<Seq<char>>,
    width: int,
    height: int,
    start: (int, int),
    q: Seq<(usize, usize, usize)>,
    v: Seq<Seq<bool>>,
    parents: Seq<int>,
    sides: Seq<int>,
)
    requires
        searching(g, width, height, start, q, v, q.len() as int, 0),
        ordering(q, parents, sides, q.len() as int, 0),
    ensures
        is_search_order(g, start, cells_of(q)),
{
    reveal(ordering);
    reveal(searching);
    reveal(is_search_order);
    let order = cells_of(q);
    assert forall|i: int| 0 <= i < order.len() implies is_open(g, #[trigger] order[i]) by {
        assert(entry_ok(g, start, v, q[i], i));
    }
    assert forall|i: int, k: int| 0 <= i < k < order.len() implies #[trigger] order[i]
        != #[trigger] order[k] by {
        assert(cell_of(q[i]) != cell_of(q[k]));
    }
    assert forall|i: int, side: int|
        0 <= i < order.len() && 0 <= side < 4 && is_open(g, neighbour(order[i], side)) implies order.contains(
        #[trigger] neighbour(order[i], side),
    ) by {
        assert(marked(v, neighbour(cell_of(q[i]), side)));
        let j = lemma_place_of(q, neighbour(order[i], side));
        assert(order[j] == neighbour(order[i], side));
    }
    assert forall|i: int| 0 < i < order.len() implies reached_from(order, i, parents[i]) by {
        lemma_parent_is_first(q, parents, sides, i);
    }
    assert forall|i: int| 0 < i < order.len() implies #[trigger] was_reached(order, i) by {
        assert(reached_from(order, i, parents[i]));
    }
    assert forall|i: int, k: int, ji: int, jk: int|
        0 < i < k < order.len() && #[trigger] reached_from(order, i, ji) && #[trigger] reached_from(
            order,
            k,
            jk,
        ) implies ji < jk || (ji == jk && side_to(order[ji], order[i]) < side_to(order[jk], order[k])) by {
        lemma_parent_is_first(q, parents, sides, i);
        lemma_parent_is_first(q, parents, sides, k);
        lemma_first_is_one(order, i, ji, parents[i]);
        lemma_first_is_one(order, k, jk, parents[k]);
        assert(parents[i] < parents[k] || (parents[i] == parents[k] && sides[i] < sides[k]));
        lemma_side_to(order[ji], sides[i]);
        lemma_side_to(order[jk], sides[k]);
    }
}

/// The entry from which entry `i` was reached is the first that it is a
/// neighbour of.
pub proof fn lemma_parent_is_first(
    q: Seq<(usize, usize, usize)>,
    parents: Seq<int>,
    sides: Seq<int>,
    i: int,
)
    requires
        ordering(q, parents, sides, q.len() as int, 0),
        0 < i < q.len(),
    ensures
        reached_from(cells_of(q), i, parents[i]),
        0 <= sides[i] < 4,
        cells_of(q)[i] == neighbour(cells_of(q)[parents[i]], sides[i]),
{
    reveal(ordering);
    let order = cells_of(q);
    let j = parents[i];
    assert(0 <= j < i);
    lemma_side_to(cell_of(q[j]), sides[i]);
    assert forall|k: int| 0 <= k < j implies !adjacent(#[trigger] order[k], order[i]) by {
        assert(!adjacent(cell_of(q[k]), cell_of(q[i])));
    }
}

/// A cell is reached from one place only.
pub proof fn lemma_first_is_one(order: Seq<(int, int)>, i: int, j: int, k: int)
    requires
        reached_from(order, i, j),
        reached_from(order, i, k),
    ensures
        j == k,
{
    if j < k {
        assert(!adjacent(order[j], order[i]));
    } else if k < j {
        assert(!adjacent(order[k], order[i]));
    }
}

/// After the search the first entry with the most steps stands for the first
/// cell reached at that distance.
pub proof fn lemma_first_of_the_farthest(
    g: Seq<Seq<char>>,
    width: int,
    height: int,
    start: (int, int),
    q: Seq<(usize, usize, usize)>,
    v: Seq<Seq<bool>>,
    best: int,
)
    requires
        searching(g, width, height, start, q, v, q.len() as int, 0),
        is_search_order(g, start, cells_of(q)),
        0 <= best < q.len(),
        forall|i: int| 0 <= i < best ==> (#[trigger] q[i]).2 < q[best].2,
    ensures
        is_first_reached(g, start, cell_of(q[best]), q[best].2 as int),
{
    let order = cells_of(q);
    let d = q[best].2 as int;
    assert forall|i: int| 0 <= i < best implies reachable_within(g, start, #[trigger] order[i], d - 1) by {
        reveal(searching);
        assert(entry_ok(g, start, v, q[i], i));
        lemma_within_more(g, start, cell_of(q[i]), q[i].2 as int, d - 1);
    }
    assert(order[best] == cell_of(q[best]));
}

} // verus!
