//! The search for the goal: every trail from the origin is followed to its
//! end, and the best candidate met is kept. The search keeps the trail it is
//! on as a stack of cells, each with the number of directions it has begun.

use crate::grid::{
    adjacent, beats, candidate_of, lemma_index_bounds, lemma_index_injective, step_ok, Candidate,
    Cell, Grid,
};
use vstd::prelude::*;

verus! {

/// The mark of cell `(x, y)`.
pub open spec fn marked(g: Grid, visited: Seq<bool>, x: int, y: int) -> bool {
    visited[g.index(x, y)]
}

/// `visited` marks exactly the cells of `p`.
pub open spec fn marks(g: Grid, visited: Seq<bool>, p: Seq<Cell>) -> bool {
    forall|x: int, y: int|
        g.contains(x, y) ==> (#[trigger] marked(g, visited, x, y) <==> p.contains((x, y)))
}

/// The neighbour of `c` in direction `j`: to the left, to the right, above,
/// below.
pub open spec fn neighbour(c: Cell, j: int) -> Cell {
    if j == 0 {
        (c.0 - 1, c.1)
    } else if j == 1 {
        (c.0 + 1, c.1)
    } else if j == 2 {
        (c.0, c.1 - 1)
    } else {
        (c.0, c.1 + 1)
    }
}

/// The direction in which `b` lies from its neighbour `a`.
pub open spec fn direction(a: Cell, b: Cell) -> int {
    if b == neighbour(a, 0) {
        0
    } else if b == neighbour(a, 1) {
        1
    } else if b == neighbour(a, 2) {
        2
    } else {
        3
    }
}

/// No trail that goes on from `stem` in one of the first `done` directions
/// leads to a candidate that beats `best`.
pub open spec fn covered(g: Grid, stem: Seq<Cell>, done: int, best: Candidate) -> bool {
    forall|t: Seq<Cell>|
        g.is_trail(t) && stem.is_prefix_of(t) && t.len() > stem.len() && direction(
            stem.last(),
            t[stem.len() as int],
        ) < done ==> !beats(#[trigger] candidate_of(t), best)
}

/// What the search has done at cell `k` of its trail: `stages[k]` directions
/// are begun, all but the one that the trail goes on in are covered, and the
/// trail goes on in the last one begun.
pub open spec fn frame_ok(
    g: Grid,
    path: Seq<Cell>,
    stages: Seq<int>,
    k: int,
    best: Candidate,
) -> bool {
    let on_top = k == path.len() - 1;
    &&& 0 <= stages[k] <= 4
    &&& covered(
        g,
        path.take(k + 1),
        if on_top {
            stages[k]
        } else {
            stages[k] - 1
        },
        best,
    )
    &&& !on_top ==> stages[k] >= 1 && path[k + 1] == neighbour(path[k], stages[k] - 1)
}

/// The state of the search: it is on the trail `path`, `best` is the
/// candidate of some trail, and once the search is back at the start with
/// nothing left to try, no trail leads to a candidate that beats `best`.
pub open spec fn searching(g: Grid, path: Seq<Cell>, stages: Seq<int>, best: Candidate) -> bool {
    &&& path.len() == stages.len()
    &&& path.len() > 0 ==> g.is_trail(path)
    &&& exists|t: Seq<Cell>| g.is_trail(t) && #[trigger] candidate_of(t) == best
    &&& forall|k: int| 0 <= k < path.len() ==> #[trigger] frame_ok(g, path, stages, k, best)
    &&& path.len() == 0 ==> forall|t: Seq<Cell>|
        g.is_trail(t) ==> !beats(#[trigger] candidate_of(t), best)
}

/// Powers of six.
pub open spec fn pow6(k: nat) -> nat
    decreases k,
{
    if k == 0 {
        1
    } else {
        6 * pow6((k - 1) as nat)
    }
}

/// A bound on the steps that the search has left: the stages read as the
/// digits of a number that only grows, counted down from its greatest value.
/// `room` is the greatest length that the trail can have.
pub open spec fn work_left(stages: Seq<int>, room: nat) -> int
    decreases stages.len(),
{
    if stages.len() == 0 {
        0
    } else {
        work_left(stages.drop_last(), room) + (5 - stages.last()) * pow6(
            (room - stages.len()) as nat,
        )
    }
}

/// A power of six is at least one.
pub proof fn lemma_pow6_positive(k: nat)
    ensures
        pow6(k) >= 1,
    decreases k,
{
    if k > 0 {
        lemma_pow6_positive((k - 1) as nat);
    }
}

/// With no stage above five there is no negative work left.
pub proof fn lemma_work_left_bound(stages: Seq<int>, room: nat)
    requires
        forall|k: int| 0 <= k < stages.len() ==> #[trigger] stages[k] <= 5,
    ensures
        work_left(stages, room) >= 0,
    decreases stages.len(),
{
    if stages.len() > 0 {
        lemma_work_left_bound(stages.drop_last(), room);
        let p = pow6((room - stages.len()) as nat);
        let d = 5 - stages.last();
        assert(stages[stages.len() - 1] <= 5);
        assert(d * p >= 0) by (nonlinear_arith)
            requires
                d >= 0,
                p >= 0,
        ;
    }
}

/// Beginning one more direction at the top of the stack leaves less work.
pub proof fn lemma_work_left_advance(stages: Seq<int>, room: nat)
    requires
        stages.len() > 0,
    ensures
        work_left(stages.update(stages.len() - 1, stages.last() + 1), room) < work_left(
            stages,
            room,
        ),
{
    let after = stages.update(stages.len() - 1, stages.last() + 1);
    let p = pow6((room - stages.len()) as nat);
    let d = 5 - stages.last();
    lemma_pow6_positive((room - stages.len()) as nat);
    assert(after.drop_last() =~= stages.drop_last());
    assert((d - 1) * p < d * p) by (nonlinear_arith)
        requires
            p >= 1,
    ;
}

/// Going on to a neighbour, which begins a direction at the top and adds a
/// cell above it, leaves less work.
pub proof fn lemma_work_left_push(stages: Seq<int>, room: nat)
    requires
        stages.len() > 0,
        stages.len() < room,
    ensures
        work_left(stages.update(stages.len() - 1, stages.last() + 1).push(0), room) < work_left(
            stages,
            room,
        ),
{
    let begun = stages.update(stages.len() - 1, stages.last() + 1);
    let after = begun.push(0);
    let lower = pow6((room - stages.len() - 1) as nat);
    let upper = pow6((room - stages.len()) as nat);
    let d = 5 - stages.last();
    lemma_pow6_positive((room - stages.len() - 1) as nat);
    assert(upper == 6 * lower);
    assert(after.drop_last() =~= begun);
    assert(begun.drop_last() =~= stages.drop_last());
    assert(work_left(after, room) == work_left(begun, room) + 5 * lower);
    assert(work_left(begun, room) == work_left(stages.drop_last(), room) + (d - 1) * upper);
    assert((d - 1) * upper + 5 * lower < d * upper) by (nonlinear_arith)
        requires
            upper == 6 * lower,
            lower >= 1,
    ;
}

/// Leaving the cell at the top of the stack leaves less work.
pub proof fn lemma_work_left_pop(stages: Seq<int>, room: nat)
    requires
        stages.len() > 0,
        stages.last() <= 4,
    ensures
        work_left(stages.drop_last(), room) < work_left(stages, room),
{
    let p = pow6((room - stages.len()) as nat);
    let d = 5 - stages.last();
    lemma_pow6_positive((room - stages.len()) as nat);
    assert(d * p >= 1) by (nonlinear_arith)
        requires
            d >= 1,
            p >= 1,
    ;
}

/// Marking the last cell of a path whose other cells are marked marks the
/// path; the cell was not marked before.
pub proof fn lemma_mark_last(g: Grid, visited: Seq<bool>, path: Seq<Cell>)
    requires
        g.wf(),
        visited.len() == g.cells.len(),
        path.len() >= 1,
        path.no_duplicates(),
        g.contains(path.last().0, path.last().1),
        marks(g, visited, path.drop_last()),
    ensures
        !visited[g.index(path.last().0, path.last().1)],
        marks(g, visited.update(g.index(path.last().0, path.last().1), true), path),
{
    let (x, y) = path.last();
    let index = g.index(x, y);
    let after = visited.update(index, true);
    lemma_index_bounds(g, x, y);
    assert(marked(g, visited, x, y) <==> path.drop_last().contains((x, y)));
    if path.drop_last().contains((x, y)) {
        let k = choose|k: int| 0 <= k < path.drop_last().len() && path.drop_last()[k] == (x, y);
        assert(path[k] == path[path.len() - 1]);
    }
    assert forall|cx: int, cy: int| g.contains(cx, cy) implies (#[trigger] marked(g, after, cx, cy)
        <==> path.contains((cx, cy))) by {
        lemma_index_bounds(g, cx, cy);
        assert(marked(g, visited, cx, cy) <==> path.drop_last().contains((cx, cy)));
        if g.index(cx, cy) == index {
            lemma_index_injective(g, cx, cy, x, y);
            assert(path[path.len() - 1] == (cx, cy));
        } else {
            if path.drop_last().contains((cx, cy)) {
                let k = choose|k: int|
                    0 <= k < path.drop_last().len() && path.drop_last()[k] == (cx, cy);
                assert(path[k] == (cx, cy));
            }
            if path.contains((cx, cy)) {
                let k = choose|k: int| 0 <= k < path.len() && path[k] == (cx, cy);
                assert(path.drop_last()[k] == (cx, cy));
            }
        }
    }
}

/// Taking the mark off the last cell of a marked path marks the rest of it.
pub proof fn lemma_unmark_last(g: Grid, visited: Seq<bool>, path: Seq<Cell>)
    requires
        g.wf(),
        visited.len() == g.cells.len(),
        path.len() >= 1,
        path.no_duplicates(),
        g.contains(path.last().0, path.last().1),
        marks(g, visited, path),
    ensures
        visited[g.index(path.last().0, path.last().1)],
        marks(g, visited.update(g.index(path.last().0, path.last().1), false), path.drop_last()),
{
    let (x, y) = path.last();
    let index = g.index(x, y);
    let after = visited.update(index, false);
    let rest = path.drop_last();
    lemma_index_bounds(g, x, y);
    assert(path[path.len() - 1] == (x, y));
    assert(marked(g, visited, x, y) <==> path.contains((x, y)));
    assert forall|cx: int, cy: int| g.contains(cx, cy) implies (#[trigger] marked(g, after, cx, cy)
        <==> rest.contains((cx, cy))) by {
        lemma_index_bounds(g, cx, cy);
        assert(marked(g, visited, cx, cy) <==> path.contains((cx, cy)));
        if g.index(cx, cy) == index {
            lemma_index_injective(g, cx, cy, x, y);
            if rest.contains((cx, cy)) {
                let k = choose|k: int| 0 <= k < rest.len() && rest[k] == (cx, cy);
                assert(path[k] == path[path.len() - 1]);
            }
        } else {
            if rest.contains((cx, cy)) {
                let k = choose|k: int| 0 <= k < rest.len() && rest[k] == (cx, cy);
                assert(path[k] == (cx, cy));
            }
            if path.contains((cx, cy)) {
                let k = choose|k: int| 0 <= k < path.len() && path[k] == (cx, cy);
                assert(rest[k] == (cx, cy));
            }
        }
    }
}

/// A trail goes on by one cell to a passable neighbour that is not on it.
pub proof fn lemma_trail_push(g: Grid, visited: Seq<bool>, path: Seq<Cell>, x: int, y: int)
    requires
        g.is_trail(path),
        marks(g, visited, path),
        g.passable(x, y),
        !marked(g, visited, x, y),
        adjacent(path.last(), (x, y)),
    ensures
        g.is_trail(path.push((x, y))),
        path.push((x, y)).drop_last() == path,
{
    let next = path.push((x, y));
    assert(next.drop_last() =~= path);
    assert(!path.contains((x, y)));
    assert forall|k: int| 0 <= k < next.len() - 1 implies #[trigger] step_ok(next, k) by {
        if k < path.len() - 1 {
            assert(step_ok(path, k));
        }
    }
    assert forall|k: int| 0 <= k < next.len() implies g.passable((#[trigger] next[k]).0, next[k].1) by {
        if k < path.len() {
            assert(g.passable(path[k].0, path[k].1));
        }
    }
    assert forall|i: int, j: int| 0 <= i < next.len() && 0 <= j < next.len() && i != j implies next[i]
        != next[j] by {
        if i < path.len() && j < path.len() {
            assert(path[i] != path[j]);
        } else if i < path.len() {
            assert(path[i] != (x, y));
        } else {
            assert(path[j] != (x, y));
        }
    }
}

/// A trail that goes on from `stem` goes on to a neighbour of its last cell,
/// in the direction of that neighbour.
proof fn lemma_goes_on(g: Grid, stem: Seq<Cell>, t: Seq<Cell>)
    requires
        g.is_trail(t),
        stem.len() >= 1,
        stem.is_prefix_of(t),
        t.len() > stem.len(),
    ensures
        t[stem.len() as int] == neighbour(stem.last(), direction(stem.last(), t[stem.len() as int])),
        0 <= direction(stem.last(), t[stem.len() as int]) < 4,
        stem.push(t[stem.len() as int]).is_prefix_of(t),
        g.passable(t[stem.len() as int].0, t[stem.len() as int].1),
        !stem.contains(t[stem.len() as int]),
{
    let n = stem.len() as int;
    assert(t.subrange(0, n)[n - 1] == stem[n - 1]);
    assert(step_ok(t, n - 1));
    assert(adjacent(stem.last(), t[n]));
    assert(g.passable(t[n].0, t[n].1));
    assert(t.subrange(0, n + 1) =~= stem.push(t[n])) by {
        assert forall|k: int| 0 <= k < n + 1 implies t.subrange(0, n + 1)[k] == stem.push(t[n])[k] by {
            if k < n {
                assert(t.subrange(0, n)[k] == stem[k]);
            }
        }
    }
    if stem.contains(t[n]) {
        let k = choose|k: int| 0 <= k < stem.len() && stem[k] == t[n];
        assert(t.subrange(0, n)[k] == stem[k]);
        assert(t[k] == t[n]);
    }
}

/// Once all four directions from the end of `stem` are covered and the
/// candidate of `stem` itself does not beat `best`, no trail that begins with
/// `stem` leads to a candidate that beats `best`.
proof fn lemma_stem_covered(g: Grid, stem: Seq<Cell>, best: Candidate, t: Seq<Cell>)
    requires
        stem.len() >= 1,
        covered(g, stem, 4, best),
        !beats(candidate_of(stem), best),
        g.is_trail(t),
        stem.is_prefix_of(t),
    ensures
        !beats(candidate_of(t), best),
{
    if t.len() == stem.len() {
        assert(t.subrange(0, stem.len() as int) =~= t);
    } else {
        lemma_goes_on(g, stem, t);
    }
}

/// The search begins at the origin with the origin as the best candidate.
pub proof fn lemma_search_begin(g: Grid)
    requires
        g.passable(0, 0),
    ensures
        searching(g, seq![(0int, 0int)], seq![0int], candidate_of(seq![(0int, 0int)])),
{
    let path: Seq<Cell> = seq![(0int, 0int)];
    let stages = seq![0int];
    let best = candidate_of(path);
    assert(g.is_trail(path));
    assert forall|k: int| 0 <= k < path.len() implies #[trigger] frame_ok(g, path, stages, k, best) by {}
}

/// Where the next direction leads to no cell that a trail could go on to,
/// the direction is done with.
pub proof fn lemma_search_skip(
    g: Grid,
    visited: Seq<bool>,
    path: Seq<Cell>,
    stages: Seq<int>,
    best: Candidate,
)
    requires
        searching(g, path, stages, best),
        path.len() > 0,
        stages.last() < 4,
        marks(g, visited, path),
        ({
            let next = neighbour(path.last(), stages.last());
            !g.passable(next.0, next.1) || marked(g, visited, next.0, next.1)
        }),
    ensures
        searching(g, path, stages.update(stages.len() - 1, stages.last() + 1), best),
{
    let top = path.len() - 1;
    let begun = stages.update(top, stages.last() + 1);
    let next = neighbour(path.last(), stages.last());
    assert forall|k: int| 0 <= k < path.len() implies #[trigger] frame_ok(g, path, begun, k, best) by {
        assert(frame_ok(g, path, stages, k, best));
        if k == top {
            assert(path.take(top + 1) =~= path);
            assert forall|t: Seq<Cell>|
                g.is_trail(t) && path.is_prefix_of(t) && t.len() > path.len() && direction(
                    path.last(),
                    t[path.len() as int],
                ) < begun[top] implies !beats(#[trigger] candidate_of(t), best) by {
                lemma_goes_on(g, path, t);
                if direction(path.last(), t[path.len() as int]) == stages.last() {
                    assert(t[path.len() as int] == next);
                    assert(path.contains(next));
                }
            }
        }
    }
}

/// Going on to a passable neighbour that is not on the trail.
pub proof fn lemma_search_push(
    g: Grid,
    visited: Seq<bool>,
    path: Seq<Cell>,
    stages: Seq<int>,
    best: Candidate,
)
    requires
        searching(g, path, stages, best),
        path.len() > 0,
        stages.last() < 4,
        marks(g, visited, path),
        ({
            let next = neighbour(path.last(), stages.last());
            g.passable(next.0, next.1) && !marked(g, visited, next.0, next.1)
        }),
    ensures
        searching(
            g,
            path.push(neighbour(path.last(), stages.last())),
            stages.update(stages.len() - 1, stages.last() + 1).push(0),
            best,
        ),
{
    let top = path.len() - 1;
    let next = neighbour(path.last(), stages.last());
    let longer = path.push(next);
    let after = stages.update(top, stages.last() + 1).push(0);
    lemma_trail_push(g, visited, path, next.0, next.1);
    assert forall|k: int| 0 <= k < longer.len() implies #[trigger] frame_ok(
        g,
        longer,
        after,
        k,
        best,
    ) by {
        if k <= top {
            assert(frame_ok(g, path, stages, k, best));
            assert(longer.take(k + 1) =~= path.take(k + 1));
        } else {
            assert(longer.take(k + 1) =~= longer);
        }
    }
}

/// Leaving the cell at the top of the stack, whose four directions are done
/// with, after its own candidate has been compared.
pub proof fn lemma_search_pop(g: Grid, path: Seq<Cell>, stages: Seq<int>, best: Candidate)
    requires
        searching(g, path, stages, best),
        path.len() > 0,
        stages.last() == 4,
    ensures
        searching(
            g,
            path.drop_last(),
            stages.drop_last(),
            if beats(candidate_of(path), best) {
                candidate_of(path)
            } else {
                best
            },
        ),
{
    let top = path.len() - 1;
    let rest = path.drop_last();
    let after = stages.drop_last();
    let better = if beats(candidate_of(path), best) {
        candidate_of(path)
    } else {
        best
    };
    assert(frame_ok(g, path, stages, top, best));
    assert(path.take(top + 1) =~= path);
    assert(covered(g, path, 4, better));
    assert(exists|t: Seq<Cell>| g.is_trail(t) && #[trigger] candidate_of(t) == better) by {
        if better != best {
            assert(g.is_trail(path) && candidate_of(path) == better);
        }
    }
    if top == 0 {
        assert forall|t: Seq<Cell>| g.is_trail(t) implies !beats(#[trigger] candidate_of(t), better) by {
            assert(t.subrange(0, 1) =~= path);
            lemma_stem_covered(g, path, better, t);
        }
    } else {
        assert(g.is_trail(rest)) by {
            assert forall|k: int| 0 <= k < rest.len() implies g.passable(
                (#[trigger] rest[k]).0,
                rest[k].1,
            ) by {
                assert(g.passable(path[k].0, path[k].1));
            }
            assert forall|k: int| 0 <= k < rest.len() - 1 implies #[trigger] step_ok(rest, k) by {
                assert(step_ok(path, k));
            }
        }
        assert forall|k: int| 0 <= k < rest.len() implies #[trigger] frame_ok(
            g,
            rest,
            after,
            k,
            better,
        ) by {
            assert(frame_ok(g, path, stages, k, best));
            assert(rest.take(k + 1) =~= path.take(k + 1));
            let stem = path.take(k + 1);
            if k == top - 1 {
                assert(stem =~= rest);
                assert forall|t: Seq<Cell>|
                    g.is_trail(t) && stem.is_prefix_of(t) && t.len() > stem.len() && direction(
                        stem.last(),
                        t[stem.len() as int],
                    ) < stages[k] implies !beats(#[trigger] candidate_of(t), better) by {
                    lemma_goes_on(g, stem, t);
                    if direction(stem.last(), t[stem.len() as int]) == stages[k] - 1 {
                        assert(stem.push(t[stem.len() as int]) =~= path);
                        lemma_stem_covered(g, path, better, t);
                    }
                }
            }
        }
    }
}

} // verus!
