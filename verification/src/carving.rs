//! What carving keeps true of the grid and of the forest that follows it,
//! and why the carved grid is a spanning tree of the rooms.

use crate::dsets::{
    is_partition, lemma_merged_partition, lemma_singletons_partition, merged, num_sets, roots_below,
    singletons,
};
use crate::grid::{
    adjacent, beats, candidate_of, lemma_connected_self, lemma_connected_step,
    lemma_connected_survives, lemma_connected_trans, lemma_index_bounds, lemma_index_injective,
    lemma_index_of_place, lemma_joined_sym, lemma_joined_trans, lemma_path_survives, opens_more,
    step_ok, Candidate, Cell, Grid, MazeSpace,
};
use vstd::prelude::*;

verus! {

/// Place `i` of a grid of width `w` is a room.
pub open spec fn is_room_place(w: int, i: int) -> bool {
    (i % w) % 2 == 0 && (i / w) % 2 == 0
}

/// The room places below `k`, in rising order.
pub open spec fn room_places(w: int, k: nat) -> Seq<usize>
    decreases k,
{
    if k == 0 {
        Seq::empty()
    } else if is_room_place(w, k - 1) {
        room_places(w, (k - 1) as nat).push((k - 1) as usize)
    } else {
        room_places(w, (k - 1) as nat)
    }
}

/// The coordinates of a cell are what division of its place by the width
/// gives.
pub proof fn lemma_place_of_cell(g: Grid, x: int, y: int)
    requires
        g.wf(),
        g.contains(x, y),
    ensures
        0 <= g.index(x, y) < g.cells.len(),
        g.index(x, y) % g.width == x,
        g.index(x, y) / g.width == y,
        is_room_place(g.width, g.index(x, y)) <==> g.is_room(x, y),
{
    let i = g.index(x, y);
    lemma_index_bounds(g, x, y);
    lemma_index_of_place(g, i);
    lemma_index_injective(g, i % g.width, i / g.width, x, y);
}

/// A room place below `k` is an entry of the list of room places.
pub proof fn lemma_room_places_contains(w: int, k: nat, i: int)
    requires
        k <= usize::MAX,
    ensures
        room_places(w, k).contains(i as usize) && 0 <= i <= usize::MAX <==> 0 <= i < k
            && is_room_place(w, i),
    decreases k,
{
    if k > 0 {
        let rest = room_places(w, (k - 1) as nat);
        lemma_room_places_contains(w, (k - 1) as nat, i);
        if is_room_place(w, k - 1) {
            let all = rest.push((k - 1) as usize);
            assert(all[all.len() - 1] == (k - 1) as usize);
            if rest.contains(i as usize) {
                let j = choose|j: int| 0 <= j < rest.len() && rest[j] == i as usize;
                assert(all[j] == i as usize);
            }
            if all.contains(i as usize) && !rest.contains(i as usize) {
                let j = choose|j: int| 0 <= j < all.len() && all[j] == i as usize;
                assert(j == all.len() - 1);
            }
        }
    }
}

/// The grid with place `i` opened.
pub open spec fn opened(g: Grid, i: int) -> Grid {
    Grid { width: g.width, height: g.height, cells: g.cells.update(i, MazeSpace::Open) }
}

/// The grid with the cell `goal` marked.
pub open spec fn with_goal(g: Grid, goal: Cell) -> Grid {
    Grid {
        width: g.width,
        height: g.height,
        cells: g.cells.update(g.index(goal.0, goal.1), MazeSpace::Goal),
    }
}

/// The lattice of `width` by `height` cells before any passage is opened.
pub open spec fn fresh_grid(width: int, height: int) -> Grid {
    Grid {
        width,
        height,
        cells: Seq::new(
            (width * height) as nat,
            |i: int|
                if is_room_place(width, i) {
                    MazeSpace::Open
                } else {
                    MazeSpace::Wall
                },
        ),
    }
}

/// The lattice before any passage is opened: rooms are open, every other
/// cell is a wall.
pub open spec fn is_fresh(g: Grid) -> bool {
    &&& g.wf()
    &&& g.width % 2 == 1
    &&& g.height % 2 == 1
    &&& forall|i: int|
        0 <= i < g.cells.len() ==> #[trigger] g.cells[i] == if is_room_place(g.width, i) {
            MazeSpace::Open
        } else {
            MazeSpace::Wall
        }
}

/// No cell is marked as the goal.
pub open spec fn no_goal(g: Grid) -> bool {
    forall|i: int| 0 <= i < g.cells.len() ==> #[trigger] g.cells[i] != MazeSpace::Goal
}

/// Number of places below `k` that are open and no room: the passages that
/// were opened.
pub open spec fn open_passages_below(g: Grid, k: nat) -> nat
    decreases k,
{
    if k == 0 {
        0
    } else {
        open_passages_below(g, (k - 1) as nat) + if g.cells[k - 1] == MazeSpace::Open && !is_room_place(
            g.width,
            k - 1,
        ) {
            1nat
        } else {
            0nat
        }
    }
}

/// Number of opened passages of the grid.
pub open spec fn open_passages(g: Grid) -> nat {
    open_passages_below(g, g.cells.len())
}

/// The grid and the partition of its places while passages are carved.
pub struct Carving {
    pub grid: Grid,
    pub roots: Seq<int>,
}

/// The carving state made of a grid and a partition.
pub open spec fn state(grid: Grid, roots: Seq<int>) -> Carving {
    Carving { grid, roots }
}

/// What one candidate does: where the room at place `index` has a room two
/// cells to its east (or south) that is in another set, the cell between
/// them is opened and the three cells are put into one set.
pub open spec fn carve_step(state: Carving, index: int, is_east: bool) -> Carving {
    let g = state.grid;
    let x = index % g.width;
    let y = index / g.width;
    let step = if is_east {
        1
    } else {
        g.width
    };
    let in_reach = if is_east {
        x + 2 < g.width
    } else {
        y + 2 < g.height
    };
    if in_reach && state.roots[index] != state.roots[index + 2 * step] {
        Carving {
            grid: opened(g, index + step),
            roots: merged(merged(state.roots, index, index + step), index, index + 2 * step),
        }
    } else {
        state
    }
}

/// The state after the first `turns` turns: in each turn the eastward
/// candidate `east[i]` comes first, then the southward candidate `south[i]`.
pub open spec fn carve_turns(start: Carving, east: Seq<usize>, south: Seq<usize>, turns: nat) -> Carving
    decreases turns,
{
    if turns == 0 {
        start
    } else {
        let before = carve_turns(start, east, south, (turns - 1) as nat);
        carve_step(carve_step(before, east[turns - 1] as int, true), south[turns - 1] as int, false)
    }
}

/// The grid for `width` by `height` rooms after carving in the given order.
pub open spec fn carved_grid(width: int, height: int, east: Seq<usize>, south: Seq<usize>) -> Grid {
    let columns = 2 * width - 1;
    let rows = 2 * height - 1;
    carve_turns(
        state(fresh_grid(columns, rows), singletons((columns * rows) as nat)),
        east,
        south,
        east.len(),
    ).grid
}

/// The forest has `a` and `b` in one set.
pub open spec fn same_set(g: Grid, roots: Seq<int>, a: Cell, b: Cell) -> bool {
    roots[g.index(a.0, a.1)] == roots[g.index(b.0, b.1)]
}

/// Cells that the forest has in one set are connected in the grid.
pub open spec fn linked(g: Grid, roots: Seq<int>) -> bool {
    forall|a: Cell, b: Cell|
        g.contains(a.0, a.1) && g.contains(b.0, b.1) && #[trigger] same_set(g, roots, a, b)
            ==> g.joined(a, b)
}

/// Passable neighbours are in one set of the forest.
pub open spec fn neighbours_joined(g: Grid, roots: Seq<int>) -> bool {
    forall|a: Cell, b: Cell|
        g.passable(a.0, a.1) && g.passable(b.0, b.1) && adjacent(a, b) ==> #[trigger] same_set(
            g,
            roots,
            a,
            b,
        )
}

/// Place `i` is a set of its own.
pub open spec fn alone(roots: Seq<int>, i: int) -> bool {
    &&& roots[i] == i
    &&& forall|j: int| 0 <= j < roots.len() && #[trigger] roots[j] == i ==> j == i
}

/// Every wall is a set of its own.
pub open spec fn walls_alone(g: Grid, roots: Seq<int>) -> bool {
    forall|i: int|
        0 <= i < g.cells.len() && g.cells[i] == MazeSpace::Wall ==> #[trigger] alone(roots, i)
}

/// What holds between the grid and the forest while passages are carved.
pub open spec fn carving(g: Grid, roots: Seq<int>) -> bool {
    &&& g.is_lattice()
    &&& g.is_acyclic()
    &&& no_goal(g)
    &&& roots.len() == g.cells.len()
    &&& is_partition(roots)
    &&& walls_alone(g, roots)
    &&& linked(g, roots)
    &&& neighbours_joined(g, roots)
    &&& num_sets(roots) + 2 * open_passages(g) == g.cells.len()
}

/// A merge keeps together what was together.
pub open spec fn keeps_together(before: Seq<int>, after: Seq<int>) -> bool {
    &&& after.len() == before.len()
    &&& forall|i: int, j: int|
        0 <= i < before.len() && 0 <= j < before.len() && before[i] == before[j] ==> #[trigger] after[i]
            == #[trigger] after[j]
}

/// The rooms to the right of and below room `(x, y)`, where there are any,
/// are in its set.
pub open spec fn chained(g: Grid, roots: Seq<int>, x: int, y: int) -> bool {
    &&& x + 2 < g.width ==> same_set(g, roots, (x, y), (x + 2, y))
    &&& y + 2 < g.height ==> same_set(g, roots, (x, y), (x, y + 2))
}

/// Every room is in one set with its right and its lower neighbour room.
pub open spec fn rooms_chained(g: Grid, roots: Seq<int>) -> bool {
    forall|x: int, y: int| g.is_room(x, y) ==> #[trigger] chained(g, roots, x, y)
}

/// The candidate passage of room place `index` has been dealt with: where
/// there is a room in that direction, it is in the set of this one.
pub open spec fn settled(g: Grid, roots: Seq<int>, index: int, is_east: bool) -> bool {
    let x = index % g.width;
    let y = index / g.width;
    if is_east {
        x + 2 < g.width ==> same_set(g, roots, (x, y), (x + 2, y))
    } else {
        y + 2 < g.height ==> same_set(g, roots, (x, y), (x, y + 2))
    }
}

/// A merge never parts two elements.
pub proof fn lemma_merged_keeps_together(roots: Seq<int>, a: int, b: int)
    ensures
        keeps_together(roots, merged(roots, a, b)),
{
}

/// What two merges in a row keep together.
pub proof fn lemma_keeps_together_trans(r0: Seq<int>, r1: Seq<int>, r2: Seq<int>)
    requires
        keeps_together(r0, r1),
        keeps_together(r1, r2),
    ensures
        keeps_together(r0, r2),
{
    assert forall|i: int, j: int|
        0 <= i < r0.len() && 0 <= j < r0.len() && r0[i] == r0[j] implies #[trigger] r2[i]
        == #[trigger] r2[j] by {
        assert(r1[i] == r1[j]);
    }
}

/// A merge puts its two elements into one set.
pub proof fn lemma_merged_joins(roots: Seq<int>, a: int, b: int)
    requires
        is_partition(roots),
        0 <= a < roots.len(),
        0 <= b < roots.len(),
    ensures
        merged(roots, a, b)[a] == merged(roots, a, b)[b],
{
    assert(roots[roots[a]] == roots[a]);
    assert(roots[roots[b]] == roots[b]);
}

/// Merging the sets of two connected cells keeps every set connected.
pub proof fn lemma_union_linked(g: Grid, roots: Seq<int>, a: Cell, b: Cell)
    requires
        g.wf(),
        roots.len() == g.cells.len(),
        g.contains(a.0, a.1),
        g.contains(b.0, b.1),
        linked(g, roots),
        g.joined(a, b),
    ensures
        linked(g, merged(roots, g.index(a.0, a.1), g.index(b.0, b.1))),
{
    let ia = g.index(a.0, a.1);
    let ib = g.index(b.0, b.1);
    let after = merged(roots, ia, ib);
    lemma_index_bounds(g, a.0, a.1);
    lemma_index_bounds(g, b.0, b.1);
    assert forall|c: Cell, d: Cell|
        g.contains(c.0, c.1) && g.contains(d.0, d.1) && #[trigger] same_set(
            g,
            after,
            c,
            d,
        ) implies g.joined(c, d) by {
        lemma_index_bounds(g, c.0, c.1);
        lemma_index_bounds(g, d.0, d.1);
        let ic = g.index(c.0, c.1);
        let id = g.index(d.0, d.1);
        if roots[ic] == roots[id] {
            assert(same_set(g, roots, c, d));
        } else if roots[ic] == roots[ia] {
            assert(roots[id] == roots[ib]);
            assert(same_set(g, roots, c, a));
            assert(same_set(g, roots, b, d));
            lemma_joined_trans(g, c, a, b);
            lemma_joined_trans(g, c, b, d);
        } else {
            assert(roots[ic] == roots[ib]);
            assert(roots[id] == roots[ia]);
            assert(same_set(g, roots, d, a));
            assert(same_set(g, roots, b, c));
            lemma_joined_trans(g, d, a, b);
            lemma_joined_trans(g, d, b, c);
            lemma_joined_sym(g, d, c);
        }
    }
}

/// Merging the sets of two cells that are no walls leaves every wall alone.
pub proof fn lemma_union_walls_alone(g: Grid, roots: Seq<int>, ia: int, ib: int)
    requires
        roots.len() == g.cells.len(),
        walls_alone(g, roots),
        0 <= ia < roots.len(),
        0 <= ib < roots.len(),
        g.cells[ia] != MazeSpace::Wall,
        g.cells[ib] != MazeSpace::Wall,
    ensures
        walls_alone(g, merged(roots, ia, ib)),
{
    let after = merged(roots, ia, ib);
    assert forall|i: int| 0 <= i < g.cells.len() && g.cells[i] == MazeSpace::Wall implies #[trigger] alone(
        after,
        i,
    ) by {
        assert(alone(roots, i));
        assert(roots[ia] != i);
        assert(roots[ib] != i);
        assert forall|j: int| 0 <= j < after.len() && #[trigger] after[j] == i implies j == i by {
            assert(roots[j] == i);
        }
    }
}

/// What was settled stays settled when sets are merged.
pub proof fn lemma_settled_kept(
    g: Grid,
    wider: Grid,
    before: Seq<int>,
    after: Seq<int>,
    index: int,
    is_east: bool,
)
    requires
        g.wf(),
        wider.width == g.width,
        wider.height == g.height,
        before.len() == g.cells.len(),
        0 <= index < g.cells.len(),
        keeps_together(before, after),
        settled(g, before, index, is_east),
    ensures
        settled(wider, after, index, is_east),
{
    lemma_index_of_place(g, index);
    let x = index % g.width;
    let y = index / g.width;
    if is_east && x + 2 < g.width {
        lemma_index_bounds(g, x + 2, y);
        assert(after[g.index(x, y)] == after[g.index(x + 2, y)]);
    }
    if !is_east && y + 2 < g.height {
        lemma_index_bounds(g, x, y + 2);
        assert(after[g.index(x, y)] == after[g.index(x, y + 2)]);
    }
}

proof fn lemma_opened_open_passages_below(g: Grid, i: int, k: nat)
    requires
        0 <= i < g.cells.len(),
        k <= g.cells.len(),
        g.cells[i] == MazeSpace::Wall,
        !is_room_place(g.width, i),
    ensures
        open_passages_below(opened(g, i), k) == open_passages_below(g, k) + if i < k { 1nat } else { 0nat },
    decreases k,
{
    if k > 0 {
        lemma_opened_open_passages_below(g, i, (k - 1) as nat);
    }
}

/// Opening a passage that was a wall keeps what carving needs of the grid
/// alone, and adds one opened passage.
pub proof fn lemma_open_passage(g: Grid, roots: Seq<int>, x: int, y: int)
    requires
        g.is_lattice(),
        no_goal(g),
        roots.len() == g.cells.len(),
        walls_alone(g, roots),
        linked(g, roots),
        g.is_passage(x, y),
        g.at(x, y) == MazeSpace::Wall,
    ensures
        opened(g, g.index(x, y)).is_lattice(),
        no_goal(opened(g, g.index(x, y))),
        walls_alone(opened(g, g.index(x, y)), roots),
        linked(opened(g, g.index(x, y)), roots),
        opens_more(g, opened(g, g.index(x, y))),
        open_passages(opened(g, g.index(x, y))) == open_passages(g) + 1,
        opened(g, g.index(x, y)).passable(x, y),
{
    let i = g.index(x, y);
    let wider = opened(g, i);
    lemma_index_bounds(g, x, y);
    lemma_index_of_place(g, i);
    lemma_index_injective(g, i % g.width, i / g.width, x, y);
    lemma_opened_open_passages_below(g, i, g.cells.len());
    assert forall|cx: int, cy: int| wider.contains(cx, cy) implies #[trigger] wider.lattice_cell(
        cx,
        cy,
    ) by {
        assert(g.lattice_cell(cx, cy));
        lemma_index_bounds(g, cx, cy);
        if g.index(cx, cy) == i {
            lemma_index_injective(g, cx, cy, x, y);
        }
    }
    assert forall|k: int| 0 <= k < wider.cells.len() && wider.cells[k]
        == MazeSpace::Wall implies #[trigger] alone(roots, k) by {
        assert(g.cells[k] == MazeSpace::Wall);
        assert(alone(roots, k));
    }
    assert forall|a: Cell, b: Cell|
        wider.contains(a.0, a.1) && wider.contains(b.0, b.1) && #[trigger] same_set(
            wider,
            roots,
            a,
            b,
        ) implies wider.joined(a, b) by {
        assert(same_set(g, roots, a, b));
        if a != b {
            lemma_connected_survives(g, wider, a, b);
        }
    }
}

/// After a passage between two rooms is opened and the three cells are in
/// one set, passable neighbours are in one set again.
pub proof fn lemma_carve_neighbours(
    g: Grid,
    before: Seq<int>,
    after: Seq<int>,
    near: Cell,
    mid: Cell,
    far: Cell,
)
    requires
        g.is_lattice(),
        before.len() == g.cells.len(),
        g.is_room(near.0, near.1),
        g.is_room(far.0, far.1),
        g.is_passage(mid.0, mid.1),
        adjacent(near, mid),
        adjacent(mid, far),
        near != far,
        neighbours_joined(g, before),
        keeps_together(before, after),
        same_set(g, after, near, mid),
        same_set(g, after, mid, far),
    ensures
        neighbours_joined(opened(g, g.index(mid.0, mid.1)), after),
{
    let i = g.index(mid.0, mid.1);
    let wider = opened(g, i);
    lemma_index_bounds(g, mid.0, mid.1);
    assert forall|a: Cell, b: Cell|
        wider.passable(a.0, a.1) && wider.passable(b.0, b.1) && adjacent(
            a,
            b,
        ) implies #[trigger] same_set(wider, after, a, b) by {
        lemma_index_bounds(g, a.0, a.1);
        lemma_index_bounds(g, b.0, b.1);
        assert(g.lattice_cell(a.0, a.1));
        assert(g.lattice_cell(b.0, b.1));
        if a == mid {
            if g.index(b.0, b.1) == i {
                lemma_index_injective(g, b.0, b.1, mid.0, mid.1);
            }
            assert(b == near || b == far);
        } else if b == mid {
            if g.index(a.0, a.1) == i {
                lemma_index_injective(g, a.0, a.1, mid.0, mid.1);
            }
            assert(a == near || a == far);
        } else {
            if g.index(a.0, a.1) == i {
                lemma_index_injective(g, a.0, a.1, mid.0, mid.1);
            }
            if g.index(b.0, b.1) == i {
                lemma_index_injective(g, b.0, b.1, mid.0, mid.1);
            }
            assert(same_set(g, before, a, b));
            assert(after[g.index(a.0, a.1)] == after[g.index(b.0, b.1)]);
        }
    }
}

/// All cells of a path are in one set.
pub proof fn lemma_path_same_set(g: Grid, roots: Seq<int>, p: Seq<Cell>, i: int, j: int)
    requires
        neighbours_joined(g, roots),
        g.is_path(p),
        0 <= i <= j < p.len(),
    ensures
        same_set(g, roots, p[i], p[j]),
    decreases j - i,
{
    if i < j {
        lemma_path_same_set(g, roots, p, i, j - 1);
        assert(step_ok(p, j - 1));
        assert(g.passable(p[j - 1].0, p[j - 1].1));
        assert(g.passable(p[j].0, p[j].1));
        assert(same_set(g, roots, p[j - 1], p[j]));
    }
}

/// A path of the grid with one place opened that keeps clear of that place
/// is a path of the grid as it was.
proof fn lemma_path_without(g: Grid, mid: Cell, p: Seq<Cell>)
    requires
        g.wf(),
        g.contains(mid.0, mid.1),
        opened(g, g.index(mid.0, mid.1)).is_path(p),
        !p.contains(mid),
    ensures
        g.is_path(p),
{
    let wider = opened(g, g.index(mid.0, mid.1));
    lemma_index_bounds(g, mid.0, mid.1);
    assert forall|k: int| 0 <= k < p.len() implies g.passable((#[trigger] p[k]).0, p[k].1) by {
        assert(wider.passable(p[k].0, p[k].1));
        lemma_index_bounds(g, p[k].0, p[k].1);
        if g.index(p[k].0, p[k].1) == g.index(mid.0, mid.1) {
            lemma_index_injective(g, p[k].0, p[k].1, mid.0, mid.1);
        }
    }
    assert forall|k: int| 0 <= k < p.len() - 1 implies #[trigger] step_ok(p, k) by {
        assert(step_ok(p, k));
    }
}

/// A cycle through a passage that was opened between two rooms goes round
/// from one room to the other on cells that were passable before, so the two
/// rooms were in one set.
proof fn lemma_cycle_joins_rooms(
    g: Grid,
    roots: Seq<int>,
    near: Cell,
    mid: Cell,
    far: Cell,
    p: Seq<Cell>,
    k: int,
)
    requires
        g.is_lattice(),
        neighbours_joined(g, roots),
        g.is_room(near.0, near.1),
        g.is_room(far.0, far.1),
        g.is_passage(mid.0, mid.1),
        adjacent(near, mid),
        adjacent(mid, far),
        near != far,
        opened(g, g.index(mid.0, mid.1)).is_path(p),
        p.no_duplicates(),
        p.len() >= 3,
        adjacent(p.last(), p[0]),
        0 <= k < p.len(),
        p[k] == mid,
    ensures
        same_set(g, roots, near, far),
{
    let wider = opened(g, g.index(mid.0, mid.1));
    let n = p.len() as int;
    let head = p.subrange(k + 1, n);
    let tail = p.subrange(0, k);
    let q = head + tail;
    lemma_index_bounds(g, mid.0, mid.1);
    assert(q.len() == n - 1);
    assert forall|j: int| 0 <= j < q.len() implies g.passable((#[trigger] q[j]).0, q[j].1) by {
        let m = if j < n - k - 1 {
            k + 1 + j
        } else {
            j - (n - k - 1)
        };
        assert(q[j] == p[m]);
        assert(p[m] != p[k]);
        assert(wider.passable(p[m].0, p[m].1));
        lemma_index_bounds(g, p[m].0, p[m].1);
        if g.index(p[m].0, p[m].1) == g.index(mid.0, mid.1) {
            lemma_index_injective(g, p[m].0, p[m].1, mid.0, mid.1);
        }
    }
    assert forall|j: int| 0 <= j < q.len() - 1 implies #[trigger] step_ok(q, j) by {
        if j < n - k - 2 {
            assert(step_ok(p, k + 1 + j));
        } else if j == n - k - 2 {
            assert(q[j] == p[n - 1]);
            assert(q[j + 1] == p[0]);
        } else {
            assert(step_ok(p, j - (n - k - 1)));
        }
    }
    assert(g.is_path(q));
    let succ = q[0];
    let pred = q[q.len() - 1];
    if k < n - 1 {
        assert(succ == p[k + 1]);
        assert(step_ok(p, k));
    } else {
        assert(succ == p[0]);
    }
    if k > 0 {
        assert(pred == p[k - 1]);
        assert(step_ok(p, k - 1));
    } else {
        assert(pred == p[n - 1]);
    }
    assert(adjacent(mid, succ));
    assert(adjacent(pred, mid));
    assert(g.passable(succ.0, succ.1));
    assert(g.passable(pred.0, pred.1));
    assert(g.lattice_cell(succ.0, succ.1));
    assert(g.lattice_cell(pred.0, pred.1));
    assert(succ != pred);
    assert(succ == near || succ == far);
    assert(pred == near || pred == far);
    lemma_path_same_set(g, roots, q, 0, q.len() - 1);
}

/// Opening the passage between two rooms of different sets makes no cycle.
pub proof fn lemma_open_keeps_acyclic(g: Grid, roots: Seq<int>, near: Cell, mid: Cell, far: Cell)
    requires
        g.is_lattice(),
        g.is_acyclic(),
        neighbours_joined(g, roots),
        g.is_room(near.0, near.1),
        g.is_room(far.0, far.1),
        g.is_passage(mid.0, mid.1),
        adjacent(near, mid),
        adjacent(mid, far),
        near != far,
        !same_set(g, roots, near, far),
    ensures
        opened(g, g.index(mid.0, mid.1)).is_acyclic(),
{
    let wider = opened(g, g.index(mid.0, mid.1));
    assert forall|p: Seq<Cell>|
        #[trigger] wider.is_path(p) && p.no_duplicates() && p.len() >= 3 implies !adjacent(
        p.last(),
        p[0],
    ) by {
        if adjacent(p.last(), p[0]) {
            if p.contains(mid) {
                let k = choose|k: int| 0 <= k < p.len() && p[k] == mid;
                lemma_cycle_joins_rooms(g, roots, near, mid, far, p, k);
            } else {
                lemma_path_without(g, mid, p);
            }
        }
    }
}

proof fn lemma_fresh_open_passages_below(g: Grid, k: nat)
    requires
        is_fresh(g),
        k <= g.cells.len(),
    ensures
        open_passages_below(g, k) == 0,
    decreases k,
{
    if k > 0 {
        lemma_fresh_open_passages_below(g, (k - 1) as nat);
        assert(g.cells[k - 1] == if is_room_place(g.width, k - 1) {
            MazeSpace::Open
        } else {
            MazeSpace::Wall
        });
    }
}

/// Opening the passage between two neighbour rooms of different sets and
/// merging the sets of the three cells keeps what carving needs.
pub proof fn lemma_carve_step(g: Grid, roots: Seq<int>, near: Cell, mid: Cell, far: Cell)
    requires
        carving(g, roots),
        g.is_room(near.0, near.1),
        g.is_room(far.0, far.1),
        g.is_passage(mid.0, mid.1),
        adjacent(near, mid),
        adjacent(mid, far),
        near != far,
        !same_set(g, roots, near, far),
    ensures
        g.at(mid.0, mid.1) == MazeSpace::Wall,
        ({
            let first = merged(roots, g.index(near.0, near.1), g.index(mid.0, mid.1));
            let second = merged(first, g.index(near.0, near.1), g.index(far.0, far.1));
            &&& first.len() == roots.len()
            &&& second.len() == roots.len()
            &&& carving(opened(g, g.index(mid.0, mid.1)), second)
            &&& keeps_together(roots, second)
            &&& same_set(g, second, near, far)
        }),
{
    let i_near = g.index(near.0, near.1);
    let i_mid = g.index(mid.0, mid.1);
    let i_far = g.index(far.0, far.1);
    let first = merged(roots, i_near, i_mid);
    let second = merged(first, i_near, i_far);
    let wider = opened(g, i_mid);
    lemma_index_bounds(g, near.0, near.1);
    lemma_index_bounds(g, mid.0, mid.1);
    lemma_index_bounds(g, far.0, far.1);
    assert(g.lattice_cell(near.0, near.1));
    assert(g.lattice_cell(far.0, far.1));
    if g.at(mid.0, mid.1) != MazeSpace::Wall {
        assert(g.cells[i_mid] != MazeSpace::Goal);
        assert(same_set(g, roots, near, mid));
        assert(same_set(g, roots, mid, far));
    }
    assert(alone(roots, i_mid));
    lemma_open_passage(g, roots, mid.0, mid.1);
    lemma_open_keeps_acyclic(g, roots, near, mid, far);
    lemma_connected_step(wider, near, mid);
    lemma_connected_step(wider, mid, far);
    lemma_connected_trans(wider, near, mid, far);

    lemma_union_linked(wider, roots, near, mid);
    lemma_union_walls_alone(wider, roots, i_near, i_mid);
    lemma_merged_partition(roots, i_near, i_mid);
    lemma_merged_joins(roots, i_near, i_mid);
    lemma_merged_keeps_together(roots, i_near, i_mid);

    lemma_union_linked(wider, first, near, far);
    lemma_union_walls_alone(wider, first, i_near, i_far);
    lemma_merged_partition(first, i_near, i_far);
    lemma_merged_joins(first, i_near, i_far);
    lemma_merged_keeps_together(first, i_near, i_far);

    lemma_keeps_together_trans(roots, first, second);
    assert(second[i_near] == second[i_mid]);
    lemma_carve_neighbours(g, roots, second, near, mid, far);
}

/// The fresh lattice has no cycle: no two of its passable cells are
/// neighbours.
pub proof fn lemma_fresh_acyclic(g: Grid)
    requires
        is_fresh(g),
    ensures
        g.is_acyclic(),
{
    assert forall|p: Seq<Cell>|
        #[trigger] g.is_path(p) && p.no_duplicates() && p.len() >= 3 implies !adjacent(
        p.last(),
        p[0],
    ) by {
        assert(step_ok(p, 0));
        assert(g.passable(p[0].0, p[0].1));
        assert(g.passable(p[1].0, p[1].1));
        lemma_place_of_cell(g, p[0].0, p[0].1);
        lemma_place_of_cell(g, p[1].0, p[1].1);
        assert(g.cells[g.index(p[0].0, p[0].1)] == g.at(p[0].0, p[0].1));
        assert(g.cells[g.index(p[1].0, p[1].1)] == g.at(p[1].0, p[1].1));
    }
}

/// Carving may begin on the fresh lattice with every cell in a set of its
/// own.
pub proof fn lemma_fresh_carving(g: Grid)
    requires
        is_fresh(g),
    ensures
        carving(g, singletons(g.cells.len())),
{
    let roots = singletons(g.cells.len());
    lemma_singletons_partition(g.cells.len());
    lemma_fresh_acyclic(g);
    lemma_fresh_open_passages_below(g, g.cells.len());
    assert forall|x: int, y: int| g.contains(x, y) implies #[trigger] g.lattice_cell(x, y) by {
        lemma_place_of_cell(g, x, y);
        assert(g.cells[g.index(x, y)] == g.at(x, y));
    }
    assert forall|a: Cell, b: Cell|
        g.contains(a.0, a.1) && g.contains(b.0, b.1) && #[trigger] same_set(
            g,
            roots,
            a,
            b,
        ) implies g.joined(a, b) by {
        lemma_index_bounds(g, a.0, a.1);
        lemma_index_bounds(g, b.0, b.1);
        lemma_index_injective(g, a.0, a.1, b.0, b.1);
    }
    assert forall|a: Cell, b: Cell|
        g.passable(a.0, a.1) && g.passable(b.0, b.1) && adjacent(a, b) implies #[trigger] same_set(
            g,
            roots,
            a,
            b,
        ) by {
        lemma_place_of_cell(g, a.0, a.1);
        lemma_place_of_cell(g, b.0, b.1);
        assert(g.cells[g.index(a.0, a.1)] == g.at(a.0, a.1));
        assert(g.cells[g.index(b.0, b.1)] == g.at(b.0, b.1));
    }
    assert forall|i: int| 0 <= i < g.cells.len() implies #[trigger] g.cells[i]
        != MazeSpace::Goal by {
        assert(g.cells[i] == if is_room_place(g.width, i) {
            MazeSpace::Open
        } else {
            MazeSpace::Wall
        });
    }
}

proof fn lemma_room_in_origin_set(g: Grid, roots: Seq<int>, x: int, y: int)
    requires
        g.wf(),
        rooms_chained(g, roots),
        g.is_room(x, y),
    ensures
        same_set(g, roots, (0, 0), (x, y)),
    decreases x + y,
{
    if y >= 2 {
        lemma_room_in_origin_set(g, roots, x, y - 2);
        assert(chained(g, roots, x, y - 2));
    } else if x >= 2 {
        lemma_room_in_origin_set(g, roots, x - 2, y);
        assert(chained(g, roots, x - 2, y));
    }
}

/// Once every room is chained to its neighbour rooms, every passable cell is
/// in the set of the origin.
pub proof fn lemma_passable_in_origin_set(g: Grid, roots: Seq<int>, x: int, y: int)
    requires
        g.is_lattice(),
        rooms_chained(g, roots),
        neighbours_joined(g, roots),
        g.passable(x, y),
    ensures
        same_set(g, roots, (0, 0), (x, y)),
{
    assert(g.lattice_cell(x, y));
    if x % 2 == 0 && y % 2 == 0 {
        lemma_room_in_origin_set(g, roots, x, y);
    } else if x % 2 == 1 {
        assert(g.lattice_cell(x - 1, y));
        lemma_room_in_origin_set(g, roots, x - 1, y);
        assert(same_set(g, roots, (x - 1, y), (x, y)));
    } else {
        assert(g.lattice_cell(x, y - 1));
        lemma_room_in_origin_set(g, roots, x, y - 1);
        assert(same_set(g, roots, (x, y - 1), (x, y)));
    }
}

/// Number of walls among the places below `k`.
pub open spec fn walls_below(cells: Seq<MazeSpace>, k: nat) -> nat
    decreases k,
{
    if k == 0 {
        0
    } else {
        walls_below(cells, (k - 1) as nat) + if cells[k - 1] == MazeSpace::Wall {
            1nat
        } else {
            0nat
        }
    }
}

proof fn lemma_roots_below_spanning(cells: Seq<MazeSpace>, roots: Seq<int>, top: int, k: nat)
    requires
        roots.len() == cells.len(),
        k <= cells.len(),
        0 <= top < cells.len(),
        cells[top] != MazeSpace::Wall,
        roots[top] == top,
        forall|i: int|
            0 <= i < cells.len() ==> #[trigger] roots[i] == if cells[i] == MazeSpace::Wall {
                i
            } else {
                top
            },
    ensures
        roots_below(roots, k) == walls_below(cells, k) + if top < k { 1nat } else { 0nat },
    decreases k,
{
    if k > 0 {
        lemma_roots_below_spanning(cells, roots, top, (k - 1) as nat);
        assert(roots[k - 1] == if cells[k - 1] == MazeSpace::Wall {
            k - 1
        } else {
            top
        });
    }
}

proof fn lemma_places_split(g: Grid, k: nat)
    requires
        g.is_lattice(),
        no_goal(g),
        k <= g.cells.len(),
    ensures
        k == walls_below(g.cells, k) + room_places(g.width, k).len() + open_passages_below(g, k),
    decreases k,
{
    if k > 0 {
        lemma_places_split(g, (k - 1) as nat);
        let i = k - 1;
        lemma_index_of_place(g, i);
        assert(g.lattice_cell(i % g.width, i / g.width));
        assert(g.at(i % g.width, i / g.width) == g.cells[i]);
    }
}

/// When carving has chained every room to its neighbour rooms, the opened
/// passages are one fewer than the rooms, and every room is connected to the
/// origin.
pub proof fn lemma_spanning(g: Grid, roots: Seq<int>)
    requires
        carving(g, roots),
        rooms_chained(g, roots),
    ensures
        open_passages(g) + 1 == room_places(g.width, g.cells.len()).len(),
        forall|x: int, y: int| g.passable(x, y) ==> #[trigger] g.connected((0, 0), (x, y)),
{
    let origin: Cell = (0, 0);
    assert(g.lattice_cell(0, 0));
    lemma_index_bounds(g, 0, 0);
    assert(g.index(0, 0) == 0) by (nonlinear_arith)
        requires
            g.index(0, 0) == 0 + 0 * g.width,
    ;
    assert(g.passable(0, 0));
    assert forall|x: int, y: int| g.passable(x, y) implies #[trigger] g.connected((0, 0), (x, y)) by {
        lemma_passable_in_origin_set(g, roots, x, y);
        assert(g.joined(origin, (x, y)));
        if (x, y) == origin {
            lemma_connected_self(g, origin);
        }
    }
    let top = roots[0];
    assert(0 <= top < roots.len() && roots[top] == top);
    if g.cells[top] == MazeSpace::Wall {
        assert(alone(roots, top));
    }
    assert forall|i: int| 0 <= i < g.cells.len() implies #[trigger] roots[i] == if g.cells[i]
        == MazeSpace::Wall {
        i
    } else {
        top
    } by {
        if g.cells[i] == MazeSpace::Wall {
            assert(alone(roots, i));
        } else {
            lemma_index_of_place(g, i);
            lemma_passable_in_origin_set(g, roots, i % g.width, i / g.width);
        }
    }
    lemma_roots_below_spanning(g.cells, roots, top, g.cells.len());
    lemma_places_split(g, g.cells.len());
}

/// In a lattice without a cycle the goal choice is a room: a trail that ends
/// on a passage goes on to the room behind it.
pub proof fn lemma_goal_is_room(g: Grid, best: Candidate)
    requires
        g.is_lattice(),
        g.is_acyclic(),
        g.is_goal_choice(best),
    ensures
        g.is_room(best.x, best.y),
{
    let t = choose|t: Seq<Cell>| g.is_trail(t) && #[trigger] candidate_of(t) == best;
    let n = t.len() as int;
    let last = t[n - 1];
    assert(g.passable(last.0, last.1));
    assert(g.lattice_cell(last.0, last.1));
    if !(last.0 % 2 == 0 && last.1 % 2 == 0) {
        let one: Cell = if last.0 % 2 == 1 {
            (last.0 - 1, last.1)
        } else {
            (last.0, last.1 - 1)
        };
        let two: Cell = if last.0 % 2 == 1 {
            (last.0 + 1, last.1)
        } else {
            (last.0, last.1 + 1)
        };
        assert(g.lattice_cell(one.0, one.1));
        assert(g.lattice_cell(two.0, two.1));
        assert(g.passable(one.0, one.1));
        assert(g.passable(two.0, two.1));
        assert(n >= 2);
        let prev = t[n - 2];
        assert(step_ok(t, n - 2));
        assert(g.passable(prev.0, prev.1));
        assert(g.lattice_cell(prev.0, prev.1));
        assert(prev == one || prev == two);
        let other = if prev == one {
            two
        } else {
            one
        };
        if t.contains(other) {
            let k = choose|k: int| 0 <= k < t.len() && t[k] == other;
            assert(k != n - 1 && k != n - 2);
            let s = t.subrange(k, n);
            assert forall|j: int| 0 <= j < s.len() implies g.passable((#[trigger] s[j]).0, s[j].1) by {
                assert(g.passable(t[k + j].0, t[k + j].1));
            }
            assert forall|j: int| 0 <= j < s.len() - 1 implies #[trigger] step_ok(s, j) by {
                assert(step_ok(t, k + j));
            }
            assert(g.is_path(s));
            assert(s.no_duplicates());
            assert(s[s.len() - 1] == last && s[0] == other);
        } else {
            let longer = t.push(other);
            assert forall|j: int| 0 <= j < longer.len() implies g.passable(
                (#[trigger] longer[j]).0,
                longer[j].1,
            ) by {
                if j < n {
                    assert(g.passable(t[j].0, t[j].1));
                }
            }
            assert forall|j: int| 0 <= j < longer.len() - 1 implies #[trigger] step_ok(longer, j) by {
                if j < n - 1 {
                    assert(step_ok(t, j));
                }
            }
            assert(g.is_trail(longer));
            assert(beats(candidate_of(longer), best));
        }
    }
}

proof fn lemma_with_goal_open_passages_below(g: Grid, goal: Cell, k: nat)
    requires
        g.wf(),
        g.is_room(goal.0, goal.1),
        k <= g.cells.len(),
    ensures
        open_passages_below(with_goal(g, goal), k) == open_passages_below(g, k),
    decreases k,
{
    if k > 0 {
        lemma_with_goal_open_passages_below(g, goal, (k - 1) as nat);
        lemma_place_of_cell(g, goal.0, goal.1);
    }
}

/// The goal choice of a carved lattice is a room, and marking it changes
/// neither what is passable nor which candidate is the goal choice, and
/// leaves exactly that cell marked.
pub proof fn lemma_goal_marked(g: Grid, best: Candidate)
    requires
        g.is_lattice(),
        g.is_acyclic(),
        no_goal(g),
        g.is_goal_choice(best),
    ensures
        g.is_room(best.x, best.y),
        with_goal(g, (best.x, best.y)).is_lattice(),
        with_goal(g, (best.x, best.y)).is_acyclic(),
        with_goal(g, (best.x, best.y)).is_goal_choice(best),
        open_passages(with_goal(g, (best.x, best.y))) == open_passages(g),
        forall|x: int, y: int|
            g.passable(x, y) <==> #[trigger] with_goal(g, (best.x, best.y)).passable(x, y),
        forall|a: Cell, b: Cell|
            g.connected(a, b) ==> #[trigger] with_goal(g, (best.x, best.y)).connected(a, b),
        forall|x: int, y: int|
            g.contains(x, y) ==> (#[trigger] with_goal(g, (best.x, best.y)).at(x, y)
                == MazeSpace::Goal <==> x == best.x && y == best.y),
{
    let goal: Cell = (best.x, best.y);
    let marked = with_goal(g, goal);
    let witness = choose|t: Seq<Cell>| g.is_trail(t) && #[trigger] candidate_of(t) == best;
    assert(g.passable(witness[witness.len() - 1].0, witness[witness.len() - 1].1));
    lemma_goal_is_room(g, best);
    lemma_index_bounds(g, goal.0, goal.1);
    lemma_with_goal_open_passages_below(g, goal, g.cells.len());
    assert forall|x: int, y: int| g.contains(x, y) implies (#[trigger] marked.at(x, y)
        == MazeSpace::Goal <==> x == best.x && y == best.y) by {
        lemma_index_bounds(g, x, y);
        if g.index(x, y) == g.index(goal.0, goal.1) {
            lemma_index_injective(g, x, y, goal.0, goal.1);
        }
        assert(g.cells[g.index(x, y)] != MazeSpace::Goal);
    }
    assert forall|x: int, y: int| g.passable(x, y) <==> #[trigger] marked.passable(x, y) by {
        if g.contains(x, y) {
            lemma_index_bounds(g, x, y);
            if g.index(x, y) == g.index(goal.0, goal.1) {
                lemma_index_injective(g, x, y, goal.0, goal.1);
            }
        }
    }
    assert forall|x: int, y: int| marked.contains(x, y) implies #[trigger] marked.lattice_cell(
        x,
        y,
    ) by {
        assert(g.lattice_cell(x, y));
        assert(g.passable(x, y) <==> marked.passable(x, y));
    }
    assert(opens_more(g, marked));
    assert(opens_more(marked, g)) by {
        assert forall|i: int| 0 <= i < marked.cells.len() && marked.cells[i]
            != MazeSpace::Wall implies #[trigger] g.cells[i] != MazeSpace::Wall by {}
    }
    assert forall|a: Cell, b: Cell| g.connected(a, b) implies #[trigger] marked.connected(a, b) by {
        lemma_connected_survives(g, marked, a, b);
    }
    assert(marked.is_trail(witness)) by {
        lemma_path_survives(g, marked, witness);
    }
    assert forall|p: Seq<Cell>|
        #[trigger] marked.is_path(p) && p.no_duplicates() && p.len() >= 3 implies !adjacent(
        p.last(),
        p[0],
    ) by {
        lemma_path_survives(marked, g, p);
    }
    assert forall|t: Seq<Cell>| marked.is_trail(t) implies !beats(#[trigger] candidate_of(t), best) by {
        lemma_path_survives(marked, g, t);
        assert(g.is_trail(t));
    }
}

} // verus!
