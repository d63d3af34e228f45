//! The mathematical model of a maze grid: cells addressed by coordinates,
//! paths through passable cells, and the order in which goal candidates are
//! ranked.

use vstd::prelude::*;

verus! {

/// State of one cell of the grid.
#[derive(Copy, Clone, PartialEq, Eq, Structural, Debug)]
pub enum MazeSpace {
    Open,
    Wall,
    Goal,
}

/// A cell position: column, then row.
pub type Cell = (int, int);

/// A rectangle of cells, stored row by row.
pub struct Grid {
    pub width: int,
    pub height: int,
    pub cells: Seq<MazeSpace>,
}

/// Two cells share an edge.
pub open spec fn adjacent(a: Cell, b: Cell) -> bool {
    ||| a.1 == b.1 && (a.0 == b.0 + 1 || b.0 == a.0 + 1)
    ||| a.0 == b.0 && (a.1 == b.1 + 1 || b.1 == a.1 + 1)
}

/// Cell `k + 1` of `p` is a neighbour of cell `k`.
pub open spec fn step_ok(p: Seq<Cell>, k: int) -> bool {
    adjacent(p[k], p[k + 1])
}

/// A goal candidate: a cell and the number of steps of a trail that ends
/// there.
pub struct Candidate {
    pub distance: int,
    pub x: int,
    pub y: int,
}

/// `a` is preferred to `b`: it is farther, or as far and lower down, or as
/// far and as low and more to the left.
pub open spec fn beats(a: Candidate, b: Candidate) -> bool {
    ||| a.distance > b.distance
    ||| a.distance == b.distance && a.y > b.y
    ||| a.distance == b.distance && a.y == b.y && a.x < b.x
}

/// The candidate that the path `p` leads to.
pub open spec fn candidate_of(p: Seq<Cell>) -> Candidate {
    Candidate { distance: p.len() - 1, x: p.last().0, y: p.last().1 }
}

/// Number of `true` entries.
pub open spec fn count_true(marks: Seq<bool>) -> nat
    decreases marks.len(),
{
    if marks.len() == 0 {
        0
    } else {
        count_true(marks.drop_last()) + if marks.last() { 1nat } else { 0nat }
    }
}

impl Grid {
    /// There is at least one cell, and `cells` holds every row in full.
    pub open spec fn wf(self) -> bool {
        &&& self.width >= 1
        &&& self.height >= 1
        &&& self.cells.len() == self.width * self.height
    }

    /// `(x, y)` is a cell of the grid.
    pub open spec fn contains(self, x: int, y: int) -> bool {
        0 <= x < self.width && 0 <= y < self.height
    }

    /// Position of cell `(x, y)` in `cells`.
    pub open spec fn index(self, x: int, y: int) -> int {
        x + y * self.width
    }

    /// The state of cell `(x, y)`.
    pub open spec fn at(self, x: int, y: int) -> MazeSpace {
        self.cells[self.index(x, y)]
    }

    /// The cell lies in the grid and is no wall.
    pub open spec fn passable(self, x: int, y: int) -> bool {
        self.contains(x, y) && self.at(x, y) != MazeSpace::Wall
    }

    /// A room: a cell whose column and row are both even.
    pub open spec fn is_room(self, x: int, y: int) -> bool {
        self.contains(x, y) && x % 2 == 0 && y % 2 == 0
    }

    /// A cell between two rooms, which carving may open.
    pub open spec fn is_passage(self, x: int, y: int) -> bool {
        self.contains(x, y) && (x % 2 == 0) != (y % 2 == 0)
    }

    /// What the lattice asks of cell `(x, y)`: a room is no wall, and a cell
    /// whose column and row are both odd is a wall.
    pub open spec fn lattice_cell(self, x: int, y: int) -> bool {
        &&& x % 2 == 0 && y % 2 == 0 ==> self.at(x, y) != MazeSpace::Wall
        &&& x % 2 == 1 && y % 2 == 1 ==> self.at(x, y) == MazeSpace::Wall
    }

    /// Rooms at the even positions with walls at their corners: the grid of a
    /// maze with `(width + 1) / 2` by `(height + 1) / 2` rooms.
    pub open spec fn is_lattice(self) -> bool {
        &&& self.wf()
        &&& self.width % 2 == 1
        &&& self.height % 2 == 1
        &&& forall|x: int, y: int| self.contains(x, y) ==> #[trigger] self.lattice_cell(x, y)
    }

    /// A non-empty walk through passable cells, each a neighbour of the one
    /// before.
    pub open spec fn is_path(self, p: Seq<Cell>) -> bool {
        &&& p.len() >= 1
        &&& forall|k: int| 0 <= k < p.len() ==> self.passable((#[trigger] p[k]).0, p[k].1)
        &&& forall|k: int| 0 <= k < p.len() - 1 ==> #[trigger] step_ok(p, k)
    }

    /// A path from the origin that visits no cell twice.
    pub open spec fn is_trail(self, p: Seq<Cell>) -> bool {
        &&& self.is_path(p)
        &&& p[0] == (0int, 0int)
        &&& p.no_duplicates()
    }

    /// Some path leads from `a` to `b`.
    pub open spec fn connected(self, a: Cell, b: Cell) -> bool {
        exists|p: Seq<Cell>| self.is_path(p) && p[0] == a && #[trigger] p.last() == b
    }

    /// No cycle: a path of three or more cells that visits none twice does
    /// not end beside the cell it began with.
    pub open spec fn is_acyclic(self) -> bool {
        forall|p: Seq<Cell>|
            #[trigger] self.is_path(p) && p.no_duplicates() && p.len() >= 3 ==> !adjacent(
                p.last(),
                p[0],
            )
    }

    /// The two cells are one cell or connected.
    pub open spec fn joined(self, a: Cell, b: Cell) -> bool {
        a == b || self.connected(a, b)
    }

    /// `best` is the candidate of some trail, and no trail leads to one that
    /// beats it.
    pub open spec fn is_goal_choice(self, best: Candidate) -> bool {
        &&& exists|t: Seq<Cell>| self.is_trail(t) && #[trigger] candidate_of(t) == best
        &&& forall|t: Seq<Cell>| self.is_trail(t) ==> !beats(#[trigger] candidate_of(t), best)
    }

    /// Row `y`, from left to right.
    pub open spec fn row(self, y: int) -> Seq<MazeSpace> {
        Seq::new(self.width as nat, |x: int| self.at(x, y))
    }

    /// Column `x`, from top to bottom.
    pub open spec fn column(self, x: int) -> Seq<MazeSpace> {
        Seq::new(self.height as nat, |y: int| self.at(x, y))
    }

    /// The rows `from..height`, from top to bottom.
    pub open spec fn rows_from(self, from: int) -> Seq<Seq<MazeSpace>> {
        Seq::new((self.height - from) as nat, |k: int| self.row(from + k))
    }

    /// All rows, from top to bottom.
    pub open spec fn rows(self) -> Seq<Seq<MazeSpace>> {
        self.rows_from(0)
    }
}

/// A cell of the grid has its place in `cells`.
pub proof fn lemma_index_bounds(g: Grid, x: int, y: int)
    requires
        g.wf(),
        g.contains(x, y),
    ensures
        0 <= g.index(x, y) < g.cells.len(),
        y * g.width >= 0,
        y * g.width + g.width <= g.cells.len(),
{
    let w = g.width;
    let h = g.height;
    assert(0 <= y * w && y * w + w <= w * h) by (nonlinear_arith)
        requires
            0 <= y < h,
            w >= 1,
    ;
}

/// Different cells of the grid have different places in `cells`.
pub proof fn lemma_index_injective(g: Grid, x1: int, y1: int, x2: int, y2: int)
    requires
        g.wf(),
        g.contains(x1, y1),
        g.contains(x2, y2),
        g.index(x1, y1) == g.index(x2, y2),
    ensures
        x1 == x2,
        y1 == y2,
{
    let w = g.width;
    assert(y1 == y2) by (nonlinear_arith)
        requires
            0 <= x1 < w,
            0 <= x2 < w,
            x1 + y1 * w == x2 + y2 * w,
    ;
}

/// The places of the right and the lower neighbour.
pub proof fn lemma_index_steps(g: Grid, x: int, y: int)
    ensures
        g.index(x + 1, y) == g.index(x, y) + 1,
        g.index(x, y + 1) == g.index(x, y) + g.width,
        g.index(x + 2, y) == g.index(x, y) + 2,
        g.index(x, y + 2) == g.index(x, y) + 2 * g.width,
{
    let w = g.width;
    assert((y + 1) * w == y * w + w) by (nonlinear_arith);
    assert((y + 2) * w == y * w + 2 * w) by (nonlinear_arith);
}

/// Every place in `cells` belongs to exactly the cell that division by the
/// width gives.
pub proof fn lemma_index_of_place(g: Grid, i: int)
    requires
        g.wf(),
        0 <= i < g.cells.len(),
    ensures
        g.contains(i % g.width, i / g.width),
        g.index(i % g.width, i / g.width) == i,
{
    let w = g.width;
    let h = g.height;
    vstd::arithmetic::div_mod::lemma_fundamental_div_mod(i, w);
    vstd::arithmetic::div_mod::lemma_mod_pos_bound(i, w);
    assert(w * (i / w) == (i / w) * w) by (nonlinear_arith);
    assert(0 <= i / w < h) by (nonlinear_arith)
        requires
            0 <= i < w * h,
            w >= 1,
            i == (i / w) * w + i % w,
            0 <= i % w < w,
    ;
}

/// There are no more `true` entries than entries.
pub proof fn lemma_count_true_bound(marks: Seq<bool>)
    ensures
        count_true(marks) <= marks.len(),
    decreases marks.len(),
{
    if marks.len() > 0 {
        lemma_count_true_bound(marks.drop_last());
    }
}

/// Changing one entry changes the count by what the entry was and is.
pub proof fn lemma_count_true_update(marks: Seq<bool>, i: int, value: bool)
    requires
        0 <= i < marks.len(),
    ensures
        count_true(marks.update(i, value)) + (if marks[i] { 1nat } else { 0nat }) == count_true(
            marks,
        ) + (if value { 1nat } else { 0nat }),
    decreases marks.len(),
{
    let after = marks.update(i, value);
    if i == marks.len() - 1 {
        assert(after.drop_last() =~= marks.drop_last());
    } else {
        assert(after.drop_last() =~= marks.drop_last().update(i, value));
        lemma_count_true_update(marks.drop_last(), i, value);
    }
}

/// Where no entry is `true` the count is zero.
pub proof fn lemma_count_true_none(marks: Seq<bool>)
    requires
        forall|i: int| 0 <= i < marks.len() ==> !marks[i],
    ensures
        count_true(marks) == 0,
    decreases marks.len(),
{
    if marks.len() > 0 {
        lemma_count_true_none(marks.drop_last());
    }
}

/// Of two different candidates one beats the other, so the goal choice is
/// unique.
pub proof fn law_goal_choice_unique(g: Grid, a: Candidate, b: Candidate)
    requires
        g.is_goal_choice(a),
        g.is_goal_choice(b),
    ensures
        a == b,
{
    let ta = choose|t: Seq<Cell>| g.is_trail(t) && #[trigger] candidate_of(t) == a;
    let tb = choose|t: Seq<Cell>| g.is_trail(t) && #[trigger] candidate_of(t) == b;
    assert(!beats(candidate_of(ta), b));
    assert(!beats(candidate_of(tb), a));
}

/// The rows of a grid, one after another, are its cells in storage order.
pub proof fn law_rows_concatenate(g: Grid)
    requires
        g.wf(),
    ensures
        g.rows().flatten() == g.cells,
{
    lemma_rows_prefix(g, g.height as nat);
    assert(g.rows().take(g.height) =~= g.rows());
    assert(g.height * g.width == g.width * g.height) by (nonlinear_arith);
    assert(g.cells.take(g.height * g.width) =~= g.cells);
}

proof fn lemma_rows_prefix(g: Grid, n: nat)
    requires
        g.wf(),
        n <= g.height,
    ensures
        0 <= n * g.width <= g.cells.len(),
        g.rows().take(n as int).flatten() == g.cells.take(n * g.width),
    decreases n,
{
    let w = g.width;
    if n == 0 {
        assert(g.rows().take(0) =~= Seq::<Seq<MazeSpace>>::empty());
        assert(g.cells.take(0 * w) =~= Seq::<MazeSpace>::empty());
    } else {
        let m = (n - 1) as nat;
        lemma_rows_prefix(g, m);
        lemma_index_bounds(g, 0, m as int);
        assert(n * w == m * w + w) by (nonlinear_arith)
            requires
                n == m + 1,
        ;
        let head = g.rows().take(m as int);
        assert(g.rows().take(n as int) =~= head.push(g.row(m as int)));
        head.lemma_flatten_push(g.row(m as int));
        assert(g.cells.take(n * w) =~= g.cells.take(m * w) + g.row(m as int));
    }
}

/// A passable cell is connected to itself.
pub proof fn lemma_connected_self(g: Grid, a: Cell)
    requires
        g.passable(a.0, a.1),
    ensures
        g.connected(a, a),
{
    let p = seq![a];
    assert(g.is_path(p));
    assert(p[0] == a && p.last() == a);
}

/// Two passable neighbours are connected.
pub proof fn lemma_connected_step(g: Grid, a: Cell, b: Cell)
    requires
        g.passable(a.0, a.1),
        g.passable(b.0, b.1),
        adjacent(a, b),
    ensures
        g.connected(a, b),
{
    let p = seq![a, b];
    assert(step_ok(p, 0));
    assert(g.is_path(p));
    assert(p[0] == a && p.last() == b);
}

/// A path read backwards is a path.
pub proof fn lemma_path_reverse(g: Grid, p: Seq<Cell>)
    requires
        g.is_path(p),
    ensures
        g.is_path(p.reverse()),
        p.reverse()[0] == p.last(),
        p.reverse().last() == p[0],
{
    let r = p.reverse();
    assert forall|k: int| 0 <= k < r.len() implies g.passable((#[trigger] r[k]).0, r[k].1) by {
        assert(g.passable(p[p.len() - 1 - k].0, p[p.len() - 1 - k].1));
    }
    assert forall|k: int| 0 <= k < r.len() - 1 implies #[trigger] step_ok(r, k) by {
        assert(step_ok(p, p.len() - 2 - k));
    }
}

/// Two paths that meet make one path.
pub proof fn lemma_path_concat(g: Grid, p: Seq<Cell>, q: Seq<Cell>)
    requires
        g.is_path(p),
        g.is_path(q),
        p.last() == q[0],
    ensures
        g.is_path(p + q.drop_first()),
        (p + q.drop_first())[0] == p[0],
        (p + q.drop_first()).last() == q.last(),
{
    let r = p + q.drop_first();
    assert forall|k: int| 0 <= k < r.len() implies g.passable((#[trigger] r[k]).0, r[k].1) by {
        if k < p.len() {
            assert(g.passable(p[k].0, p[k].1));
        } else {
            assert(g.passable(q[k - p.len() + 1].0, q[k - p.len() + 1].1));
        }
    }
    assert forall|k: int| 0 <= k < r.len() - 1 implies #[trigger] step_ok(r, k) by {
        if k < p.len() - 1 {
            assert(step_ok(p, k));
        } else {
            assert(step_ok(q, k - p.len() + 1));
        }
    }
}

/// A path from `a` to `b` leads back from `b` to `a`.
pub proof fn lemma_connected_sym(g: Grid, a: Cell, b: Cell)
    requires
        g.connected(a, b),
    ensures
        g.connected(b, a),
{
    let p = choose|p: Seq<Cell>| g.is_path(p) && p[0] == a && #[trigger] p.last() == b;
    lemma_path_reverse(g, p);
    assert(p.reverse()[0] == b && p.reverse().last() == a);
}

/// Paths from `a` to `b` and from `b` to `c` give one from `a` to `c`.
pub proof fn lemma_connected_trans(g: Grid, a: Cell, b: Cell, c: Cell)
    requires
        g.connected(a, b),
        g.connected(b, c),
    ensures
        g.connected(a, c),
{
    let p = choose|p: Seq<Cell>| g.is_path(p) && p[0] == a && #[trigger] p.last() == b;
    let q = choose|q: Seq<Cell>| g.is_path(q) && q[0] == b && #[trigger] q.last() == c;
    lemma_path_concat(g, p, q);
    let r = p + q.drop_first();
    assert(r[0] == a && r.last() == c);
}

/// Being joined does not depend on the order of the two cells.
pub proof fn lemma_joined_sym(g: Grid, a: Cell, b: Cell)
    requires
        g.joined(a, b),
    ensures
        g.joined(b, a),
{
    if a != b {
        lemma_connected_sym(g, a, b);
    }
}

/// Cells joined to one cell are joined to each other.
pub proof fn lemma_joined_trans(g: Grid, a: Cell, b: Cell, c: Cell)
    requires
        g.joined(a, b),
        g.joined(b, c),
    ensures
        g.joined(a, c),
{
    if a != b && b != c {
        lemma_connected_trans(g, a, b, c);
    }
}

/// `wider` has the shape of `g` and every cell that is passable in `g` is
/// passable in it.
pub open spec fn opens_more(g: Grid, wider: Grid) -> bool {
    &&& wider.width == g.width
    &&& wider.height == g.height
    &&& wider.cells.len() == g.cells.len()
    &&& forall|i: int|
        0 <= i < g.cells.len() && g.cells[i] != MazeSpace::Wall ==> #[trigger] wider.cells[i]
            != MazeSpace::Wall
}

/// Opening cells takes no path away.
pub proof fn lemma_path_survives(g: Grid, wider: Grid, p: Seq<Cell>)
    requires
        g.wf(),
        opens_more(g, wider),
        g.is_path(p),
    ensures
        wider.is_path(p),
{
    assert forall|k: int| 0 <= k < p.len() implies wider.passable((#[trigger] p[k]).0, p[k].1) by {
        assert(g.passable(p[k].0, p[k].1));
        lemma_index_bounds(g, p[k].0, p[k].1);
        assert(wider.cells[g.index(p[k].0, p[k].1)] != MazeSpace::Wall);
    }
    assert forall|k: int| 0 <= k < p.len() - 1 implies #[trigger] step_ok(p, k) by {
        assert(step_ok(p, k));
    }
}

/// Opening cells keeps connected what was connected.
pub proof fn lemma_connected_survives(g: Grid, wider: Grid, a: Cell, b: Cell)
    requires
        g.wf(),
        opens_more(g, wider),
        g.connected(a, b),
    ensures
        wider.connected(a, b),
{
    let p = choose|p: Seq<Cell>| g.is_path(p) && p[0] == a && #[trigger] p.last() == b;
    lemma_path_survives(g, wider, p);
    assert(p[0] == a && p.last() == b);
}

/// The first cell of `p` from position `from` on that lies on `q`.
proof fn lemma_first_meeting(p: Seq<Cell>, q: Seq<Cell>, from: int) -> (i: int)
    requires
        0 <= from < p.len(),
        q.contains(p.last()),
    ensures
        from <= i < p.len(),
        q.contains(p[i]),
        forall|k: int| from <= k < i ==> !q.contains(#[trigger] p[k]),
    decreases p.len() - from,
{
    if q.contains(p[from]) {
        from
    } else {
        lemma_first_meeting(p, q, from + 1)
    }
}

/// Two paths from one cell that part at once and meet again close a cycle.
proof fn lemma_parting_paths_cycle(g: Grid, p: Seq<Cell>, q: Seq<Cell>) -> (cycle: Seq<Cell>)
    requires
        g.is_path(p),
        g.is_path(q),
        p.no_duplicates(),
        q.no_duplicates(),
        p.len() >= 2,
        q.len() >= 2,
        p[0] == q[0],
        p.last() == q.last(),
        p[1] != q[1],
    ensures
        g.is_path(cycle),
        cycle.no_duplicates(),
        cycle.len() >= 3,
        adjacent(cycle.last(), cycle[0]),
{
    assert(q.contains(p.last())) by {
        assert(q[q.len() - 1] == p.last());
    }
    let i = lemma_first_meeting(p, q, 1);
    let j = choose|j: int| 0 <= j < q.len() && q[j] == p[i];
    assert(j != 0) by {
        if j == 0 {
            assert(p[i] == p[0]);
        }
    }
    let out = p.subrange(0, i + 1);
    let back = q.subrange(1, j).reverse();
    let cycle = out + back;
    assert(back.len() == j - 1);
    assert forall|k: int| 0 <= k < back.len() implies back[k] == q[j - 1 - k] by {}
    assert forall|k: int| 0 <= k < cycle.len() implies g.passable((#[trigger] cycle[k]).0, cycle[k].1) by {
        if k <= i {
            assert(g.passable(p[k].0, p[k].1));
        } else {
            assert(cycle[k] == q[j - 1 - (k - i - 1)]);
            assert(g.passable(q[j - (k - i)].0, q[j - (k - i)].1));
        }
    }
    assert forall|k: int| 0 <= k < cycle.len() - 1 implies #[trigger] step_ok(cycle, k) by {
        if k < i {
            assert(step_ok(p, k));
        } else {
            // cycle[k] is q[j - (k - i)], the next one q[j - (k - i) - 1]
            assert(cycle[k] == q[j - (k - i)]);
            assert(cycle[k + 1] == q[j - (k - i) - 1]);
            assert(step_ok(q, j - (k - i) - 1));
        }
    }
    assert forall|a: int, b: int| 0 <= a < cycle.len() && 0 <= b < cycle.len() && a != b implies cycle[a]
        != cycle[b] by {
        if a <= i && b <= i {
            assert(p[a] != p[b]);
        } else if a > i && b > i {
            assert(q[j - (a - i)] != q[j - (b - i)]);
        } else {
            let inner = if a <= i {
                a
            } else {
                b
            };
            let outer = if a <= i {
                b
            } else {
                a
            };
            let m = j - (outer - i);
            assert(cycle[outer] == q[m]);
            assert(1 <= m < j);
            if inner == 0 {
                assert(q[0] != q[m]);
            } else if inner == i {
                assert(q[j] != q[m]);
            } else {
                assert(!q.contains(p[inner]));
            }
        }
    }
    if j == 1 {
        assert(cycle[cycle.len() - 1] == p[i]);
        assert(step_ok(q, 0));
        assert(i != 1);
    } else {
        assert(cycle[cycle.len() - 1] == q[1]);
        assert(step_ok(q, 0));
    }
    cycle
}

/// In a grid without a cycle there is only one way from a cell to another
/// that visits no cell twice.
pub proof fn law_one_simple_path(g: Grid, p: Seq<Cell>, q: Seq<Cell>)
    requires
        g.is_acyclic(),
        g.is_path(p),
        g.is_path(q),
        p.no_duplicates(),
        q.no_duplicates(),
        p[0] == q[0],
        p.last() == q.last(),
    ensures
        p == q,
    decreases p.len(),
{
    if p.len() == 1 || q.len() == 1 {
        if p.len() > 1 {
            assert(p[0] == p[p.len() - 1]);
        }
        if q.len() > 1 {
            assert(q[0] == q[q.len() - 1]);
        }
        assert(p =~= q);
    } else if p[1] == q[1] {
        let ps = p.drop_first();
        let qs = q.drop_first();
        assert forall|k: int| 0 <= k < ps.len() implies g.passable((#[trigger] ps[k]).0, ps[k].1) by {
            assert(g.passable(p[k + 1].0, p[k + 1].1));
        }
        assert forall|k: int| 0 <= k < ps.len() - 1 implies #[trigger] step_ok(ps, k) by {
            assert(step_ok(p, k + 1));
        }
        assert forall|k: int| 0 <= k < qs.len() implies g.passable((#[trigger] qs[k]).0, qs[k].1) by {
            assert(g.passable(q[k + 1].0, q[k + 1].1));
        }
        assert forall|k: int| 0 <= k < qs.len() - 1 implies #[trigger] step_ok(qs, k) by {
            assert(step_ok(q, k + 1));
        }
        assert(ps.no_duplicates());
        assert(qs.no_duplicates());
        law_one_simple_path(g, ps, qs);
        assert(p =~= q) by {
            assert forall|k: int| 0 <= k < p.len() implies p[k] == q[k] by {
                if k > 0 {
                    assert(ps[k - 1] == qs[k - 1]);
                }
            }
        }
    } else {
        let cycle = lemma_parting_paths_cycle(g, p, q);
    }
}

/// Each step changes the sum of column and row by one, so the steps to a
/// cell of a path are even exactly when that sum changes by an even number.
pub proof fn lemma_path_parity(g: Grid, p: Seq<Cell>, k: int)
    requires
        g.is_path(p),
        0 <= k < p.len(),
    ensures
        (p[k].0 + p[k].1 - p[0].0 - p[0].1 - k) % 2 == 0,
    decreases k,
{
    if k > 0 {
        lemma_path_parity(g, p, k - 1);
        assert(step_ok(p, k - 1));
    }
}

} // verus!
