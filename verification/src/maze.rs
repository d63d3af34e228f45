//! The maze: a grid of rooms and passages, carved into a spanning tree, with
//! the goal placed at the far end of the longest trail from the origin.

use crate::carving::{
    carve_step, carve_turns, carved_grid, carving, chained, fresh_grid, is_fresh, is_room_place,
    keeps_together, lemma_carve_step, lemma_fresh_carving, lemma_goal_marked,
    lemma_keeps_together_trans, lemma_place_of_cell, lemma_room_places_contains,
    lemma_settled_kept, lemma_spanning, open_passages, opened, room_places, rooms_chained, settled,
    state, with_goal,
};
use crate::dsets::{singletons, DisjointSets};
pub use crate::grid::MazeSpace;
use crate::grid::{
    beats, candidate_of, count_true, law_goal_choice_unique, law_one_simple_path, lemma_path_parity,
    lemma_count_true_bound, lemma_count_true_none, lemma_count_true_update, lemma_index_bounds,
    lemma_index_of_place, lemma_index_steps, step_ok, Candidate, Cell, Grid,
};
use crate::search::{
    frame_ok, lemma_mark_last, lemma_search_begin, lemma_search_pop, lemma_search_push,
    lemma_search_skip, lemma_unmark_last, lemma_work_left_advance, lemma_work_left_bound,
    lemma_work_left_pop, lemma_work_left_push, marked, marks, neighbour, searching, work_left,
};
use crate::text::{
    cells_text, decimal, push_decimal, push_walls, render, row_text, rows_text, space_str, wall_run,
};
use rand::Rng;
use vstd::prelude::*;

verus! {

/// What a maze is to its users: the grid, the goal cell, and the number of
/// steps, from cell to cell, on the way from the origin to the goal.
pub struct MazeModel {
    pub grid: Grid,
    pub goal: Cell,
    pub goal_steps: int,
}

impl MazeModel {
    /// The goal as a candidate.
    pub open spec fn best(self) -> Candidate {
        Candidate { distance: self.goal_steps, x: self.goal.0, y: self.goal.1 }
    }

    /// A finished maze: on the lattice of rooms every passable cell can be
    /// reached from the origin, there is no cycle, the open passages are one
    /// fewer than the rooms, and the goal, the only cell marked so, is a room
    /// and the goal choice.
    pub open spec fn wf(self) -> bool {
        &&& self.grid.is_lattice()
        &&& self.grid.is_acyclic()
        &&& self.grid.is_room(self.goal.0, self.goal.1)
        &&& forall|x: int, y: int|
            self.grid.passable(x, y) ==> #[trigger] self.grid.connected((0, 0), (x, y))
        &&& open_passages(self.grid) + 1 == ((self.grid.width + 1) / 2) * ((self.grid.height + 1) / 2)
        &&& self.grid.is_goal_choice(self.best())
        &&& forall|x: int, y: int|
            self.grid.contains(x, y) ==> (#[trigger] self.grid.at(x, y) == MazeSpace::Goal <==> (x, y)
                == self.goal)
    }
}

/// A maze of `width` by `height` rooms has a grid whose cells can be
/// counted in a `usize` and in an `i64`. The first clause says without a
/// product what the second holds for small mazes.
pub open spec fn fits(width: int, height: int) -> bool {
    ||| width <= 0x4000 && height <= 0x4000
    ||| (2 * width - 1) * (2 * height - 1) <= usize::MAX && (2 * width - 1) * (2 * height - 1)
        <= i64::MAX
}

/// The grid of a maze that fits has at most `usize::MAX` and at most
/// `i64::MAX` cells.
pub proof fn lemma_fits(width: int, height: int)
    requires
        width >= 1,
        height >= 1,
        fits(width, height),
    ensures
        2 * width - 1 <= (2 * width - 1) * (2 * height - 1),
        2 * height - 1 <= (2 * width - 1) * (2 * height - 1),
        (2 * width - 1) * (2 * height - 1) <= usize::MAX,
        (2 * width - 1) * (2 * height - 1) <= i64::MAX,
{
    let w = 2 * width - 1;
    let h = 2 * height - 1;
    assert(w <= w * h && h <= w * h) by (nonlinear_arith)
        requires
            w >= 1,
            h >= 1,
    ;
    if width <= 0x4000 && height <= 0x4000 {
        assert(w * h <= 0x8000 * 0x8000) by (nonlinear_arith)
            requires
                1 <= w <= 0x8000,
                1 <= h <= 0x8000,
        ;
    }
}

/// The room places of the grid for `width` by `height` rooms, in rising
/// order.
pub open spec fn natural_order(width: int, height: int) -> Seq<usize> {
    room_places(2 * width - 1, ((2 * width - 1) * (2 * height - 1)) as nat)
}

/// The room places of a grid, in any order: what the candidate lists of
/// carving hold.
pub open spec fn is_room_order(g: Grid, order: Seq<usize>) -> bool {
    order.to_multiset() == room_places(g.width, g.cells.len()).to_multiset()
}

/// The places below `k` hold the fresh lattice.
spec fn pattern_below(cells: Seq<MazeSpace>, w: int, k: int) -> bool {
    forall|i: int|
        0 <= i < k ==> #[trigger] cells[i] == if is_room_place(w, i) {
            MazeSpace::Open
        } else {
            MazeSpace::Wall
        }
}

/// Shuffles `values` in place with `rand::Rng::shuffle` on the generator of
/// `rand::thread_rng`. The order that comes out is not known; the contract
/// claims only that the entries are the same, each as often as before, which
/// holds because the outside function does nothing but swap entries. Nothing
/// is claimed of how likely an order is. `thread_rng` stops the program when
/// the system has no entropy to seed the generator with.
#[verifier::external_body]
fn shuffle(values: &mut Vec<usize>)
    ensures
        final(values)@.to_multiset() == old(values)@.to_multiset(),
{
    rand::thread_rng().shuffle(values);
}

/// A cell of the trail that the search is on, with the number of directions
/// in which the search has gone on from it.
struct Frame {
    x: usize,
    y: usize,
    stage: u8,
}

/// The cells of the stack, from the origin to the top.
spec fn path_of(stack: Seq<Frame>) -> Seq<Cell> {
    stack.map_values(|frame: Frame| (frame.x as int, frame.y as int))
}

/// The stages of the stack, from the origin to the top.
spec fn stages_of(stack: Seq<Frame>) -> Seq<int> {
    stack.map_values(|frame: Frame| frame.stage as int)
}

/// A maze on a grid of `2 * rooms - 1` cells a side: rooms at the even
/// positions, passages between them, and one goal.
pub struct Maze {
    width: usize,
    height: usize,
    spaces: Vec<MazeSpace>,
    goal_x: usize,
    goal_y: usize,
    goal_steps: usize,
}

impl View for Maze {
    type V = MazeModel;

    closed spec fn view(&self) -> MazeModel {
        MazeModel {
            grid: Grid {
                width: self.width as int,
                height: self.height as int,
                cells: self.spaces@,
            },
            goal: (self.goal_x as int, self.goal_y as int),
            goal_steps: self.goal_steps as int,
        }
    }
}

impl Maze {
    /// The grid has cells for all its rows and columns.
    pub closed spec fn shaped(&self) -> bool {
        self@.grid.wf() && self.spaces@.len() <= usize::MAX
    }

    /// The numbers of the model are those of machine words.
    pub proof fn lemma_model_bounds(&self)
        ensures
            0 <= self@.grid.width <= usize::MAX,
            0 <= self@.grid.height <= usize::MAX,
            0 <= self@.goal.0 <= usize::MAX,
            0 <= self@.goal.1 <= usize::MAX,
            0 <= self@.goal_steps <= usize::MAX,
    {
    }

    /// Well-formedness of a maze that a constructor has returned.
    pub open spec fn wf(&self) -> bool {
        self.shaped() && self@.wf()
    }

    /// A grid for `width` by `height` rooms with every cell open and the
    /// goal at the origin.
    fn blank(width: usize, height: usize) -> (maze: Maze)
        requires
            width >= 1,
            height >= 1,
            fits(width as int, height as int),
        ensures
            maze.shaped(),
            maze@.grid.width == 2 * width - 1,
            maze@.grid.height == 2 * height - 1,
            maze@.goal == (0int, 0int),
            maze@.goal_steps == 0,
    {
        proof {
            lemma_fits(width as int, height as int);
        }
        let width_with_spaces = width + (width - 1);
        let height_with_spaces = height + (height - 1);
        let size = width_with_spaces * height_with_spaces;
        Maze {
            width: width_with_spaces,
            height: height_with_spaces,
            spaces: vec![MazeSpace::Open; size],
            goal_x: 0,
            goal_y: 0,
            goal_steps: 0,
        }
    }

    /// A maze of `width` by `height` rooms, carved in a random order.
    pub fn new(width: usize, height: usize) -> (maze: Maze)
        requires
            width >= 1,
            height >= 1,
            fits(width as int, height as int),
        ensures
            maze.wf(),
            maze@.grid.width == 2 * width - 1,
            maze@.grid.height == 2 * height - 1,
            exists|east: Seq<usize>, south: Seq<usize>|
                is_room_order(maze@.grid, east) && is_room_order(maze@.grid, south) && maze@.grid
                    == with_goal(#[trigger] carved_grid(width as int, height as int, east, south), maze@.goal),
    {
        proof {
            lemma_fits(width as int, height as int);
        }
        let mut maze = Maze::blank(width, height);
        let (mut east, mut south) = maze.initialize_spaces();
        shuffle(&mut east);
        shuffle(&mut south);
        maze.finish(&east, &south);
        proof {
            assert(is_room_order(maze@.grid, east@) && is_room_order(maze@.grid, south@) && maze@.grid
                == with_goal(carved_grid(width as int, height as int, east@, south@), maze@.goal));
        }
        maze
    }

    /// A maze of `width` by `height` rooms, carved in a random order, or
    /// nothing where there would be no room or the grid would be too large
    /// to hold.
    pub fn try_new(width: usize, height: usize) -> (maze: Option<Maze>)
        ensures
            match maze {
                Some(built) => width >= 1 && height >= 1 && fits(width as int, height as int)
                    && built.wf() && built@.grid.width == 2 * width - 1 && built@.grid.height == 2
                    * height - 1,
                None => width == 0 || height == 0 || !fits(width as int, height as int),
            },
    {
        if width == 0 || height == 0 {
            return None;
        }
        proof {
            if fits(width as int, height as int) {
                lemma_fits(width as int, height as int);
            }
        }
        let columns = match width.checked_add(width - 1) {
            Some(columns) => columns,
            None => {
                return None;
            },
        };
        let rows = match height.checked_add(height - 1) {
            Some(rows) => rows,
            None => {
                return None;
            },
        };
        let size = match columns.checked_mul(rows) {
            Some(size) => size,
            None => {
                return None;
            },
        };
        if size as u64 > i64::MAX as u64 {
            return None;
        }
        Some(Maze::new(width, height))
    }

    /// The goal cell: column, then row.
    pub fn goal(&self) -> (goal: (usize, usize))
        ensures
            (goal.0 as int, goal.1 as int) == self@.goal,
    {
        (self.goal_x, self.goal_y)
    }

    /// Number of passages on the way from the origin to the goal: the
    /// distance of the goal in rooms.
    pub fn goal_distance(&self) -> (distance: usize)
        requires
            self.wf(),
        ensures
            2 * distance == self@.goal_steps,
    {
        proof {
            law_goal_steps_even(self@);
        }
        self.goal_steps / 2
    }

    /// The room places of the grid for `width` by `height` rooms in rising
    /// order: a candidate list for `with_orders`, as is every rearrangement
    /// of it.
    pub fn room_order(width: usize, height: usize) -> (order: Vec<usize>)
        requires
            width >= 1,
            height >= 1,
            fits(width as int, height as int),
        ensures
            order@ == natural_order(width as int, height as int),
            order@.len() == width * height,
    {
        proof {
            lemma_fits(width as int, height as int);
        }
        let mut maze = Maze::blank(width, height);
        let (east, _south) = maze.initialize_spaces();
        east
    }

    /// A maze of `width` by `height` rooms, carved in the given order: the
    /// eastward candidate `east[i]`, then the southward candidate `south[i]`,
    /// for each `i` in turn.
    pub fn with_orders(width: usize, height: usize, east: Vec<usize>, south: Vec<usize>) -> (maze:
        Maze)
        requires
            width >= 1,
            height >= 1,
            fits(width as int, height as int),
            east@.to_multiset() == natural_order(width as int, height as int).to_multiset(),
            south@.to_multiset() == natural_order(width as int, height as int).to_multiset(),
        ensures
            maze.wf(),
            maze@.grid.width == 2 * width - 1,
            maze@.grid.height == 2 * height - 1,
            maze@.grid == with_goal(
                carved_grid(width as int, height as int, east@, south@),
                maze@.goal,
            ),
    {
        proof {
            lemma_fits(width as int, height as int);
        }
        let mut maze = Maze::blank(width, height);
        maze.initialize_spaces();
        maze.finish(&east, &south);
        maze
    }

    /// Carves the fresh lattice in the given order and places the goal.
    fn finish(&mut self, east: &Vec<usize>, south: &Vec<usize>)
        requires
            old(self).shaped(),
            is_fresh(old(self)@.grid),
            old(self)@.grid.cells.len() <= i64::MAX,
            old(self)@.goal == (0int, 0int),
            old(self)@.goal_steps == 0,
            is_room_order(old(self)@.grid, east@),
            is_room_order(old(self)@.grid, south@),
            room_places(old(self)@.grid.width, old(self)@.grid.cells.len()).len() == ((old(
                self,
            )@.grid.width + 1) / 2) * ((old(self)@.grid.height + 1) / 2),
        ensures
            final(self).wf(),
            final(self)@.grid.width == old(self)@.grid.width,
            final(self)@.grid.height == old(self)@.grid.height,
            final(self)@.grid == with_goal(
                carve_turns(
                    state(old(self)@.grid, singletons(old(self)@.grid.cells.len())),
                    east@,
                    south@,
                    east@.len(),
                ).grid,
                final(self)@.goal,
            ),
    {
        let mut dsets = DisjointSets::new(self.spaces.len());
        proof {
            lemma_fresh_carving(self@.grid);
        }
        self.carve(&mut dsets, east, south);
        proof {
            lemma_spanning(self@.grid, dsets@);
            assert(self@.grid.lattice_cell(0, 0));
        }
        let ghost carved_grid = self@.grid;
        self.solve();
        proof {
            lemma_goal_marked(carved_grid, self@.best());
            let done = self@.grid;
            assert forall|x: int, y: int| done.passable(x, y) implies #[trigger] done.connected(
                (0, 0),
                (x, y),
            ) by {
                assert(carved_grid.passable(x, y));
                assert(carved_grid.connected((0, 0), (x, y)));
            }
        }
    }

    /// Sets the fresh lattice, rooms open and all else walls, and returns
    /// the room places twice, in rising order: the eastward and the southward
    /// candidates.
    fn initialize_spaces(&mut self) -> (lists: (Vec<usize>, Vec<usize>))
        requires
            old(self).shaped(),
            old(self)@.grid.width % 2 == 1,
            old(self)@.grid.height % 2 == 1,
        ensures
            final(self).shaped(),
            final(self)@.grid.width == old(self)@.grid.width,
            final(self)@.grid.height == old(self)@.grid.height,
            final(self)@.goal == old(self)@.goal,
            final(self)@.goal_steps == old(self)@.goal_steps,
            is_fresh(final(self)@.grid),
            final(self)@.grid == fresh_grid(old(self)@.grid.width, old(self)@.grid.height),
            lists.0@ == room_places(final(self)@.grid.width, final(self)@.grid.cells.len()),
            lists.1@ == lists.0@,
            lists.0@.len() == ((final(self)@.grid.width + 1) / 2) * ((final(self)@.grid.height + 1)
                / 2),
    {
        let mut east: Vec<usize> = Vec::new();
        let mut south: Vec<usize> = Vec::new();
        let ghost start = self@;
        let ghost w = self.width as int;
        let ghost h = self.height as int;
        let ghost half = (w + 1) / 2;
        let mut y: usize = 0;
        proof {
            assert(0 * w == 0 && ((0 + 1) / 2) * half == 0) by (nonlinear_arith);
        }
        while y < self.height
            invariant
                self.shaped(),
                self@.grid.width == w,
                self@.grid.height == h,
                self@.goal == start.goal,
                self@.goal_steps == start.goal_steps,
                w % 2 == 1,
                half == (w + 1) / 2,
                0 <= y <= h,
                0 <= y * w <= self.spaces@.len(),
                pattern_below(self.spaces@, w, y * w),
                east@ == room_places(w, (y * w) as nat),
                south@ == east@,
                east@.len() == ((y + 1) / 2) * half,
            decreases h - y,
        {
            let mut x: usize = 0;
            proof {
                lemma_index_bounds(self@.grid, 0, y as int);
            }
            while x < self.width
                invariant
                    self.shaped(),
                    self@.grid.width == w,
                    self@.grid.height == h,
                    self@.goal == start.goal,
                    self@.goal_steps == start.goal_steps,
                    w % 2 == 1,
                    half == (w + 1) / 2,
                    0 <= y < h,
                    0 <= x <= w,
                    0 <= y * w,
                    y * w + w <= self.spaces@.len(),
                    pattern_below(self.spaces@, w, y * w + x),
                    east@ == room_places(w, (y * w + x) as nat),
                    south@ == east@,
                    east@.len() == ((y + 1) / 2) * half + if y % 2 == 0 {
                        (x + 1) / 2
                    } else {
                        0
                    },
                decreases w - x,
            {
                proof {
                    lemma_place_of_cell(self@.grid, x as int, y as int);
                }
                let i = x + y * self.width;
                let is_wall = (x % 2) == 1 || (y % 2) == 1;
                self.spaces.set(
                    i,
                    if is_wall {
                        MazeSpace::Wall
                    } else {
                        MazeSpace::Open
                    },
                );
                if !is_wall {
                    east.push(i);
                    south.push(i);
                }
                x = x + 1;
            }
            proof {
                assert((y + 1) * w == y * w + w) by (nonlinear_arith);
                assert((((y + 1) / 2) + 1) * half == ((y + 1) / 2) * half + half) by (nonlinear_arith);
            }
            y = y + 1;
        }
        proof {
            assert(h * w == w * h) by (nonlinear_arith);
            assert(((h + 1) / 2) * half == half * ((h + 1) / 2)) by (nonlinear_arith);
            assert(self@.grid.cells =~= fresh_grid(w, h).cells);
        }
        (east, south)
    }

    /// Deals with every candidate passage: `east[i]` eastward, then
    /// `south[i]` southward, for each `i` in turn.
    fn carve(&mut self, dsets: &mut DisjointSets, east: &Vec<usize>, south: &Vec<usize>)
        requires
            old(self).shaped(),
            old(dsets).wf(),
            carving(old(self)@.grid, old(dsets)@),
            is_room_order(old(self)@.grid, east@),
            is_room_order(old(self)@.grid, south@),
        ensures
            final(self).shaped(),
            final(dsets).wf(),
            carving(final(self)@.grid, final(dsets)@),
            rooms_chained(final(self)@.grid, final(dsets)@),
            state(final(self)@.grid, final(dsets)@) == carve_turns(
                state(old(self)@.grid, old(dsets)@),
                east@,
                south@,
                east@.len(),
            ),
            final(self)@.grid.width == old(self)@.grid.width,
            final(self)@.grid.height == old(self)@.grid.height,
            final(self)@.goal == old(self)@.goal,
            final(self)@.goal_steps == old(self)@.goal_steps,
    {
        let ghost start = self@;
        let ghost w = self@.grid.width;
        let ghost n = self@.grid.cells.len();
        let ghost rooms = room_places(w, n);
        let ghost begin = state(self@.grid, dsets@);
        proof {
            east@.to_multiset_ensures();
            south@.to_multiset_ensures();
            rooms.to_multiset_ensures();
            assert forall|k: int| 0 <= k < east@.len() implies (#[trigger] east@[k]) < n
                && is_room_place(w, east@[k] as int) by {
                assert(east@.contains(east@[k]));
                assert(east@.to_multiset().count(east@[k]) > 0);
                assert(rooms.to_multiset().count(east@[k]) > 0);
                assert(rooms.contains(east@[k]));
                lemma_room_places_contains(w, n, east@[k] as int);
            }
            assert forall|k: int| 0 <= k < south@.len() implies (#[trigger] south@[k]) < n
                && is_room_place(w, south@[k] as int) by {
                assert(south@.contains(south@[k]));
                assert(south@.to_multiset().count(south@[k]) > 0);
                assert(rooms.to_multiset().count(south@[k]) > 0);
                assert(rooms.contains(south@[k]));
                lemma_room_places_contains(w, n, south@[k] as int);
            }
        }
        let mut i: usize = 0;
        while i < east.len()
            invariant
                i <= east@.len(),
                east@.len() == south@.len(),
                self.shaped(),
                dsets.wf(),
                carving(self@.grid, dsets@),
                self@.grid.width == w,
                self@.grid.height == start.grid.height,
                self@.grid.cells.len() == n,
                self@.goal == start.goal,
                self@.goal_steps == start.goal_steps,
                state(self@.grid, dsets@) == carve_turns(
                    begin,
                    east@,
                    south@,
                    i as nat,
                ),
                forall|k: int|
                    0 <= k < east@.len() ==> (#[trigger] east@[k]) < n && is_room_place(
                        w,
                        east@[k] as int,
                    ),
                forall|k: int|
                    0 <= k < south@.len() ==> (#[trigger] south@[k]) < n && is_room_place(
                        w,
                        south@[k] as int,
                    ),
                forall|k: int|
                    0 <= k < i ==> settled(self@.grid, dsets@, (#[trigger] east@[k]) as int, true),
                forall|k: int|
                    0 <= k < i ==> settled(self@.grid, dsets@, (#[trigger] south@[k]) as int, false),
            decreases east@.len() - i,
        {
            let ghost g0 = self@.grid;
            let ghost r0 = dsets@;
            self.try_wall(dsets, east[i], true);
            let ghost g1 = self@.grid;
            let ghost r1 = dsets@;
            self.try_wall(dsets, south[i], false);
            proof {
                let g2 = self@.grid;
                let r2 = dsets@;
                lemma_keeps_together_trans(r0, r1, r2);
                lemma_settled_kept(g1, g2, r1, r2, east@[i as int] as int, true);
                assert forall|k: int| 0 <= k < i implies settled(
                    g2,
                    r2,
                    (#[trigger] east@[k]) as int,
                    true,
                ) by {
                    lemma_settled_kept(g0, g2, r0, r2, east@[k] as int, true);
                }
                assert forall|k: int| 0 <= k < i implies settled(
                    g2,
                    r2,
                    (#[trigger] south@[k]) as int,
                    false,
                ) by {
                    lemma_settled_kept(g0, g2, r0, r2, south@[k] as int, false);
                }
            }
            i = i + 1;
        }
        proof {
            let g = self@.grid;
            let roots = dsets@;
            assert forall|x: int, y: int| g.is_room(x, y) implies #[trigger] chained(g, roots, x, y) by {
                lemma_place_of_cell(g, x, y);
                let place = g.index(x, y);
                lemma_room_places_contains(w, n, place);
                assert(rooms.contains(place as usize));
                assert(rooms.to_multiset().count(place as usize) > 0);
                assert(east@.to_multiset().count(place as usize) > 0);
                assert(south@.to_multiset().count(place as usize) > 0);
                assert(east@.contains(place as usize));
                assert(south@.contains(place as usize));
                let ke = choose|k: int| 0 <= k < east@.len() && east@[k] == place as usize;
                let ks = choose|k: int| 0 <= k < south@.len() && south@[k] == place as usize;
                assert(settled(g, roots, east@[ke] as int, true));
                assert(settled(g, roots, south@[ks] as int, false));
            }
        }
    }

    /// Opens the passage from the room at `index` to the room east or south
    /// of it, if there is such a room and it is not yet in the set of this
    /// one, and merges the sets of the three cells.
    fn try_wall(&mut self, dsets: &mut DisjointSets, index: usize, is_east: bool)
        requires
            old(self).shaped(),
            old(dsets).wf(),
            carving(old(self)@.grid, old(dsets)@),
            index < old(self)@.grid.cells.len(),
            is_room_place(old(self)@.grid.width, index as int),
        ensures
            final(self).shaped(),
            final(dsets).wf(),
            carving(final(self)@.grid, final(dsets)@),
            keeps_together(old(dsets)@, final(dsets)@),
            settled(final(self)@.grid, final(dsets)@, index as int, is_east),
            state(final(self)@.grid, final(dsets)@) == carve_step(
                state(old(self)@.grid, old(dsets)@),
                index as int,
                is_east,
            ),
            final(self)@.grid.width == old(self)@.grid.width,
            final(self)@.grid.height == old(self)@.grid.height,
            final(self)@.goal == old(self)@.goal,
            final(self)@.goal_steps == old(self)@.goal_steps,
    {
        let ghost g = self@.grid;
        let ghost r0 = dsets@;
        let (x, y) = self.coordinates(index);
        let step: usize;
        if is_east {
            if !(self.width > 1 && x < self.width - 2) {
                return;
            }
            step = 1;
        } else {
            if !(self.height > 1 && y < self.height - 2) {
                return;
            }
            step = self.width;
        }
        let ghost near: Cell = (x as int, y as int);
        let ghost mid: Cell = if is_east {
            (x + 1, y as int)
        } else {
            (x as int, y + 1)
        };
        let ghost far: Cell = if is_east {
            (x + 2, y as int)
        } else {
            (x as int, y + 2)
        };
        proof {
            lemma_index_steps(g, x as int, y as int);
            lemma_index_bounds(g, mid.0, mid.1);
            lemma_index_bounds(g, far.0, far.1);
            assert(g.lattice_cell(near.0, near.1));
            assert(g.lattice_cell(far.0, far.1));
        }
        let near_root = dsets.find_root(index);
        let far_root = dsets.find_root(index + step * 2);
        let apart = match (near_root, far_root) {
            (Ok(a), Ok(b)) => a != b,
            _ => false,
        };
        if apart {
            proof {
                lemma_carve_step(g, r0, near, mid, far);
            }
            self.spaces.set(index + step, MazeSpace::Open);
            dsets.set_union(index, index + step);
            dsets.set_union(index, index + step * 2);
            proof {
                assert(self@.grid == opened(g, index + step));
            }
        }
    }

    /// Searches the trails from the origin and marks the end of the best one
    /// as the goal.
    fn solve(&mut self)
        requires
            old(self).shaped(),
            old(self)@.grid.passable(0, 0),
            old(self)@.goal == (0int, 0int),
            old(self)@.goal_steps == 0,
        ensures
            final(self).shaped(),
            old(self)@.grid.is_goal_choice(final(self)@.best()),
            final(self)@.grid == with_goal(old(self)@.grid, final(self)@.goal),
    {
        let ghost g = self@.grid;
        let mut visited = vec![false; self.spaces.len()];
        self.dfs(&mut visited);
        proof {
            let best = self@.best();
            let witness = choose|t: Seq<Cell>| g.is_trail(t) && #[trigger] candidate_of(t) == best;
            assert(g.passable(witness[witness.len() - 1].0, witness[witness.len() - 1].1));
        }
        let index = self.index_for(self.goal_x, self.goal_y);
        self.spaces.set(index, MazeSpace::Goal);
    }

    /// True when `(x, y)` is a cell of the grid and no wall.
    pub fn is_valid_space(&self, x: usize, y: usize) -> (valid: bool)
        requires
            self.wf(),
        ensures
            valid == self@.grid.passable(x as int, y as int),
    {
        if x >= self.width || y >= self.height {
            return false;
        }
        let index = self.index_for(x, y);
        self.spaces[index] != MazeSpace::Wall
    }

    /// True when `(x, y)` is the goal; false for every other cell and for a
    /// position outside the grid.
    pub fn is_goal(&self, x: usize, y: usize) -> (goal: bool)
        requires
            self.wf(),
        ensures
            goal == ((x as int, y as int) == self@.goal),
            goal == (self@.grid.contains(x as int, y as int) && self@.grid.at(x as int, y as int)
                == MazeSpace::Goal),
    {
        proof {
            let witness = choose|t: Seq<Cell>|
                self@.grid.is_trail(t) && #[trigger] candidate_of(t) == self@.best();
            assert(self@.grid.passable(witness[witness.len() - 1].0, witness[witness.len() - 1].1));
        }
        if x >= self.width || y >= self.height {
            return false;
        }
        let index = self.index_for(x, y);
        self.spaces[index] == MazeSpace::Goal
    }

    /// Number of columns of the grid.
    pub fn width(&self) -> (width: usize)
        ensures
            width == self@.grid.width,
    {
        self.width
    }

    /// Number of rows of the grid.
    pub fn height(&self) -> (height: usize)
        ensures
            height == self@.grid.height,
    {
        self.height
    }

    /// Number of rooms in a row and in a column.
    pub fn size(&self) -> (size: (usize, usize))
        requires
            self.wf(),
        ensures
            size.0 == (self@.grid.width + 1) / 2,
            size.1 == (self@.grid.height + 1) / 2,
    {
        (self.width / 2 + 1, self.height / 2 + 1)
    }

    /// The maze as text: a header with the number of rooms, then the grid
    /// in a frame of walls, `X` for a wall, a blank for an open cell and `*`
    /// for the goal.
    pub fn to_string(&self) -> (text: String)
        requires
            self.wf(),
        ensures
            text@ == render(self@.grid),
    {
        let ghost g = self@.grid;
        let (width, height) = self.size();
        let mut text = String::new();
        push_decimal(&mut text, width);
        text.append("x");
        push_decimal(&mut text, height);
        text.append(" Maze:\n");
        push_walls(&mut text, self.width);
        text.append("XX\n");
        let ghost head = text@;
        proof {
            reveal_strlit("x");
            reveal_strlit(" Maze:\n");
            reveal_strlit("XX\n");
            assert(head =~= decimal(((g.width + 1) / 2) as nat) + seq!['x']
                + decimal(((g.height + 1) / 2) as nat) + seq![
                ' ',
                'M',
                'a',
                'z',
                'e',
                ':',
                '\n',
            ] + wall_run((g.width + 2) as nat) + seq!['\n']);
            assert(text@ =~= head + rows_text(g, 0));
        }
        let mut y: usize = 0;
        while y < self.height
            invariant
                self.shaped(),
                self@.grid == g,
                y <= g.height,
                text@ == head + rows_text(g, y as nat),
            decreases g.height - y,
        {
            let ghost above = text@;
            text.append("X");
            let ghost line = text@;
            let mut x: usize = 0;
            proof {
                assert(text@ =~= line + cells_text(g, y as int, 0));
            }
            while x < self.width
                invariant
                    self.shaped(),
                    self@.grid == g,
                    y < g.height,
                    x <= g.width,
                    text@ == line + cells_text(g, y as int, x as nat),
                decreases g.width - x,
            {
                let index = self.index_for(x, y);
                text.append(space_str(self.spaces[index]));
                proof {
                    assert(text@ =~= line + cells_text(g, y as int, (x + 1) as nat));
                }
                x = x + 1;
            }
            text.append("X\n");
            proof {
                reveal_strlit("X");
                reveal_strlit("X\n");
                assert(text@ =~= above + row_text(g, y as int));
                assert(text@ =~= head + rows_text(g, (y + 1) as nat));
            }
            y = y + 1;
        }
        let ghost body = text@;
        push_walls(&mut text, self.width);
        text.append("XX");
        proof {
            reveal_strlit("XX");
            assert(text@ =~= body + wall_run((g.width + 2) as nat));
        }
        text
    }

    /// The cells of row `row`, from left to right.
    pub fn row(&self, row: usize) -> (cells: MazeIterator<'_>)
        requires
            self.wf(),
            row < self@.grid.height,
        ensures
            cells.wf(),
            cells@ == self@.grid.row(row as int),
    {
        MazeIterator::row_iterator(self, row)
    }

    /// The cells of column `column`, from top to bottom.
    pub fn column(&self, column: usize) -> (cells: MazeIterator<'_>)
        requires
            self.wf(),
            column < self@.grid.width,
        ensures
            cells.wf(),
            cells@ == self@.grid.column(column as int),
    {
        MazeIterator::column_iterator(self, column)
    }

    /// The rows, from top to bottom.
    pub fn rows(&self) -> (rows: MazeRowIterator<'_>)
        requires
            self.wf(),
        ensures
            rows.wf(),
            rows@ == self@.grid.rows(),
    {
        MazeRowIterator::new(self)
    }

    fn index_for(&self, x: usize, y: usize) -> (index: usize)
        requires
            self.shaped(),
            self@.grid.contains(x as int, y as int),
        ensures
            index == self@.grid.index(x as int, y as int),
            index < self.spaces@.len(),
    {
        proof {
            lemma_index_bounds(self@.grid, x as int, y as int);
        }
        x + y * self.width
    }

    fn coordinates(&self, index: usize) -> (at: (usize, usize))
        requires
            self.shaped(),
            index < self.spaces@.len(),
        ensures
            self@.grid.contains(at.0 as int, at.1 as int),
            self@.grid.index(at.0 as int, at.1 as int) == index,
            at.0 == (index as int) % self@.grid.width,
            at.1 == (index as int) / self@.grid.width,
    {
        proof {
            lemma_index_of_place(self@.grid, index as int);
        }
        (index % self.width, index / self.width)
    }

    /// Searches every trail from the origin and keeps the best candidate
    /// met. The trail that the search is on is held as a stack; at each cell
    /// the neighbours are tried to the left, to the right, above and below,
    /// in this order, and the cell itself is compared when it is left.
    fn dfs(&mut self, visited: &mut Vec<bool>)
        requires
            old(self).shaped(),
            old(visited)@.len() == old(self).spaces@.len(),
            forall|i: int| 0 <= i < old(visited)@.len() ==> !old(visited)@[i],
            old(self)@.grid.passable(0, 0),
            old(self)@.goal == (0int, 0int),
            old(self)@.goal_steps == 0,
        ensures
            final(self)@.grid == old(self)@.grid,
            final(visited)@ == old(visited)@,
            old(self)@.grid.is_goal_choice(final(self)@.best()),
    {
        let ghost g = self@.grid;
        let ghost clear = visited@;
        let ghost origin: Seq<Cell> = seq![(0int, 0int)];
        let room = visited.len();
        let start = self.index_for(0, 0);
        proof {
            lemma_count_true_none(clear);
            assert(origin.drop_last() =~= Seq::<Cell>::empty());
            assert forall|x: int, y: int| g.contains(x, y) implies (#[trigger] marked(g, clear, x, y)
                <==> origin.drop_last().contains((x, y))) by {
                lemma_index_bounds(g, x, y);
            }
            lemma_mark_last(g, clear, origin);
            lemma_count_true_update(clear, start as int, true);
            lemma_search_begin(g);
        }
        visited.set(start, true);
        let mut stack: Vec<Frame> = Vec::new();
        stack.push(Frame { x: 0, y: 0, stage: 0 });
        proof {
            assert(path_of(stack@) =~= origin);
            assert(stages_of(stack@) =~= seq![0int]);
        }
        while stack.len() > 0
            invariant
                self.shaped(),
                self@.grid == g,
                visited@.len() == g.cells.len(),
                visited@.len() == room,
                clear.len() == room,
                forall|i: int| 0 <= i < clear.len() ==> !clear[i],
                searching(g, path_of(stack@), stages_of(stack@), self@.best()),
                marks(g, visited@, path_of(stack@)),
                count_true(visited@) == stack@.len(),
            decreases work_left(stages_of(stack@), room as nat),
        {
            let top = stack.len() - 1;
            let x = stack[top].x;
            let y = stack[top].y;
            let stage = stack[top].stage;
            let ghost path = path_of(stack@);
            let ghost stages = stages_of(stack@);
            let ghost best = self@.best();
            let ghost marked_before = visited@;
            proof {
                assert(frame_ok(g, path, stages, top as int, best));
                assert(g.passable(path[top as int].0, path[top as int].1));
                lemma_count_true_bound(visited@);
            }
            if stage < 4 {
                stack.set(top, Frame { x, y, stage: stage + 1 });
                let ghost begun = stages.update(top as int, stage + 1);
                proof {
                    assert(path_of(stack@) =~= path);
                    assert(stages_of(stack@) =~= begun);
                }
                let mut next: Option<(usize, usize)> = None;
                if stage == 0 {
                    if x > 0 {
                        next = Some((x - 1, y));
                    }
                } else if stage == 1 {
                    if x < self.width - 1 {
                        next = Some((x + 1, y));
                    }
                } else if stage == 2 {
                    if y > 0 {
                        next = Some((x, y - 1));
                    }
                } else {
                    if y < self.height - 1 {
                        next = Some((x, y + 1));
                    }
                }
                let ghost beside = neighbour(path.last(), stage as int);
                match next {
                    Some((nx, ny)) => {
                        assert(beside == (nx as int, ny as int));
                        let neighbor = self.index_for(nx, ny);
                        if !visited[neighbor] && self.spaces[neighbor] != MazeSpace::Wall {
                            proof {
                                lemma_search_push(g, marked_before, path, stages, best);
                                assert(path.push(beside).drop_last() =~= path);
                                lemma_mark_last(g, marked_before, path.push(beside));
                                lemma_count_true_update(marked_before, neighbor as int, true);
                                lemma_count_true_bound(marked_before.update(neighbor as int, true));
                                lemma_work_left_push(stages, room as nat);
                            }
                            visited.set(neighbor, true);
                            stack.push(Frame { x: nx, y: ny, stage: 0 });
                            proof {
                                assert(path_of(stack@) =~= path.push(beside));
                                assert(stages_of(stack@) =~= begun.push(0));
                            }
                        } else {
                            proof {
                                lemma_search_skip(g, marked_before, path, stages, best);
                                lemma_work_left_advance(stages, room as nat);
                            }
                        }
                    },
                    None => {
                        proof {
                            assert(!g.contains(beside.0, beside.1));
                            lemma_search_skip(g, marked_before, path, stages, best);
                            lemma_work_left_advance(stages, room as nat);
                        }
                    },
                }
            } else {
                let current_length = top;
                if (current_length > self.goal_steps) || (current_length == self.goal_steps
                    && y > self.goal_y) || (current_length == self.goal_steps && y == self.goal_y
                    && x < self.goal_x) {
                    self.goal_steps = current_length;
                    self.goal_x = x;
                    self.goal_y = y;
                }
                let index = self.index_for(x, y);
                proof {
                    lemma_search_pop(g, path, stages, best);
                    lemma_unmark_last(g, marked_before, path);
                    lemma_count_true_update(marked_before, index as int, false);
                    lemma_work_left_pop(stages, room as nat);
                }
                visited.set(index, false);
                stack.pop();
                proof {
                    assert(path_of(stack@) =~= path.drop_last());
                    assert(stages_of(stack@) =~= stages.drop_last());
                }
            }
            proof {
                let after = stages_of(stack@);
                assert forall|k: int| 0 <= k < after.len() implies #[trigger] after[k] <= 5 by {
                    assert(frame_ok(g, path_of(stack@), after, k, self@.best()));
                }
                lemma_work_left_bound(after, room as nat);
            }
        }
        proof {
            assert(path_of(stack@) =~= Seq::<Cell>::empty());
            assert forall|i: int| 0 <= i < visited@.len() implies !visited@[i] by {
                lemma_index_of_place(g, i);
                assert(marked(g, visited@, i % g.width, i / g.width) <==> path_of(stack@).contains(
                    (i % g.width, i / g.width),
                ));
            }
            assert(visited@ =~= clear);
        }
    }
}

/// A cursor over the cells of one row or one column of a maze.
pub struct MazeIterator<'a> {
    maze: &'a Maze,
    current_index: usize,
    remaining: usize,
    step: usize,
}

impl<'a> View for MazeIterator<'a> {
    type V = Seq<MazeSpace>;

    /// The cells that are still to come.
    closed spec fn view(&self) -> Seq<MazeSpace> {
        Seq::new(
            self.remaining as nat,
            |k: int| self.maze.spaces@[self.current_index + k * self.step],
        )
    }
}

impl<'a> MazeIterator<'a> {
    /// The cursor stays inside the maze.
    pub closed spec fn wf(&self) -> bool {
        &&& self.maze.shaped()
        &&& self.remaining > 0 ==> self.current_index + (self.remaining - 1) * self.step
            < self.maze.spaces@.len()
    }

    /// A cursor at the left end of row `row`.
    pub fn row_iterator(maze: &'a Maze, row: usize) -> (cells: MazeIterator<'a>)
        requires
            maze.wf(),
            row < maze@.grid.height,
        ensures
            cells.wf(),
            cells@ == maze@.grid.row(row as int),
    {
        let ghost g = maze@.grid;
        proof {
            lemma_index_bounds(g, 0, row as int);
            assert(maze.width * row == row * maze.width) by (nonlinear_arith);
        }
        let step: usize = 1;
        let start = maze.width * row;
        let cells = MazeIterator { maze: maze, current_index: start, remaining: maze.width, step: step };
        proof {
            assert(cells@ =~= g.row(row as int));
        }
        cells
    }

    /// A cursor at the top of column `column`.
    pub fn column_iterator(maze: &'a Maze, column: usize) -> (cells: MazeIterator<'a>)
        requires
            maze.wf(),
            column < maze@.grid.width,
        ensures
            cells.wf(),
            cells@ == maze@.grid.column(column as int),
    {
        let ghost g = maze@.grid;
        let step = maze.width;
        let cells = MazeIterator {
            maze: maze,
            current_index: column,
            remaining: maze.height,
            step: step,
        };
        proof {
            lemma_index_bounds(g, column as int, g.height - 1);
            assert(cells@ =~= g.column(column as int));
        }
        cells
    }

    /// The next cell, if there is one.
    pub fn next(&mut self) -> (cell: Option<MazeSpace>)
        requires
            old(self).wf(),
        ensures
            final(self).wf(),
            match cell {
                Some(space) => old(self)@.len() > 0 && space == old(self)@[0] && final(self)@ == old(
                    self,
                )@.drop_first(),
                None => old(self)@.len() == 0 && final(self)@ == old(self)@,
            },
    {
        if self.remaining == 0 {
            return None;
        }
        let ghost before = *self;
        proof {
            let last = self.remaining - 1;
            let step = self.step as int;
            assert(0 <= last * step) by (nonlinear_arith)
                requires
                    last >= 0,
                    step >= 0,
            ;
            assert(0 * step == 0) by (nonlinear_arith);
            if last >= 1 {
                assert(step + (last - 1) * step == last * step) by (nonlinear_arith);
                assert(0 <= (last - 1) * step) by (nonlinear_arith)
                    requires
                        last >= 1,
                        step >= 0,
                ;
            }
        }
        let result = self.maze.spaces[self.current_index];
        self.remaining = self.remaining - 1;
        if self.remaining > 0 {
            self.current_index = self.current_index + self.step;
        }
        proof {
            let step = self.step as int;
            assert forall|k: int| 0 <= k < self@.len() implies self@[k] == before@.drop_first()[k] by {
                assert(step + k * step == (k + 1) * step) by (nonlinear_arith);
            }
            assert(self@ =~= before@.drop_first());
        }
        Some(result)
    }
}

/// A cursor over the rows of a maze.
pub struct MazeRowIterator<'a> {
    maze: &'a Maze,
    current_row: usize,
}

impl<'a> View for MazeRowIterator<'a> {
    type V = Seq<Seq<MazeSpace>>;

    /// The rows that are still to come.
    closed spec fn view(&self) -> Seq<Seq<MazeSpace>> {
        self.maze@.grid.rows_from(self.current_row as int)
    }
}

impl<'a> MazeRowIterator<'a> {
    /// The cursor is on a row of a finished maze, or past the last one.
    pub closed spec fn wf(&self) -> bool {
        self.maze.wf() && self.current_row <= self.maze.height
    }

    /// A cursor at the first row.
    pub fn new(maze: &'a Maze) -> (rows: MazeRowIterator<'a>)
        requires
            maze.wf(),
        ensures
            rows.wf(),
            rows@ == maze@.grid.rows(),
    {
        MazeRowIterator { maze: maze, current_row: 0 }
    }

    /// The next row, if there is one.
    pub fn next(&mut self) -> (row: Option<MazeIterator<'a>>)
        requires
            old(self).wf(),
        ensures
            final(self).wf(),
            match row {
                Some(cells) => cells.wf() && old(self)@.len() > 0 && cells@ == old(self)@[0]
                    && final(self)@ == old(self)@.drop_first(),
                None => old(self)@.len() == 0 && final(self)@ == old(self)@,
            },
    {
        if self.current_row >= self.maze.height {
            return None;
        }
        let result = self.maze.row(self.current_row);
        self.current_row = self.current_row + 1;
        proof {
            assert(self@ =~= old(self)@.drop_first());
        }
        Some(result)
    }
}

/// Every room of a finished maze can be reached from the origin.
pub proof fn law_rooms_reachable(maze: MazeModel, x: int, y: int)
    requires
        maze.wf(),
        maze.grid.is_room(x, y),
    ensures
        maze.grid.passable(x, y),
        maze.grid.connected((0, 0), (x, y)),
{
    assert(maze.grid.lattice_cell(x, y));
}

/// The goal of a finished maze is marked as the goal, and it can be reached
/// from the origin in `goal_steps` steps.
pub proof fn law_goal_reachable(maze: MazeModel)
    requires
        maze.wf(),
    ensures
        maze.grid.at(maze.goal.0, maze.goal.1) == MazeSpace::Goal,
        maze.grid.connected((0, 0), maze.goal),
        exists|t: Seq<Cell>|
            #[trigger] maze.grid.is_trail(t) && t.last() == maze.goal && t.len() == maze.goal_steps
                + 1,
{
    let t = choose|t: Seq<Cell>| maze.grid.is_trail(t) && #[trigger] candidate_of(t) == maze.best();
    assert(maze.grid.passable(t[t.len() - 1].0, t[t.len() - 1].1));
    assert(maze.grid.is_trail(t) && t.last() == maze.goal && t.len() == maze.goal_steps + 1);
}

/// The goal is as far from the origin as `goal_steps` says: every trail
/// to it has that many steps.
pub proof fn law_goal_steps(maze: MazeModel, t: Seq<Cell>)
    requires
        maze.wf(),
        maze.grid.is_trail(t),
        t.last() == maze.goal,
    ensures
        t.len() == maze.goal_steps + 1,
{
    let w = choose|w: Seq<Cell>| maze.grid.is_trail(w) && #[trigger] candidate_of(w) == maze.best();
    law_one_simple_path(maze.grid, w, t);
}

/// The way to the goal leads through as many passages as rooms after the
/// origin, so its number of steps is even.
pub proof fn law_goal_steps_even(maze: MazeModel)
    requires
        maze.wf(),
    ensures
        maze.goal_steps % 2 == 0,
        maze.goal_steps >= 0,
{
    let t = choose|t: Seq<Cell>| maze.grid.is_trail(t) && #[trigger] candidate_of(t) == maze.best();
    lemma_path_parity(maze.grid, t, t.len() - 1);
}

/// The goal search decides by the passable cells alone: two finished mazes
/// of one shape with the same passable cells have the same goal at the same
/// distance.
pub proof fn law_goal_determined(a: MazeModel, b: MazeModel)
    requires
        a.wf(),
        b.wf(),
        a.grid.width == b.grid.width,
        a.grid.height == b.grid.height,
        forall|x: int, y: int| a.grid.passable(x, y) == b.grid.passable(x, y),
    ensures
        a.goal == b.goal,
        a.goal_steps == b.goal_steps,
{
    let t = choose|t: Seq<Cell>| a.grid.is_trail(t) && #[trigger] candidate_of(t) == a.best();
    assert(b.grid.is_trail(t)) by {
        lemma_same_passable_same_paths(a.grid, b.grid, t);
    }
    assert forall|s: Seq<Cell>| b.grid.is_trail(s) implies !beats(
        #[trigger] candidate_of(s),
        a.best(),
    ) by {
        lemma_same_passable_same_paths(b.grid, a.grid, s);
    }
    law_goal_choice_unique(b.grid, a.best(), b.best());
}

proof fn lemma_same_passable_same_paths(g: Grid, other: Grid, p: Seq<Cell>)
    requires
        forall|x: int, y: int| g.passable(x, y) == other.passable(x, y),
        g.is_path(p),
    ensures
        other.is_path(p),
{
    assert forall|k: int| 0 <= k < p.len() implies other.passable((#[trigger] p[k]).0, p[k].1) by {
        assert(g.passable(p[k].0, p[k].1));
    }
    assert forall|k: int| 0 <= k < p.len() - 1 implies #[trigger] step_ok(p, k) by {
        assert(step_ok(p, k));
    }
}

} // verus!
