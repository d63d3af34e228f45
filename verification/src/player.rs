//! The player in the maze: a position, seen along its row or its column, and
//! the rule by which it moves.

use crate::grid::Cell;
use crate::maze::{Maze, MazeModel};
use vstd::prelude::*;

verus! {

/// A position: column, then row.
#[derive(Copy, Clone, PartialEq, Eq, Structural, Debug)]
pub struct Point(pub usize, pub usize);

/// The line of the maze that is shown: the row or the column of the player.
#[derive(Copy, Clone, PartialEq, Eq, Structural, Debug)]
pub enum MazeView {
    Row,
    Column,
}

/// The other view.
pub open spec fn flipped(view: MazeView) -> MazeView {
    match view {
        MazeView::Row => MazeView::Column,
        MazeView::Column => MazeView::Row,
    }
}

/// Where a coordinate is after a step: a step to the left of (or above)
/// zero is not taken.
pub open spec fn stepped(at: int, step: int) -> int {
    if at > 0 || step >= 0 {
        at + step
    } else {
        at
    }
}

/// Where the player is after an attempted move by `(x_step, y_step)`: on
/// the goal it stays; elsewhere it moves if the cell it would come to is in
/// the grid and no wall.
pub open spec fn moved(maze: MazeModel, from: Cell, x_step: int, y_step: int) -> Cell {
    let to: Cell = (stepped(from.0, x_step), stepped(from.1, y_step));
    if from != maze.goal && maze.grid.passable(to.0, to.1) {
        to
    } else {
        from
    }
}

/// The coordinate after the step, or nothing where it would lie to the left
/// of zero or beyond `usize::MAX`.
fn step_coordinate(at: usize, step: i32) -> (to: Option<usize>)
    ensures
        match to {
            Some(to) => to == stepped(at as int, step as int),
            None => stepped(at as int, step as int) < 0 || stepped(at as int, step as int)
                > usize::MAX,
        },
{
    if step >= 0 {
        at.checked_add(step as usize)
    } else if at == 0 {
        Some(at)
    } else {
        let back = (-(step as i64)) as usize;
        at.checked_sub(back)
    }
}

/// Flips between the row and the column view.
pub fn flip_view(view: MazeView) -> (other: MazeView)
    ensures
        other == flipped(view),
{
    match view {
        MazeView::Row => MazeView::Column,
        MazeView::Column => MazeView::Row,
    }
}

/// Moves the player by `step` along the line that is shown.
pub fn move_player(maze: &Maze, position: Point, view: MazeView, step: i32) -> (after: Point)
    requires
        maze.wf(),
    ensures
        (after.0 as int, after.1 as int) == match view {
            MazeView::Row => moved(maze@, (position.0 as int, position.1 as int), step as int, 0),
            MazeView::Column => moved(maze@, (position.0 as int, position.1 as int), 0, step as int),
        },
{
    match view {
        MazeView::Row => attempt_move(maze, position, step, 0),
        MazeView::Column => attempt_move(maze, position, 0, step),
    }
}

/// Moves the player by `(x_step, y_step)` if the rule of `moved` lets it.
pub fn attempt_move(maze: &Maze, position: Point, x_step: i32, y_step: i32) -> (after: Point)
    requires
        maze.wf(),
    ensures
        (after.0 as int, after.1 as int) == moved(
            maze@,
            (position.0 as int, position.1 as int),
            x_step as int,
            y_step as int,
        ),
{
    let Point(x, y) = position;
    proof {
        maze.lemma_model_bounds();
    }
    if maze.is_goal(x, y) {
        return position;
    }
    let to_x = step_coordinate(x, x_step);
    let to_y = step_coordinate(y, y_step);
    match (to_x, to_y) {
        (Some(to_x), Some(to_y)) => {
            if maze.is_valid_space(to_x, to_y) {
                Point(to_x, to_y)
            } else {
                position
            }
        },
        _ => position,
    }
}

} // verus!
