use one_d::maze::Maze;
use one_d::player::{attempt_move, flip_view, move_player, MazeView, Point};

fn comb() -> Maze {
    // X   X
    // XXX X
    // X*  X
    Maze::with_orders(2, 2, vec![8, 6, 2, 0], vec![8, 6, 2, 0])
}

#[test]
fn view_flips_back_and_forth() {
    assert_eq!(flip_view(MazeView::Row), MazeView::Column);
    assert_eq!(flip_view(MazeView::Column), MazeView::Row);
    assert_eq!(flip_view(flip_view(MazeView::Row)), MazeView::Row);
}

#[test]
fn player_moves_along_open_cells() {
    let maze = comb();
    assert_eq!(attempt_move(&maze, Point(0, 0), 1, 0), Point(1, 0));
    assert_eq!(attempt_move(&maze, Point(1, 0), 1, 0), Point(2, 0));
    assert_eq!(attempt_move(&maze, Point(2, 0), 0, 1), Point(2, 1));
    assert_eq!(attempt_move(&maze, Point(2, 1), 0, 1), Point(2, 2));
    assert_eq!(attempt_move(&maze, Point(2, 2), -1, 0), Point(1, 2));
    assert_eq!(attempt_move(&maze, Point(1, 2), -1, 0), Point(0, 2));
    assert_eq!(attempt_move(&maze, Point(1, 0), -1, 0), Point(0, 0));
}

#[test]
fn player_stops_at_walls_and_edges() {
    let maze = comb();
    // wall below the origin
    assert_eq!(attempt_move(&maze, Point(0, 0), 0, 1), Point(0, 0));
    // the left and the upper edge
    assert_eq!(attempt_move(&maze, Point(0, 0), -1, 0), Point(0, 0));
    assert_eq!(attempt_move(&maze, Point(0, 0), 0, -1), Point(0, 0));
    // the right edge
    assert_eq!(attempt_move(&maze, Point(2, 0), 1, 0), Point(2, 0));
    // the lower edge
    assert_eq!(attempt_move(&maze, Point(2, 2), 0, 1), Point(2, 2));
    // steps that lead far outside
    assert_eq!(attempt_move(&maze, Point(1, 0), -5, 0), Point(1, 0));
    assert_eq!(attempt_move(&maze, Point(1, 0), i32::MIN, 0), Point(1, 0));
    assert_eq!(attempt_move(&maze, Point(1, 0), i32::MAX, i32::MAX), Point(1, 0));
}

#[test]
fn player_on_the_goal_stays() {
    let maze = comb();
    assert_eq!(maze.goal(), (0, 2));
    assert_eq!(attempt_move(&maze, Point(0, 2), 1, 0), Point(0, 2));
    assert_eq!(attempt_move(&maze, Point(0, 2), 0, -1), Point(0, 2));
}

#[test]
fn a_step_taken_at_zero_on_one_axis_still_moves_the_other() {
    // X   X
    // X X X
    // X X*X
    let maze = Maze::with_orders(2, 2, vec![0, 2, 6, 8], vec![0, 2, 6, 8]);
    // at column zero a step to the left is dropped, the step down is taken
    assert_eq!(attempt_move(&maze, Point(0, 0), -1, 1), Point(0, 1));
    // at row zero a step up is dropped, the step to the right is taken
    assert_eq!(attempt_move(&maze, Point(0, 0), 1, -1), Point(1, 0));
    // a longer step is taken when it ends on an open cell
    assert_eq!(attempt_move(&maze, Point(2, 0), 0, 2), Point(2, 2));
    assert_eq!(attempt_move(&maze, Point(0, 0), 2, 0), Point(2, 0));
    // and refused when it ends on a wall
    assert_eq!(attempt_move(&maze, Point(0, 0), 1, 1), Point(0, 0));
}

#[test]
fn player_moves_along_the_line_shown() {
    let maze = comb();
    assert_eq!(move_player(&maze, Point(1, 0), MazeView::Row, 1), Point(2, 0));
    assert_eq!(move_player(&maze, Point(1, 0), MazeView::Row, -1), Point(0, 0));
    assert_eq!(move_player(&maze, Point(2, 1), MazeView::Column, 1), Point(2, 2));
    assert_eq!(move_player(&maze, Point(2, 1), MazeView::Column, -1), Point(2, 0));
    assert_eq!(move_player(&maze, Point(1, 0), MazeView::Column, 1), Point(1, 0));
}
