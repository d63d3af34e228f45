use one_d::maze::{Maze, MazeSpace};

fn cells(maze: &Maze) -> Vec<Vec<MazeSpace>> {
    let mut all = Vec::new();
    let mut rows = maze.rows();
    while let Some(mut row) = rows.next() {
        let mut line = Vec::new();
        while let Some(space) = row.next() {
            line.push(space);
        }
        all.push(line);
    }
    all
}

fn is_room(x: usize, y: usize) -> bool {
    x % 2 == 0 && y % 2 == 0
}

fn count_open_passages(maze: &Maze) -> usize {
    let grid = cells(maze);
    let mut count = 0;
    for y in 0..maze.height() {
        for x in 0..maze.width() {
            if !is_room(x, y) && grid[y][x] == MazeSpace::Open {
                count += 1;
            }
        }
    }
    count
}

fn count_goals(maze: &Maze) -> usize {
    cells(maze).iter().flatten().filter(|&&space| space == MazeSpace::Goal).count()
}

/// Distance from the origin to every cell that can be reached, by breadth.
fn distances(maze: &Maze) -> Vec<Vec<Option<usize>>> {
    let (w, h) = (maze.width(), maze.height());
    let mut dist = vec![vec![None; w]; h];
    let mut queue = std::collections::VecDeque::new();
    dist[0][0] = Some(0);
    queue.push_back((0usize, 0usize));
    while let Some((x, y)) = queue.pop_front() {
        let d = dist[y][x].unwrap();
        let mut next = Vec::new();
        if x > 0 {
            next.push((x - 1, y));
        }
        if y > 0 {
            next.push((x, y - 1));
        }
        next.push((x + 1, y));
        next.push((x, y + 1));
        for (nx, ny) in next {
            if maze.is_valid_space(nx, ny) && dist[ny][nx].is_none() {
                dist[ny][nx] = Some(d + 1);
                queue.push_back((nx, ny));
            }
        }
    }
    dist
}

fn check_perfect(maze: &Maze, width: usize, height: usize) {
    assert_eq!(maze.width(), 2 * width - 1);
    assert_eq!(maze.height(), 2 * height - 1);
    assert_eq!(maze.size(), (width, height));
    let grid = cells(maze);
    let dist = distances(maze);
    for y in 0..maze.height() {
        for x in 0..maze.width() {
            if is_room(x, y) {
                assert!(maze.is_valid_space(x, y));
                assert!(dist[y][x].is_some(), "room ({}, {}) cannot be reached", x, y);
            }
            if x % 2 == 1 && y % 2 == 1 {
                assert_eq!(grid[y][x], MazeSpace::Wall);
            }
            assert_eq!(maze.is_valid_space(x, y), grid[y][x] != MazeSpace::Wall);
            assert_eq!(maze.is_goal(x, y), grid[y][x] == MazeSpace::Goal);
        }
    }
    assert_eq!(count_open_passages(maze), width * height - 1);
    assert_eq!(count_goals(maze), 1);
    // the goal is the farthest cell; among equals the lowest, then the leftmost
    let (gx, gy) = maze.goal();
    assert!(maze.is_goal(gx, gy));
    // two steps on the grid for each room on the way
    assert_eq!(dist[gy][gx], Some(2 * maze.goal_distance()));
    for y in 0..maze.height() {
        for x in 0..maze.width() {
            if let Some(d) = dist[y][x] {
                let key = (d, y, std::cmp::Reverse(x));
                assert!(key <= (2 * maze.goal_distance(), gy, std::cmp::Reverse(gx)));
            }
        }
    }
}

#[test]
fn single_room_is_the_goal() {
    let maze = Maze::new(1, 1);
    assert_eq!(maze.width(), 1);
    assert_eq!(maze.height(), 1);
    assert_eq!(maze.size(), (1, 1));
    assert!(maze.is_goal(0, 0));
    assert!(maze.is_valid_space(0, 0));
    assert_eq!(maze.goal(), (0, 0));
    assert_eq!(maze.goal_distance(), 0);
    assert_eq!(cells(&maze), vec![vec![MazeSpace::Goal]]);
    assert_eq!(count_open_passages(&maze), 0);
    assert_eq!(maze.to_string(), "1x1 Maze:\nXXX\nX*X\nXXX");
}

#[test]
fn two_rooms_in_a_row_are_joined() {
    let maze = Maze::new(2, 1);
    assert_eq!(maze.width(), 3);
    assert_eq!(maze.height(), 1);
    assert_eq!(
        cells(&maze),
        vec![vec![MazeSpace::Open, MazeSpace::Open, MazeSpace::Goal]]
    );
    assert!(maze.is_valid_space(1, 0));
    assert!(maze.is_goal(2, 0));
    assert!(!maze.is_goal(0, 0));
    assert_eq!(maze.goal(), (2, 0));
    assert_eq!(maze.goal_distance(), 1);
    assert_eq!(maze.to_string(), "2x1 Maze:\nXXXXX\nX  *X\nXXXXX");
}

#[test]
fn two_rooms_in_a_column_are_joined() {
    let maze = Maze::new(1, 2);
    assert_eq!(maze.width(), 1);
    assert_eq!(maze.height(), 3);
    assert_eq!(
        cells(&maze),
        vec![vec![MazeSpace::Open], vec![MazeSpace::Open], vec![MazeSpace::Goal]]
    );
    assert_eq!(maze.goal(), (0, 2));
    assert_eq!(maze.to_string(), "1x2 Maze:\nXXX\nX X\nX X\nX*X\nXXX");
}

#[test]
fn wall_between_rooms_is_no_valid_space() {
    let maze = Maze::with_orders(2, 2, vec![0, 2, 6, 8], vec![0, 2, 6, 8]);
    // the corner between the four rooms is always a wall
    assert!(!maze.is_valid_space(1, 1));
    // the passage between the two lower rooms stayed closed
    assert!(!maze.is_valid_space(1, 2));
    assert!(!maze.is_goal(1, 1));
    for _ in 0..20 {
        let random = Maze::new(3, 3);
        assert!(!random.is_valid_space(1, 1));
        assert!(!random.is_valid_space(3, 1));
        assert!(!random.is_valid_space(1, 3));
        assert!(!random.is_valid_space(3, 3));
    }
}

#[test]
fn positions_outside_the_grid_are_neither_valid_nor_goal() {
    let maze = Maze::new(2, 2);
    assert!(!maze.is_valid_space(3, 0));
    assert!(!maze.is_valid_space(0, 3));
    assert!(!maze.is_valid_space(usize::MAX, usize::MAX));
    assert!(!maze.is_goal(3, 0));
    assert!(!maze.is_goal(0, 3));
    assert!(!maze.is_goal(usize::MAX, 1));
}

#[test]
fn five_by_five_maze_is_a_spanning_tree() {
    let maze = Maze::new(5, 5);
    assert_eq!(maze.width(), 9);
    assert_eq!(maze.height(), 9);
    assert_eq!(count_open_passages(&maze), 24);
    check_perfect(&maze, 5, 5);
    let text = maze.to_string();
    let lines: Vec<&str> = text.split('\n').collect();
    assert_eq!(lines[0], "5x5 Maze:");
    assert_eq!(lines.len(), 12);
    assert_eq!(lines[1], "XXXXXXXXXXX");
    assert_eq!(lines[11], "XXXXXXXXXXX");
    for line in &lines[2..11] {
        assert_eq!(line.chars().count(), 11);
        assert!(line.starts_with('X'));
        assert!(line.ends_with('X'));
    }
}

#[test]
fn text_shows_each_cell() {
    let maze = Maze::new(4, 3);
    let grid = cells(&maze);
    let text = maze.to_string();
    let lines: Vec<&str> = text.split('\n').collect();
    assert_eq!(lines[0], "4x3 Maze:");
    assert_eq!(lines.len(), 5 + 3);
    for y in 0..5 {
        let line: Vec<char> = lines[y + 2].chars().collect();
        for x in 0..7 {
            let expected = match grid[y][x] {
                MazeSpace::Wall => 'X',
                MazeSpace::Open => ' ',
                MazeSpace::Goal => '*',
            };
            assert_eq!(line[x + 1], expected);
        }
    }
    assert_eq!(text.matches('*').count(), 1);
}

#[test]
fn header_counts_rooms_with_several_digits() {
    let maze = Maze::new(12, 1);
    let text = maze.to_string();
    assert!(text.starts_with("12x1 Maze:\n"));
    let wide = Maze::new(1, 105);
    assert!(wide.to_string().starts_with("1x105 Maze:\nXXX\nX X\n"));
}

#[test]
fn mazes_of_many_sizes_are_perfect() {
    for width in 1..7 {
        for height in 1..7 {
            let maze = Maze::new(width, height);
            check_perfect(&maze, width, height);
        }
    }
}

#[test]
fn given_orders_give_the_expected_maze() {
    let maze = Maze::with_orders(2, 2, vec![0, 2, 6, 8], vec![0, 2, 6, 8]);
    assert_eq!(maze.to_string(), "2x2 Maze:\nXXXXX\nX   X\nX X X\nX X*X\nXXXXX");
    assert_eq!(maze.goal(), (2, 2));
    assert_eq!(maze.goal_distance(), 2);
    check_perfect(&maze, 2, 2);

    let other = Maze::with_orders(2, 2, vec![8, 6, 2, 0], vec![8, 6, 2, 0]);
    assert_eq!(other.to_string(), "2x2 Maze:\nXXXXX\nX   X\nXXX X\nX*  X\nXXXXX");
    assert_eq!(other.goal(), (0, 2));
    assert_eq!(other.goal_distance(), 3);
    check_perfect(&other, 2, 2);
}

#[test]
fn east_candidate_in_the_last_column_opens_nothing() {
    // room 2 is in the last column: as the first eastward candidate it has
    // no room to its east, and the passage below it stays closed
    let maze = Maze::with_orders(2, 2, vec![2, 0, 6, 8], vec![0, 6, 8, 2]);
    assert_eq!(maze.to_string(), "2x2 Maze:\nXXXXX\nX   X\nX XXX\nX  *X\nXXXXX");
    assert_eq!(maze.goal(), (2, 2));
    assert_eq!(maze.goal_distance(), 2);
    check_perfect(&maze, 2, 2);
}

#[test]
fn goal_tie_goes_to_the_leftmost_of_the_lowest() {
    // two trails of eight steps end in the bottom row, at (0, 4) and (4, 4)
    let east = vec![0, 2, 10, 4, 14, 24, 12, 20, 22];
    let south = vec![2, 10, 4, 14, 12, 0, 20, 22, 24];
    let maze = Maze::with_orders(3, 3, east, south);
    assert_eq!(
        maze.to_string(),
        "3x3 Maze:\nXXXXXXX\nX     X\nXXX X X\nX   X X\nX X X X\nX*X X X\nXXXXXXX"
    );
    assert_eq!(maze.goal(), (0, 4));
    assert_eq!(maze.goal_distance(), 4);
    check_perfect(&maze, 3, 3);
}

#[test]
fn goal_tie_goes_to_the_lowest() {
    // two trails of eight steps end at (2, 2) and at (4, 4)
    let east = vec![0, 2, 20, 4, 14, 24, 10, 12, 22];
    let south = vec![4, 14, 0, 10, 12, 2, 20, 22, 24];
    let maze = Maze::with_orders(3, 3, east, south);
    assert_eq!(
        maze.to_string(),
        "3x3 Maze:\nXXXXXXX\nX     X\nX XXX X\nX X X X\nX X X X\nX   X*X\nXXXXXXX"
    );
    assert_eq!(maze.goal(), (4, 4));
    assert_eq!(maze.goal_distance(), 4);
    check_perfect(&maze, 3, 3);
}

#[test]
fn goal_search_is_deterministic() {
    let east = vec![12, 0, 24, 4, 20, 2, 10, 14, 22];
    let south = vec![2, 22, 14, 0, 10, 24, 4, 12, 20];
    let first = Maze::with_orders(3, 3, east.clone(), south.clone());
    let second = Maze::with_orders(3, 3, east, south);
    assert_eq!(first.goal(), second.goal());
    assert_eq!(first.goal_distance(), second.goal_distance());
    assert_eq!(cells(&first), cells(&second));
    check_perfect(&first, 3, 3);
}

#[test]
fn rows_in_turn_are_the_grid_row_by_row() {
    let maze = Maze::new(4, 3);
    let by_rows: Vec<MazeSpace> = cells(&maze).into_iter().flatten().collect();
    let mut by_index = Vec::new();
    for y in 0..maze.height() {
        let mut row = maze.row(y);
        while let Some(space) = row.next() {
            by_index.push(space);
        }
    }
    assert_eq!(by_rows.len(), 7 * 5);
    assert_eq!(by_rows, by_index);
    for y in 0..maze.height() {
        for x in 0..maze.width() {
            let space = by_rows[x + y * maze.width()];
            assert_eq!(space != MazeSpace::Wall, maze.is_valid_space(x, y));
            assert_eq!(space == MazeSpace::Goal, maze.is_goal(x, y));
        }
    }
}

#[test]
fn columns_cross_the_rows() {
    let maze = Maze::new(3, 4);
    let grid = cells(&maze);
    for x in 0..maze.width() {
        let mut column = maze.column(x);
        let mut seen = Vec::new();
        while let Some(space) = column.next() {
            seen.push(space);
        }
        assert_eq!(seen.len(), maze.height());
        for y in 0..maze.height() {
            assert_eq!(seen[y], grid[y][x]);
        }
        assert_eq!(column.next(), None);
    }
}

#[test]
fn a_row_can_be_walked_again() {
    let maze = Maze::new(3, 2);
    let mut first = Vec::new();
    let mut row = maze.row(2);
    while let Some(space) = row.next() {
        first.push(space);
    }
    assert_eq!(row.next(), None);
    assert_eq!(row.next(), None);
    let mut second = Vec::new();
    let mut row = maze.row(2);
    while let Some(space) = row.next() {
        second.push(space);
    }
    assert_eq!(first.len(), 5);
    assert_eq!(first, second);
}

#[test]
fn rows_end_after_the_last_row() {
    let maze = Maze::new(2, 2);
    let mut rows = maze.rows();
    let mut count = 0;
    while let Some(_) = rows.next() {
        count += 1;
    }
    assert_eq!(count, 3);
    assert!(rows.next().is_none());
}

#[test]
fn random_carving_varies() {
    let first = Maze::new(6, 6).to_string();
    let mut differs = false;
    for _ in 0..40 {
        if Maze::new(6, 6).to_string() != first {
            differs = true;
        }
    }
    assert!(differs);
}

#[test]
fn try_new_refuses_what_cannot_be_built() {
    assert!(Maze::try_new(0, 3).is_none());
    assert!(Maze::try_new(3, 0).is_none());
    assert!(Maze::try_new(0, 0).is_none());
    assert!(Maze::try_new(usize::MAX, 1).is_none());
    assert!(Maze::try_new(usize::MAX / 2 + 1, 2).is_none());
    assert!(Maze::try_new(1 << 31, 1 << 31).is_none());
    let maze = Maze::try_new(3, 2).unwrap();
    check_perfect(&maze, 3, 2);
}

#[test]
fn long_corridors_and_large_mazes_are_searched() {
    let corridor = Maze::new(20000, 1);
    assert_eq!(corridor.width(), 39999);
    assert_eq!(corridor.goal(), (39998, 0));
    assert_eq!(corridor.goal_distance(), 19999);
    let shaft = Maze::new(1, 20000);
    assert_eq!(shaft.goal(), (0, 39998));
    assert_eq!(shaft.goal_distance(), 19999);
    let large = Maze::new(150, 120);
    check_perfect(&large, 150, 120);
}

#[test]
fn room_order_lists_the_rooms_row_by_row() {
    assert_eq!(Maze::room_order(1, 1), vec![0]);
    assert_eq!(Maze::room_order(2, 1), vec![0, 2]);
    assert_eq!(Maze::room_order(1, 2), vec![0, 2]);
    assert_eq!(Maze::room_order(2, 2), vec![0, 2, 6, 8]);
    assert_eq!(Maze::room_order(3, 3), vec![0, 2, 4, 10, 12, 14, 20, 22, 24]);
    assert_eq!(Maze::room_order(7, 5).len(), 35);
    let order = Maze::room_order(3, 2);
    let maze = Maze::with_orders(3, 2, order.clone(), order);
    check_perfect(&maze, 3, 2);
    assert_eq!(maze.to_string(), "3x2 Maze:\nXXXXXXX\nX     X\nX X X X\nX X X*X\nXXXXXXX");
}
