use one_d::maze::Maze;

#[test]
fn carving_case_3_by_4_a() {
    let east = vec![4, 10, 32, 14, 2, 12, 0, 22, 34, 24, 20, 30];
    let south = vec![10, 32, 14, 2, 34, 30, 20, 24, 22, 0, 12, 4];
    let maze = Maze::with_orders(3, 4, east, south);
    assert_eq!(maze.to_string(), "3x4 Maze:\nXXXXXXX\nX     X\nXXX XXX\nX     X\nX XXX X\nX X   X\nX XXX X\nX X*  X\nXXXXXXX");
    assert_eq!(maze.goal(), (2, 6));
    assert_eq!(maze.goal_distance(), 6);
}

#[test]
fn carving_case_3_by_4_b() {
    let east = vec![34, 30, 14, 12, 24, 2, 22, 32, 20, 0, 4, 10];
    let south = vec![32, 20, 2, 10, 14, 30, 0, 24, 22, 34, 4, 12];
    let maze = Maze::with_orders(3, 4, east, south);
    assert_eq!(maze.to_string(), "3x4 Maze:\nXXXXXXX\nX X  *X\nX X XXX\nX X   X\nX XXX X\nX X   X\nX XXX X\nX     X\nXXXXXXX");
    assert_eq!(maze.goal(), (4, 0));
    assert_eq!(maze.goal_distance(), 10);
}

#[test]
fn carving_case_4_by_4_a() {
    let east = vec![0, 4, 6, 18, 2, 44, 14, 46, 20, 28, 34, 42, 48, 16, 30, 32];
    let south = vec![4, 34, 28, 14, 44, 2, 6, 32, 30, 16, 0, 18, 48, 46, 20, 42];
    let maze = Maze::with_orders(4, 4, east, south);
    assert_eq!(maze.to_string(), "4x4 Maze:\nXXXXXXXXX\nX       X\nXXX X XXX\nX   X   X\nX XXXXXXX\nX   X X*X\nX X X X X\nX X     X\nXXXXXXXXX");
    assert_eq!(maze.goal(), (6, 4));
    assert_eq!(maze.goal_distance(), 9);
}

#[test]
fn carving_case_4_by_4_b() {
    let east = vec![4, 44, 46, 2, 30, 16, 0, 32, 14, 42, 6, 28, 34, 48, 20, 18];
    let south = vec![30, 4, 18, 28, 2, 0, 34, 32, 48, 44, 6, 42, 46, 14, 20, 16];
    let maze = Maze::with_orders(4, 4, east, south);
    assert_eq!(maze.to_string(), "4x4 Maze:\nXXXXXXXXX\nX       X\nX X X X X\nX X X X X\nXXXXX XXX\nX X   X*X\nX X XXX X\nX       X\nXXXXXXXXX");
    assert_eq!(maze.goal(), (6, 4));
    assert_eq!(maze.goal_distance(), 9);
}

#[test]
fn carving_case_5_by_3_a() {
    let east = vec![6, 40, 24, 18, 26, 4, 2, 8, 0, 36, 44, 20, 38, 42, 22];
    let south = vec![8, 6, 42, 4, 44, 22, 40, 36, 20, 26, 2, 38, 18, 0, 24];
    let maze = Maze::with_orders(5, 3, east, south);
    assert_eq!(maze.to_string(), "5x3 Maze:\nXXXXXXXXXXX\nX         X\nXXX X X X X\nX   X X X X\nXXX X XXX X\nX   X   X*X\nXXXXXXXXXXX");
    assert_eq!(maze.goal(), (8, 4));
    assert_eq!(maze.goal_distance(), 6);
}

#[test]
fn carving_case_5_by_3_b() {
    let east = vec![36, 38, 18, 40, 4, 0, 8, 6, 2, 42, 22, 44, 26, 24, 20];
    let south = vec![42, 38, 0, 8, 20, 24, 2, 4, 36, 40, 22, 26, 6, 18, 44];
    let maze = Maze::with_orders(5, 3, east, south);
    assert_eq!(maze.to_string(), "5x3 Maze:\nXXXXXXXXXXX\nX         X\nX XXX XXX X\nX   X X X X\nXXX XXX XXX\nX        *X\nXXXXXXXXXXX");
    assert_eq!(maze.goal(), (8, 4));
    assert_eq!(maze.goal_distance(), 6);
}

#[test]
fn carving_case_1_by_6_a() {
    let east = vec![10, 8, 4, 0, 2, 6];
    let south = vec![8, 0, 6, 2, 4, 10];
    let maze = Maze::with_orders(1, 6, east, south);
    assert_eq!(maze.to_string(), "1x6 Maze:\nXXX\nX X\nX X\nX X\nX X\nX X\nX X\nX X\nX X\nX X\nX X\nX*X\nXXX");
    assert_eq!(maze.goal(), (0, 10));
    assert_eq!(maze.goal_distance(), 5);
}

#[test]
fn carving_case_1_by_6_b() {
    let east = vec![4, 8, 0, 6, 10, 2];
    let south = vec![8, 0, 6, 4, 10, 2];
    let maze = Maze::with_orders(1, 6, east, south);
    assert_eq!(maze.to_string(), "1x6 Maze:\nXXX\nX X\nX X\nX X\nX X\nX X\nX X\nX X\nX X\nX X\nX X\nX*X\nXXX");
    assert_eq!(maze.goal(), (0, 10));
    assert_eq!(maze.goal_distance(), 5);
}

#[test]
fn carving_case_6_by_1_a() {
    let east = vec![4, 2, 6, 10, 8, 0];
    let south = vec![0, 4, 8, 2, 10, 6];
    let maze = Maze::with_orders(6, 1, east, south);
    assert_eq!(maze.to_string(), "6x1 Maze:\nXXXXXXXXXXXXX\nX          *X\nXXXXXXXXXXXXX");
    assert_eq!(maze.goal(), (10, 0));
    assert_eq!(maze.goal_distance(), 5);
}

#[test]
fn carving_case_6_by_1_b() {
    let east = vec![0, 4, 2, 8, 6, 10];
    let south = vec![4, 0, 10, 6, 2, 8];
    let maze = Maze::with_orders(6, 1, east, south);
    assert_eq!(maze.to_string(), "6x1 Maze:\nXXXXXXXXXXXXX\nX          *X\nXXXXXXXXXXXXX");
    assert_eq!(maze.goal(), (10, 0));
    assert_eq!(maze.goal_distance(), 5);
}

#[test]
fn carving_case_2_by_5_a() {
    let east = vec![24, 8, 26, 6, 2, 0, 18, 12, 14, 20];
    let south = vec![12, 18, 6, 2, 8, 24, 20, 26, 14, 0];
    let maze = Maze::with_orders(2, 5, east, south);
    assert_eq!(maze.to_string(), "2x5 Maze:\nXXXXX\nX   X\nXXX X\nX   X\nX X X\nX X X\nX XXX\nX   X\nX XXX\nX  *X\nXXXXX");
    assert_eq!(maze.goal(), (2, 8));
    assert_eq!(maze.goal_distance(), 7);
}

#[test]
fn carving_case_2_by_5_b() {
    let east = vec![14, 0, 20, 8, 12, 24, 18, 6, 2, 26];
    let south = vec![18, 20, 6, 2, 14, 12, 0, 8, 26, 24];
    let maze = Maze::with_orders(2, 5, east, south);
    assert_eq!(maze.to_string(), "2x5 Maze:\nXXXXX\nX   X\nX X X\nX X X\nX XXX\nX   X\nXXX X\nX*X X\nX X X\nX   X\nXXXXX");
    assert_eq!(maze.goal(), (0, 6));
    assert_eq!(maze.goal_distance(), 7);
}

#[test]
fn carving_case_7_by_6_a() {
    let east = vec![54, 110, 78, 34, 134, 6, 62, 0, 84, 116, 58, 4, 142, 86, 60, 88, 52, 140, 130, 26, 64, 36, 82, 104, 132, 28, 112, 8, 30, 108, 38, 2, 32, 56, 138, 114, 90, 10, 12, 136, 106, 80];
    let south = vec![84, 54, 90, 142, 130, 108, 30, 112, 86, 4, 82, 28, 2, 88, 140, 52, 60, 136, 56, 38, 138, 26, 104, 58, 62, 6, 36, 0, 34, 10, 132, 110, 116, 64, 8, 114, 12, 106, 80, 134, 78, 32];
    let maze = Maze::with_orders(7, 6, east, south);
    assert_eq!(maze.to_string(), "7x6 Maze:\nXXXXXXXXXXXXXXX\nX   X       X X\nXXX X X XXXXX X\nX   X X X*    X\nXXX X XXXXXXX X\nX X   X       X\nX X X XXX XXXXX\nX   X         X\nXXXXX X XXX X X\nX   X X   X X X\nX XXX XXX XXX X\nX       X X   X\nXXXXXXXXXXXXXXX");
    assert_eq!(maze.goal(), (8, 2));
    assert_eq!(maze.goal_distance(), 13);
}

#[test]
fn carving_case_7_by_6_b() {
    let east = vec![28, 116, 86, 52, 56, 108, 2, 104, 8, 32, 30, 0, 6, 34, 84, 36, 134, 112, 142, 54, 106, 26, 62, 138, 82, 78, 136, 140, 12, 130, 64, 10, 80, 88, 110, 132, 4, 90, 38, 60, 114, 58];
    let south = vec![34, 84, 30, 36, 104, 82, 64, 138, 12, 26, 10, 130, 52, 62, 88, 142, 132, 6, 0, 90, 106, 110, 140, 134, 78, 80, 28, 38, 112, 54, 108, 114, 86, 8, 2, 56, 136, 116, 4, 58, 60, 32];
    let maze = Maze::with_orders(7, 6, east, south);
    assert_eq!(maze.to_string(), "7x6 Maze:\nXXXXXXXXXXXXXXX\nX     X     X X\nX XXXXXXXXX X X\nX X           X\nX XXX XXX X XXX\nX       X X   X\nX XXXXXXXXX X X\nX   X X     X X\nXXXXX X XXX X X\nX       X   X X\nX X XXX XXXXXXX\nX*X X         X\nXXXXXXXXXXXXXXX");
    assert_eq!(maze.goal(), (0, 10));
    assert_eq!(maze.goal_distance(), 17);
}

