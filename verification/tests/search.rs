use maze_search::Direction;
use maze_search::FieldState;
use maze_search::Maze;
use maze_search::MazeField;
use maze_search::NeighborReport;
use maze_search::Point;

/// Neighbor answers of an open 3x3 grid: the grid-adjacent cells of `p`,
/// with the finish flag set on `finish` when that cell is reported.
fn grid_neighbors(p: Point, finish: Option<Point>) -> Vec<NeighborReport> {
    let mut reports = Vec::new();
    let mut add = |x: usize, y: usize| {
        let flagged = finish == Some(Point::new(x, y));
        reports.push(NeighborReport::new(x, y, flagged));
    };
    if p.x > 0 {
        add(p.x - 1, p.y);
    }
    if p.x < 2 {
        add(p.x + 1, p.y);
    }
    if p.y > 0 {
        add(p.x, p.y - 1);
    }
    if p.y < 2 {
        add(p.x, p.y + 1);
    }
    reports
}

/// Run the whole search on the mock 3x3 grid, starting at (0, 0) moving
/// Right, until the finish is reached or the work list is exhausted.
fn run_search(finish: Option<Point>) -> (Option<usize>, Maze, usize) {
    let mut maze = Maze::new(String::from("mock://grid"));
    maze.insert_start(
        Point::new(0, 0),
        MazeField::new(0, Direction::Right, FieldState::InPriorityQueue),
    );
    let mut steps: usize = 0;
    loop {
        let front = match maze.queue_front() {
            None => return (None, maze, steps),
            Some(p) => p,
        };
        let reports = grid_neighbors(front, finish);
        let popped = maze.pop_queue_front_field(&reports).unwrap();
        assert_eq!(popped, front);
        steps += 1;
        assert!(steps <= 100, "the search failed to terminate");
        if let Some(turns) = maze.finish_reached(popped) {
            return (Some(turns), maze, steps);
        }
    }
}

#[test]
fn straight_line_finish_needs_no_turns() {
    let (found, _, _) = run_search(Some(Point::new(2, 0)));
    assert_eq!(found, Some(0));
}

#[test]
fn perpendicular_finish_needs_one_turn() {
    let (found, _, _) = run_search(Some(Point::new(0, 2)));
    assert_eq!(found, Some(1));
}

#[test]
fn reachable_finish_ends_in_found() {
    let (found, maze, _) = run_search(Some(Point::new(1, 2)));
    assert!(found.is_some());
    assert_eq!(maze.finish_point(), Some(Point::new(1, 2)));
}

#[test]
fn no_finish_flag_exhausts_the_frontier() {
    let (found, maze, steps) = run_search(None);
    assert!(found.is_none());
    assert!(maze.finish_point().is_none());
    // every cell of the grid was discovered and fully processed
    assert_eq!(steps, 9);
    for x in 0..3usize {
        for y in 0..3usize {
            let f = maze.get_field(Point::new(x, y)).unwrap();
            assert!(matches!(f.state, FieldState::Handled));
            assert!(f.turns <= 2);
        }
    }
    assert_eq!(maze.queue_len(), 0);
}

#[test]
fn far_corner_needs_one_turn() {
    let (found, _, _) = run_search(Some(Point::new(2, 2)));
    assert_eq!(found, Some(1));
}
