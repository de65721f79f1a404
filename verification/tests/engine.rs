use maze_search::Direction;
use maze_search::FieldState;
use maze_search::Maze;
use maze_search::MazeField;
use maze_search::NeighborReport;
use maze_search::Point;

fn seeded_maze() -> Maze {
    let mut maze = Maze::new(String::from("mock://grid"));
    maze.insert_start(
        Point::new(1, 1),
        MazeField::new(3, Direction::Right, FieldState::InPriorityQueue),
    );
    maze
}

#[test]
fn point_new_keeps_coordinates() {
    let p = Point::new(4, 7);
    assert_eq!(p.x, 4);
    assert_eq!(p.y, 7);
}

#[test]
fn maze_field_new_keeps_fields() {
    let f = MazeField::new(2, Direction::Left, FieldState::Unhandled);
    assert_eq!(f.turns, 2);
    assert!(f.direction == Direction::Left);
    assert!(matches!(f.state, FieldState::Unhandled));
}

#[test]
fn new_maze_is_empty() {
    let maze = Maze::new(String::from("mock://grid"));
    assert_eq!(maze.queue_len(), 0);
    assert!(maze.queue_front().is_none());
    assert!(maze.finish_point().is_none());
    assert!(maze.get_field(Point::new(0, 0)).is_none());
    assert_eq!(maze.endpoint(), "mock://grid");
}

#[test]
fn insert_start_seeds_store_and_queue() {
    let maze = seeded_maze();
    assert_eq!(maze.queue_len(), 1);
    assert_eq!(maze.queue_front(), Some(Point::new(1, 1)));
    let f = maze.get_field(Point::new(1, 1)).unwrap();
    assert_eq!(f.turns, 3);
    assert!(matches!(f.state, FieldState::InPriorityQueue));
}

#[test]
fn cache_neighbors_discovers_with_sentinel_record() {
    let mut maze = seeded_maze();
    maze.cache_neighbors(&vec![NeighborReport::new(2, 1, false)]);
    let f = maze.get_field(Point::new(2, 1)).unwrap();
    assert_eq!(f.turns, usize::MAX);
    assert!(f.direction == Direction::Up);
    assert!(matches!(f.state, FieldState::Unhandled));
    // discovery alone never queues a cell
    assert_eq!(maze.queue_len(), 1);
}

#[test]
fn cache_neighbors_is_idempotent() {
    let mut maze = seeded_maze();
    let reports = vec![
        NeighborReport::new(2, 1, false),
        NeighborReport::new(1, 2, false),
    ];
    maze.cache_neighbors(&reports);
    let first = maze.get_field(Point::new(2, 1)).unwrap();
    // a second, overlapping answer must change nothing
    let overlapping = vec![
        NeighborReport::new(2, 1, false),
        NeighborReport::new(0, 1, false),
    ];
    maze.cache_neighbors(&overlapping);
    let second = maze.get_field(Point::new(2, 1)).unwrap();
    assert_eq!(first.turns, second.turns);
    assert!(first.direction == second.direction);
    assert!(matches!(second.state, FieldState::Unhandled));
    assert_eq!(maze.queue_len(), 1);
}

#[test]
fn cache_neighbors_does_not_alter_known_records() {
    let mut maze = seeded_maze();
    // the start cell is reported again: its record must stay untouched
    maze.cache_neighbors(&vec![NeighborReport::new(1, 1, false)]);
    let f = maze.get_field(Point::new(1, 1)).unwrap();
    assert_eq!(f.turns, 3);
    assert!(matches!(f.state, FieldState::InPriorityQueue));
    assert_eq!(maze.queue_len(), 1);
}

#[test]
fn first_flagged_finish_wins() {
    let mut maze = seeded_maze();
    maze.cache_neighbors(&vec![NeighborReport::new(2, 1, true)]);
    assert_eq!(maze.finish_point(), Some(Point::new(2, 1)));
    maze.cache_neighbors(&vec![NeighborReport::new(1, 2, true)]);
    assert_eq!(maze.finish_point(), Some(Point::new(2, 1)));
}

#[test]
fn unflagged_reports_leave_finish_unset() {
    let mut maze = seeded_maze();
    maze.cache_neighbors(&vec![
        NeighborReport::new(2, 1, false),
        NeighborReport::new(1, 2, false),
    ]);
    assert!(maze.finish_point().is_none());
}

#[test]
fn relax_straight_keeps_turn_count() {
    let mut maze = seeded_maze();
    maze.cache_neighbors(&vec![NeighborReport::new(2, 1, false)]);
    let snapshot = MazeField::new(3, Direction::Right, FieldState::Handled);
    maze.relax_neighbor(Point::new(1, 1), snapshot, Direction::Right);
    let f = maze.get_field(Point::new(2, 1)).unwrap();
    assert_eq!(f.turns, 3);
    assert!(f.direction == Direction::Right);
    assert!(matches!(f.state, FieldState::InPriorityQueue));
    assert_eq!(maze.queue_len(), 2);
}

#[test]
fn relax_turning_costs_one_more() {
    let mut maze = seeded_maze();
    maze.cache_neighbors(&vec![NeighborReport::new(1, 2, false)]);
    let snapshot = MazeField::new(3, Direction::Right, FieldState::Handled);
    maze.relax_neighbor(Point::new(1, 1), snapshot, Direction::Down);
    let f = maze.get_field(Point::new(1, 2)).unwrap();
    assert_eq!(f.turns, 4);
    assert!(f.direction == Direction::Down);
}

#[test]
fn relax_skips_unreported_cells() {
    let mut maze = seeded_maze();
    let snapshot = MazeField::new(3, Direction::Right, FieldState::Handled);
    maze.relax_neighbor(Point::new(1, 1), snapshot, Direction::Right);
    assert!(maze.get_field(Point::new(2, 1)).is_none());
    assert_eq!(maze.queue_len(), 1);
}

#[test]
fn relax_skips_steps_off_the_grid() {
    let mut maze = Maze::new(String::from("mock://grid"));
    maze.insert_start(
        Point::new(0, 0),
        MazeField::new(0, Direction::Right, FieldState::InPriorityQueue),
    );
    let snapshot = MazeField::new(0, Direction::Right, FieldState::Handled);
    maze.relax_neighbor(Point::new(0, 0), snapshot, Direction::Up);
    maze.relax_neighbor(Point::new(0, 0), snapshot, Direction::Left);
    assert_eq!(maze.queue_len(), 1);
    assert!(maze.get_field(Point::new(0, 0)).unwrap().turns == 0);
}

#[test]
fn relax_decreases_queued_cell_in_place() {
    let mut maze = seeded_maze();
    maze.cache_neighbors(&vec![NeighborReport::new(2, 1, false)]);
    let worse = MazeField::new(5, Direction::Up, FieldState::Handled);
    maze.relax_neighbor(Point::new(1, 1), worse, Direction::Right);
    assert_eq!(maze.get_field(Point::new(2, 1)).unwrap().turns, 6);
    assert_eq!(maze.queue_len(), 2);
    // a better path updates the record without queueing the cell again
    let better = MazeField::new(3, Direction::Right, FieldState::Handled);
    maze.relax_neighbor(Point::new(1, 1), better, Direction::Right);
    let f = maze.get_field(Point::new(2, 1)).unwrap();
    assert_eq!(f.turns, 3);
    assert!(f.direction == Direction::Right);
    assert_eq!(maze.queue_len(), 2);
    // a worse path later changes nothing
    maze.relax_neighbor(Point::new(1, 1), worse, Direction::Right);
    assert_eq!(maze.get_field(Point::new(2, 1)).unwrap().turns, 3);
    assert_eq!(maze.queue_len(), 2);
}

#[test]
fn pop_on_empty_queue_is_none() {
    let mut maze = Maze::new(String::from("mock://grid"));
    assert!(maze.pop_queue_front_field(&vec![]).is_none());
    assert_eq!(maze.queue_len(), 0);
}

#[test]
fn pop_marks_handled_and_keeps_it_final() {
    let mut maze = seeded_maze();
    let popped = maze
        .pop_queue_front_field(&vec![NeighborReport::new(2, 1, false)])
        .unwrap();
    assert_eq!(popped, Point::new(1, 1));
    let f = maze.get_field(Point::new(1, 1)).unwrap();
    assert!(matches!(f.state, FieldState::Handled));
    assert_eq!(f.turns, 3);
    // the handled record never changes again
    let snapshot = MazeField::new(0, Direction::Left, FieldState::Handled);
    maze.relax_neighbor(Point::new(1, 2), snapshot, Direction::Up);
    let same = maze.get_field(Point::new(1, 1)).unwrap();
    assert!(matches!(same.state, FieldState::Handled));
    assert_eq!(same.turns, 3);
}

#[test]
fn pop_relaxes_reported_neighbors_only() {
    let mut maze = seeded_maze();
    let reports = vec![
        NeighborReport::new(2, 1, false),
        NeighborReport::new(0, 1, false),
    ];
    maze.pop_queue_front_field(&reports).unwrap();
    // both reported grid neighbors got the straight/turn costs
    assert_eq!(maze.get_field(Point::new(2, 1)).unwrap().turns, 3);
    assert_eq!(maze.get_field(Point::new(0, 1)).unwrap().turns, 4);
    // the unreported ones were never invented
    assert!(maze.get_field(Point::new(1, 0)).is_none());
    assert!(maze.get_field(Point::new(1, 2)).is_none());
    assert_eq!(maze.queue_len(), 2);
}

#[test]
fn finish_reached_only_on_the_flagged_cell() {
    let mut maze = seeded_maze();
    let reports = vec![NeighborReport::new(2, 1, true)];
    let popped = maze.pop_queue_front_field(&reports).unwrap();
    assert!(maze.finish_reached(popped).is_none());
    let second = maze.pop_queue_front_field(&vec![]).unwrap();
    assert_eq!(second, Point::new(2, 1));
    assert_eq!(maze.finish_reached(second), Some(3));
}

#[test]
fn status_moves_forward_only() {
    let mut maze = seeded_maze();
    maze.cache_neighbors(&vec![NeighborReport::new(2, 1, false)]);
    assert!(matches!(
        maze.get_field(Point::new(2, 1)).unwrap().state,
        FieldState::Unhandled
    ));
    let snapshot = MazeField::new(3, Direction::Right, FieldState::Handled);
    maze.relax_neighbor(Point::new(1, 1), snapshot, Direction::Right);
    assert!(matches!(
        maze.get_field(Point::new(2, 1)).unwrap().state,
        FieldState::InPriorityQueue
    ));
    // pop the start, then the neighbor: each ends Handled
    maze.pop_queue_front_field(&vec![]).unwrap();
    let p = maze.pop_queue_front_field(&vec![]).unwrap();
    assert_eq!(p, Point::new(2, 1));
    assert!(matches!(
        maze.get_field(Point::new(2, 1)).unwrap().state,
        FieldState::Handled
    ));
}
