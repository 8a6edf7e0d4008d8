use optimize::find::{AbsoluteCost, MapStorage, MapTrait, PathFinder, PathFinderState, PathResult};
use optimize::grid::Cell::{Invalid, Valid};
use optimize::grid::{Cell, Direction, GridMap, Point};
use std::cmp::Ordering;

fn create_basic_map() -> GridMap<usize> {
    let v = Valid { cost: 1usize };
    GridMap {
        rows: 7,
        columns: 7,
        cells: vec![
            vec![Invalid, Invalid, Invalid, Invalid, Invalid, Invalid, Invalid],
            vec![Invalid, v, Invalid, Invalid, Invalid, v, Invalid],
            vec![Invalid, v, Invalid, Invalid, Invalid, v, Invalid],
            vec![Invalid, v, Invalid, v, v, v, Invalid],
            vec![Invalid, v, Invalid, v, Invalid, Invalid, Invalid],
            vec![Invalid, v, v, v, v, v, v],
            vec![Invalid, Invalid, Invalid, Invalid, Invalid, Invalid, Invalid],
        ],
    }
}

fn all_points(rows: usize, cols: usize) -> Vec<Point> {
    let mut points = Vec::new();
    for row in 0..rows {
        for col in 0..cols {
            points.push(Point { row, col });
        }
    }
    points
}

// The found path walks from start to goal and carries the settled cost.
#[test]
fn found_path_runs_start_to_goal() {
    let map = create_basic_map();
    let start = Point { row: 1, col: 1 };
    let goal = Point { row: 1, col: 5 };
    let finder = PathFinder::new(start, goal, map.create_storage(), ());
    let (state, _visited) = finder.finish(&map);
    match state {
        PathFinderState::PathFound(PathResult { path, start: s, goal: g, total_cost }) => {
            assert_eq!(s, start);
            assert_eq!(g, goal);
            assert_eq!(total_cost, 12);
            assert_eq!(path.len(), 13);
            assert_eq!(path[0], start);
            assert_eq!(path[path.len() - 1], goal);
            // consecutive path nodes are orthogonal neighbors
            for w in path.windows(2) {
                let dr = w[0].row.abs_diff(w[1].row);
                let dc = w[0].col.abs_diff(w[1].col);
                assert_eq!(dr + dc, 1);
            }
        }
        other => panic!("expected a found path, got {:?}", other),
    }
}

// Each node's storage slot is written at most once across a whole run.
#[test]
fn settlement_is_write_once() {
    let map = create_basic_map();
    let start = Point { row: 1, col: 1 };
    let goal = Point { row: 1, col: 5 };
    let points = all_points(map.rows, map.columns);
    let mut finder = PathFinder::new(start, goal, map.create_storage(), ());
    let mut recorded = vec![None; points.len()];
    let mut guard = 0;
    loop {
        let state = finder.step(&map);
        for (slot, p) in recorded.iter_mut().zip(points.iter()) {
            let now = finder.get_visited().get(*p).0;
            match (*slot, now) {
                (None, Some(item)) => *slot = Some(item),
                (Some(before), Some(item)) => {
                    assert_eq!(before, item, "settled slot rewritten at {:?}", p)
                }
                (Some(_), None) => panic!("settled slot erased at {:?}", p),
                (None, None) => {}
            }
        }
        if state.is_done() {
            break;
        }
        guard += 1;
        assert!(guard < 10_000, "search did not terminate");
    }
}

// Once a terminal state is reached, further steps return the identical
// state and leave the storage untouched.
#[test]
fn terminal_state_is_idempotent() {
    let map = create_basic_map();
    let start = Point { row: 1, col: 1 };
    let goal = Point { row: 1, col: 5 };
    let points = all_points(map.rows, map.columns);
    let mut finder = PathFinder::new(start, goal, map.create_storage(), ());
    let mut guard = 0;
    let terminal = loop {
        let state = finder.step(&map);
        if state.is_done() {
            break state;
        }
        guard += 1;
        assert!(guard < 10_000, "search did not terminate");
    };
    let snapshot: Vec<_> = points.iter().map(|p| finder.get_visited().get(*p)).collect();
    for _ in 0..3 {
        let again = finder.step(&map);
        assert_eq!(again, terminal);
        let now: Vec<_> = points.iter().map(|p| finder.get_visited().get(*p)).collect();
        assert_eq!(now, snapshot);
    }
}

// finish produces the same terminal state and the same storage contents as
// stepping by hand until termination.
#[test]
fn finish_equals_repeated_step() {
    let map = create_basic_map();
    let start = Point { row: 1, col: 1 };
    let goal = Point { row: 1, col: 5 };
    let points = all_points(map.rows, map.columns);

    let finder_a = PathFinder::new(start, goal, map.create_storage(), ());
    let (state_a, visited_a) = finder_a.finish(&map);

    let mut finder_b = PathFinder::new(start, goal, map.create_storage(), ());
    let mut guard = 0;
    let state_b = loop {
        let state = finder_b.step(&map);
        if state.is_done() {
            break state;
        }
        guard += 1;
        assert!(guard < 10_000, "search did not terminate");
    };

    assert_eq!(state_a, state_b);
    for p in points {
        assert_eq!(visited_a.get(p), finder_b.get_visited().get(p));
    }
}

// A one-way cell blocked toward Right must not yield its left-hand
// neighbor, but must offer its teleport target at the cell's own cost.
#[test]
fn oneway_right_masks_left_and_teleports() {
    let v = Cell::Valid { cost: 1usize };
    let mut map = GridMap { rows: 3, columns: 3, cells: vec![vec![v; 3]; 3] };
    let target = Point { row: 2, col: 2 };
    map.cells[1][1] = Cell::OneWay {
        cost: 7,
        direction: Direction::Right,
        target: Some(target),
    };
    let neighbors = map.neighbors_of(Point { row: 1, col: 1 });
    let blocked = Point { row: 1, col: 0 };
    assert!(neighbors.iter().all(|(p, _)| *p != blocked));
    assert!(neighbors.contains(&(target, 7)));
    // the other three orthogonal neighbors stay, at the cell's cost
    assert!(neighbors.contains(&(Point { row: 0, col: 1 }, 7)));
    assert!(neighbors.contains(&(Point { row: 2, col: 1 }, 7)));
    assert!(neighbors.contains(&(Point { row: 1, col: 2 }, 7)));
    assert_eq!(neighbors.len(), 4);
}

// One-way masking for the other three directions, without a teleport.
#[test]
fn oneway_masks_each_direction() {
    let v = Cell::Valid { cost: 1usize };
    let cases = [
        (Direction::Up, Point { row: 2, col: 1 }),
        (Direction::Down, Point { row: 0, col: 1 }),
        (Direction::Left, Point { row: 1, col: 2 }),
        (Direction::Right, Point { row: 1, col: 0 }),
    ];
    for (direction, blocked) in cases {
        let mut map = GridMap { rows: 3, columns: 3, cells: vec![vec![v; 3]; 3] };
        map.cells[1][1] = Cell::OneWay { cost: 1, direction, target: None };
        let neighbors = map.neighbors_of(Point { row: 1, col: 1 });
        assert_eq!(neighbors.len(), 3, "direction {:?}", direction);
        assert!(
            neighbors.iter().all(|(p, _)| *p != blocked),
            "direction {:?} must block {:?}",
            direction,
            blocked
        );
    }
}

// An interior Valid cell yields its four orthogonal neighbors in
// up, left, down, right order, charged at the source cell's cost.
#[test]
fn valid_cell_yields_four_neighbors() {
    let v = Cell::Valid { cost: 3usize };
    let map = GridMap { rows: 3, columns: 3, cells: vec![vec![v; 3]; 3] };
    let neighbors = map.neighbors_of(Point { row: 1, col: 1 });
    assert_eq!(
        neighbors,
        vec![
            (Point { row: 0, col: 1 }, 3),
            (Point { row: 1, col: 0 }, 3),
            (Point { row: 2, col: 1 }, 3),
            (Point { row: 1, col: 2 }, 3),
        ]
    );
}

// Neighbors whose destination is impassable are filtered out, and an
// impassable cell has no outgoing edges at all.
#[test]
fn invalid_cells_are_never_entered_or_left() {
    let v = Cell::Valid { cost: 1usize };
    let mut map = GridMap { rows: 3, columns: 3, cells: vec![vec![v; 3]; 3] };
    map.cells[0][1] = Cell::Invalid;
    let neighbors = map.neighbors_of(Point { row: 1, col: 1 });
    assert_eq!(
        neighbors,
        vec![
            (Point { row: 1, col: 0 }, 1),
            (Point { row: 2, col: 1 }, 1),
            (Point { row: 1, col: 2 }, 1),
        ]
    );
    assert!(map.neighbors_of(Point { row: 0, col: 1 }).is_empty());
}

// Stepping an exhausted search reports NoPathFound and stays there.
#[test]
fn exhausted_frontier_reports_no_path() {
    let mut map = create_basic_map();
    // wall the start in completely
    map.cells[2][1] = Cell::Invalid;
    let start = Point { row: 1, col: 1 };
    let goal = Point { row: 1, col: 5 };
    let mut finder = PathFinder::new(start, goal, map.create_storage(), ());
    // one step settles the start, one step finds the frontier empty
    assert_eq!(finder.step(&map), PathFinderState::Computing);
    assert_eq!(finder.step(&map), PathFinderState::NoPathFound);
    assert_eq!(finder.step(&map), PathFinderState::NoPathFound);
}

// The read-only accessors report the search's configuration.
#[test]
fn accessors_report_configuration() {
    let map = create_basic_map();
    let start = Point { row: 1, col: 1 };
    let goal = Point { row: 1, col: 5 };
    let finder: PathFinder<_, _, _, _, GridMap<usize>> =
        PathFinder::new(start, goal, map.create_storage(), ());
    assert_eq!(finder.start(), start);
    assert_eq!(finder.goal(), goal);
    assert!(matches!(finder.state(), PathFinderState::Computing));
    assert!(!finder.state().is_done());
    assert!(finder.get_visited().get(start).0.is_none());
}

// Cost addition saturates at the machine limit instead of wrapping.
#[test]
fn cost_addition_saturates() {
    assert_eq!(2usize.add_cost(&3), 5);
    assert_eq!(usize::MAX.add_cost(&1), usize::MAX);
    assert_eq!(usize::MAX.add_cost(&0), usize::MAX);
    assert_eq!(usize::zero_cost(), 0);
}

// The unit-context comparison orders costs numerically.
#[test]
fn context_cmp_orders_numerically() {
    assert_eq!(1usize.context_cmp(&2, &()), Ordering::Less);
    assert_eq!(2usize.context_cmp(&2, &()), Ordering::Equal);
    assert_eq!(3usize.context_cmp(&2, &()), Ordering::Greater);
}
