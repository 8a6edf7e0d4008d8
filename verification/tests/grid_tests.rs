use optimize::find::{PathFinder, PathFinderState, PathResult};
use optimize::grid::Cell::{Invalid, Valid};
use optimize::grid::{Cell, GridMap, Point};

fn create_basic_map() -> GridMap<usize> {
    GridMap {
        rows: 7,
        columns: 7,
        cells: vec![
            vec![
                Invalid, Invalid, Invalid, Invalid, Invalid, Invalid, Invalid,
            ],
            vec![
                Invalid,
                Valid { cost: 1 },
                Invalid,
                Invalid,
                Invalid,
                Valid { cost: 1 },
                Invalid,
            ],
            vec![
                Invalid,
                Valid { cost: 1 },
                Invalid,
                Invalid,
                Invalid,
                Valid { cost: 1 },
                Invalid,
            ],
            vec![
                Invalid,
                Valid { cost: 1 },
                Invalid,
                Valid { cost: 1 },
                Valid { cost: 1 },
                Valid { cost: 1 },
                Invalid,
            ],
            vec![
                Invalid,
                Valid { cost: 1 },
                Invalid,
                Valid { cost: 1 },
                Invalid,
                Invalid,
                Invalid,
            ],
            vec![
                Invalid,
                Valid { cost: 1 },
                Valid { cost: 1 },
                Valid { cost: 1 },
                Valid { cost: 1 },
                Valid { cost: 1 },
                Valid { cost: 1 },
            ],
            vec![
                Invalid, Invalid, Invalid, Invalid, Invalid, Invalid, Invalid,
            ],
        ],
    }
}

#[test]
fn grid_test_basic_route() {
    let map = create_basic_map();

    let visited = map.create_storage();

    let finder = PathFinder::new(Point { row: 1, col: 1 }, Point { row: 1, col: 5 }, visited, ());

    // test the basic case
    assert!(matches!(
        finder.finish(&map).0,
        PathFinderState::PathFound(PathResult { total_cost: 12, .. })
    ));
}

#[test]
fn grid_test_basic_no_route() {
    let map = create_basic_map();

    let visited = map.create_storage();

    let finder = PathFinder::new(Point { row: 1, col: 1 }, Point { row: 0, col: 5 }, visited, ());
    // no route to target
    assert!(matches!(finder.finish(&map).0, PathFinderState::NoPathFound));
}

#[test]
fn grid_test_basic_shortcut() {
    let mut map = create_basic_map();
    // create higher cost shortcut
    map.cells[3][2] = Cell::Valid { cost: 2 };
    let visited = map.create_storage();

    let finder = PathFinder::new(Point { row: 1, col: 1 }, Point { row: 1, col: 5 }, visited, ());

    assert!(matches!(
        finder.finish(&map).0,
        PathFinderState::PathFound(PathResult { total_cost: 9, .. })
    ));

    let visited = map.create_storage();
    map.cells[3][2] = Cell::Valid { cost: 4 };

    let finder = PathFinder::new(Point { row: 1, col: 1 }, Point { row: 1, col: 5 }, visited, ());

    assert!(matches!(
        finder.finish(&map).0,
        PathFinderState::PathFound(PathResult { total_cost: 11, .. })
    ));

    let visited = map.create_storage();
    map.cells[3][2] = Cell::Valid { cost: 10 };

    let finder = PathFinder::new(Point { row: 1, col: 1 }, Point { row: 1, col: 5 }, visited, ());

    assert!(matches!(
        finder.finish(&map).0,
        PathFinderState::PathFound(PathResult { total_cost: 12, .. })
    ));
}
