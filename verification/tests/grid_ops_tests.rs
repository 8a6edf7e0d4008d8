use optimize::find::MapTrait;
use optimize::grid::{parse_pixels, Cell, Direction, GridMap, Point};

// A fresh grid is fully traversable at the default cost.
#[test]
fn new_grid_is_uniform() {
    let map: GridMap<usize> = GridMap::new(3, 2, 5);
    assert_eq!(map.rows, 3);
    assert_eq!(map.columns, 2);
    assert_eq!(map.cells.len(), 3);
    for row in &map.cells {
        assert_eq!(row.len(), 2);
        for cell in row {
            assert_eq!(*cell, Cell::Valid { cost: 5 });
        }
    }
}

// Resizing keeps the overlapping region and defaults new cells to Invalid.
#[test]
fn resize_keeps_overlap_and_defaults_rest() {
    let mut map: GridMap<usize> = GridMap::new(2, 2, 1);
    map.cells[0][1] = Cell::Invalid;
    map.resize(3, 4);
    assert_eq!(map.rows, 4);
    assert_eq!(map.columns, 3);
    assert_eq!(map.cells[0][0], Cell::Valid { cost: 1 });
    assert_eq!(map.cells[0][1], Cell::Invalid);
    assert_eq!(map.cells[1][0], Cell::Valid { cost: 1 });
    assert_eq!(map.cells[1][1], Cell::Valid { cost: 1 });
    // everything outside the old 2x2 region is new and impassable
    assert_eq!(map.cells[0][2], Cell::Invalid);
    assert_eq!(map.cells[2][0], Cell::Invalid);
    assert_eq!(map.cells[3][2], Cell::Invalid);

    map.resize(1, 1);
    assert_eq!(map.rows, 1);
    assert_eq!(map.columns, 1);
    assert_eq!(map.cells.len(), 1);
    assert_eq!(map.cells[0].len(), 1);
    assert_eq!(map.cells[0][0], Cell::Valid { cost: 1 });
}

// Scaling expands every cell into a factor-by-factor block of copies.
#[test]
fn scale_up_repeats_cells() {
    let mut map: GridMap<usize> = GridMap::new(2, 2, 1);
    map.cells[0][0] = Cell::Invalid;
    map.cells[1][1] = Cell::OneWay {
        cost: 2,
        direction: Direction::Up,
        target: None,
    };
    let before = map.cells.clone();
    map.scale_up(2);
    assert_eq!(map.rows, 4);
    assert_eq!(map.columns, 4);
    for row in 0..4 {
        for col in 0..4 {
            assert_eq!(map.cells[row][col], before[row / 2][col / 2]);
        }
    }
}

// A brightness mask parses into impassable dark cells and unit-cost light
// cells.
#[test]
fn parse_pixels_thresholds_brightness() {
    let pixels: Vec<u8> = vec![0, 200, 127, 128, 255, 1];
    let map = parse_pixels(2, 3, &pixels);
    assert_eq!(map.rows, 2);
    assert_eq!(map.columns, 3);
    assert_eq!(map.cells[0][0], Cell::Invalid);
    assert_eq!(map.cells[0][1], Cell::Valid { cost: 1 });
    assert_eq!(map.cells[0][2], Cell::Invalid);
    assert_eq!(map.cells[1][0], Cell::Valid { cost: 1 });
    assert_eq!(map.cells[1][1], Cell::Valid { cost: 1 });
    assert_eq!(map.cells[1][2], Cell::Invalid);
}

// Bounds checking is independent of traversability.
#[test]
fn is_valid_checks_bounds_only() {
    let mut map: GridMap<usize> = GridMap::new(2, 3, 1);
    map.cells[0][0] = Cell::Invalid;
    assert!(map.is_valid(Point { row: 0, col: 0 }));
    assert!(map.is_valid(Point { row: 1, col: 2 }));
    assert!(!map.is_valid(Point { row: 2, col: 0 }));
    assert!(!map.is_valid(Point { row: 0, col: 3 }));
}

// Directions have stable display names.
#[test]
fn direction_names() {
    assert_eq!(Direction::Up.as_str(), "up");
    assert_eq!(Direction::Down.as_str(), "down");
    assert_eq!(Direction::Left.as_str(), "left");
    assert_eq!(Direction::Right.as_str(), "right");
}

// The default cell is impassable.
#[test]
fn default_cell_is_invalid() {
    let cell: Cell<usize> = Default::default();
    assert_eq!(cell, Cell::Invalid);
}
