//! A rectangular-grid realization of the map abstraction: cells are
//! impassable, passable at a uniform cost, or directional one-way cells that
//! may teleport to a remote target.

use vstd::prelude::*;

verus! {

use crate::find::{AbsoluteCost, MapStorage, MapTrait, NodeReference, RelativeCost, Visited};

/// A node reference into a grid: a row/column pair.
#[derive(Copy, Clone, Debug, Eq, PartialEq, Structural)]
pub struct Point {
    pub row: usize,
    pub col: usize,
}

impl NodeReference for Point {
    fn node_eq(&self, other: &Self) -> (r: bool) {
        self.row == other.row && self.col == other.col
    }
}

/// The one direction a one-way cell refuses to exit toward.
#[derive(Copy, Clone, Debug, Eq, PartialEq, Structural)]
pub enum Direction {
    Up,
    Down,
    Left,
    Right,
}

impl Direction {
    /// A human-readable name for the direction.
    pub fn as_str(&self) -> (r: &'static str)
        ensures
            r@ == self.name_spec(),
    {
        match self {
            Direction::Up => "up",
            Direction::Down => "down",
            Direction::Left => "left",
            Direction::Right => "right",
        }
    }

    pub open spec fn name_spec(&self) -> Seq<char> {
        match self {
            Direction::Up => "up"@,
            Direction::Down => "down"@,
            Direction::Left => "left"@,
            Direction::Right => "right"@,
        }
    }
}

/// One cell of a grid map.
#[derive(Copy, Clone, Debug, Eq, PartialEq)]
pub enum Cell<C: RelativeCost> {
    /// Not traversable: never yielded as a neighbor and never entered.
    Invalid,
    /// Traversable; leaving it costs `cost`; all four orthogonal neighbors
    /// are candidates.
    Valid { cost: C },
    /// Traversable; leaving it costs `cost`; exits toward `direction` are
    /// blocked, and `target`, if present, is offered as an extra neighbor.
    OneWay { cost: C, direction: Direction, target: Option<Point> },
}

impl<C: RelativeCost> Default for Cell<C> {
    fn default() -> (r: Self)
        ensures
            r is Invalid,
    {
        Cell::Invalid
    }
}

/// The set of all points of a `rows` by `cols` rectangle.
pub open spec fn point_rect(rows: nat, cols: nat) -> Set<Point> {
    Set::new(|p: Point| (p.row as nat) < rows && (p.col as nat) < cols)
}

/// The points of one row of a rectangle, up to column `cols`.
spec fn point_row(row: nat, cols: nat) -> Set<Point> {
    Set::new(|p: Point| (p.row as nat) == row && (p.col as nat) < cols)
}

proof fn lemma_point_row_finite(row: nat, cols: nat)
    ensures
        point_row(row, cols).finite(),
    decreases cols,
{
    if cols == 0 {
        assert(point_row(row, 0) =~= Set::<Point>::empty());
    } else {
        lemma_point_row_finite(row, (cols - 1) as nat);
        let prev = point_row(row, (cols - 1) as nat);
        if row <= usize::MAX && cols - 1 <= usize::MAX {
            let p = Point { row: row as usize, col: (cols - 1) as usize };
            assert(point_row(row, cols) =~= prev.insert(p));
        } else {
            assert(point_row(row, cols) =~= prev);
        }
    }
}

/// A rectangle of points is a finite set of cardinality `rows * cols`.
proof fn lemma_point_rect_finite(rows: nat, cols: nat)
    ensures
        point_rect(rows, cols).finite(),
    decreases rows,
{
    if rows == 0 {
        assert(point_rect(0, cols) =~= Set::<Point>::empty());
    } else {
        lemma_point_rect_finite((rows - 1) as nat, cols);
        lemma_point_row_finite((rows - 1) as nat, cols);
        assert(point_rect(rows, cols) =~= point_rect((rows - 1) as nat, cols).union(
            point_row((rows - 1) as nat, cols),
        ));
    }
}

/// A `MapTrait` implementation that uses a rectangular grid of cells.
#[derive(Debug)]
pub struct GridMap<C: RelativeCost> {
    pub rows: usize,
    pub columns: usize,
    pub cells: Vec<Vec<Cell<C>>>,
}

impl<C: RelativeCost> GridMap<C> {
    /// Whether `p` addresses a cell of this grid (traversable or not).
    pub open spec fn in_bounds(&self, p: Point) -> bool {
        (p.row as int) < self.rows && (p.col as int) < self.columns
    }

    /// The cell stored at `p`.
    pub open spec fn cell_at(&self, p: Point) -> Cell<C> {
        self.cells@[p.row as int]@[p.col as int]
    }

    /// The cell array has exactly `rows` rows of `columns` cells each.
    pub open spec fn rect_wf(&self) -> bool {
        &&& self.cells@.len() == self.rows
        &&& forall|r: int|
            0 <= r < self.cells@.len() ==> (#[trigger] self.cells@[r])@.len() == self.columns
    }

    /// Every teleport target a one-way cell names lies inside the grid.
    pub open spec fn targets_wf(&self) -> bool {
        forall|p: Point|
            self.in_bounds(p) ==> match #[trigger] self.cell_at(p) {
                Cell::OneWay { target: Some(t), .. } => self.in_bounds(t),
                _ => true,
            }
    }

    /// The orthogonal moves (and optional teleport) the cell at `node`
    /// offers, before impassable destinations are filtered out.
    ///
    /// Cost per candidate edge equals the source cell's own cost: movement
    /// is charged on departure, not arrival.
    pub open spec fn candidate_moves(&self, node: Point) -> Seq<(Point, C)> {
        match self.cell_at(node) {
            Cell::Invalid => Seq::empty(),
            Cell::Valid { cost } => {
                let s0 = Seq::<(Point, C)>::empty();
                let s1 = if node.row > 0 {
                    s0.push((Point { row: (node.row - 1) as usize, col: node.col }, cost))
                } else {
                    s0
                };
                let s2 = if node.col > 0 {
                    s1.push((Point { row: node.row, col: (node.col - 1) as usize }, cost))
                } else {
                    s1
                };
                let s3 = if (node.row as int) < self.rows - 1 {
                    s2.push((Point { row: (node.row + 1) as usize, col: node.col }, cost))
                } else {
                    s2
                };
                let s4 = if (node.col as int) < self.columns - 1 {
                    s3.push((Point { row: node.row, col: (node.col + 1) as usize }, cost))
                } else {
                    s3
                };
                s4
            },
            Cell::OneWay { cost, direction, target } => {
                let s0 = Seq::<(Point, C)>::empty();
                let s1 = if node.row > 0 && direction != Direction::Down {
                    s0.push((Point { row: (node.row - 1) as usize, col: node.col }, cost))
                } else {
                    s0
                };
                let s2 = if node.col > 0 && direction != Direction::Right {
                    s1.push((Point { row: node.row, col: (node.col - 1) as usize }, cost))
                } else {
                    s1
                };
                let s3 = if (node.row as int) < self.rows - 1 && direction != Direction::Up {
                    s2.push((Point { row: (node.row + 1) as usize, col: node.col }, cost))
                } else {
                    s2
                };
                let s4 = if (node.col as int) < self.columns - 1 && direction != Direction::Left {
                    s3.push((Point { row: node.row, col: (node.col + 1) as usize }, cost))
                } else {
                    s3
                };
                let s5 = match target {
                    Some(t) => s4.push((t, cost)),
                    None => s4,
                };
                s5
            },
        }
    }

    /// Drops every candidate whose destination cell is impassable.
    pub open spec fn keep_traversable(&self, s: Seq<(Point, C)>) -> Seq<(Point, C)>
        decreases s.len(),
    {
        if s.len() == 0 {
            Seq::empty()
        } else {
            let prefix = self.keep_traversable(s.drop_last());
            if self.cell_at(s.last().0) is Invalid {
                prefix
            } else {
                prefix.push(s.last())
            }
        }
    }

    /// Everything the filter keeps was among the candidates.
    proof fn lemma_keep_traversable_sub(&self, s: Seq<(Point, C)>)
        ensures
            forall|j: int|
                0 <= j < self.keep_traversable(s).len() ==> s.contains(
                    #[trigger] self.keep_traversable(s)[j],
                ),
        decreases s.len(),
    {
        if s.len() > 0 {
            self.lemma_keep_traversable_sub(s.drop_last());
            assert forall|j: int| 0 <= j < self.keep_traversable(s).len() implies s.contains(
                self.keep_traversable(s)[j],
            ) by {
                let kept = self.keep_traversable(s);
                let prefix = self.keep_traversable(s.drop_last());
                if j < prefix.len() {
                    let x = prefix[j];
                    assert(s.drop_last().contains(x));
                    let i = choose|i: int| 0 <= i < s.drop_last().len() && s.drop_last()[i] == x;
                    assert(s[i] == x);
                } else {
                    assert(kept[j] == s.last());
                    assert(s[s.len() - 1] == s.last());
                }
            }
        }
    }

    /// A one-way cell blocked toward `Right` never yields the orthogonal
    /// neighbor that `Right` blocks (the cell to its left), and its
    /// teleport target, when traversable, is yielded as an extra neighbor
    /// at the cell's own cost.
    pub proof fn lemma_oneway_right_masking(&self, node: Point, cost: C, g: Point)
        requires
            self.rect_wf(),
            self.targets_wf(),
            self.in_bounds(node),
            self.cell_at(node) == (Cell::OneWay {
                cost,
                direction: Direction::Right,
                target: Some(g),
            }),
            !(self.cell_at(g) is Invalid),
            // a teleport may name any cell, even the blocked one; the
            // masking claim is about the orthogonal edge, so a target that
            // happens to be the blocked cell is left out
            node.col > 0 ==> g != (Point { row: node.row, col: (node.col - 1) as usize }),
        ensures
            forall|i: int|
                0 <= i < self.neighbors(node).len() ==> (#[trigger] self.neighbors(node)[i]).0
                    != (Point { row: node.row, col: (node.col - 1) as usize }) || node.col == 0,
            self.neighbors(node).contains((g, cost)),
    {
        let cands = self.candidate_moves(node);
        let kept = self.neighbors(node);
        self.lemma_keep_traversable_sub(cands);
        assert(cands.last() == (g, cost));
        assert(kept == self.keep_traversable(cands.drop_last()).push((g, cost)));
        assert(kept[kept.len() - 1] == (g, cost));
        assert(kept.contains((g, cost)));
        assert forall|i: int| 0 <= i < kept.len() implies (#[trigger] kept[i]).0 != (Point {
            row: node.row,
            col: (node.col - 1) as usize,
        }) || node.col == 0 by {
            if node.col > 0 {
                assert(cands.contains(kept[i]));
            }
        }
    }

    /// Every candidate move of an in-bounds node stays in bounds.
    proof fn lemma_candidates_in_bounds(&self, node: Point)
        requires
            self.rect_wf(),
            self.targets_wf(),
            self.in_bounds(node),
        ensures
            forall|i: int|
                0 <= i < self.candidate_moves(node).len() ==> self.in_bounds(
                    #[trigger] self.candidate_moves(node)[i].0,
                ),
    {
        assert forall|i: int| 0 <= i < self.candidate_moves(node).len() implies self.in_bounds(
            self.candidate_moves(node)[i].0,
        ) by {
            match self.cell_at(node) {
                Cell::Invalid => {},
                Cell::Valid { cost } => {},
                Cell::OneWay { cost, direction, target } => {},
            }
        }
    }
}

impl<C: RelativeCost> GridMap<C> {
    /// A fresh grid whose every cell is traversable at `default_cost`.
    pub fn new(rows: usize, columns: usize, default_cost: C) -> (r: Self)
        ensures
            r.rows == rows,
            r.columns == columns,
            r.wf(),
            forall|p: Point|
                r.in_bounds(p) ==> r.cell_at(p) == (Cell::Valid { cost: default_cost }),
    {
        let mut cells: Vec<Vec<Cell<C>>> = Vec::new();
        let mut row: usize = 0;
        while row < rows
            invariant
                row <= rows,
                cells@.len() == row,
                forall|r: int|
                    0 <= r < row ==> (#[trigger] cells@[r])@.len() == columns,
                forall|r: int, c: int|
                    0 <= r < row && 0 <= c < columns ==> cells@[r]@[c] == (Cell::Valid {
                        cost: default_cost,
                    }),
            decreases rows - row,
        {
            let mut line: Vec<Cell<C>> = Vec::new();
            let mut col: usize = 0;
            while col < columns
                invariant
                    col <= columns,
                    line@.len() == col,
                    forall|c: int|
                        0 <= c < col ==> line@[c] == (Cell::Valid { cost: default_cost }),
                decreases columns - col,
            {
                line.push(Cell::Valid { cost: default_cost });
                col += 1;
            }
            cells.push(line);
            row += 1;
        }
        GridMap { rows, columns, cells }
    }

    /// Allocates a fresh scratch container sized to the grid, every slot
    /// unsettled.
    pub fn create_storage<CA: AbsoluteCost>(&self) -> (r: CellStorage<Visited<CA, Point>>)
        requires
            self.rect_wf(),
        ensures
            r.wf(),
            r.dom() == self.nodes(),
            forall|p: Point| r.dom().contains(p) ==> (#[trigger] r.contents()[p]).0 is None,
    {
        let mut slots: Vec<Vec<Visited<CA, Point>>> = Vec::new();
        let mut row: usize = 0;
        while row < self.rows
            invariant
                row <= self.rows,
                slots@.len() == row,
                forall|r: int|
                    0 <= r < row ==> (#[trigger] slots@[r])@.len() == self.columns,
                forall|r: int, c: int|
                    0 <= r < row && 0 <= c < self.columns ==> slots@[r]@[c].0 is None,
            decreases self.rows - row,
        {
            let mut line: Vec<Visited<CA, Point>> = Vec::new();
            let mut col: usize = 0;
            while col < self.columns
                invariant
                    col <= self.columns,
                    line@.len() == col,
                    forall|c: int| 0 <= c < col ==> line@[c].0 is None,
                decreases self.columns - col,
            {
                line.push(Visited(None));
                col += 1;
            }
            slots.push(line);
            row += 1;
        }
        let r = CellStorage(slots);
        proof {
            assert(r.dom() =~= self.nodes());
        }
        r
    }

    /// Reallocates to `rows` by `columns`, keeping the overlapping region
    /// and defaulting every new cell to `Invalid`.
    ///
    /// Shrinking can leave a one-way cell whose teleport target now lies
    /// outside the grid, so full well-formedness is only promised when the
    /// grid grows.
    pub fn resize(&mut self, columns: usize, rows: usize)
        requires
            old(self).rect_wf(),
        ensures
            final(self).rows == rows,
            final(self).columns == columns,
            final(self).rect_wf(),
            forall|p: Point|
                final(self).in_bounds(p) ==> final(self).cell_at(p) == (if (p.row as int) < old(
                self).rows && (p.col as int) < old(self).columns {
                    old(self).cell_at(p)
                } else {
                    Cell::<C>::Invalid
                }),
            old(self).wf() && old(self).rows <= rows && old(self).columns <= columns ==> final(
                self).wf(),
    {
        let mut new_cells: Vec<Vec<Cell<C>>> = Vec::new();
        let mut row: usize = 0;
        while row < rows
            invariant
                old(self).rect_wf(),
                self == old(self),
                row <= rows,
                new_cells@.len() == row,
                forall|r: int|
                    0 <= r < row ==> (#[trigger] new_cells@[r])@.len() == columns,
                forall|r: int, c: int|
                    0 <= r < row && 0 <= c < columns ==> new_cells@[r]@[c] == (if r < old(
                        self,
                    ).rows && c < old(self).columns {
                        old(self).cells@[r]@[c]
                    } else {
                        Cell::<C>::Invalid
                    }),
            decreases rows - row,
        {
            let mut line: Vec<Cell<C>> = Vec::new();
            let mut col: usize = 0;
            while col < columns
                invariant
                    old(self).rect_wf(),
                    self == old(self),
                    row < rows,
                    col <= columns,
                    line@.len() == col,
                    forall|c: int|
                        0 <= c < col ==> line@[c] == (if (row as int) < old(self).rows && c < old(
                            self,
                        ).columns {
                            old(self).cells@[row as int]@[c]
                        } else {
                            Cell::<C>::Invalid
                        }),
                decreases columns - col,
            {
                if row < self.rows && col < self.columns {
                    line.push(self.cells[row][col]);
                } else {
                    line.push(Cell::Invalid);
                }
                col += 1;
            }
            new_cells.push(line);
            row += 1;
        }
        self.rows = rows;
        self.columns = columns;
        self.cells = new_cells;
        proof {
            if old(self).wf() && old(self).rows <= rows && old(self).columns <= columns {
                assert forall|p: Point| self.in_bounds(p) implies match self.cell_at(p) {
                    Cell::OneWay { target: Some(t), .. } => self.in_bounds(t),
                    _ => true,
                } by {
                    if (p.row as int) < old(self).rows && (p.col as int) < old(self).columns {
                        assert(old(self).in_bounds(p));
                        match old(self).cell_at(p) {
                            Cell::OneWay { target: Some(t), .. } => {
                                assert(old(self).in_bounds(t));
                            },
                            _ => {},
                        }
                    }
                }
            }
        }
    }

    /// Expands every cell into a `factor` by `factor` block of identical
    /// cells (nearest-neighbor upscaling).
    pub fn scale_up(&mut self, factor: usize)
        requires
            old(self).rect_wf(),
            old(self).rows * factor <= usize::MAX,
            old(self).columns * factor <= usize::MAX,
        ensures
            final(self).rows == old(self).rows * factor,
            final(self).columns == old(self).columns * factor,
            final(self).rect_wf(),
            factor >= 1 ==> forall|p: Point|
                final(self).in_bounds(p) ==> final(self).cell_at(p) == old(self).cell_at(
                    Point { row: (p.row / factor) as usize, col: (p.col / factor) as usize },
                ),
            old(self).wf() && factor >= 1 ==> final(self).wf(),
    {
        if factor == 0 {
            self.rows = 0;
            self.columns = 0;
            self.cells = Vec::new();
            return ;
        }
        let total_rows = self.rows * factor;
        let total_cols = self.columns * factor;
        let mut new_cells: Vec<Vec<Cell<C>>> = Vec::new();
        let mut nr: usize = 0;
        while nr < total_rows
            invariant
                old(self).rect_wf(),
                self == old(self),
                factor >= 1,
                total_rows == self.rows * factor,
                total_cols == self.columns * factor,
                nr <= total_rows,
                new_cells@.len() == nr,
                forall|r: int|
                    0 <= r < nr ==> (#[trigger] new_cells@[r])@.len() == total_cols,
                forall|r: int, c: int|
                    0 <= r < nr && 0 <= c < total_cols ==> new_cells@[r]@[c] == self.cells@[r / (
                    factor as int)]@[c / (factor as int)],
            decreases total_rows - nr,
        {
            proof {
                vstd::arithmetic::mul::lemma_mul_is_commutative(
                    old(self).rows as int,
                    factor as int,
                );
                vstd::arithmetic::div_mod::lemma_multiply_divide_lt(
                    nr as int,
                    factor as int,
                    old(self).rows as int,
                );
            }
            let src_row = nr / factor;
            let mut line: Vec<Cell<C>> = Vec::new();
            let mut nc: usize = 0;
            while nc < total_cols
                invariant
                    old(self).rect_wf(),
                    self == old(self),
                    factor >= 1,
                    total_cols == self.columns * factor,
                    nc <= total_cols,
                    src_row == nr as int / factor as int,
                    src_row < self.rows,
                    line@.len() == nc,
                    forall|c: int|
                        0 <= c < nc ==> line@[c] == self.cells@[src_row as int]@[c / (
                        factor as int)],
                decreases total_cols - nc,
            {
                proof {
                    vstd::arithmetic::mul::lemma_mul_is_commutative(
                        old(self).columns as int,
                        factor as int,
                    );
                    vstd::arithmetic::div_mod::lemma_multiply_divide_lt(
                        nc as int,
                        factor as int,
                        old(self).columns as int,
                    );
                }
                let src_col = nc / factor;
                line.push(self.cells[src_row][src_col]);
                nc += 1;
            }
            new_cells.push(line);
            nr += 1;
        }
        self.rows = total_rows;
        self.columns = total_cols;
        self.cells = new_cells;
        proof {
            assert forall|p: Point| self.in_bounds(p) implies self.cell_at(p) == old(
                self,
            ).cell_at(Point { row: (p.row / factor) as usize, col: (p.col / factor) as usize })
                by {
                vstd::arithmetic::mul::lemma_mul_is_commutative(
                    old(self).rows as int,
                    factor as int,
                );
                vstd::arithmetic::mul::lemma_mul_is_commutative(
                    old(self).columns as int,
                    factor as int,
                );
                vstd::arithmetic::div_mod::lemma_multiply_divide_lt(
                    p.row as int,
                    factor as int,
                    old(self).rows as int,
                );
                vstd::arithmetic::div_mod::lemma_multiply_divide_lt(
                    p.col as int,
                    factor as int,
                    old(self).columns as int,
                );
            }
            if old(self).wf() {
                assert forall|p: Point| self.in_bounds(p) implies match self.cell_at(p) {
                    Cell::OneWay { target: Some(t), .. } => self.in_bounds(t),
                    _ => true,
                } by {
                    let q = Point {
                        row: (p.row / factor) as usize,
                        col: (p.col / factor) as usize,
                    };
                    vstd::arithmetic::mul::lemma_mul_is_commutative(
                        old(self).rows as int,
                        factor as int,
                    );
                    vstd::arithmetic::mul::lemma_mul_is_commutative(
                        old(self).columns as int,
                        factor as int,
                    );
                    vstd::arithmetic::div_mod::lemma_multiply_divide_lt(
                        p.row as int,
                        factor as int,
                        old(self).rows as int,
                    );
                    vstd::arithmetic::div_mod::lemma_multiply_divide_lt(
                        p.col as int,
                        factor as int,
                        old(self).columns as int,
                    );
                    assert(old(self).in_bounds(q));
                    match old(self).cell_at(q) {
                        Cell::OneWay { target: Some(t), .. } => {
                            assert(old(self).in_bounds(t));
                            vstd::arithmetic::mul::lemma_mul_inequality(
                                1,
                                factor as int,
                                old(self).rows as int,
                            );
                            vstd::arithmetic::mul::lemma_mul_inequality(
                                1,
                                factor as int,
                                old(self).columns as int,
                            );
                            vstd::arithmetic::mul::lemma_mul_is_commutative(
                                factor as int,
                                old(self).rows as int,
                            );
                            vstd::arithmetic::mul::lemma_mul_is_commutative(
                                factor as int,
                                old(self).columns as int,
                            );
                        },
                        _ => {},
                    }
                }
            }
        }
    }
}

/// Builds a grid map from a row-major brightness mask, one byte per cell:
/// dark pixels (brightness below 128) become impassable cells, light ones
/// traversable cells of cost 1.
pub fn parse_pixels(rows: usize, columns: usize, pixels: &Vec<u8>) -> (r: GridMap<usize>)
    requires
        pixels@.len() == rows * columns,
    ensures
        r.rows == rows,
        r.columns == columns,
        r.wf(),
        forall|p: Point|
            r.in_bounds(p) ==> r.cell_at(p) == (if pixels@[p.row * columns + p.col] < 128 {
                Cell::<usize>::Invalid
            } else {
                Cell::Valid { cost: 1usize }
            }),
{
    let total = pixels.len();
    let mut cells: Vec<Vec<Cell<usize>>> = Vec::new();
    let mut row: usize = 0;
    while row < rows
        invariant
            total == pixels@.len(),
            pixels@.len() == rows * columns,
            row <= rows,
            cells@.len() == row,
            forall|r: int|
                0 <= r < row ==> (#[trigger] cells@[r])@.len() == columns,
            forall|r: int, c: int|
                0 <= r < row && 0 <= c < columns ==> cells@[r]@[c] == (if pixels@[r * columns + c]
                    < 128 {
                    Cell::<usize>::Invalid
                } else {
                    Cell::Valid { cost: 1usize }
                }),
        decreases rows - row,
    {
        let mut line: Vec<Cell<usize>> = Vec::new();
        let mut col: usize = 0;
        while col < columns
            invariant
                total == pixels@.len(),
                pixels@.len() == rows * columns,
                row < rows,
                col <= columns,
                line@.len() == col,
                forall|c: int|
                    0 <= c < col ==> line@[c] == (if pixels@[row * columns + c] < 128 {
                        Cell::<usize>::Invalid
                    } else {
                        Cell::Valid { cost: 1usize }
                    }),
            decreases columns - col,
        {
            proof {
                vstd::arithmetic::mul::lemma_mul_inequality(
                    row as int + 1,
                    rows as int,
                    columns as int,
                );
                vstd::arithmetic::mul::lemma_mul_is_distributive_add_other_way(
                    columns as int,
                    row as int,
                    1,
                );
                vstd::arithmetic::mul::lemma_mul_basics(columns as int);
                assert(row * columns + col < rows * columns);
            }
            let idx = row * columns + col;
            if pixels[idx] < 128 {
                line.push(Cell::Invalid);
            } else {
                line.push(Cell::Valid { cost: 1 });
            }
            col += 1;
        }
        cells.push(line);
        row += 1;
    }
    GridMap { rows, columns, cells }
}

impl<C: RelativeCost> MapTrait for GridMap<C> {
    type Reference = Point;

    type Cost = C;

    open spec fn wf(&self) -> bool {
        self.rect_wf() && self.targets_wf()
    }

    open spec fn nodes(&self) -> Set<Point> {
        point_rect(self.rows as nat, self.columns as nat)
    }

    open spec fn neighbors(&self, node: Point) -> Seq<(Point, C)> {
        self.keep_traversable(self.candidate_moves(node))
    }

    proof fn lemma_neighbors_in_nodes(&self, node: Point) {
        self.lemma_keep_traversable_sub(self.candidate_moves(node));
        self.lemma_candidates_in_bounds(node);
    }

    fn is_valid(&self, node: Point) -> (r: bool) {
        node.row < self.rows && node.col < self.columns
    }

    fn neighbors_of(&self, node: Point) -> (r: Vec<(Point, C)>) {
        let mut cands: Vec<(Point, C)> = Vec::new();

        let c = self.cells[node.row][node.col];

        match c {
            Cell::Valid { cost } => {
                if node.row > 0 {
                    cands.push((Point { row: node.row - 1, col: node.col }, cost));
                }
                if node.col > 0 {
                    cands.push((Point { row: node.row, col: node.col - 1 }, cost));
                }
                if node.row < self.rows - 1 {
                    cands.push((Point { row: node.row + 1, col: node.col }, cost));
                }
                if node.col < self.columns - 1 {
                    cands.push((Point { row: node.row, col: node.col + 1 }, cost));
                }
            },
            Cell::OneWay { cost, direction, target } => {
                if node.row > 0 && direction != Direction::Down {
                    cands.push((Point { row: node.row - 1, col: node.col }, cost));
                }
                if node.col > 0 && direction != Direction::Right {
                    cands.push((Point { row: node.row, col: node.col - 1 }, cost));
                }
                if node.row < self.rows - 1 && direction != Direction::Up {
                    cands.push((Point { row: node.row + 1, col: node.col }, cost));
                }
                if node.col < self.columns - 1 && direction != Direction::Left {
                    cands.push((Point { row: node.row, col: node.col + 1 }, cost));
                }
                if let Some(t) = target {
                    cands.push((t, cost));
                }
            },
            Cell::Invalid => {},
        }

        assert(cands@ == self.candidate_moves(node));
        proof {
            self.lemma_candidates_in_bounds(node);
        }

        // keep only the candidates whose destination cell is traversable
        let mut out: Vec<(Point, C)> = Vec::new();
        let mut i: usize = 0;
        while i < cands.len()
            invariant
                self.rect_wf(),
                i <= cands.len(),
                forall|k: int|
                    0 <= k < cands@.len() ==> self.in_bounds(#[trigger] cands@[k].0),
                out@ == self.keep_traversable(cands@.subrange(0, i as int)),
            decreases cands.len() - i,
        {
            let (p, cost) = cands[i];
            let cell = self.cells[p.row][p.col];
            proof {
                assert(cands@.subrange(0, i + 1 as int).drop_last() =~= cands@.subrange(
                    0,
                    i as int,
                ));
                assert(cands@.subrange(0, i + 1 as int).last() == cands@[i as int]);
            }
            if !matches!(cell, Cell::Invalid) {
                out.push((p, cost));
            }
            i += 1;
        }
        proof {
            assert(cands@.subrange(0, cands@.len() as int) =~= cands@);
        }
        out
    }
}

/// A `MapStorage` that uses a rectangular grid of cells (a vec in a vec).
#[derive(Debug)]
pub struct CellStorage<T>(pub Vec<Vec<T>>);

impl<T> CellStorage<T> {
    /// How many rows of slots the storage holds.
    pub open spec fn spec_rows(&self) -> nat {
        self.0@.len()
    }

    /// How many columns of slots the storage holds.
    pub open spec fn spec_cols(&self) -> nat {
        if self.0@.len() == 0 {
            0
        } else {
            self.0@[0]@.len()
        }
    }
}

impl<T: Copy> MapStorage<T> for CellStorage<T> {
    type Reference = Point;

    open spec fn wf(&self) -> bool {
        forall|r: int|
            0 <= r < self.0@.len() ==> (#[trigger] self.0@[r])@.len() == self.spec_cols()
    }

    open spec fn dom(&self) -> Set<Point> {
        point_rect(self.spec_rows(), self.spec_cols())
    }

    open spec fn contents(&self) -> Map<Point, T> {
        Map::new(
            |p: Point| (p.row as nat) < self.spec_rows() && (p.col as nat) < self.spec_cols(),
            |p: Point| self.0@[p.row as int]@[p.col as int],
        )
    }

    proof fn lemma_wf_dom(&self) {
        lemma_point_rect_finite(self.spec_rows(), self.spec_cols());
    }

    fn is_valid(&self, node: Point) -> (r: bool) {
        node.row < self.0.len() && node.col < self.0[node.row].len()
    }

    fn get(&self, node: Point) -> (r: T) {
        self.0[node.row][node.col]
    }

    fn set(&mut self, node: Point, value: T) {
        self.0[node.row][node.col] = value;
        proof {
            assert(self.contents() =~= old(self).contents().insert(node, value));
            assert(self.dom() =~= old(self).dom());
        }
    }
}

} // verus!
