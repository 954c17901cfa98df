use crate::error::GridError;
use vstd::arithmetic::div_mod::lemma_div_is_ordered;
use vstd::arithmetic::div_mod::lemma_div_pos_is_pos;
use vstd::arithmetic::div_mod::lemma_fundamental_div_mod;
use vstd::arithmetic::div_mod::lemma_fundamental_div_mod_converse;
use vstd::arithmetic::div_mod::lemma_mod_bound;
use vstd::prelude::*;

verus! {

/// Side of a cell, in whole length units, that a simulation uses unless told otherwise.
pub const DEFAULT_CSIZE: i32 = 5;

/// Where a particle's centre lies, each coordinate rounded down to a whole
/// length unit. This is all that the grid reads of a particle.
#[derive(Clone, Copy, Debug, PartialEq, Eq, Structural)]
pub struct Position {
    pub x: i32,
    pub y: i32,
}

impl Position {
    pub fn new(x: i32, y: i32) -> (p: Position)
        ensures
            p.x == x,
            p.y == y,
    {
        Position { x, y }
    }
}

/// A uniform partition of a `width` by `height` domain into square cells of
/// side `csize`. Cell `c` sits in column `c % cx` and row `c / cx`, and
/// `cells[c]` lists the indices of the particles filed in it.
pub struct CellGrid {
    pub height: i64,
    pub width: i64,
    pub csize: i32,
    pub cells: Vec<Vec<i32>>,
    /// Number of columns.
    pub cx: i32,
    /// Number of rows.
    pub cy: i32,
}

/// How many cells of side `csize` it takes to span `extent`, the last one
/// holding the far boundary itself.
pub open spec fn cells_along(extent: int, csize: int) -> int {
    extent / csize + 1
}

/// A domain and a cell size that a grid can be built from.
pub open spec fn valid_config(height: int, width: int, csize: int) -> bool {
    csize > 0 && width >= 0 && height >= 0
}

/// The column that `pos` falls in: its `x` divided by the cell size, rounded
/// down.
pub open spec fn column_of(pos: Position, csize: int) -> int {
    (pos.x as int) / csize
}

/// The row that `pos` falls in: its `y` divided by the cell size, rounded down.
pub open spec fn row_of(pos: Position, csize: int) -> int {
    (pos.y as int) / csize
}

/// The index under which `pos` is filed on a grid of `cols` columns: its
/// column plus `cols` times its row. For a position inside the rectangle that
/// the cells tile, this is the cell that it lies in.
pub open spec fn cell_of(pos: Position, csize: int, cols: int) -> int {
    column_of(pos, csize) + row_of(pos, csize) * cols
}

/// Column `x` of row `y` is cell `x + y * cols`, and from that index the
/// column and the row can be read back.
pub proof fn lemma_column_and_row_of_cell(cols: int, x: int, y: int)
    requires
        0 <= x < cols,
    ensures
        (x + y * cols) % cols == x,
        (x + y * cols) / cols == y,
{
    lemma_fundamental_div_mod_converse(x + y * cols, cols, y, x);
}

/// A cell index is its column plus `cols` times its row.
pub proof fn lemma_cell_of_column_and_row(cols: int, idx: int)
    requires
        cols > 0,
    ensures
        idx % cols + (idx / cols) * cols == idx,
        0 <= idx % cols < cols,
{
    lemma_fundamental_div_mod(idx, cols);
    lemma_mod_bound(idx, cols);
    assert(cols * (idx / cols) == (idx / cols) * cols) by (nonlinear_arith);
}

/// On a grid of `cols` by `rows` cells, column `x` of row `y` is a cell of
/// the grid exactly when `x` is a column and `y` is a row of it.
pub proof fn lemma_cell_on_grid(cols: int, rows: int, x: int, y: int)
    requires
        0 <= x < cols,
    ensures
        0 <= x + y * cols < cols * rows <==> 0 <= y < rows,
{
    assert(0 <= x + y * cols < cols * rows <==> 0 <= y < rows) by (nonlinear_arith)
        requires
            0 <= x < cols,
    ;
}

impl CellGrid {
    /// Number of cells.
    pub open spec fn cell_count(&self) -> int {
        self.cx * self.cy
    }

    /// The particle indices filed in cell `c`, in the order they were filed.
    pub open spec fn cell(&self, c: int) -> Seq<i32> {
        self.cells@[c]@
    }

    /// The grid has the columns and rows that its domain and cell size call
    /// for, one list per cell, and few enough cells that an `i32` names each.
    pub open spec fn wf(&self) -> bool {
        &&& valid_config(self.height as int, self.width as int, self.csize as int)
        &&& self.cx == cells_along(self.width as int, self.csize as int)
        &&& self.cy == cells_along(self.height as int, self.csize as int)
        &&& self.cells@.len() == self.cx * self.cy
        &&& self.cx * self.cy <= i32::MAX
    }

    /// The cells hold the particles at `particles`, each filed by its index in
    /// the cell that its position falls in: every entry of a cell is a
    /// particle's index, every cell lists its entries in ascending order,
    /// every position falls in a cell of the grid, and a particle's index
    /// stands in a cell exactly when that is the cell its position falls in.
    pub open spec fn files(&self, particles: Seq<Position>) -> bool {
        &&& forall|c: int, k: int|
            0 <= c < self.cells@.len() && 0 <= k < self.cell(c).len() ==> 0 <= #[trigger] self.cell(
                c,
            )[k] < particles.len()
        &&& self.ascending()
        &&& forall|i: int| 0 <= i < particles.len() ==> self.has_cell_for(#[trigger] particles[i])
        &&& forall|c: int, i: i32|
            0 <= c < self.cells@.len() && 0 <= i < particles.len() ==> (#[trigger] self.cell(
                c,
            ).contains(i) <==> c == self.cell_index(particles[i as int]))
    }

    /// Every cell lists its entries in ascending order, so none twice.
    pub open spec fn ascending(&self) -> bool {
        forall|c: int, k1: int, k2: int|
            0 <= c < self.cells@.len() && 0 <= k1 < k2 < self.cell(c).len() ==> #[trigger] self.cell(
                c,
            )[k1] < #[trigger] self.cell(c)[k2]
    }

    /// No particle index stands in two cells.
    pub open spec fn disjoint(&self) -> bool {
        forall|a: int, b: int, i: i32|
            0 <= a < self.cells@.len() && 0 <= b < self.cells@.len() && #[trigger] self.cell(
                a,
            ).contains(i) && #[trigger] self.cell(b).contains(i) ==> a == b
    }

    /// The grid has the same domain, cell size, columns and rows as `other`.
    pub open spec fn same_layout(&self, other: &CellGrid) -> bool {
        &&& self.height == other.height
        &&& self.width == other.width
        &&& self.csize == other.csize
        &&& self.cx == other.cx
        &&& self.cy == other.cy
    }

    /// The index under which `pos` is filed in this grid.
    pub open spec fn cell_index(&self, pos: Position) -> int {
        cell_of(pos, self.csize as int, self.cx as int)
    }

    /// The index under which `pos` is filed names a cell of the grid. That is
    /// so for every position that the grid covers; of a position beside the
    /// grid it holds only where its column and row happen to add up to the
    /// index of a cell.
    pub open spec fn has_cell_for(&self, pos: Position) -> bool {
        0 <= self.cell_index(pos) < self.cell_count()
    }

    /// `pos` lies inside the rectangle that the grid's cells tile.
    pub open spec fn covers(&self, pos: Position) -> bool {
        &&& 0 <= column_of(pos, self.csize as int) < self.cx
        &&& 0 <= row_of(pos, self.csize as int) < self.cy
    }

    /// A position inside the domain, boundary included, lies inside the
    /// rectangle that the cells tile, and so falls in one of them.
    pub proof fn lemma_domain_is_covered(&self, pos: Position)
        requires
            self.wf(),
            0 <= pos.x <= self.width,
            0 <= pos.y <= self.height,
        ensures
            self.covers(pos),
            self.has_cell_for(pos),
    {
        let c = self.csize as int;
        lemma_div_pos_is_pos(pos.x as int, c);
        lemma_div_pos_is_pos(pos.y as int, c);
        lemma_div_is_ordered(pos.x as int, self.width as int, c);
        lemma_div_is_ordered(pos.y as int, self.height as int, c);
        lemma_cell_on_grid(self.cx as int, self.cy as int, column_of(pos, c), row_of(pos, c));
    }

    /// A particle's index stands in the list of one cell and of no other:
    /// that of the cell that its position falls in.
    pub proof fn lemma_filed_once(&self, particles: Seq<Position>)
        requires
            self.wf(),
            self.files(particles),
        ensures
            self.disjoint(),
            forall|c: int, i: i32|
                0 <= c < self.cell_count() && #[trigger] self.cell(c).contains(i) ==> 0 <= i
                    < particles.len() && c == self.cell_index(particles[i as int]),
            forall|i: i32|
                0 <= i < particles.len() ==> self.has_cell_for(particles[i as int])
                    && #[trigger] self.cell(self.cell_index(particles[i as int])).contains(i),
    {
        assert forall|c: int, i: i32|
            0 <= c < self.cell_count() && #[trigger] self.cell(c).contains(i) implies 0 <= i
            < particles.len() && c == self.cell_index(particles[i as int]) by {
            let k = choose|k: int| 0 <= k < self.cell(c).len() && self.cell(c)[k] == i;
            assert(0 <= self.cell(c)[k] < particles.len());
        }
        assert forall|i: i32| 0 <= i < particles.len() implies self.has_cell_for(
            particles[i as int],
        ) && #[trigger] self.cell(self.cell_index(particles[i as int])).contains(i) by {
            let home = self.cell_index(particles[i as int]);
            assert(self.has_cell_for(particles[i as int]));
            assert(self.cell(home).contains(i) <==> home == self.cell_index(particles[i as int]));
        }
    }

    /// Empties every cell, then files each particle, by its index in
    /// `particles`, in the cell that its position falls in.
    pub fn set_cells(&mut self, particles: &Vec<Position>)
        requires
            old(self).wf(),
            particles.len() <= i32::MAX,
            forall|i: int|
                0 <= i < particles.len() ==> old(self).has_cell_for(#[trigger] particles[i]),
        ensures
            final(self).wf(),
            final(self).same_layout(old(self)),
            final(self).files(particles@),
            final(self).disjoint(),
    {
        let count = self.cells.len();
        let mut c: usize = 0;
        while c < count
            invariant
                self.wf(),
                self.same_layout(old(self)),
                count == self.cells@.len(),
                c <= count,
                forall|d: int| 0 <= d < c ==> (#[trigger] self.cell(d)).len() == 0,
            decreases count - c,
        {
            let ghost before = *self;
            self.cells[c].clear();
            assert forall|d: int| 0 <= d < c + 1 implies (#[trigger] self.cell(d)).len() == 0 by {
                if d < c {
                    assert(self.cell(d) == before.cell(d));
                }
            }
            c += 1;
        }
        let mut i: usize = 0;
        while i < particles.len()
            invariant
                self.wf(),
                self.same_layout(old(self)),
                i <= particles.len() <= i32::MAX,
                forall|j: int|
                    0 <= j < particles.len() ==> old(self).has_cell_for(#[trigger] particles[j]),
                self.files(particles@.take(i as int)),
            decreases particles.len() - i,
        {
            let pos = particles[i];
            let cell = self.get_cell(pos);
            let ghost before = *self;
            self.cells[cell as usize].push(i as i32);
            proof {
                let filed = particles@.take(i as int);
                let next = particles@.take(i + 1);
                assert(self.cell(cell as int) == before.cell(cell as int).push(i as i32));
                assert forall|d: int| 0 <= d < self.cells@.len() && d != cell implies self.cell(d)
                    == before.cell(d) by {}
                assert forall|d: int, k: int|
                    0 <= d < self.cells@.len() && 0 <= k < self.cell(d).len() implies 0
                    <= #[trigger] self.cell(d)[k] < next.len() by {
                    if d != cell || k < before.cell(d).len() {
                        assert(self.cell(d)[k] == before.cell(d)[k]);
                    }
                }
                assert forall|d: int, k1: int, k2: int|
                    0 <= d < self.cells@.len() && 0 <= k1 < k2 < self.cell(d).len() implies
                    #[trigger] self.cell(d)[k1] < #[trigger] self.cell(d)[k2] by {
                    assert(self.cell(d)[k1] == before.cell(d)[k1]);
                    if d != cell || k2 < before.cell(d).len() {
                        assert(self.cell(d)[k2] == before.cell(d)[k2]);
                    }
                }
                assert forall|d: int, x: i32|
                    0 <= d < self.cells@.len() && 0 <= x < next.len() implies (#[trigger] self.cell(
                    d,
                ).contains(x) <==> d == self.cell_index(next[x as int])) by {
                    if d == cell {
                        vstd::seq_lib::lemma_seq_contains_after_push(
                            before.cell(d),
                            i as i32,
                            x,
                        );
                    }
                    if x < i {
                        assert(next[x as int] == filed[x as int]);
                        assert(before.cell(d).contains(x) <==> d == before.cell_index(
                            filed[x as int],
                        ));
                    } else {
                        assert(next[x as int] == pos);
                        if before.cell(d).contains(x) {
                            let k = choose|k: int|
                                0 <= k < before.cell(d).len() && before.cell(d)[k] == x;
                            assert(before.cell(d)[k] < filed.len());
                        }
                    }
                }
            }
            i += 1;
        }
        assert(particles@.take(particles.len() as int) == particles@);
        proof {
            self.lemma_filed_once(particles@);
        }
    }

    /// Lays a grid of square cells of side `csize` over a `width` by `height`
    /// domain and files the particles at `particles` in it. The grid has
    /// `width / csize + 1` columns and `height / csize + 1` rows, the
    /// quotients rounded down.
    pub fn new(height: i64, width: i64, csize: i32, particles: &Vec<Position>) -> (made: Result<
        CellGrid,
        GridError,
    >)
        requires
            valid_config(height as int, width as int, csize as int) ==> {
                &&& cells_along(width as int, csize as int) * cells_along(
                    height as int,
                    csize as int,
                ) <= i32::MAX
                &&& particles.len() <= i32::MAX
                &&& forall|i: int|
                    0 <= i < particles.len() ==> 0 <= cell_of(
                        #[trigger] particles[i],
                        csize as int,
                        cells_along(width as int, csize as int),
                    ) < cells_along(width as int, csize as int) * cells_along(
                        height as int,
                        csize as int,
                    )
            },
        ensures
            match made {
                Ok(grid) => {
                    &&& valid_config(height as int, width as int, csize as int)
                    &&& grid.wf()
                    &&& grid.height == height
                    &&& grid.width == width
                    &&& grid.csize == csize
                    &&& grid.files(particles@)
                    &&& grid.disjoint()
                },
                Err(e) => e == GridError::InvalidConfig && !valid_config(
                    height as int,
                    width as int,
                    csize as int,
                ),
            },
    {
        if csize <= 0 || width < 0 || height < 0 {
            return Err(GridError::InvalidConfig);
        }
        proof {
            let cols = cells_along(width as int, csize as int);
            let rows = cells_along(height as int, csize as int);
            lemma_div_pos_is_pos(width as int, csize as int);
            lemma_div_pos_is_pos(height as int, csize as int);
            assert(cols <= i32::MAX && rows <= i32::MAX) by (nonlinear_arith)
                requires
                    cols >= 1,
                    rows >= 1,
                    cols * rows <= i32::MAX,
            ;
        }
        let cx: i32 = (width / (csize as i64) + 1) as i32;
        let cy: i32 = (height / (csize as i64) + 1) as i32;
        let count: i32 = cx * cy;
        let mut cells: Vec<Vec<i32>> = Vec::new();
        let mut c: i32 = 0;
        while c < count
            invariant
                0 <= c <= count,
                cells@.len() == c,
            decreases count - c,
        {
            cells.push(Vec::new());
            c += 1;
        }
        let mut grid = CellGrid { height, width, csize, cells, cx, cy };
        grid.set_cells(particles);
        Ok(grid)
    }

    /// The index of the cell in column `cell.0` of row `cell.1`.
    pub fn cidx(&self, cell: (i32, i32)) -> (idx: i32)
        requires
            i32::MIN <= cell.0 + cell.1 * self.cx <= i32::MAX,
        ensures
            idx == cell.0 + cell.1 * self.cx,
    {
        let (x, y) = cell;
        assert(-0x4000_0000_0000_0000 <= (y as int) * (self.cx as int) <= 0x4000_0000_0000_0000)
            by (nonlinear_arith)
            requires
                -0x8000_0000 <= y as int <= 0x7fff_ffff,
                -0x8000_0000 <= self.cx as int <= 0x7fff_ffff,
        ;
        let wide: i64 = x as i64 + (y as i64) * (self.cx as i64);
        wide as i32
    }

    /// The column of cell `idx`.
    pub fn ccol(&self, idx: i32) -> (col: i32)
        requires
            self.cx > 0,
            idx >= 0,
        ensures
            col == idx % self.cx,
            0 <= col < self.cx,
    {
        idx % self.cx
    }

    /// The row of cell `idx`.
    pub fn crow(&self, idx: i32) -> (row: i32)
        requires
            self.cx > 0,
            idx >= 0,
        ensures
            row == idx / self.cx,
            0 <= row,
            idx < self.cell_count() ==> row < self.cy,
    {
        proof {
            lemma_div_pos_is_pos(idx as int, self.cx as int);
            lemma_cell_of_column_and_row(self.cx as int, idx as int);
            lemma_cell_on_grid(
                self.cx as int,
                self.cy as int,
                (idx as int) % (self.cx as int),
                (idx as int) / (self.cx as int),
            );
        }
        idx / self.cx
    }

    /// The index of the cell that `pos` is filed in: its column plus the
    /// number of columns times its row, the column and the row being the
    /// coordinates divided by the cell size and rounded down.
    pub fn get_cell(&self, pos: Position) -> (idx: i32)
        requires
            self.wf(),
            self.has_cell_for(pos),
        ensures
            idx == self.cell_index(pos),
            0 <= idx < self.cell_count(),
    {
        let col = floor_div(pos.x, self.csize);
        let row = floor_div(pos.y, self.csize);
        self.cidx((col, row))
    }

    /// The index of the cell that `pos` is filed in, or `None` when that
    /// index names no cell of the grid.
    pub fn locate(&self, pos: Position) -> (found: Option<i32>)
        requires
            self.wf(),
        ensures
            match found {
                Some(idx) => self.has_cell_for(pos) && idx == self.cell_index(pos),
                None => !self.has_cell_for(pos),
            },
    {
        let col = floor_div(pos.x, self.csize);
        let row = floor_div(pos.y, self.csize);
        assert(-0x4000_0000_0000_0000 <= (row as int) * (self.cx as int) <= 0x4000_0000_0000_0000)
            by (nonlinear_arith)
            requires
                -0x8000_0000 <= row as int <= 0x7fff_ffff,
                -0x8000_0000 <= self.cx as int <= 0x7fff_ffff,
        ;
        let wide: i64 = col as i64 + (row as i64) * (self.cx as i64);
        if 0 <= wide && wide < self.cells.len() as i64 {
            Some(wide as i32)
        } else {
            None
        }
    }
}

/// `a / d` rounded down, also for negative `a`.
fn floor_div(a: i32, d: i32) -> (q: i32)
    requires
        d > 0,
    ensures
        q == (a as int) / (d as int),
{
    if a >= 0 {
        a / d
    } else {
        let m: i32 = -(a + 1);
        proof {
            let mq = (m as int) / (d as int);
            let mr = (m as int) % (d as int);
            lemma_fundamental_div_mod(m as int, d as int);
            lemma_mod_bound(m as int, d as int);
            lemma_div_pos_is_pos(m as int, d as int);
            lemma_div_is_ordered(0, m as int, d as int);
            assert(mq <= m) by (nonlinear_arith)
                requires
                    m == d * mq + mr,
                    0 <= mr,
                    d >= 1,
                    mq >= 0,
            ;
            assert(a as int == (-mq - 1) * d + (d - 1 - mr)) by (nonlinear_arith)
                requires
                    m == d * mq + mr,
                    a == -m - 1,
            ;
            lemma_fundamental_div_mod_converse(a as int, d as int, -mq - 1, d - 1 - mr);
        }
        -(m / d) - 1
    }
}

} // verus!
