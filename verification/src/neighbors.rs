use crate::grid::lemma_cell_of_column_and_row;
use crate::grid::lemma_cell_on_grid;
use crate::grid::lemma_column_and_row_of_cell;
use crate::grid::column_of;
use crate::grid::row_of;
use crate::grid::CellGrid;
use crate::grid::Position;
use vstd::arithmetic::div_mod::lemma_div_is_ordered;
use vstd::arithmetic::div_mod::lemma_fundamental_div_mod;
use vstd::arithmetic::div_mod::lemma_fundamental_div_mod_converse;
use vstd::arithmetic::div_mod::lemma_mod_bound;
use vstd::prelude::*;
use vstd::seq_lib::lemma_no_dup_in_concat;
use vstd::seq_lib::lemma_seq_concat_contains_all_elements;

verus! {

/// Two numbers no further apart than `d` have quotients by `d`, rounded
/// down, no further apart than one.
proof fn lemma_quotients_of_near(x: int, y: int, d: int)
    requires
        d > 0,
        -d <= x - y <= d,
    ensures
        -1 <= x / d - y / d <= 1,
{
    lemma_quotient_of_next(x, d);
    lemma_quotient_of_next(y, d);
    lemma_div_is_ordered(x, y + d, d);
    lemma_div_is_ordered(y, x + d, d);
}

/// Adding the divisor raises the quotient by one.
proof fn lemma_quotient_of_next(x: int, d: int)
    requires
        d > 0,
    ensures
        (x + d) / d == x / d + 1,
{
    lemma_fundamental_div_mod(x, d);
    lemma_mod_bound(x, d);
    assert(x + d == (x / d + 1) * d + x % d) by (nonlinear_arith)
        requires
            x == d * (x / d) + x % d,
    ;
    lemma_fundamental_div_mod_converse(x + d, d, x / d + 1, x % d);
}

impl CellGrid {
    /// `a` and `b` are cells of the grid, and neither their columns nor their
    /// rows are more than one apart. A cell is adjacent to itself.
    pub open spec fn adjacent(&self, a: int, b: int) -> bool {
        &&& 0 <= a < self.cell_count()
        &&& 0 <= b < self.cell_count()
        &&& -1 <= b % (self.cx as int) - a % (self.cx as int) <= 1
        &&& -1 <= b / (self.cx as int) - a / (self.cx as int) <= 1
    }

    /// The cell `dx` columns and `dy` rows away from cell `idx`, as a list:
    /// empty when that place is off the grid.
    pub open spec fn neighbor_at(&self, idx: int, dx: int, dy: int) -> Seq<i32> {
        let nx = idx % (self.cx as int) + dx;
        let ny = idx / (self.cx as int) + dy;
        if 0 <= nx < self.cx && 0 <= ny < self.cy {
            seq![(nx + ny * self.cx) as i32]
        } else {
            Seq::empty()
        }
    }

    /// The first `k` of the nine places around cell `idx`, those of them that
    /// are on the grid: column by column from the left, and in each column
    /// from the lowest row up.
    pub open spec fn neighbors_upto(&self, idx: int, k: int) -> Seq<i32>
        decreases k,
    {
        if k <= 0 {
            Seq::empty()
        } else {
            self.neighbors_upto(idx, k - 1) + self.neighbor_at(idx, (k - 1) / 3 - 1, (k - 1) % 3 - 1)
        }
    }

    /// The cells around cell `idx` and `idx` itself, in the order of
    /// [`Self::neighbors_upto`].
    pub open spec fn neighbors(&self, idx: int) -> Seq<i32> {
        self.neighbors_upto(idx, 9)
    }

    /// A cell is among the first `k` places around `idx` exactly when it is
    /// the cell at one of them.
    proof fn lemma_neighbors_upto_contains(&self, idx: int, k: int, c: i32)
        ensures
            self.neighbors_upto(idx, k).contains(c) <==> exists|m: int|
                0 <= m < k && #[trigger] self.neighbor_at(idx, m / 3 - 1, m % 3 - 1).contains(c),
        decreases k,
    {
        if k > 0 {
            self.lemma_neighbors_upto_contains(idx, k - 1, c);
            lemma_seq_concat_contains_all_elements(
                self.neighbors_upto(idx, k - 1),
                self.neighbor_at(idx, (k - 1) / 3 - 1, (k - 1) % 3 - 1),
                c,
            );
        }
    }

    /// The cell at a place around `idx`, when there is one, is adjacent to
    /// `idx` and lies `dx` columns and `dy` rows from it.
    proof fn lemma_neighbor_at(&self, idx: int, dx: int, dy: int, c: i32)
        requires
            self.wf(),
            0 <= idx < self.cell_count(),
            -1 <= dx <= 1,
            -1 <= dy <= 1,
            self.neighbor_at(idx, dx, dy).contains(c),
        ensures
            self.adjacent(idx, c as int),
            c % self.cx - idx % (self.cx as int) == dx,
            c / self.cx - idx / (self.cx as int) == dy,
    {
        let cols = self.cx as int;
        let nx = idx % cols + dx;
        let ny = idx / cols + dy;
        lemma_cell_on_grid(cols, self.cy as int, nx, ny);
        lemma_column_and_row_of_cell(cols, nx, ny);
        assert(self.neighbor_at(idx, dx, dy)[0] == c);
    }

    /// The neighbours of a cell are the cells adjacent to it.
    pub proof fn lemma_neighbors_are_adjacent(&self, idx: int, c: i32)
        requires
            self.wf(),
            0 <= idx < self.cell_count(),
        ensures
            self.neighbors(idx).contains(c) <==> self.adjacent(idx, c as int),
    {
        let cols = self.cx as int;
        self.lemma_neighbors_upto_contains(idx, 9, c);
        if self.neighbors(idx).contains(c) {
            let m = choose|m: int|
                0 <= m < 9 && #[trigger] self.neighbor_at(idx, m / 3 - 1, m % 3 - 1).contains(c);
            self.lemma_neighbor_at(idx, m / 3 - 1, m % 3 - 1, c);
        }
        if self.adjacent(idx, c as int) {
            let dx = c % self.cx - idx % cols;
            let dy = c / self.cx - idx / cols;
            let m = 3 * (dx + 1) + (dy + 1);
            lemma_cell_of_column_and_row(cols, c as int);
            lemma_cell_of_column_and_row(cols, idx);
            lemma_cell_on_grid(cols, self.cy as int, c as int % cols, c as int / cols);
            assert(m / 3 - 1 == dx && m % 3 - 1 == dy);
            assert(self.neighbor_at(idx, dx, dy)[0] == c);
            assert(self.neighbor_at(idx, m / 3 - 1, m % 3 - 1).contains(c));
        }
    }

    /// No cell stands twice among the first `k` places around `idx`.
    proof fn lemma_neighbors_upto_distinct(&self, idx: int, k: int)
        requires
            self.wf(),
            0 <= idx < self.cell_count(),
            0 <= k <= 9,
        ensures
            self.neighbors_upto(idx, k).no_duplicates(),
        decreases k,
    {
        if k > 0 {
            self.lemma_neighbors_upto_distinct(idx, k - 1);
            let head = self.neighbors_upto(idx, k - 1);
            let tail = self.neighbor_at(idx, (k - 1) / 3 - 1, (k - 1) % 3 - 1);
            assert forall|i: int, j: int| 0 <= i < head.len() && 0 <= j < tail.len() implies head[i]
                != tail[j] by {
                let c = head[i];
                assert(head.contains(c));
                self.lemma_neighbors_upto_contains(idx, k - 1, c);
                let m = choose|m: int|
                    0 <= m < k - 1 && #[trigger] self.neighbor_at(idx, m / 3 - 1, m % 3 - 1).contains(
                        c,
                    );
                self.lemma_neighbor_at(idx, m / 3 - 1, m % 3 - 1, c);
                if c == tail[j] {
                    assert(tail.contains(c));
                    self.lemma_neighbor_at(idx, (k - 1) / 3 - 1, (k - 1) % 3 - 1, c);
                }
            }
            lemma_no_dup_in_concat(head, tail);
        }
    }

    /// No cell stands twice among the neighbours of a cell.
    pub proof fn lemma_neighbors_distinct(&self, idx: int)
        requires
            self.wf(),
            0 <= idx < self.cell_count(),
        ensures
            self.neighbors(idx).no_duplicates(),
    {
        self.lemma_neighbors_upto_distinct(idx, 9);
    }

    /// Two positions inside the rectangle that the cells tile, no further
    /// apart than a cell's side along either axis, fall in adjacent cells.
    pub proof fn lemma_near_positions_fall_in_adjacent_cells(&self, p: Position, q: Position)
        requires
            self.wf(),
            self.covers(p),
            self.covers(q),
            -self.csize <= p.x - q.x <= self.csize,
            -self.csize <= p.y - q.y <= self.csize,
        ensures
            self.adjacent(self.cell_index(p), self.cell_index(q)),
    {
        let c = self.csize as int;
        let cols = self.cx as int;
        let rows = self.cy as int;
        lemma_quotients_of_near(p.x as int, q.x as int, c);
        lemma_quotients_of_near(p.y as int, q.y as int, c);
        lemma_column_and_row_of_cell(cols, column_of(p, c), row_of(p, c));
        lemma_column_and_row_of_cell(cols, column_of(q, c), row_of(q, c));
        lemma_cell_on_grid(cols, rows, column_of(p, c), row_of(p, c));
        lemma_cell_on_grid(cols, rows, column_of(q, c), row_of(q, c));
    }

    /// The cells adjacent to cell `idx`, itself among them: the up to nine
    /// cells whose column and row are each at most one from its own. Places
    /// off the grid are left out, so every index returned names a cell.
    pub fn neighbor_cells(&self, idx: i32) -> (around: Vec<i32>)
        requires
            self.wf(),
            0 <= idx < self.cell_count(),
        ensures
            around@ == self.neighbors(idx as int),
            forall|c: i32| around@.contains(c) <==> self.adjacent(idx as int, c as int),
            forall|k: int| 0 <= k < around@.len() ==> 0 <= #[trigger] around@[k] < self.cell_count(),
            around@.no_duplicates(),
    {
        let x = self.ccol(idx);
        let y = self.crow(idx);
        let mut around: Vec<i32> = Vec::new();
        let mut dx: i32 = -1;
        while dx < 2
            invariant
                self.wf(),
                0 <= idx < self.cell_count(),
                x == idx % self.cx,
                y == idx / self.cx,
                0 <= x < self.cx,
                0 <= y < self.cy,
                -1 <= dx <= 2,
                around@ == self.neighbors_upto(idx as int, 3 * (dx + 1)),
            decreases 2 - dx,
        {
            let mut dy: i32 = -1;
            while dy < 2
                invariant
                    self.wf(),
                    0 <= idx < self.cell_count(),
                    x == idx % self.cx,
                    y == idx / self.cx,
                    0 <= x < self.cx,
                    0 <= y < self.cy,
                    -1 <= dx < 2,
                    -1 <= dy <= 2,
                    around@ == self.neighbors_upto(idx as int, 3 * (dx + 1) + (dy + 1)),
                decreases 2 - dy,
            {
                let nx = x + dx;
                let ny = y + dy;
                let ghost place = 3 * (dx + 1) + (dy + 1);
                assert(place / 3 - 1 == dx && place % 3 - 1 == dy);
                if nx >= 0 && nx < self.cx && ny >= 0 && ny < self.cy {
                    proof {
                        lemma_cell_on_grid(self.cx as int, self.cy as int, nx as int, ny as int);
                    }
                    let c = self.cidx((nx, ny));
                    around.push(c);
                    assert(around@ == self.neighbors_upto(idx as int, place) + seq![c]);
                } else {
                    assert(around@ == self.neighbors_upto(idx as int, place) + Seq::<i32>::empty());
                }
                dy += 1;
            }
            dx += 1;
        }
        proof {
            self.lemma_neighbors_distinct(idx as int);
            assert forall|c: i32| around@.contains(c) <==> self.adjacent(idx as int, c as int) by {
                self.lemma_neighbors_are_adjacent(idx as int, c);
            }
            assert forall|k: int| 0 <= k < around@.len() implies 0 <= #[trigger] around@[k]
                < self.cell_count() by {
                assert(around@.contains(around@[k]));
            }
        }
        around
    }
}

} // verus!
