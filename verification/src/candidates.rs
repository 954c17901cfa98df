use crate::grid::CellGrid;
use crate::grid::Position;
use vstd::prelude::*;
use vstd::seq_lib::lemma_no_dup_in_concat;
use vstd::seq_lib::lemma_seq_concat_contains_all_elements;

verus! {

/// The pairs `(x, y)` with `y` from `b` and `x < y`, in the order of `b`.
pub open spec fn pairs_with(x: i32, b: Seq<i32>) -> Seq<(i32, i32)>
    decreases b.len(),
{
    if b.len() == 0 {
        Seq::empty()
    } else if x < b.last() {
        pairs_with(x, b.drop_last()).push((x, b.last()))
    } else {
        pairs_with(x, b.drop_last())
    }
}

/// The pairs `(x, y)` with `x` from `a`, `y` from `b` and `x < y`: those of
/// the first entry of `a` first, and for one `x` in the order of `b`.
pub open spec fn ordered_pairs(a: Seq<i32>, b: Seq<i32>) -> Seq<(i32, i32)>
    decreases a.len(),
{
    if a.len() == 0 {
        Seq::empty()
    } else {
        ordered_pairs(a.drop_last(), b) + pairs_with(a.last(), b)
    }
}

/// What [`pairs_with`] holds.
pub proof fn lemma_pairs_with_contains(x: i32, b: Seq<i32>, p: (i32, i32))
    ensures
        pairs_with(x, b).contains(p) <==> p.0 == x && b.contains(p.1) && x < p.1,
    decreases b.len(),
{
    if b.len() > 0 {
        lemma_pairs_with_contains(x, b.drop_last(), p);
        vstd::seq_lib::lemma_seq_contains_after_push(b.drop_last(), b.last(), p.1);
        assert(b.drop_last().push(b.last()) == b);
        if x < b.last() {
            vstd::seq_lib::lemma_seq_contains_after_push(
                pairs_with(x, b.drop_last()),
                (x, b.last()),
                p,
            );
        }
    } else {
        assert(!Seq::<(i32, i32)>::empty().contains(p));
        assert(!b.contains(p.1));
    }
}

/// What [`ordered_pairs`] holds.
pub proof fn lemma_ordered_pairs_contains(a: Seq<i32>, b: Seq<i32>, p: (i32, i32))
    ensures
        ordered_pairs(a, b).contains(p) <==> a.contains(p.0) && b.contains(p.1) && p.0 < p.1,
    decreases a.len(),
{
    if a.len() > 0 {
        lemma_ordered_pairs_contains(a.drop_last(), b, p);
        lemma_pairs_with_contains(a.last(), b, p);
        lemma_seq_concat_contains_all_elements(
            ordered_pairs(a.drop_last(), b),
            pairs_with(a.last(), b),
            p,
        );
        vstd::seq_lib::lemma_seq_contains_after_push(a.drop_last(), a.last(), p.0);
        assert(a.drop_last().push(a.last()) == a);
    } else {
        assert(!Seq::<(i32, i32)>::empty().contains(p));
        assert(!a.contains(p.0));
    }
}

/// A list without repeats, less its last entry, has no repeats and does not
/// hold that last entry.
proof fn lemma_drop_last_distinct(s: Seq<i32>)
    requires
        s.no_duplicates(),
        s.len() > 0,
    ensures
        s.drop_last().no_duplicates(),
        !s.drop_last().contains(s.last()),
{
    if s.drop_last().contains(s.last()) {
        let k = choose|k: int| 0 <= k < s.drop_last().len() && s.drop_last()[k] == s.last();
        assert(s[k] == s[s.len() - 1]);
    }
}

/// From a list without repeats, [`pairs_with`] makes no pair twice.
pub proof fn lemma_pairs_with_distinct(x: i32, b: Seq<i32>)
    requires
        b.no_duplicates(),
    ensures
        pairs_with(x, b).no_duplicates(),
    decreases b.len(),
{
    if b.len() > 0 {
        lemma_drop_last_distinct(b);
        lemma_pairs_with_distinct(x, b.drop_last());
        if x < b.last() {
            let head = pairs_with(x, b.drop_last());
            lemma_pairs_with_contains(x, b.drop_last(), (x, b.last()));
            assert forall|i: int, j: int|
                0 <= i < head.len() && 0 <= j < seq![(x, b.last())].len() implies head[i] != seq![
                (x, b.last()),
            ][j] by {
                assert(head.contains(head[i]));
            }
            lemma_no_dup_in_concat(head, seq![(x, b.last())]);
            assert(head + seq![(x, b.last())] == head.push((x, b.last())));
        }
    }
}

/// From two lists without repeats, [`ordered_pairs`] makes no pair twice.
pub proof fn lemma_ordered_pairs_distinct(a: Seq<i32>, b: Seq<i32>)
    requires
        a.no_duplicates(),
        b.no_duplicates(),
    ensures
        ordered_pairs(a, b).no_duplicates(),
    decreases a.len(),
{
    if a.len() > 0 {
        lemma_drop_last_distinct(a);
        lemma_ordered_pairs_distinct(a.drop_last(), b);
        lemma_pairs_with_distinct(a.last(), b);
        let head = ordered_pairs(a.drop_last(), b);
        let tail = pairs_with(a.last(), b);
        assert forall|i: int, j: int| 0 <= i < head.len() && 0 <= j < tail.len() implies head[i]
            != tail[j] by {
            assert(head.contains(head[i]));
            assert(tail.contains(tail[j]));
            lemma_ordered_pairs_contains(a.drop_last(), b, head[i]);
            lemma_pairs_with_contains(a.last(), b, tail[j]);
        }
        lemma_no_dup_in_concat(head, tail);
    }
}

/// The entries of `s` stand in ascending order.
pub open spec fn ascends(s: Seq<i32>) -> bool {
    forall|k1: int, k2: int| 0 <= k1 < k2 < s.len() ==> s[k1] < s[k2]
}

/// Two ascending lists that hold the same entries are the same list.
pub proof fn lemma_ascending_lists_equal(s: Seq<i32>, t: Seq<i32>)
    requires
        ascends(s),
        ascends(t),
        forall|x: i32| s.contains(x) <==> t.contains(x),
    ensures
        s == t,
    decreases s.len(),
{
    if s.len() == 0 {
        if t.len() > 0 {
            assert(t.contains(t[0]));
        }
        assert(s =~= t);
    } else if t.len() == 0 {
        assert(s.contains(s[0]));
    } else {
        let ks = s.len() - 1;
        let kt = t.len() - 1;
        assert(s.contains(s[ks]));
        assert(t.contains(t[kt]));
        let js = choose|j: int| 0 <= j < s.len() && s[j] == t[kt];
        let jt = choose|j: int| 0 <= j < t.len() && t[j] == s[ks];
        assert(s[js] <= s[ks]) by {
            if js < ks {
                assert(s[js] < s[ks]);
            }
        }
        assert(t[jt] <= t[kt]) by {
            if jt < kt {
                assert(t[jt] < t[kt]);
            }
        }
        assert(s.last() == t.last());
        let s0 = s.drop_last();
        let t0 = t.drop_last();
        assert forall|x: i32| s0.contains(x) <==> t0.contains(x) by {
            if s0.contains(x) {
                let j = choose|j: int| 0 <= j < s0.len() && s0[j] == x;
                assert(s[j] < s[ks]);
                assert(s.contains(x));
                let i = choose|i: int| 0 <= i < t.len() && t[i] == x;
                assert(t0[i] == x);
            }
            if t0.contains(x) {
                let j = choose|j: int| 0 <= j < t0.len() && t0[j] == x;
                assert(t[j] < t[kt]);
                assert(t.contains(x));
                let i = choose|i: int| 0 <= i < s.len() && s[i] == x;
                assert(s0[i] == x);
            }
        }
        assert(ascends(s0)) by {
            assert forall|k1: int, k2: int| 0 <= k1 < k2 < s0.len() implies s0[k1] < s0[k2] by {
                assert(s[k1] < s[k2]);
            }
        }
        assert(ascends(t0)) by {
            assert forall|k1: int, k2: int| 0 <= k1 < k2 < t0.len() implies t0[k1] < t0[k2] by {
                assert(t[k1] < t[k2]);
            }
        }
        lemma_ascending_lists_equal(s0, t0);
        assert(s =~= s0.push(s.last()));
        assert(t =~= t0.push(t.last()));
    }
}

/// Appends to `out` the pairs `(x, y)` with `x` from `a`, `y` from `b` and
/// `x < y`.
fn extend_with_pairs(out: &mut Vec<(i32, i32)>, a: &Vec<i32>, b: &Vec<i32>)
    ensures
        final(out)@ == old(out)@ + ordered_pairs(a@, b@),
{
    let mut p: usize = 0;
    while p < a.len()
        invariant
            p <= a.len(),
            out@ == old(out)@ + ordered_pairs(a@.take(p as int), b@),
        decreases a.len() - p,
    {
        let x = a[p];
        let ghost done = out@;
        let mut q: usize = 0;
        while q < b.len()
            invariant
                q <= b.len(),
                out@ == done + pairs_with(x, b@.take(q as int)),
            decreases b.len() - q,
        {
            let y = b[q];
            assert(b@.take(q + 1).drop_last() == b@.take(q as int));
            if x < y {
                out.push((x, y));
            }
            q += 1;
        }
        assert(b@.take(b.len() as int) == b@);
        assert(a@.take(p + 1).drop_last() == a@.take(p as int));
        p += 1;
    }
    assert(a@.take(a.len() as int) == a@);
}

impl CellGrid {
    /// The pairs that cell `a` makes with the first `n` of its neighbours:
    /// for each neighbour in turn, the pairs `(i, j)` with `i` filed in `a`,
    /// `j` filed in the neighbour and `i < j`.
    pub open spec fn pairs_around(&self, a: int, n: int) -> Seq<(i32, i32)>
        decreases n,
    {
        if n <= 0 {
            Seq::empty()
        } else {
            self.pairs_around(a, n - 1) + ordered_pairs(
                self.cell(a),
                self.cell(self.neighbors(a)[n - 1] as int),
            )
        }
    }

    /// The pairs that the first `a` cells make with all their neighbours.
    pub open spec fn pairs_upto(&self, a: int) -> Seq<(i32, i32)>
        decreases a,
    {
        if a <= 0 {
            Seq::empty()
        } else {
            self.pairs_upto(a - 1) + self.pairs_around(a - 1, self.neighbors(a - 1).len() as int)
        }
    }

    /// The candidate pairs in the order in which they are found: cell by
    /// cell, for each cell neighbour by neighbour, and for each such two
    /// cells as [`ordered_pairs`] lists them.
    pub open spec fn candidates(&self) -> Seq<(i32, i32)> {
        self.pairs_upto(self.cell_count())
    }

    /// `i` and `j` are a candidate pair: `i < j`, and the cells that hold
    /// them are adjacent.
    pub open spec fn is_candidate(&self, i: i32, j: i32) -> bool {
        i < j && exists|a: int, b: int|
            self.adjacent(a, b) && #[trigger] self.cell(a).contains(i) && #[trigger] self.cell(
                b,
            ).contains(j)
    }

    /// `p` is a pair that cell `a` makes with its neighbour number `k`.
    pub open spec fn made_by(&self, a: int, k: int, p: (i32, i32)) -> bool {
        &&& 0 <= k < self.neighbors(a).len()
        &&& p.0 < p.1
        &&& self.cell(a).contains(p.0)
        &&& self.cell(self.neighbors(a)[k] as int).contains(p.1)
    }

    proof fn lemma_pairs_around_contains(&self, a: int, n: int, p: (i32, i32))
        requires
            0 <= n <= self.neighbors(a).len(),
        ensures
            self.pairs_around(a, n).contains(p) <==> exists|k: int|
                0 <= k < n && #[trigger] self.made_by(a, k, p),
        decreases n,
    {
        if n > 0 {
            self.lemma_pairs_around_contains(a, n - 1, p);
            let tail = ordered_pairs(self.cell(a), self.cell(self.neighbors(a)[n - 1] as int));
            lemma_ordered_pairs_contains(
                self.cell(a),
                self.cell(self.neighbors(a)[n - 1] as int),
                p,
            );
            lemma_seq_concat_contains_all_elements(self.pairs_around(a, n - 1), tail, p);
            if tail.contains(p) {
                assert(self.made_by(a, n - 1, p));
            }
        } else {
            assert(!Seq::<(i32, i32)>::empty().contains(p));
        }
    }

    proof fn lemma_pairs_upto_contains(&self, a: int, p: (i32, i32))
        ensures
            self.pairs_upto(a).contains(p) <==> exists|c: int, k: int|
                0 <= c < a && #[trigger] self.made_by(c, k, p),
        decreases a,
    {
        if a > 0 {
            self.lemma_pairs_upto_contains(a - 1, p);
            let n = self.neighbors(a - 1).len() as int;
            let tail = self.pairs_around(a - 1, n);
            self.lemma_pairs_around_contains(a - 1, n, p);
            lemma_seq_concat_contains_all_elements(self.pairs_upto(a - 1), tail, p);
            if tail.contains(p) {
                let k = choose|k: int| 0 <= k < n && #[trigger] self.made_by(a - 1, k, p);
                assert(self.made_by(a - 1, k, p));
            }
            if exists|c: int, k: int| 0 <= c < a && #[trigger] self.made_by(c, k, p) {
                let (c, k) = choose|c: int, k: int| 0 <= c < a && #[trigger] self.made_by(c, k, p);
                if c == a - 1 {
                    assert(0 <= k < n && self.made_by(a - 1, k, p));
                } else {
                    assert(0 <= c < a - 1 && self.made_by(c, k, p));
                }
            }
        } else {
            assert(!Seq::<(i32, i32)>::empty().contains(p));
        }
    }

    /// The list of candidates holds exactly the candidate pairs.
    pub proof fn lemma_candidates_contains(&self, i: i32, j: i32)
        requires
            self.wf(),
        ensures
            self.candidates().contains((i, j)) <==> self.is_candidate(i, j),
    {
        let p = (i, j);
        self.lemma_pairs_upto_contains(self.cell_count(), p);
        if self.candidates().contains(p) {
            let (c, k) = choose|c: int, k: int|
                0 <= c < self.cell_count() && #[trigger] self.made_by(c, k, p);
            let b = self.neighbors(c)[k];
            assert(self.neighbors(c).contains(b));
            self.lemma_neighbors_are_adjacent(c, b);
            assert(self.adjacent(c, b as int) && self.cell(c).contains(i) && self.cell(
                b as int,
            ).contains(j));
        }
        if self.is_candidate(i, j) {
            let (a, b) = choose|a: int, b: int|
                self.adjacent(a, b) && #[trigger] self.cell(a).contains(i) && #[trigger] self.cell(
                    b,
                ).contains(j);
            self.lemma_neighbors_are_adjacent(a, b as i32);
            let k = choose|k: int|
                0 <= k < self.neighbors(a).len() && self.neighbors(a)[k] == b as i32;
            assert(self.made_by(a, k, p));
        }
    }

    /// A cell whose entries ascend holds none of them twice.
    proof fn lemma_ascending_cell_distinct(&self, c: int)
        requires
            self.ascending(),
            0 <= c < self.cells@.len(),
        ensures
            self.cell(c).no_duplicates(),
    {
        assert forall|k1: int, k2: int|
            0 <= k1 < self.cell(c).len() && 0 <= k2 < self.cell(c).len() && k1 != k2 implies self.cell(
            c,
        )[k1] != self.cell(c)[k2] by {
            if k1 < k2 {
                assert(self.cell(c)[k1] < self.cell(c)[k2]);
            } else {
                assert(self.cell(c)[k2] < self.cell(c)[k1]);
            }
        }
    }

    proof fn lemma_pairs_around_distinct(&self, a: int, n: int)
        requires
            self.wf(),
            self.ascending(),
            self.disjoint(),
            0 <= a < self.cell_count(),
            0 <= n <= self.neighbors(a).len(),
        ensures
            self.pairs_around(a, n).no_duplicates(),
        decreases n,
    {
        if n > 0 {
            self.lemma_pairs_around_distinct(a, n - 1);
            self.lemma_neighbors_distinct(a);
            let around = self.neighbors(a);
            let b = around[n - 1];
            assert(around.contains(b));
            self.lemma_neighbors_are_adjacent(a, b);
            self.lemma_ascending_cell_distinct(a);
            self.lemma_ascending_cell_distinct(b as int);
            lemma_ordered_pairs_distinct(self.cell(a), self.cell(b as int));
            let head = self.pairs_around(a, n - 1);
            let tail = ordered_pairs(self.cell(a), self.cell(b as int));
            assert forall|i: int, j: int| 0 <= i < head.len() && 0 <= j < tail.len() implies head[i]
                != tail[j] by {
                let p = head[i];
                assert(head.contains(p));
                assert(tail.contains(tail[j]));
                self.lemma_pairs_around_contains(a, n - 1, p);
                lemma_ordered_pairs_contains(self.cell(a), self.cell(b as int), tail[j]);
                let k = choose|k: int| 0 <= k < n - 1 && #[trigger] self.made_by(a, k, p);
                let other = around[k];
                assert(around.contains(other));
                self.lemma_neighbors_are_adjacent(a, other);
                assert(other != b);
                if p == tail[j] {
                    assert(self.cell(other as int).contains(p.1));
                    assert(self.cell(b as int).contains(p.1));
                }
            }
            lemma_no_dup_in_concat(head, tail);
        }
    }

    proof fn lemma_pairs_upto_distinct(&self, a: int)
        requires
            self.wf(),
            self.ascending(),
            self.disjoint(),
            0 <= a <= self.cell_count(),
        ensures
            self.pairs_upto(a).no_duplicates(),
        decreases a,
    {
        if a > 0 {
            self.lemma_pairs_upto_distinct(a - 1);
            let n = self.neighbors(a - 1).len() as int;
            self.lemma_pairs_around_distinct(a - 1, n);
            let head = self.pairs_upto(a - 1);
            let tail = self.pairs_around(a - 1, n);
            assert forall|i: int, j: int| 0 <= i < head.len() && 0 <= j < tail.len() implies head[i]
                != tail[j] by {
                let p = head[i];
                assert(head.contains(p));
                assert(tail.contains(tail[j]));
                self.lemma_pairs_upto_contains(a - 1, p);
                self.lemma_pairs_around_contains(a - 1, n, tail[j]);
                let (c, k) = choose|c: int, k: int|
                    0 <= c < a - 1 && #[trigger] self.made_by(c, k, p);
                let m = choose|m: int| 0 <= m < n && #[trigger] self.made_by(a - 1, m, tail[j]);
                if p == tail[j] {
                    assert(self.cell(c).contains(p.0));
                    assert(self.cell(a - 1).contains(p.0));
                }
            }
            lemma_no_dup_in_concat(head, tail);
        }
    }

    /// Where every cell lists its entries in ascending order and no index
    /// stands in two cells, no candidate pair is listed twice.
    pub proof fn lemma_candidates_distinct(&self)
        requires
            self.wf(),
            self.ascending(),
            self.disjoint(),
        ensures
            self.candidates().no_duplicates(),
    {
        self.lemma_pairs_upto_distinct(self.cell_count());
    }

    /// Of the particles filed in the grid, two make a candidate pair exactly
    /// when the first has the lower index and the cells that their positions
    /// fall in are adjacent.
    pub proof fn lemma_candidates_by_position(&self, particles: Seq<Position>, i: i32, j: i32)
        requires
            self.wf(),
            self.files(particles),
        ensures
            self.is_candidate(i, j) <==> 0 <= i < j < particles.len() && self.adjacent(
                self.cell_index(particles[i as int]),
                self.cell_index(particles[j as int]),
            ),
    {
        self.lemma_filed_once(particles);
        if self.is_candidate(i, j) {
            let (a, b) = choose|a: int, b: int|
                self.adjacent(a, b) && #[trigger] self.cell(a).contains(i) && #[trigger] self.cell(
                    b,
                ).contains(j);
            assert(a == self.cell_index(particles[i as int]));
            assert(b == self.cell_index(particles[j as int]));
        }
        if 0 <= i < j < particles.len() {
            let a = self.cell_index(particles[i as int]);
            let b = self.cell_index(particles[j as int]);
            assert(self.cell(a).contains(i));
            assert(self.cell(b).contains(j));
        }
    }

    /// Two grids with the same columns and rows give every cell the same
    /// neighbours.
    proof fn lemma_same_neighbors(&self, other: &CellGrid, idx: int, k: int)
        requires
            self.cx == other.cx,
            self.cy == other.cy,
        ensures
            self.neighbors_upto(idx, k) == other.neighbors_upto(idx, k),
        decreases k,
    {
        if k > 0 {
            self.lemma_same_neighbors(other, idx, k - 1);
        }
    }

    proof fn lemma_same_pairs_around(&self, other: &CellGrid, a: int, n: int)
        requires
            self.wf(),
            other.wf(),
            self.same_layout(other),
            forall|c: int| 0 <= c < self.cell_count() ==> self.cell(c) == other.cell(c),
            0 <= a < self.cell_count(),
            0 <= n <= self.neighbors(a).len(),
        ensures
            self.pairs_around(a, n) == other.pairs_around(a, n),
        decreases n,
    {
        self.lemma_same_neighbors(other, a, 9);
        if n > 0 {
            self.lemma_same_pairs_around(other, a, n - 1);
            let b = self.neighbors(a)[n - 1];
            assert(self.neighbors(a).contains(b));
            self.lemma_neighbors_are_adjacent(a, b);
        }
    }

    proof fn lemma_same_pairs_upto(&self, other: &CellGrid, a: int)
        requires
            self.wf(),
            other.wf(),
            self.same_layout(other),
            forall|c: int| 0 <= c < self.cell_count() ==> self.cell(c) == other.cell(c),
            0 <= a <= self.cell_count(),
        ensures
            self.pairs_upto(a) == other.pairs_upto(a),
        decreases a,
    {
        if a > 0 {
            self.lemma_same_pairs_upto(other, a - 1);
            self.lemma_same_neighbors(other, a - 1, 9);
            self.lemma_same_pairs_around(other, a - 1, self.neighbors(a - 1).len() as int);
        }
    }

    /// The same particles, filed in two grids over the same domain with the
    /// same cell size, fill the cells of both alike, and both grids list the
    /// same candidate pairs in the same order.
    pub proof fn lemma_same_particles_same_candidates(
        &self,
        other: &CellGrid,
        particles: Seq<Position>,
    )
        requires
            self.wf(),
            other.wf(),
            self.same_layout(other),
            self.files(particles),
            other.files(particles),
        ensures
            forall|c: int| 0 <= c < self.cell_count() ==> self.cell(c) == other.cell(c),
            self.candidates() == other.candidates(),
    {
        self.lemma_filed_once(particles);
        other.lemma_filed_once(particles);
        assert forall|c: int| 0 <= c < self.cell_count() implies self.cell(c) == other.cell(c) by {
            assert forall|x: i32| self.cell(c).contains(x) <==> other.cell(c).contains(x) by {
                if self.cell(c).contains(x) {
                    assert(other.cell(c).contains(x) <==> c == other.cell_index(
                        particles[x as int],
                    ));
                }
                if other.cell(c).contains(x) {
                    assert(self.cell(c).contains(x) <==> c == self.cell_index(
                        particles[x as int],
                    ));
                }
            }
            assert(ascends(self.cell(c))) by {
                assert forall|k1: int, k2: int| 0 <= k1 < k2 < self.cell(c).len() implies self.cell(
                    c,
                )[k1] < self.cell(c)[k2] by {}
            }
            assert(ascends(other.cell(c))) by {
                assert forall|k1: int, k2: int|
                    0 <= k1 < k2 < other.cell(c).len() implies other.cell(c)[k1] < other.cell(
                    c,
                )[k2] by {}
            }
            lemma_ascending_lists_equal(self.cell(c), other.cell(c));
        }
        self.lemma_same_pairs_upto(other, self.cell_count());
    }

    /// The candidate pairs: every `(i, j)` with `i < j` whose particles are
    /// filed in adjacent cells, a cell being adjacent to itself. Each pair
    /// is listed once, whichever of the two cells is looked at first.
    pub fn candidate_pairs(&self) -> (pairs: Vec<(i32, i32)>)
        requires
            self.wf(),
        ensures
            pairs@ == self.candidates(),
            forall|i: i32, j: i32| pairs@.contains((i, j)) <==> self.is_candidate(i, j),
            self.ascending() && self.disjoint() ==> pairs@.no_duplicates(),
    {
        let mut pairs: Vec<(i32, i32)> = Vec::new();
        let count = self.cells.len();
        let mut a: usize = 0;
        while a < count
            invariant
                self.wf(),
                count == self.cells@.len(),
                a <= count,
                pairs@ == self.pairs_upto(a as int),
            decreases count - a,
        {
            let around = self.neighbor_cells(a as i32);
            let ghost done = pairs@;
            let mut k: usize = 0;
            while k < around.len()
                invariant
                    self.wf(),
                    a < count == self.cells@.len(),
                    k <= around.len(),
                    around@ == self.neighbors(a as int),
                    forall|m: int|
                        0 <= m < around@.len() ==> 0 <= #[trigger] around@[m] < self.cell_count(),
                    pairs@ == done + self.pairs_around(a as int, k as int),
                decreases around.len() - k,
            {
                let b = around[k] as usize;
                extend_with_pairs(&mut pairs, &self.cells[a], &self.cells[b]);
                k += 1;
            }
            a += 1;
        }
        proof {
            assert forall|i: i32, j: i32| pairs@.contains((i, j)) <==> self.is_candidate(i, j) by {
                self.lemma_candidates_contains(i, j);
            }
            if self.ascending() && self.disjoint() {
                self.lemma_candidates_distinct();
            }
        }
        pairs
    }
}

} // verus!
