//! The grid of candidate cells.
//!
//! A cell is the set of tile ids the corresponding position might
//! still resolve to, held as a duplicate-free vector. `x` is the row
//! (below `height`), `y` the column (below `width`). A cell's entropy
//! is its candidate count: entropy 1 means collapsed, entropy 0 is a
//! contradiction and never a valid persisted state.

use crate::rng::gen_index;
use crate::WfcError;
use vstd::pervasive::VecAdditionalExecFns;
use vstd::prelude::*;

verus! {

pub struct Grid {
    width: usize,
    height: usize,
    num_tiles: usize,
    cells: Vec<Vec<Vec<usize>>>,
}

/// The candidate count of `row`, summed over its cells.
spec fn row_weight(row: Seq<Vec<usize>>) -> nat
    decreases row.len(),
{
    if row.len() == 0 {
        0
    } else {
        row_weight(row.drop_last()) + row.last()@.len()
    }
}

/// The candidate count of the whole matrix, summed over all cells.
spec fn rows_weight(rows: Seq<Vec<Vec<usize>>>) -> nat
    decreases rows.len(),
{
    if rows.len() == 0 {
        0
    } else {
        rows_weight(rows.drop_last()) + row_weight(rows.last()@)
    }
}

proof fn lemma_row_weight_update(row: Seq<Vec<usize>>, y: int, v: Vec<usize>)
    requires
        0 <= y < row.len(),
    ensures
        row_weight(row.update(y, v)) + row[y]@.len() == row_weight(row) + v@.len(),
    decreases row.len(),
{
    let r2 = row.update(y, v);
    if y == row.len() - 1 {
        assert(r2.drop_last() =~= row.drop_last());
    } else {
        assert(r2.drop_last() =~= row.drop_last().update(y, v));
        lemma_row_weight_update(row.drop_last(), y, v);
    }
}

proof fn lemma_rows_weight_update(rows: Seq<Vec<Vec<usize>>>, x: int, r: Vec<Vec<usize>>)
    requires
        0 <= x < rows.len(),
    ensures
        rows_weight(rows.update(x, r)) + row_weight(rows[x]@) == rows_weight(rows) + row_weight(
            r@,
        ),
    decreases rows.len(),
{
    let r2 = rows.update(x, r);
    if x == rows.len() - 1 {
        assert(r2.drop_last() =~= rows.drop_last());
    } else {
        assert(r2.drop_last() =~= rows.drop_last().update(x, r));
        lemma_rows_weight_update(rows.drop_last(), x, r);
    }
}

/// The full candidate domain `0, 1, ..., n-1` that every cell starts
/// from.
pub open spec fn full_domain(n: int) -> Seq<usize> {
    Seq::new(n as nat, |i: int| i as usize)
}

/// A sequence with no duplicates loses exactly the removed value's
/// occurrence when one index is taken out.
proof fn lemma_remove_membership(s: Seq<usize>, j: int)
    requires
        0 <= j < s.len(),
        s.no_duplicates(),
    ensures
        forall|t: usize| s.remove(j).contains(t) <==> (s.contains(t) && t != s[j]),
        s.remove(j).no_duplicates(),
{
    s.remove_ensures(j);
    assert forall|t: usize| s.remove(j).contains(t) implies (s.contains(t) && t != s[j]) by {
        let k = choose|k: int| 0 <= k < s.remove(j).len() && s.remove(j)[k] == t;
        if k < j {
            assert(s[k] == t);
        } else {
            assert(s[k + 1] == t);
        }
    }
    assert forall|t: usize| s.contains(t) && t != s[j] implies s.remove(j).contains(t) by {
        let k = choose|k: int| 0 <= k < s.len() && s[k] == t;
        if k < j {
            assert(s.remove(j)[k] == t);
        } else {
            assert(s.remove(j)[k - 1] == t);
        }
    }
    assert forall|a: int, b: int|
        0 <= a < b < s.remove(j).len() implies s.remove(j)[a] != s.remove(j)[b] by {
        let a0: int = if a < j {
            a
        } else {
            a + 1
        };
        let b0: int = if b < j {
            b
        } else {
            b + 1
        };
        assert(s.remove(j)[a] == s[a0]);
        assert(s.remove(j)[b] == s[b0]);
    }
}

impl Grid {
    pub closed spec fn spec_width(self) -> int {
        self.width as int
    }

    pub closed spec fn spec_height(self) -> int {
        self.height as int
    }

    pub closed spec fn spec_num_tiles(self) -> int {
        self.num_tiles as int
    }

    /// The candidate sequence of the cell at row `x`, column `y`.
    pub closed spec fn cell(self, x: int, y: int) -> Seq<usize> {
        self.cells@[x]@[y]@
    }

    pub open spec fn in_bounds_spec(self, x: int, y: int) -> bool {
        0 <= x < self.spec_height() && 0 <= y < self.spec_width()
    }

    /// The sum of all cells' candidate counts; propagation and
    /// collapse only ever shrink it, which bounds a run's work.
    pub closed spec fn weight(self) -> nat {
        rows_weight(self.cells@)
    }

    pub closed spec fn shape_wf(self) -> bool {
        &&& self.cells@.len() == self.spec_height()
        &&& forall|x: int|
            0 <= x < self.cells@.len() ==> (#[trigger] self.cells@[x])@.len() == self.spec_width()
    }

    /// One cell's candidates are mutually distinct tile ids below the
    /// catalog size.
    pub open spec fn cell_ok(self, x: int, y: int) -> bool {
        &&& self.cell(x, y).no_duplicates()
        &&& forall|k: int|
            0 <= k < self.cell(x, y).len() ==> #[trigger] self.cell(x, y)[k]
                < self.spec_num_tiles()
    }

    pub open spec fn wf(self) -> bool {
        &&& self.shape_wf()
        &&& forall|x: int, y: int| self.in_bounds_spec(x, y) ==> #[trigger] self.cell_ok(x, y)
    }

    /// The dimensions and tile count are machine words.
    pub proof fn lemma_dims_bounds(self)
        ensures
            0 <= self.spec_width() <= usize::MAX,
            0 <= self.spec_height() <= usize::MAX,
            0 <= self.spec_num_tiles() <= usize::MAX,
    {
    }

    /// Both grids have the same dimensions and tile universe.
    pub open spec fn same_shape(self, other: Grid) -> bool {
        &&& self.spec_width() == other.spec_width()
        &&& self.spec_height() == other.spec_height()
        &&& self.spec_num_tiles() == other.spec_num_tiles()
    }

    /// A fresh grid: every cell holds the full id range of the
    /// catalog's `num_tiles` tiles.
    pub fn new(width: usize, height: usize, num_tiles: usize) -> (g: Grid)
        ensures
            g.wf(),
            g.spec_width() == width,
            g.spec_height() == height,
            g.spec_num_tiles() == num_tiles,
            forall|x: int, y: int| g.in_bounds_spec(x, y) ==> g.cell(x, y) == full_domain(
                num_tiles as int,
            ),
    {
        let mut cells: Vec<Vec<Vec<usize>>> = Vec::new();
        let mut x: usize = 0;
        while x < height
            invariant
                x <= height,
                cells@.len() == x,
                forall|a: int|
                    0 <= a < x ==> (#[trigger] cells@[a])@.len() == width,
                forall|a: int, b: int|
                    0 <= a < x && 0 <= b < width ==> (#[trigger] cells@[a]@[b])@ == full_domain(
                        num_tiles as int,
                    ),
            decreases height - x,
        {
            let mut row: Vec<Vec<usize>> = Vec::new();
            let mut y: usize = 0;
            while y < width
                invariant
                    y <= width,
                    row@.len() == y,
                    forall|b: int|
                        0 <= b < y ==> (#[trigger] row@[b])@ == full_domain(num_tiles as int),
                decreases width - y,
            {
                row.push(Self::make_ids(num_tiles));
                y = y + 1;
            }
            cells.push(row);
            x = x + 1;
        }
        let g = Grid { width, height, num_tiles, cells };
        proof {
            assert forall|x0: int, y0: int| g.in_bounds_spec(x0, y0) implies g.cell_ok(x0, y0) by {
                assert(g.cell(x0, y0) == full_domain(num_tiles as int));
            }
        }
        g
    }

    /// The ids `0, 1, ..., n-1`.
    fn make_ids(n: usize) -> (v: Vec<usize>)
        ensures
            v@ == full_domain(n as int),
    {
        let mut v: Vec<usize> = Vec::new();
        let mut i: usize = 0;
        while i < n
            invariant
                i <= n,
                v@.len() == i,
                forall|k: int| 0 <= k < i ==> #[trigger] v@[k] == k,
            decreases n - i,
        {
            v.push(i);
            i = i + 1;
        }
        proof {
            assert(v@ =~= full_domain(n as int));
        }
        v
    }

    pub fn width(&self) -> (w: usize)
        ensures
            w == self.spec_width(),
    {
        self.width
    }

    pub fn height(&self) -> (h: usize)
        ensures
            h == self.spec_height(),
    {
        self.height
    }

    pub fn num_tiles(&self) -> (n: usize)
        ensures
            n == self.spec_num_tiles(),
    {
        self.num_tiles
    }

    pub fn in_bounds(&self, x: usize, y: usize) -> (r: bool)
        ensures
            r == self.in_bounds_spec(x as int, y as int),
    {
        x < self.height && y < self.width
    }

    /// The candidate count of the cell at `(x, y)`, or `OutOfBounds`
    /// exactly when the coordinate exceeds the grid's dimensions.
    pub fn entropy(&self, x: usize, y: usize) -> (r: Result<usize, WfcError>)
        requires
            self.wf(),
        ensures
            match r {
                Ok(e) => self.in_bounds_spec(x as int, y as int) && e == self.cell(
                    x as int,
                    y as int,
                ).len(),
                Err(e) => e == WfcError::OutOfBounds && !self.in_bounds_spec(x as int, y as int),
            },
    {
        if self.in_bounds(x, y) {
            Ok(self.entropy_at(x, y))
        } else {
            Err(WfcError::OutOfBounds)
        }
    }

    /// The candidate count at an in-bounds coordinate.
    pub(crate) fn entropy_at(&self, x: usize, y: usize) -> (e: usize)
        requires
            self.wf(),
            self.in_bounds_spec(x as int, y as int),
        ensures
            e == self.cell(x as int, y as int).len(),
    {
        self.cells[x][y].len()
    }

    /// A copy of the candidate ids at an in-bounds coordinate.
    pub(crate) fn cell_copy(&self, x: usize, y: usize) -> (v: Vec<usize>)
        requires
            self.wf(),
            self.in_bounds_spec(x as int, y as int),
        ensures
            v@ == self.cell(x as int, y as int),
    {
        let src = &self.cells[x][y];
        let mut v: Vec<usize> = Vec::new();
        let mut k: usize = 0;
        while k < src.len()
            invariant
                k <= src@.len(),
                src@ == self.cell(x as int, y as int),
                v@ == src@.subrange(0, k as int),
            decreases src@.len() - k,
        {
            v.push(src[k]);
            k = k + 1;
        }
        proof {
            assert(v@ =~= self.cell(x as int, y as int));
        }
        v
    }

    /// A read-only copy of the candidate set at `(x, y)`, or
    /// `OutOfBounds` exactly when the coordinate exceeds the
    /// dimensions.
    pub fn candidates(&self, x: usize, y: usize) -> (r: Result<Vec<usize>, WfcError>)
        requires
            self.wf(),
        ensures
            match r {
                Ok(v) => self.in_bounds_spec(x as int, y as int) && v@ == self.cell(
                    x as int,
                    y as int,
                ),
                Err(e) => e == WfcError::OutOfBounds && !self.in_bounds_spec(x as int, y as int),
            },
    {
        if self.in_bounds(x, y) {
            Ok(self.cell_copy(x, y))
        } else {
            Err(WfcError::OutOfBounds)
        }
    }

    /// Replaces one cell's candidates wholesale; the callers are the
    /// narrowing steps, which only ever hand back a subset.
    pub(crate) fn set_cell(&mut self, x: usize, y: usize, v: Vec<usize>)
        requires
            old(self).wf(),
            old(self).in_bounds_spec(x as int, y as int),
            v@.no_duplicates(),
            forall|k: int| 0 <= k < v@.len() ==> #[trigger] v@[k] < old(self).spec_num_tiles(),
        ensures
            final(self).wf(),
            final(self).same_shape(*old(self)),
            final(self).cell(x as int, y as int) == v@,
            forall|a: int, b: int|
                final(self).in_bounds_spec(a, b) && !(a == x && b == y) ==> final(self).cell(a, b)
                    == old(self).cell(a, b),
            final(self).weight() + old(self).cell(x as int, y as int).len() == old(self).weight()
                + v@.len(),
    {
        let ghost old_rows = self.cells@;
        let ghost old_row = self.cells@[x as int]@;
        let ghost old_cell = self.cells@[x as int]@[y as int];
        let row: &mut Vec<Vec<usize>> = &mut self.cells[x];
        let ghost v_snapshot = v@;
        row.set(y, v);
        proof {
            assert(self.cells@[x as int]@ =~= old_row.update(y as int, self.cells@[x as int]@[y as int]));
            lemma_row_weight_update(old_row, y as int, self.cells@[x as int]@[y as int]);
            lemma_rows_weight_update(old_rows, x as int, self.cells@[x as int]);
            assert(self.cells@ =~= old_rows.update(x as int, self.cells@[x as int]));
            assert forall|a: int, b: int|
                self.in_bounds_spec(a, b) implies #[trigger] self.cell_ok(a, b) by {
                if a == x && b == y {
                    assert(self.cell(a, b) == v_snapshot);
                } else {
                    assert(self.cell(a, b) == old(self).cell(a, b));
                    assert(old(self).cell_ok(a, b));
                }
            }
        }
    }

    /// Removes one candidate if present; reports whether the set
    /// changed. `OutOfBounds` exactly when the coordinate exceeds the
    /// dimensions.
    pub fn remove(&mut self, x: usize, y: usize, tile_id: usize) -> (r: Result<bool, WfcError>)
        requires
            old(self).wf(),
        ensures
            final(self).wf(),
            match r {
                Ok(changed) => {
                    &&& old(self).in_bounds_spec(x as int, y as int)
                    &&& changed == old(self).cell(x as int, y as int).contains(tile_id)
                    &&& final(self).same_shape(*old(self))
                    &&& forall|t: usize|
                        final(self).cell(x as int, y as int).contains(t) <==> (old(self).cell(
                            x as int,
                            y as int,
                        ).contains(t) && t != tile_id)
                    &&& if changed {
                        final(self).cell(x as int, y as int).len() + 1 == old(self).cell(
                            x as int,
                            y as int,
                        ).len()
                    } else {
                        *final(self) == *old(self)
                    }
                    &&& forall|a: int, b: int|
                        final(self).in_bounds_spec(a, b) && !(a == x && b == y)
                            ==> final(self).cell(a, b) == old(self).cell(a, b)
                    &&& final(self).weight() + old(self).cell(x as int, y as int).len()
                        == old(self).weight() + final(self).cell(x as int, y as int).len()
                },
                Err(e) => {
                    &&& e == WfcError::OutOfBounds
                    &&& !old(self).in_bounds_spec(x as int, y as int)
                    &&& *final(self) == *old(self)
                },
            },
    {
        if !self.in_bounds(x, y) {
            return Err(WfcError::OutOfBounds);
        }
        let ghost cell_seq = self.cell(x as int, y as int);
        proof {
            assert(self.cell_ok(x as int, y as int));
        }
        match Self::index_of(&self.cells[x][y], tile_id) {
            Some(j) => {
                proof {
                    lemma_remove_membership(cell_seq, j as int);
                    assert(cell_seq.contains(cell_seq[j as int]));
                }
                let smaller = Self::remove_at(&self.cells[x][y], j);
                proof {
                    assert forall|k: int|
                        0 <= k < smaller@.len() implies #[trigger] smaller@[k]
                        < self.spec_num_tiles() by {
                        assert(smaller@.contains(smaller@[k]));
                        let k0 = choose|k0: int|
                            0 <= k0 < cell_seq.len() && cell_seq[k0] == smaller@[k];
                        assert(cell_seq[k0] < self.spec_num_tiles());
                    }
                }
                self.set_cell(x, y, smaller);
                Ok(true)
            },
            None => Ok(false),
        }
    }

    /// The first index holding `t`, or `None` when `t` is absent.
    fn index_of(v: &Vec<usize>, t: usize) -> (r: Option<usize>)
        ensures
            match r {
                Some(j) => j < v@.len() && v@[j as int] == t && v@.contains(t),
                None => !v@.contains(t),
            },
    {
        let mut j: usize = 0;
        while j < v.len()
            invariant
                j <= v@.len(),
                forall|k: int| 0 <= k < j ==> #[trigger] v@[k] != t,
            decreases v@.len() - j,
        {
            if v[j] == t {
                return Some(j);
            }
            j = j + 1;
        }
        proof {
            if v@.contains(t) {
                let k = choose|k: int| 0 <= k < v@.len() && v@[k] == t;
                assert(v@[k] != t);
            }
        }
        None
    }

    /// The input without its entry at `j`.
    fn remove_at(v: &Vec<usize>, j: usize) -> (out: Vec<usize>)
        requires
            j < v@.len(),
        ensures
            out@ == v@.remove(j as int),
    {
        let mut out: Vec<usize> = Vec::new();
        let mut k: usize = 0;
        while k < v.len()
            invariant
                k <= v@.len(),
                j < v@.len(),
                out@ == if k <= j {
                    v@.subrange(0, k as int)
                } else {
                    v@.subrange(0, j as int) + v@.subrange(j as int + 1, k as int)
                },
            decreases v@.len() - k,
        {
            if k != j {
                out.push(v[k]);
            }
            k = k + 1;
        }
        proof {
            assert(out@ =~= v@.remove(j as int));
        }
        out
    }

    /// Collapses the cell at `(x, y)`: a no-op when its entropy is at
    /// most 1, and otherwise the destructive replacement of the set by
    /// one singleton drawn from it. `OutOfBounds` exactly when the
    /// coordinate exceeds the dimensions.
    pub fn collapse(
        &mut self,
        x: usize,
        y: usize,
        rng: &mut rand::rngs::StdRng,
    ) -> (r: Result<(), WfcError>)
        requires
            old(self).wf(),
        ensures
            final(self).wf(),
            match r {
                Ok(u) => {
                    &&& old(self).in_bounds_spec(x as int, y as int)
                    &&& final(self).same_shape(*old(self))
                    &&& forall|a: int, b: int|
                        final(self).in_bounds_spec(a, b) && !(a == x && b == y)
                            ==> final(self).cell(a, b) == old(self).cell(a, b)
                    &&& if old(self).cell(x as int, y as int).len() <= 1 {
                        *final(self) == *old(self)
                    } else {
                        final(self).cell(x as int, y as int).len() == 1 && old(self).cell(
                            x as int,
                            y as int,
                        ).contains(final(self).cell(x as int, y as int)[0])
                    }
                    &&& final(self).weight() + old(self).cell(x as int, y as int).len()
                        == old(self).weight() + final(self).cell(x as int, y as int).len()
                },
                Err(e) => {
                    &&& e == WfcError::OutOfBounds
                    &&& !old(self).in_bounds_spec(x as int, y as int)
                    &&& *final(self) == *old(self)
                },
            },
    {
        if !self.in_bounds(x, y) {
            return Err(WfcError::OutOfBounds);
        }
        let e = self.entropy_at(x, y);
        if e <= 1 {
            return Ok(());
        }
        let k = gen_index(rng, e);
        let chosen = self.cells[x][y][k];
        proof {
            assert(self.cell_ok(x as int, y as int));
            assert(self.cell(x as int, y as int).contains(chosen));
        }
        let mut v: Vec<usize> = Vec::new();
        v.push(chosen);
        self.set_cell(x, y, v);
        Ok(())
    }

    /// The largest entropy over all cells, or 0 for a grid without
    /// cells.
    pub fn max_entropy(&self) -> (m: usize)
        requires
            self.wf(),
        ensures
            forall|x: int, y: int| self.in_bounds_spec(x, y) ==> #[trigger] self.cell(x, y).len()
                <= m,
            m == 0 || exists|x: int, y: int|
                self.in_bounds_spec(x, y) && #[trigger] self.cell(x, y).len() == m,
    {
        let mut m: usize = 0;
        let mut x: usize = 0;
        while x < self.height
            invariant
                self.wf(),
                x <= self.spec_height(),
                forall|a: int, b: int|
                    0 <= a < x && 0 <= b < self.spec_width() ==> #[trigger] self.cell(a, b).len()
                        <= m,
                m == 0 || exists|a: int, b: int|
                    self.in_bounds_spec(a, b) && #[trigger] self.cell(a, b).len() == m,
            decreases self.spec_height() - x,
        {
            let mut y: usize = 0;
            while y < self.width
                invariant
                    self.wf(),
                    x < self.spec_height(),
                    y <= self.spec_width(),
                    forall|a: int, b: int|
                        0 <= a < x && 0 <= b < self.spec_width() ==> #[trigger] self.cell(
                            a,
                            b,
                        ).len() <= m,
                    forall|b: int|
                        0 <= b < y ==> #[trigger] self.cell(x as int, b).len() <= m,
                    m == 0 || exists|a: int, b: int|
                        self.in_bounds_spec(a, b) && #[trigger] self.cell(a, b).len() == m,
                decreases self.spec_width() - y,
            {
                let e = self.entropy_at(x, y);
                if e > m {
                    m = e;
                }
                y = y + 1;
            }
            x = x + 1;
        }
        m
    }

    /// The first cell, in row-major order, with the smallest entropy
    /// among cells of entropy above 1; `None` exactly when every cell
    /// is collapsed or empty.
    pub fn min_entropy_uncollapsed_cell(&self) -> (r: Option<(usize, usize)>)
        requires
            self.wf(),
        ensures
            match r {
                Some(c) => {
                    &&& self.in_bounds_spec(c.0 as int, c.1 as int)
                    &&& self.cell(c.0 as int, c.1 as int).len() > 1
                    &&& forall|a: int, b: int|
                        self.in_bounds_spec(a, b) && #[trigger] self.cell(a, b).len() > 1
                            ==> self.cell(a, b).len() >= self.cell(c.0 as int, c.1 as int).len()
                    &&& forall|a: int, b: int|
                        self.in_bounds_spec(a, b) && #[trigger] self.cell(a, b).len() > 1 && (a
                            < c.0 || (a == c.0 && b < c.1)) ==> self.cell(a, b).len() > self.cell(
                            c.0 as int,
                            c.1 as int,
                        ).len()
                },
                None => forall|a: int, b: int|
                    self.in_bounds_spec(a, b) ==> #[trigger] self.cell(a, b).len() <= 1,
            },
    {
        let mut best: Option<(usize, usize)> = None;
        let mut best_len: usize = 0;
        let mut x: usize = 0;
        while x < self.height
            invariant
                self.wf(),
                x <= self.spec_height(),
                match best {
                    Some(c) => {
                        &&& self.in_bounds_spec(c.0 as int, c.1 as int)
                        &&& (c.0 < x)
                        &&& best_len == self.cell(c.0 as int, c.1 as int).len()
                        &&& best_len > 1
                        &&& forall|a: int, b: int|
                            0 <= a < x && 0 <= b < self.spec_width() && #[trigger] self.cell(
                                a,
                                b,
                            ).len() > 1 ==> self.cell(a, b).len() >= best_len
                        &&& forall|a: int, b: int|
                            0 <= a < x && 0 <= b < self.spec_width() && #[trigger] self.cell(
                                a,
                                b,
                            ).len() > 1 && (a < c.0 || (a == c.0 && b < c.1)) ==> self.cell(
                                a,
                                b,
                            ).len() > best_len
                    },
                    None => forall|a: int, b: int|
                        0 <= a < x && 0 <= b < self.spec_width() ==> #[trigger] self.cell(
                            a,
                            b,
                        ).len() <= 1,
                },
            decreases self.spec_height() - x,
        {
            let mut y: usize = 0;
            while y < self.width
                invariant
                    self.wf(),
                    x < self.spec_height(),
                    y <= self.spec_width(),
                    match best {
                        Some(c) => {
                            &&& self.in_bounds_spec(c.0 as int, c.1 as int)
                            &&& (c.0 < x || (c.0 == x && c.1 < y))
                            &&& best_len == self.cell(c.0 as int, c.1 as int).len()
                            &&& best_len > 1
                            &&& forall|a: int, b: int|
                                ((0 <= a < x && 0 <= b < self.spec_width()) || (a == x && 0 <= b
                                    < y)) && #[trigger] self.cell(a, b).len() > 1 ==> self.cell(
                                    a,
                                    b,
                                ).len() >= best_len
                            &&& forall|a: int, b: int|
                                ((0 <= a < x && 0 <= b < self.spec_width()) || (a == x && 0 <= b
                                    < y)) && #[trigger] self.cell(a, b).len() > 1 && (a < c.0 || (a
                                    == c.0 && b < c.1)) ==> self.cell(a, b).len() > best_len
                        },
                        None => forall|a: int, b: int|
                            ((0 <= a < x && 0 <= b < self.spec_width()) || (a == x && 0 <= b < y))
                                ==> #[trigger] self.cell(a, b).len() <= 1,
                    },
                decreases self.spec_width() - y,
            {
                let e = self.entropy_at(x, y);
                if e > 1 {
                    match best {
                        Some(_) => {
                            if e < best_len {
                                best = Some((x, y));
                                best_len = e;
                            }
                        },
                        None => {
                            best = Some((x, y));
                            best_len = e;
                        },
                    }
                }
                y = y + 1;
            }
            x = x + 1;
        }
        best
    }
}

} // verus!
