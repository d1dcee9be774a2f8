//! The grid of occupied cells.

use crate::piece::Transform;
use crate::shape::{cell_lt, cells_ok, Shape};
use vstd::prelude::*;

verus! {

/// Whether every cell of `row` is occupied.
pub open spec fn row_full(row: Seq<bool>) -> bool {
    forall|j: int| 0 <= j < row.len() ==> row[j]
}

/// Whether no cell of `row` is occupied.
pub open spec fn row_blank(row: Seq<bool>) -> bool {
    forall|j: int| 0 <= j < row.len() ==> !row[j]
}

/// Whether a row stays in the grid when the rows are sifted: it holds a cell
/// and has a gap.
pub open spec fn row_kept(row: Seq<bool>) -> bool {
    !row_full(row) && !row_blank(row)
}

/// Whether some row of `grid` is full.
pub open spec fn any_row_full(grid: Seq<Seq<bool>>) -> bool {
    exists|i: int| 0 <= i < grid.len() && row_full(#[trigger] grid[i])
}

/// The rows of `grid` that stay when it is sifted, in their order.
pub open spec fn sifted(grid: Seq<Seq<bool>>) -> Seq<Seq<bool>>
    decreases grid.len(),
{
    if grid.len() == 0 {
        grid
    } else {
        let below = sifted(grid.drop_last());
        if row_kept(grid.last()) {
            below.push(grid.last())
        } else {
            below
        }
    }
}

/// A grid of cells, each occupied or not, of fixed width and growing height.
/// Row 0 is the bottom row.
#[derive(Debug, PartialEq, Eq)]
pub struct BasicMatrix {
    cols: u16,
    data: Vec<Vec<bool>>,
}

impl Clone for BasicMatrix {
    fn clone(&self) -> (m: BasicMatrix)
        ensures
            m@ == self@,
            m.spec_cols() == self.spec_cols(),
    {
        self.copy()
    }
}

impl View for BasicMatrix {
    type V = Seq<Seq<bool>>;

    /// The rows from the bottom up, each a sequence of cells from the left.
    closed spec fn view(&self) -> Seq<Seq<bool>> {
        Seq::new(self.data@.len(), |i: int| self.data@[i]@)
    }
}

impl BasicMatrix {
    /// The width.
    pub closed spec fn spec_cols(&self) -> int {
        self.cols as int
    }

    /// The number of rows.
    pub open spec fn spec_rows(&self) -> int {
        self@.len() as int
    }

    /// Every row is as wide as the matrix, and the number of rows fits `u16`.
    pub open spec fn wf(&self) -> bool {
        &&& self@.len() <= u16::MAX
        &&& 0 <= self.spec_cols() <= u16::MAX
        &&& forall|i: int| 0 <= i < self@.len() ==> (#[trigger] self@[i]).len() == self.spec_cols()
    }

    /// Whether the cell in row `i` and column `j` is occupied. Cells outside
    /// the stored rows are not.
    pub open spec fn occupied(&self, i: int, j: int) -> bool {
        0 <= i < self@.len() && 0 <= j < self@[i].len() && self@[i][j]
    }

    /// An empty matrix `cols` wide.
    pub fn with_cols(cols: u16) -> (m: BasicMatrix)
        ensures
            m.wf(),
            m.spec_cols() == cols,
            m@ == Seq::<Seq<bool>>::empty(),
    {
        let m = BasicMatrix { cols, data: Vec::new() };
        assert(m@ =~= Seq::<Seq<bool>>::empty());
        m
    }

    /// The number of rows.
    pub fn rows(&self) -> (n: u16)
        requires
            self.wf(),
        ensures
            n == self.spec_rows(),
    {
        self.data.len() as u16
    }

    /// The width.
    pub fn cols(&self) -> (n: u16)
        ensures
            n == self.spec_cols(),
    {
        self.cols
    }

    /// Whether the cell in row `i` and column `j` is occupied.
    pub fn get(&self, i: u16, j: u16) -> (b: bool)
        ensures
            b == self.occupied(i as int, j as int),
    {
        if (i as usize) < self.data.len() {
            let row = &self.data[i as usize];
            if (j as usize) < row.len() {
                row[j as usize]
            } else {
                false
            }
        } else {
            false
        }
    }

    /// A copy of this matrix.
    pub fn copy(&self) -> (m: BasicMatrix)
        ensures
            m@ == self@,
            m.spec_cols() == self.spec_cols(),
    {
        let mut data: Vec<Vec<bool>> = Vec::new();
        let mut i: usize = 0;
        while i < self.data.len()
            invariant
                i <= self.data@.len(),
                data@.len() == i,
                forall|k: int| 0 <= k < i ==> (#[trigger] data@[k])@ == self.data@[k]@,
            decreases self.data@.len() - i,
        {
            data.push(copy_row(&self.data[i]));
            i += 1;
        }
        let m = BasicMatrix { cols: self.cols, data };
        assert(m@ =~= self@);
        m
    }

    /// Occupies the cell in row `i` and column `j`, adding empty rows up to
    /// row `i` where the matrix is lower than that. The column is inside the
    /// matrix, and the row is not the last that `u16` can number, so that
    /// the number of rows still fits.
    pub fn set(&mut self, i: u16, j: u16)
        requires
            old(self).wf(),
            i < u16::MAX,
            j < old(self).spec_cols(),
        ensures
            final(self).wf(),
            final(self).spec_cols() == old(self).spec_cols(),
            final(self).spec_rows() == if old(self).spec_rows() > i {
                old(self).spec_rows()
            } else {
                i + 1
            },
            forall|a: int, b: int|
                final(self).occupied(a, b) == (old(self).occupied(a, b) || (a == i && b == j)),
    {
        while self.data.len() <= i as usize
            invariant
                self.wf(),
                self.cols == old(self).cols,
                i < u16::MAX,
                j < self.cols,
                old(self)@.len() <= self@.len(),
                self@.len() <= if old(self)@.len() > i {
                    old(self)@.len() as int
                } else {
                    i + 1
                },
                forall|a: int, b: int| self.occupied(a, b) == old(self).occupied(a, b),
            decreases i + 1 - self.data@.len(),
        {
            let ghost before = self@;
            let row = blank_row(self.cols);
            self.data.push(row);
            assert(self@ =~= before.push(row@));
            assert forall|a: int| 0 <= a < self@.len() implies (#[trigger] self@[a]).len()
                == self.spec_cols() by {
                if a < before.len() {
                    assert(self@[a] == before[a]);
                }
            }
            assert forall|a: int, b: int| self.occupied(a, b) == old(self).occupied(a, b) by {
                if 0 <= a < before.len() {
                    assert(self@[a] == before[a]);
                }
            }
        }
        let ghost before = self@;
        assert(before[i as int].len() == self.cols);
        let mut row = copy_row(&self.data[i as usize]);
        row.set(j as usize, true);
        self.data.set(i as usize, row);
        assert(self@ =~= before.update(i as int, before[i as int].update(j as int, true)));
        assert forall|a: int| 0 <= a < self@.len() implies (#[trigger] self@[a]).len()
            == self.spec_cols() by {
            if a != i {
                assert(self@[a] == before[a]);
            }
        }
        assert forall|a: int, b: int|
            self.occupied(a, b) == (old(self).occupied(a, b) || (a == i && b == j)) by {
            if 0 <= a < before.len() {
                if a != i {
                    assert(self@[a] == before[a]);
                }
            }
        }
    }

    /// The rows after the shape was placed at `tf`: as many as the higher of
    /// the matrix and the shape has, and in them the cells that were
    /// occupied and those that the shape covers.
    pub open spec fn blitted(&self, shape: &Shape, tf: Transform) -> Seq<Seq<bool>> {
        let top = shape.spec_top(tf.0 as int, tf.2);
        let rows = if self.spec_rows() >= top {
            self.spec_rows()
        } else {
            top
        };
        Seq::new(
            rows as nat,
            |a: int|
                Seq::new(
                    self.spec_cols() as nat,
                    |b: int|
                        self.occupied(a, b) || shape.covers(tf.0 as int, tf.1 as int, tf.2, a, b),
                ),
        )
    }

    /// Whether the shape placed at `tf` overlaps: whether one of its cells
    /// lies outside the matrix sideways, below row 0, or on an occupied cell.
    pub fn overlaps(&self, shape: &Shape, tf: Transform) -> (b: bool)
        requires
            self.wf(),
            shape.wf(),
        ensures
            b == !shape.fits(self, tf.0 as int, tf.1 as int, tf.2),
    {
        let cells = shape.cells(tf.2);
        let mut k: usize = 0;
        while k < cells.len()
            invariant
                k <= cells@.len(),
                cells@ == shape.spec_cells(tf.2),
                cells_ok(cells@),
                forall|q: int|
                    0 <= q < k ==> Shape::cell_free(
                        self,
                        tf.0 + (#[trigger] cells@[q]).0,
                        tf.1 + cells@[q].1,
                    ),
            decreases cells@.len() - k,
        {
            let a: i32 = tf.0 as i32 + cells[k].0 as i32;
            let b: i32 = tf.1 as i32 + cells[k].1 as i32;
            if a < 0 || b < 0 || b >= self.cols as i32 {
                assert(!Shape::cell_free(self, tf.0 + cells@[k as int].0, tf.1 + cells@[k as int].1));
                return true;
            }
            if self.get(a as u16, b as u16) {
                assert(!Shape::cell_free(self, tf.0 + cells@[k as int].0, tf.1 + cells@[k as int].1));
                return true;
            }
            k += 1;
        }
        false
    }

    /// Whether every cell of the shape placed at `tf` is inside the matrix
    /// sideways and not below row 0: whether the shape can be added there.
    pub fn in_bounds(&self, shape: &Shape, tf: Transform) -> (b: bool)
        requires
            shape.wf(),
        ensures
            b == shape.inside(self, tf.0 as int, tf.1 as int, tf.2),
    {
        let cells = shape.cells(tf.2);
        let mut k: usize = 0;
        while k < cells.len()
            invariant
                k <= cells@.len(),
                cells@ == shape.spec_cells(tf.2),
                cells_ok(cells@),
                forall|q: int|
                    0 <= q < k ==> tf.0 + (#[trigger] cells@[q]).0 >= 0 && 0 <= tf.1 + cells@[q].1
                        < self.spec_cols(),
            decreases cells@.len() - k,
        {
            let a: i32 = tf.0 as i32 + cells[k].0 as i32;
            let b: i32 = tf.1 as i32 + cells[k].1 as i32;
            if a < 0 || b < 0 || b >= self.cols as i32 {
                assert(!(tf.0 + cells@[k as int].0 >= 0 && 0 <= tf.1 + cells@[k as int].1
                    < self.spec_cols()));
                return false;
            }
            k += 1;
        }
        true
    }

    /// Occupies the cells of the shape placed at `tf`, adding rows where the
    /// shape reaches above the matrix.
    pub fn blit(&mut self, shape: &Shape, tf: Transform)
        requires
            old(self).wf(),
            shape.wf(),
            shape.inside(old(self), tf.0 as int, tf.1 as int, tf.2),
        ensures
            final(self).wf(),
            final(self).spec_cols() == old(self).spec_cols(),
            final(self)@ == old(self).blitted(shape, tf),
            forall|a: int, b: int|
                final(self).occupied(a, b) == (old(self).occupied(a, b) || shape.covers(
                    tf.0 as int,
                    tf.1 as int,
                    tf.2,
                    a,
                    b,
                )),
    {
        let cells = shape.cells(tf.2);
        let mut k: usize = 0;
        while k < cells.len()
            invariant
                k <= cells@.len(),
                cells@ == shape.spec_cells(tf.2),
                cells_ok(cells@),
                self.wf(),
                self.spec_cols() == old(self).spec_cols(),
                shape.inside(old(self), tf.0 as int, tf.1 as int, tf.2),
                self.spec_rows() == if k == 0 || old(self).spec_rows() >= tf.0 + cells@[k - 1].0 + 1 {
                    old(self).spec_rows()
                } else {
                    tf.0 + cells@[k - 1].0 + 1
                },
                forall|a: int, b: int|
                    self.occupied(a, b) == (old(self).occupied(a, b) || exists|q: int|
                        0 <= q < k && a == tf.0 + (#[trigger] cells@[q]).0 && b == tf.1
                            + cells@[q].1),
            decreases cells@.len() - k,
        {
            let ghost before = *self;
            let a: i32 = tf.0 as i32 + cells[k].0 as i32;
            let b: i32 = tf.1 as i32 + cells[k].1 as i32;
            assert(a >= 0 && 0 <= b < self.spec_cols()) by {
                assert(cells@[k as int] == shape.spec_cells(tf.2)[k as int]);
            }
            if k > 0 {
                assert(cell_lt(cells@[k - 1], cells@[k as int]));
            }
            self.set(a as u16, b as u16);
            assert forall|x: int, y: int|
                self.occupied(x, y) == (old(self).occupied(x, y) || exists|q: int|
                    0 <= q < k + 1 && x == tf.0 + (#[trigger] cells@[q]).0 && y == tf.1
                        + cells@[q].1) by {
                if x == a && y == b {
                    assert(x == tf.0 + cells@[k as int].0 && y == tf.1 + cells@[k as int].1);
                }
                if before.occupied(x, y) && !old(self).occupied(x, y) {
                    let q = choose|q: int|
                        0 <= q < k && x == tf.0 + (#[trigger] cells@[q]).0 && y == tf.1
                            + cells@[q].1;
                    assert(0 <= q < k + 1);
                }
            }
            k += 1;
        }
        proof {
            let want = old(self).blitted(shape, tf);
            assert(self@.len() == want.len());
            assert forall|a: int| 0 <= a < want.len() implies #[trigger] self@[a] =~= want[a] by {
                assert(self@[a].len() == self.spec_cols());
                assert forall|b: int| 0 <= b < self.spec_cols() implies self@[a][b] == want[a][b] by {
                    assert(self.occupied(a, b) == self@[a][b]);
                }
            }
            assert(self@ =~= want);
        }
    }

    /// Removes every full row and every empty row, the rows above moving
    /// down, and says whether a full row was among them.
    pub fn sift_rows(&mut self) -> (any: bool)
        requires
            old(self).wf(),
        ensures
            final(self).wf(),
            final(self).spec_cols() == old(self).spec_cols(),
            final(self)@ == sifted(old(self)@),
            any == any_row_full(old(self)@),
    {
        let mut kept: Vec<Vec<bool>> = Vec::new();
        let mut any = false;
        let mut i: usize = 0;
        let ghost kept_view: Seq<Seq<bool>> = Seq::empty();
        while i < self.data.len()
            invariant
                self.wf(),
                *self == *old(self),
                i <= self@.len(),
                kept@.len() <= i,
                Seq::new(kept@.len(), |k: int| kept@[k]@) == sifted(self@.take(i as int)),
                any == any_row_full(self@.take(i as int)),
            decreases self.data@.len() - i,
        {
            let ghost done = self@.take(i as int);
            let ghost next = self@.take(i + 1);
            let ghost kept_before = Seq::new(kept@.len(), |k: int| kept@[k]@);
            assert(next.drop_last() =~= done);
            assert(next.last() == self@[i as int]);
            let row = &self.data[i];
            let full = is_row_full(row);
            let blank = is_row_blank(row);
            if full {
                proof {
                    assert(row_full(next[i as int]));
                }
                any = true;
            } else {
                proof {
                    if any_row_full(next) {
                        let w = choose|w: int| 0 <= w < next.len() && row_full(#[trigger] next[w]);
                        if w < i {
                            assert(done[w] == next[w]);
                        }
                    }
                    if any_row_full(done) {
                        let w = choose|w: int| 0 <= w < done.len() && row_full(#[trigger] done[w]);
                        assert(done[w] == next[w]);
                    }
                }
            }
            if !full && !blank {
                kept.push(copy_row(row));
                assert(Seq::new(kept@.len(), |k: int| kept@[k]@) =~= kept_before.push(row@));
            }
            i += 1;
        }
        assert(self@.take(i as int) =~= self@);
        self.data = kept;
        assert(self@ =~= sifted(old(self)@));
        proof {
            lemma_sifted_rows(old(self)@);
        }
        any
    }
}

/// Sifting keeps rows of the grid: it adds none, and each row that stays was a
/// row of the grid.
pub proof fn lemma_sifted_rows(grid: Seq<Seq<bool>>)
    ensures
        sifted(grid).len() <= grid.len(),
        forall|k: int|
            0 <= k < sifted(grid).len() ==> row_kept(#[trigger] sifted(grid)[k]) && exists|i: int|
                0 <= i < grid.len() && grid[i] == sifted(grid)[k],
    decreases grid.len(),
{
    if grid.len() > 0 {
        let below = grid.drop_last();
        lemma_sifted_rows(below);
        assert forall|k: int| 0 <= k < sifted(grid).len() implies row_kept(
            #[trigger] sifted(grid)[k],
        ) && exists|i: int| 0 <= i < grid.len() && grid[i] == sifted(grid)[k] by {
            if k < sifted(below).len() {
                let i = choose|i: int| 0 <= i < below.len() && below[i] == sifted(below)[k];
                assert(grid[i] == sifted(grid)[k]);
            } else {
                assert(grid[grid.len() - 1] == sifted(grid)[k]);
            }
        }
    }
}

/// A row of `cols` empty cells.
fn blank_row(cols: u16) -> (row: Vec<bool>)
    ensures
        row@.len() == cols,
        row_blank(row@),
{
    let mut row: Vec<bool> = Vec::new();
    let mut j: u16 = 0;
    while j < cols
        invariant
            j <= cols,
            row@.len() == j,
            row_blank(row@),
        decreases cols - j,
    {
        row.push(false);
        j += 1;
    }
    row
}

/// A copy of `row`.
fn copy_row(row: &Vec<bool>) -> (copy: Vec<bool>)
    ensures
        copy@ == row@,
{
    let mut copy: Vec<bool> = Vec::new();
    let mut j: usize = 0;
    while j < row.len()
        invariant
            j <= row@.len(),
            copy@ == row@.take(j as int),
        decreases row@.len() - j,
    {
        copy.push(row[j]);
        assert(row@.take(j + 1) =~= row@.take(j as int).push(row@[j as int]));
        j += 1;
    }
    assert(row@.take(j as int) =~= row@);
    copy
}

/// Whether every cell of `row` is occupied.
fn is_row_full(row: &Vec<bool>) -> (full: bool)
    ensures
        full == row_full(row@),
{
    let mut j: usize = 0;
    while j < row.len()
        invariant
            j <= row@.len(),
            forall|k: int| 0 <= k < j ==> row@[k],
        decreases row@.len() - j,
    {
        if !row[j] {
            return false;
        }
        j += 1;
    }
    true
}

/// Whether no cell of `row` is occupied.
fn is_row_blank(row: &Vec<bool>) -> (blank: bool)
    ensures
        blank == row_blank(row@),
{
    let mut j: usize = 0;
    while j < row.len()
        invariant
            j <= row@.len(),
            forall|k: int| 0 <= k < j ==> !row@[k],
        decreases row@.len() - j,
    {
        if row[j] {
            return false;
        }
        j += 1;
    }
    true
}

} // verus!
