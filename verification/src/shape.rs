//! Shapes: the cells a piece occupies in each orientation, the offsets it
//! tries when it turns, and where it comes to rest on a matrix.

use crate::matrix::BasicMatrix;
use crate::piece::{Color, Input, Orientation, Transform};
use vstd::prelude::*;

verus! {

/// The side of the square box that holds a shape's cells: every cell offset
/// lies in `0..BOX`, rows and columns alike.
pub const BOX: i16 = 4;

/// The order of two cell offsets: by row, then by column.
pub open spec fn cell_lt(a: (i16, i16), b: (i16, i16)) -> bool {
    a.0 < b.0 || (a.0 == b.0 && a.1 < b.1)
}

/// What the cell offsets of one orientation must be: at least one cell, each
/// inside the box, listed in strictly rising order.
pub open spec fn cells_ok(cells: Seq<(i16, i16)>) -> bool {
    &&& cells.len() > 0
    &&& forall|k: int|
        0 <= k < cells.len() ==> 0 <= (#[trigger] cells[k]).0 < BOX && 0 <= cells[k].1 < BOX
    &&& forall|k: int, l: int| 0 <= k < l < cells.len() ==> cell_lt(cells[k], cells[l])
}

/// What the parts handed to [`Shape::new`] must be: four lists of cell
/// offsets, each as [`cells_ok`] asks, and four lists of kick offsets for
/// either direction.
pub open spec fn parts_ok(
    cells: Seq<Vec<(i16, i16)>>,
    kicks_cw: Seq<Vec<(i16, i16)>>,
    kicks_ccw: Seq<Vec<(i16, i16)>>,
) -> bool {
    &&& cells.len() == 4
    &&& kicks_cw.len() == 4
    &&& kicks_ccw.len() == 4
    &&& forall|r: int| 0 <= r < 4 ==> cells_ok((#[trigger] cells[r])@)
}

/// The least column offset among `cells`.
pub open spec fn min_col_of(cells: Seq<(i16, i16)>) -> int
    decreases cells.len(),
{
    if cells.len() <= 1 {
        cells[0].1 as int
    } else {
        let rest = min_col_of(cells.drop_last());
        if cells.last().1 < rest {
            cells.last().1 as int
        } else {
            rest
        }
    }
}

/// The greatest column offset among `cells`.
pub open spec fn max_col_of(cells: Seq<(i16, i16)>) -> int
    decreases cells.len(),
{
    if cells.len() <= 1 {
        cells[0].1 as int
    } else {
        let rest = max_col_of(cells.drop_last());
        if cells.last().1 > rest {
            cells.last().1 as int
        } else {
            rest
        }
    }
}

/// The order of two cells of the matrix: by row, then by column.
pub open spec fn place_lt(a: (int, int), b: (int, int)) -> bool {
    a.0 < b.0 || (a.0 == b.0 && a.1 < b.1)
}

/// Whether `cells` rises strictly in the order of [`place_lt`].
pub open spec fn rising(cells: Seq<(int, int)>) -> bool {
    forall|k: int, l: int| 0 <= k < l < cells.len() ==> place_lt(cells[k], cells[l])
}

/// A key for the cells that a placed shape covers: two places of one shape
/// have the same key where they cover the same cells, and only there.
#[derive(Clone, Copy, Debug, PartialEq, Eq, Hash, Structural)]
pub struct NormalizedShapeTransform {
    /// The color of the shape.
    pub color: Color,
    /// The first orientation of the shape, in cycle order, whose cells lie
    /// as those of the placed one do.
    pub canon: Orientation,
    /// The row of the lowest covered cell.
    pub row: i32,
    /// The column of the leftmost covered cell.
    pub col: i32,
}

/// A piece: its color, the cells it occupies in each orientation, and the
/// kick offsets it tries when turned.
#[derive(Debug)]
pub struct Shape {
    color: Color,
    cells: Vec<Vec<(i16, i16)>>,
    kicks_cw: Vec<Vec<(i16, i16)>>,
    kicks_ccw: Vec<Vec<(i16, i16)>>,
}

impl Shape {
    /// The color of the shape.
    pub closed spec fn spec_color(&self) -> Color {
        self.color
    }

    /// The cells of orientation `r`, each as a row and a column offset from
    /// the anchor, in rising order.
    pub closed spec fn spec_cells(&self, r: Orientation) -> Seq<(i16, i16)> {
        self.cells@[r.spec_index()]@
    }

    /// The offsets tried in turn when the shape is turned out of orientation
    /// `r`, clockwise or counter-clockwise, each as a row and a column offset.
    pub closed spec fn spec_kicks(&self, r: Orientation, clockwise: bool) -> Seq<(i16, i16)> {
        if clockwise {
            self.kicks_cw@[r.spec_index()]@
        } else {
            self.kicks_ccw@[r.spec_index()]@
        }
    }

    /// There are cells and kicks for each of the four orientations.
    pub closed spec fn well_built(&self) -> bool {
        self.cells@.len() == 4 && self.kicks_cw@.len() == 4 && self.kicks_ccw@.len() == 4
    }

    /// The shape has its four orientations, and the cells of each are as
    /// [`cells_ok`] asks.
    pub open spec fn wf(&self) -> bool {
        &&& self.well_built()
        &&& forall|r: Orientation| cells_ok(#[trigger] self.spec_cells(r))
    }

    /// A shape of the given parts, or none where they are not as
    /// [`parts_ok`] asks. `cells`, `kicks_cw` and `kicks_ccw` are indexed by
    /// orientation; a kick list is indexed by the orientation turned from.
    pub fn new(
        color: Color,
        cells: Vec<Vec<(i16, i16)>>,
        kicks_cw: Vec<Vec<(i16, i16)>>,
        kicks_ccw: Vec<Vec<(i16, i16)>>,
    ) -> (shape: Option<Shape>)
        ensures
            shape is Some <==> parts_ok(cells@, kicks_cw@, kicks_ccw@),
            shape matches Some(s) ==> {
                &&& s.wf()
                &&& s.spec_color() == color
                &&& forall|r: Orientation|
                    {
                        &&& #[trigger] s.spec_cells(r) == cells@[r.spec_index()]@
                        &&& s.spec_kicks(r, true) == kicks_cw@[r.spec_index()]@
                        &&& s.spec_kicks(r, false) == kicks_ccw@[r.spec_index()]@
                    }
            },
    {
        if cells.len() != 4 || kicks_cw.len() != 4 || kicks_ccw.len() != 4 {
            return None;
        }
        let mut r: usize = 0;
        while r < 4
            invariant
                r <= 4,
                cells@.len() == 4,
                forall|q: int| 0 <= q < r ==> cells_ok((#[trigger] cells@[q])@),
            decreases 4 - r,
        {
            if !check_cells(&cells[r]) {
                return None;
            }
            r += 1;
        }
        let s = Shape { color, cells, kicks_cw, kicks_ccw };
        assert forall|o: Orientation| cells_ok(#[trigger] s.spec_cells(o)) by {
            assert(cells_ok(cells@[o.spec_index()]@));
        }
        Some(s)
    }

    /// The color of the shape.
    pub fn color(&self) -> (c: Color)
        ensures
            c == self.spec_color(),
    {
        self.color
    }

    /// The cells of orientation `r`.
    pub fn cells(&self, r: Orientation) -> (cells: &Vec<(i16, i16)>)
        requires
            self.wf(),
        ensures
            cells@ == self.spec_cells(r),
            cells_ok(cells@),
    {
        assert(cells_ok(self.spec_cells(r)));
        &self.cells[r.index()]
    }

    /// The offsets tried when the shape is turned out of orientation `r`.
    pub fn kicks(&self, r: Orientation, clockwise: bool) -> (kicks: &Vec<(i16, i16)>)
        requires
            self.wf(),
        ensures
            kicks@ == self.spec_kicks(r, clockwise),
    {
        if clockwise {
            &self.kicks_cw[r.index()]
        } else {
            &self.kicks_ccw[r.index()]
        }
    }

    /// Whether the matrix has room for a cell in row `a` and column `b`: the
    /// cell is inside the matrix sideways, not below row 0, and not occupied.
    pub open spec fn cell_free(m: &BasicMatrix, a: int, b: int) -> bool {
        a >= 0 && 0 <= b < m.spec_cols() && !m.occupied(a, b)
    }

    /// Whether the shape, anchored in row `i` and column `j` in orientation
    /// `r`, has room in the matrix for each of its cells.
    pub open spec fn fits(&self, m: &BasicMatrix, i: int, j: int, r: Orientation) -> bool {
        forall|k: int|
            0 <= k < self.spec_cells(r).len() ==> Self::cell_free(
                m,
                i + (#[trigger] self.spec_cells(r)[k]).0,
                j + self.spec_cells(r)[k].1,
            )
    }

    /// Whether the shape at this place covers the cell in row `a` and column
    /// `b`.
    pub open spec fn covers(&self, i: int, j: int, r: Orientation, a: int, b: int) -> bool {
        exists|k: int|
            0 <= k < self.spec_cells(r).len() && a == i + (#[trigger] self.spec_cells(r)[k]).0 && b
                == j + self.spec_cells(r)[k].1
    }

    /// Whether every cell of the shape at this place is inside the matrix
    /// sideways and not below row 0.
    pub open spec fn inside(&self, m: &BasicMatrix, i: int, j: int, r: Orientation) -> bool {
        forall|k: int|
            0 <= k < self.spec_cells(r).len() ==> i + (#[trigger] self.spec_cells(r)[k]).0 >= 0 && 0
                <= j + self.spec_cells(r)[k].1 < m.spec_cols()
    }

    /// The row above the highest cell of the shape anchored in row `i`.
    pub open spec fn spec_top(&self, i: int, r: Orientation) -> int {
        i + self.spec_cells(r).last().0 + 1
    }

    /// Whether the shape in orientation `r`, anchored in column `j`, lies
    /// within the columns `0..width`.
    pub open spec fn col_valid(&self, r: Orientation, j: int, width: int) -> bool {
        forall|k: int|
            0 <= k < self.spec_cells(r).len() ==> 0 <= j + (#[trigger] self.spec_cells(r)[k]).1
                < width
    }

    /// The row in which the shape comes to rest when it falls from row `i`
    /// in column `j`: the anchor moves down as long as the place below has
    /// room. Below row `-BOX` no place has room, and the fall ends there at
    /// the latest.
    pub open spec fn spec_drop(&self, m: &BasicMatrix, i: int, j: int, r: Orientation) -> int
        decreases i + BOX,
    {
        if i > -BOX && self.fits(m, i - 1, j, r) {
            self.spec_drop(m, i - 1, j, r)
        } else {
            i
        }
    }

    /// The row in which the shape comes to rest when it falls into column
    /// `j` from above the matrix.
    pub open spec fn spec_peak(&self, m: &BasicMatrix, j: int, r: Orientation) -> int {
        self.spec_drop(m, m.spec_rows(), j, r)
    }

    /// Whether the shape rests at this place: it has room there and none one
    /// row lower.
    pub open spec fn at_rest(&self, m: &BasicMatrix, tf: Transform) -> bool {
        self.fits(m, tf.0 as int, tf.1 as int, tf.2) && !self.fits(m, tf.0 - 1, tf.1 as int, tf.2)
    }

    /// The place `di` rows and `dj` columns from `tf`, in orientation `r`,
    /// where both offsets can be written as `i16` and the shape has room
    /// there; none otherwise.
    pub open spec fn spec_moved(
        &self,
        m: &BasicMatrix,
        tf: Transform,
        di: int,
        dj: int,
        r: Orientation,
    ) -> Option<Transform> {
        let i = tf.0 + di;
        let j = tf.1 + dj;
        if i16::MIN <= i <= i16::MAX && i16::MIN <= j <= i16::MAX && self.fits(m, i, j, r) {
            Some((i as i16, j as i16, r))
        } else {
            None
        }
    }

    /// The place that the first of `kicks[from..]` leads to from `tf`, in
    /// orientation `r`, among those that [`Self::spec_moved`] accepts; none
    /// where it accepts none of them.
    pub open spec fn spec_kicked(
        &self,
        m: &BasicMatrix,
        tf: Transform,
        kicks: Seq<(i16, i16)>,
        r: Orientation,
        from: int,
    ) -> Option<Transform>
        decreases kicks.len() - from,
    {
        if from < 0 || from >= kicks.len() {
            None
        } else {
            match self.spec_moved(m, tf, kicks[from].0 as int, kicks[from].1 as int, r) {
                Some(t) => Some(t),
                None => self.spec_kicked(m, tf, kicks, r, from + 1),
            }
        }
    }

    /// Where `input` takes the shape from `tf`. `Left` and `Right` move it
    /// one column where it has room there. `CW` and `CCW` turn it and try the
    /// kick offsets of that turn in their order; the first place with room
    /// wins. Any other input moves nothing: none.
    pub open spec fn spec_try_input(&self, m: &BasicMatrix, tf: Transform, input: Input) -> Option<
        Transform,
    > {
        match input {
            Input::Left => self.spec_moved(m, tf, 0, -1, tf.2),
            Input::Right => self.spec_moved(m, tf, 0, 1, tf.2),
            Input::CW => self.spec_kicked(m, tf, self.spec_kicks(tf.2, true), tf.2.spec_cw(), 0),
            Input::CCW => self.spec_kicked(
                m,
                tf,
                self.spec_kicks(tf.2, false),
                tf.2.spec_ccw(),
                0,
            ),
            _ => None,
        }
    }

    /// The place where the shape comes to rest when it falls from `tf`.
    pub open spec fn spec_sonic_drop(&self, m: &BasicMatrix, tf: Transform) -> Transform {
        (self.spec_drop(m, tf.0 as int, tf.1 as int, tf.2) as i16, tf.1, tf.2)
    }

    /// A fall ends at or below the row it began in and not below row `-BOX`,
    /// unless it began lower; the place below its end has no room; and where
    /// it began with room, it ends with room.
    pub proof fn lemma_drop(&self, m: &BasicMatrix, i: int, j: int, r: Orientation)
        requires
            self.wf(),
        ensures
            self.spec_drop(m, i, j, r) <= i,
            i >= -BOX ==> self.spec_drop(m, i, j, r) >= -BOX,
            i < -BOX ==> self.spec_drop(m, i, j, r) == i,
            !self.fits(m, self.spec_drop(m, i, j, r) - 1, j, r),
            self.fits(m, i, j, r) ==> self.fits(m, self.spec_drop(m, i, j, r), j, r),
        decreases i + BOX,
    {
        if i > -BOX && self.fits(m, i - 1, j, r) {
            self.lemma_drop(m, i - 1, j, r);
        } else if i <= -BOX {
            self.lemma_low_no_room(m, i - 1, j, r);
        }
    }

    /// No place anchored in row `-BOX` or below has room: its first cell
    /// lies below row 0.
    pub proof fn lemma_low_no_room(&self, m: &BasicMatrix, i: int, j: int, r: Orientation)
        requires
            self.wf(),
            i <= -BOX,
        ensures
            !self.fits(m, i, j, r),
    {
        let cells = self.spec_cells(r);
        assert(cells_ok(cells));
        assert(!Self::cell_free(m, i + cells[0].0, j + cells[0].1));
    }

    /// A place anchored at or above the top of the matrix, in a column where
    /// the shape lies within the matrix, has room.
    pub proof fn lemma_room_above(&self, m: &BasicMatrix, i: int, j: int, r: Orientation)
        requires
            self.wf(),
            m.wf(),
            i >= m.spec_rows(),
            self.col_valid(r, j, m.spec_cols()),
        ensures
            self.fits(m, i, j, r),
    {
        let cells = self.spec_cells(r);
        assert(cells_ok(cells));
        assert forall|k: int| 0 <= k < cells.len() implies Self::cell_free(
            m,
            i + (#[trigger] cells[k]).0,
            j + cells[k].1,
        ) by {}
    }

    /// The least column offset among the cells of orientation `r`.
    pub open spec fn spec_min_col(&self, r: Orientation) -> int {
        min_col_of(self.spec_cells(r))
    }

    /// The cells of orientation `r`, counted from the lowest row and the
    /// leftmost column that they reach.
    pub open spec fn spec_pattern(&self, r: Orientation) -> Seq<(int, int)> {
        Seq::new(
            self.spec_cells(r).len(),
            |k: int|
                (
                    self.spec_cells(r)[k].0 - self.spec_cells(r)[0].0,
                    self.spec_cells(r)[k].1 - self.spec_min_col(r),
                ),
        )
    }

    /// The first orientation from position `from` on whose pattern is that
    /// of `r`; `R3` where none before it has that pattern.
    pub open spec fn spec_canon_from(&self, r: Orientation, from: int) -> Orientation
        decreases 3 - from,
    {
        if from < 0 || from >= 3 {
            Orientation::R3
        } else if self.spec_pattern(Orientation::spec_from_index(from)) == self.spec_pattern(r) {
            Orientation::spec_from_index(from)
        } else {
            self.spec_canon_from(r, from + 1)
        }
    }

    /// The first orientation, in cycle order, whose pattern is that of `r`.
    pub open spec fn spec_canon(&self, r: Orientation) -> Orientation {
        self.spec_canon_from(r, 0)
    }

    /// The key of the cells that the shape covers at `tf`.
    pub open spec fn spec_normalize(&self, tf: Transform) -> NormalizedShapeTransform {
        NormalizedShapeTransform {
            color: self.spec_color(),
            canon: self.spec_canon(tf.2),
            row: (tf.0 + self.spec_cells(tf.2)[0].0) as i32,
            col: (tf.1 + self.spec_min_col(tf.2)) as i32,
        }
    }

    /// The cells of the matrix that the shape covers at `tf`, in rising
    /// order.
    pub open spec fn placed(&self, tf: Transform) -> Seq<(int, int)> {
        Seq::new(
            self.spec_cells(tf.2).len(),
            |k: int| (tf.0 + self.spec_cells(tf.2)[k].0, tf.1 + self.spec_cells(tf.2)[k].1),
        )
    }

    /// The set of cells of the matrix that the shape covers at `tf`.
    pub open spec fn cells_at(&self, tf: Transform) -> Set<(int, int)> {
        Set::new(|c: (int, int)| self.covers(tf.0 as int, tf.1 as int, tf.2, c.0, c.1))
    }

    /// The least column offset is the offset of one of the cells, and no cell
    /// has a lower one.
    pub proof fn lemma_min_col(cells: Seq<(i16, i16)>)
        requires
            cells.len() > 0,
        ensures
            forall|k: int| 0 <= k < cells.len() ==> min_col_of(cells) <= (#[trigger] cells[k]).1,
            exists|k: int| 0 <= k < cells.len() && (#[trigger] cells[k]).1 == min_col_of(cells),
        decreases cells.len(),
    {
        if cells.len() > 1 {
            let rest = cells.drop_last();
            Self::lemma_min_col(rest);
            let w = choose|k: int| 0 <= k < rest.len() && (#[trigger] rest[k]).1 == min_col_of(rest);
            assert(rest[w] == cells[w]);
            assert forall|k: int| 0 <= k < cells.len() implies min_col_of(cells) <= (
            #[trigger] cells[k]).1 by {
                if k < rest.len() {
                    assert(rest[k] == cells[k]);
                }
            }
            if cells.last().1 < min_col_of(rest) {
                assert(cells[cells.len() - 1].1 == min_col_of(cells));
            } else {
                assert(cells[w].1 == min_col_of(cells));
            }
        } else {
            assert(cells[0].1 == min_col_of(cells));
        }
    }

    /// The greatest column offset is the offset of one of the cells, and no
    /// cell has a greater one.
    pub proof fn lemma_max_col(cells: Seq<(i16, i16)>)
        requires
            cells.len() > 0,
        ensures
            forall|k: int| 0 <= k < cells.len() ==> max_col_of(cells) >= (#[trigger] cells[k]).1,
            exists|k: int| 0 <= k < cells.len() && (#[trigger] cells[k]).1 == max_col_of(cells),
        decreases cells.len(),
    {
        if cells.len() > 1 {
            let rest = cells.drop_last();
            Self::lemma_max_col(rest);
            let w = choose|k: int| 0 <= k < rest.len() && (#[trigger] rest[k]).1 == max_col_of(rest);
            assert(rest[w] == cells[w]);
            assert forall|k: int| 0 <= k < cells.len() implies max_col_of(cells) >= (
            #[trigger] cells[k]).1 by {
                if k < rest.len() {
                    assert(rest[k] == cells[k]);
                }
            }
            if cells.last().1 > max_col_of(rest) {
                assert(cells[cells.len() - 1].1 == max_col_of(cells));
            } else {
                assert(cells[w].1 == max_col_of(cells));
            }
        } else {
            assert(cells[0].1 == max_col_of(cells));
        }
    }

    /// The columns in which the shape in orientation `r` lies within a
    /// matrix `width` wide: the first of them and the one after the last.
    pub open spec fn spec_valid_cols(&self, r: Orientation, width: int) -> (int, int) {
        (-min_col_of(self.spec_cells(r)), width - max_col_of(self.spec_cells(r)))
    }

    /// The range of [`Self::spec_valid_cols`] holds the columns in which the
    /// shape lies within the matrix, and no others.
    pub proof fn lemma_valid_cols(&self, r: Orientation, width: int)
        requires
            self.wf(),
        ensures
            forall|j: int|
                self.spec_valid_cols(r, width).0 <= j < self.spec_valid_cols(r, width).1
                    <==> self.col_valid(r, j, width),
            -BOX < self.spec_valid_cols(r, width).0 <= 0,
            width - BOX < self.spec_valid_cols(r, width).1 <= width,
    {
        let cells = self.spec_cells(r);
        assert(cells_ok(cells));
        Self::lemma_min_col(cells);
        Self::lemma_max_col(cells);
        let a = choose|k: int| 0 <= k < cells.len() && (#[trigger] cells[k]).1 == min_col_of(cells);
        let b = choose|k: int| 0 <= k < cells.len() && (#[trigger] cells[k]).1 == max_col_of(cells);
        assert forall|j: int|
            self.spec_valid_cols(r, width).0 <= j < self.spec_valid_cols(r, width).1
                <==> self.col_valid(r, j, width) by {
            if self.col_valid(r, j, width) {
                assert(0 <= j + cells[a].1 < width);
                assert(0 <= j + cells[b].1 < width);
            }
        }
    }

    /// The canonical orientation has the pattern of the orientation it
    /// stands for.
    pub proof fn lemma_canon_pattern(&self, r: Orientation)
        ensures
            self.spec_pattern(self.spec_canon(r)) == self.spec_pattern(r),
    {
        self.lemma_canon_from(r, 0);
    }

    proof fn lemma_canon_from(&self, r: Orientation, from: int)
        requires
            0 <= from <= r.spec_index(),
        ensures
            self.spec_pattern(self.spec_canon_from(r, from)) == self.spec_pattern(r),
        decreases 3 - from,
    {
        if from < 3 && self.spec_pattern(Orientation::spec_from_index(from)) != self.spec_pattern(
            r,
        ) {
            assert(from != r.spec_index()) by {
                r.lemma_turns_cycle();
            }
            self.lemma_canon_from(r, from + 1);
        } else if from >= 3 {
            assert(r == Orientation::R3);
        }
    }

    /// Orientations with one pattern have one canonical orientation.
    pub proof fn lemma_canon_same(&self, r1: Orientation, r2: Orientation, from: int)
        requires
            self.spec_pattern(r1) == self.spec_pattern(r2),
        ensures
            self.spec_canon_from(r1, from) == self.spec_canon_from(r2, from),
        decreases 3 - from,
    {
        if 0 <= from < 3 {
            self.lemma_canon_same(r1, r2, from + 1);
        }
    }

    /// The cells that the shape covers at `tf` rise strictly, and they are
    /// the pattern of its orientation moved to the row and column of the key.
    pub proof fn lemma_placed(&self, tf: Transform)
        requires
            self.wf(),
        ensures
            rising(self.placed(tf)),
            self.placed(tf).len() == self.spec_pattern(tf.2).len(),
            self.placed(tf).len() > 0,
            forall|k: int|
                0 <= k < self.placed(tf).len() ==> #[trigger] self.placed(tf)[k] == (
                    self.spec_normalize(tf).row + self.spec_pattern(tf.2)[k].0,
                    self.spec_normalize(tf).col + self.spec_pattern(tf.2)[k].1,
                ),
            forall|k: int|
                0 <= k < self.placed(tf).len() ==> self.spec_normalize(tf).col <= (
                #[trigger] self.placed(tf)[k]).1,
            exists|k: int|
                0 <= k < self.placed(tf).len() && (#[trigger] self.placed(tf)[k]).1
                    == self.spec_normalize(tf).col,
            self.spec_normalize(tf).row == self.placed(tf)[0].0,
            forall|c: (int, int)|
                self.cells_at(tf).contains(c) <==> exists|k: int|
                    0 <= k < self.placed(tf).len() && #[trigger] self.placed(tf)[k] == c,
    {
        let cells = self.spec_cells(tf.2);
        let p = self.placed(tf);
        assert(cells_ok(cells));
        Self::lemma_min_col(cells);
        assert forall|k: int, l: int| 0 <= k < l < p.len() implies place_lt(p[k], p[l]) by {
            assert(cell_lt(cells[k], cells[l]));
        }
        assert forall|k: int| 0 <= k < p.len() implies self.spec_normalize(tf).col <= (
        #[trigger] p[k]).1 by {
            assert(min_col_of(cells) <= cells[k].1);
        }
        let w = choose|k: int| 0 <= k < cells.len() && (#[trigger] cells[k]).1 == min_col_of(cells);
        assert(p[w].1 == self.spec_normalize(tf).col);
        assert forall|c: (int, int)|
            self.cells_at(tf).contains(c) <==> exists|k: int|
                0 <= k < p.len() && #[trigger] p[k] == c by {
            if self.cells_at(tf).contains(c) {
                let k = choose|k: int|
                    0 <= k < cells.len() && c.0 == tf.0 + (#[trigger] cells[k]).0 && c.1 == tf.1
                        + cells[k].1;
                assert(p[k] == c);
            }
            if exists|k: int| 0 <= k < p.len() && #[trigger] p[k] == c {
                let k = choose|k: int| 0 <= k < p.len() && #[trigger] p[k] == c;
                assert(c.0 == tf.0 + cells[k].0 && c.1 == tf.1 + cells[k].1);
            }
        }
    }

    /// The row and the column of a key lie between the least transform
    /// offset and the greatest one moved by the box.
    pub proof fn lemma_normalize_bounds(&self, tf: Transform)
        requires
            self.wf(),
        ensures
            i16::MIN <= self.spec_normalize(tf).row < i16::MAX + BOX,
            i16::MIN <= self.spec_normalize(tf).col < i16::MAX + BOX,
    {
        let cells = self.spec_cells(tf.2);
        assert(cells_ok(cells));
        Self::lemma_min_col(cells);
        assert(0 <= cells[0].0 < BOX);
    }

    /// Two places of the shape have the same key if and only if the shape
    /// covers the same cells at both.
    pub proof fn lemma_normalize_same_cells(&self, tf1: Transform, tf2: Transform)
        requires
            self.wf(),
        ensures
            self.spec_normalize(tf1) == self.spec_normalize(tf2) <==> self.cells_at(tf1)
                == self.cells_at(tf2),
    {
        if self.spec_normalize(tf1) == self.spec_normalize(tf2) {
            self.lemma_same_key_same_cells(tf1, tf2);
        }
        if self.cells_at(tf1) == self.cells_at(tf2) {
            self.lemma_same_cells_same_key(tf1, tf2);
        }
    }

    /// Places with the same key cover the same cells.
    pub proof fn lemma_same_key_same_cells(&self, tf1: Transform, tf2: Transform)
        requires
            self.wf(),
            self.spec_normalize(tf1) == self.spec_normalize(tf2),
        ensures
            self.placed(tf1) == self.placed(tf2),
            self.cells_at(tf1) == self.cells_at(tf2),
    {
        self.lemma_placed(tf1);
        self.lemma_placed(tf2);
        let a = self.placed(tf1);
        let b = self.placed(tf2);
        self.lemma_canon_pattern(tf1.2);
        self.lemma_canon_pattern(tf2.2);
        assert(self.spec_pattern(tf1.2) == self.spec_pattern(tf2.2));
        assert(a.len() == b.len());
        assert forall|k: int| 0 <= k < a.len() implies a[k] == b[k] by {}
        assert(a =~= b);
        assert forall|c: (int, int)| self.cells_at(tf1).contains(c) == self.cells_at(
            tf2,
        ).contains(c) by {}
        assert(self.cells_at(tf1) =~= self.cells_at(tf2));
    }

    /// Places that cover the same cells have the same key.
    pub proof fn lemma_same_cells_same_key(&self, tf1: Transform, tf2: Transform)
        requires
            self.wf(),
            self.cells_at(tf1) == self.cells_at(tf2),
        ensures
            self.spec_normalize(tf1) == self.spec_normalize(tf2),
    {
        self.lemma_placed(tf1);
        self.lemma_placed(tf2);
        let a = self.placed(tf1);
        let b = self.placed(tf2);
        let n1 = self.spec_normalize(tf1);
        let n2 = self.spec_normalize(tf2);
        assert forall|k: int| 0 <= k < a.len() implies b.contains(#[trigger] a[k]) by {
            assert(self.cells_at(tf1).contains(a[k]));
            assert(self.cells_at(tf2).contains(a[k]));
        }
        assert forall|l: int| 0 <= l < b.len() implies a.contains(#[trigger] b[l]) by {
            assert(self.cells_at(tf2).contains(b[l]));
            assert(self.cells_at(tf1).contains(b[l]));
        }
        lemma_rising_same_members(a, b);
        assert(a == b);
        assert(n1.row == n2.row);
        assert(n1.col == n2.col) by {
            let w1 = choose|k: int| 0 <= k < a.len() && (#[trigger] a[k]).1 == n1.col;
            let w2 = choose|k: int| 0 <= k < b.len() && (#[trigger] b[k]).1 == n2.col;
            assert(n2.col <= b[w1].1);
            assert(n1.col <= a[w2].1);
        }
        let p1 = self.spec_pattern(tf1.2);
        let p2 = self.spec_pattern(tf2.2);
        assert forall|k: int| 0 <= k < p1.len() implies p1[k] == p2[k] by {
            assert(a[k] == b[k]);
            assert(a[k] == (n1.row + p1[k].0, n1.col + p1[k].1));
            assert(b[k] == (n2.row + p2[k].0, n2.col + p2[k].1));
        }
        assert(p1 =~= p2);
        self.lemma_canon_same(tf1.2, tf2.2, 0);
    }

    /// The key of the cells that the shape covers at `tf`.
    pub fn normalize(&self, tf: Transform) -> (key: NormalizedShapeTransform)
        requires
            self.wf(),
        ensures
            key == self.spec_normalize(tf),
    {
        let cells = self.cells(tf.2);
        let min_col = min_col(cells);
        let row: i32 = tf.0 as i32 + cells[0].0 as i32;
        let col: i32 = tf.1 as i32 + min_col as i32;
        let mut q: usize = 0;
        while q < 3
            invariant
                self.wf(),
                q <= 3,
                self.spec_canon_from(tf.2, q as int) == self.spec_canon(tf.2),
                row == tf.0 + self.spec_cells(tf.2)[0].0,
                col == tf.1 + self.spec_min_col(tf.2),
            decreases 3 - q,
        {
            let o = Orientation::from_index(q);
            if self.same_pattern(o, tf.2) {
                assert(self.spec_pattern(Orientation::spec_from_index(q as int))
                    == self.spec_pattern(tf.2));
                assert(self.spec_canon_from(tf.2, q as int) == o);
                return NormalizedShapeTransform { color: self.color, canon: o, row, col };
            }
            q += 1;
        }
        NormalizedShapeTransform { color: self.color, canon: Orientation::R3, row, col }
    }

    /// Whether the cells of two orientations lie alike, each counted from
    /// its lowest row and leftmost column.
    fn same_pattern(&self, r1: Orientation, r2: Orientation) -> (same: bool)
        requires
            self.wf(),
        ensures
            same == (self.spec_pattern(r1) == self.spec_pattern(r2)),
    {
        let c1 = self.cells(r1);
        let c2 = self.cells(r2);
        if c1.len() != c2.len() {
            assert(self.spec_pattern(r1).len() != self.spec_pattern(r2).len());
            return false;
        }
        let m1 = min_col(c1);
        let m2 = min_col(c2);
        let mut k: usize = 0;
        while k < c1.len()
            invariant
                k <= c1@.len(),
                c1@.len() == c2@.len(),
                c1@ == self.spec_cells(r1),
                c2@ == self.spec_cells(r2),
                cells_ok(c1@),
                cells_ok(c2@),
                m1 == min_col_of(c1@),
                m2 == min_col_of(c2@),
                0 <= m1 < BOX,
                0 <= m2 < BOX,
                forall|q: int|
                    0 <= q < k ==> #[trigger] self.spec_pattern(r1)[q] == self.spec_pattern(r2)[q],
            decreases c1@.len() - k,
        {
            if c1[k].0 - c1[0].0 != c2[k].0 - c2[0].0 || c1[k].1 - m1 != c2[k].1 - m2 {
                assert(self.spec_pattern(r1)[k as int] != self.spec_pattern(r2)[k as int]);
                return false;
            }
            k += 1;
        }
        assert(self.spec_pattern(r1) =~= self.spec_pattern(r2));
        true
    }

    /// The column offsets at which the shape in orientation `r` lies within
    /// a matrix `width` wide, as the first of them and the one after the
    /// last. Where there is none, the first is not below the second. The
    /// matrix is at most `i16::MAX` wide, so that its columns can be written.
    pub fn valid_cols(&self, r: Orientation, width: u16) -> (range: (i16, i16))
        requires
            self.wf(),
            width <= i16::MAX,
        ensures
            range.0 == self.spec_valid_cols(r, width as int).0,
            range.1 == self.spec_valid_cols(r, width as int).1,
            forall|j: int| range.0 <= j < range.1 <==> self.col_valid(r, j, width as int),
    {
        let cells = self.cells(r);
        let lo = min_col(cells);
        let hi = max_col(cells);
        proof {
            self.lemma_valid_cols(r, width as int);
        }
        (-lo, width as i16 - hi)
    }

    /// The row in which the shape comes to rest when it falls into column
    /// `j` from above the matrix. The matrix is at most `i16::MAX` rows
    /// high, so that the row can be written.
    pub fn peak(&self, matrix: &BasicMatrix, j: i16, r: Orientation) -> (i: i16)
        requires
            self.wf(),
            matrix.wf(),
            matrix.spec_rows() <= i16::MAX,
        ensures
            i == self.spec_peak(matrix, j as int, r),
    {
        let top: i16 = matrix.rows() as i16;
        let tf = self.sonic_drop(matrix, (top, j, r));
        tf.0
    }

    /// The place where the shape comes to rest when it falls from `tf`: it
    /// moves down until one more step would find no room.
    pub fn sonic_drop(&self, matrix: &BasicMatrix, tf: Transform) -> (out: Transform)
        requires
            self.wf(),
            matrix.wf(),
        ensures
            out == self.spec_sonic_drop(matrix, tf),
            out.0 == self.spec_drop(matrix, tf.0 as int, tf.1 as int, tf.2),
    {
        let mut i: i16 = tf.0;
        proof {
            self.lemma_drop(matrix, tf.0 as int, tf.1 as int, tf.2);
        }
        loop
            invariant
                self.wf(),
                matrix.wf(),
                i <= tf.0,
                self.spec_drop(matrix, i as int, tf.1 as int, tf.2) == self.spec_drop(
                    matrix,
                    tf.0 as int,
                    tf.1 as int,
                    tf.2,
                ),
            ensures
                i == self.spec_drop(matrix, tf.0 as int, tf.1 as int, tf.2),
            decreases i + BOX + 0x10000,
        {
            if i <= -BOX {
                break;
            }
            if matrix.overlaps(self, (i - 1, tf.1, tf.2)) {
                break;
            }
            i -= 1;
        }
        (i, tf.1, tf.2)
    }

    /// The place `di` rows and `dj` columns from `tf` in orientation `r`,
    /// where it can be written and has room.
    fn moved(&self, matrix: &BasicMatrix, tf: Transform, di: i16, dj: i16, r: Orientation) -> (out:
        Option<Transform>)
        requires
            self.wf(),
            matrix.wf(),
        ensures
            out == self.spec_moved(matrix, tf, di as int, dj as int, r),
    {
        let i: i32 = tf.0 as i32 + di as i32;
        let j: i32 = tf.1 as i32 + dj as i32;
        if i < -0x8000 || i > 0x7fff || j < -0x8000 || j > 0x7fff {
            return None;
        }
        let to: Transform = (i as i16, j as i16, r);
        if matrix.overlaps(self, to) {
            None
        } else {
            Some(to)
        }
    }

    /// Where `input` takes the shape from `tf`, or none where it is blocked.
    pub fn try_input(&self, matrix: &BasicMatrix, tf: Transform, input: Input) -> (out: Option<
        Transform,
    >)
        requires
            self.wf(),
            matrix.wf(),
        ensures
            out == self.spec_try_input(matrix, tf, input),
    {
        match input {
            Input::Left => self.moved(matrix, tf, 0, -1, tf.2),
            Input::Right => self.moved(matrix, tf, 0, 1, tf.2),
            Input::CW => self.kicked(matrix, tf, self.kicks(tf.2, true), tf.2.cw()),
            Input::CCW => self.kicked(matrix, tf, self.kicks(tf.2, false), tf.2.ccw()),
            _ => None,
        }
    }

    /// The place that the first of `kicks` with room leads to from `tf`, in
    /// orientation `r`.
    fn kicked(
        &self,
        matrix: &BasicMatrix,
        tf: Transform,
        kicks: &Vec<(i16, i16)>,
        r: Orientation,
    ) -> (out: Option<Transform>)
        requires
            self.wf(),
            matrix.wf(),
        ensures
            out == self.spec_kicked(matrix, tf, kicks@, r, 0),
    {
        let mut k: usize = 0;
        while k < kicks.len()
            invariant
                self.wf(),
                matrix.wf(),
                k <= kicks@.len(),
                self.spec_kicked(matrix, tf, kicks@, r, k as int) == self.spec_kicked(
                    matrix,
                    tf,
                    kicks@,
                    r,
                    0,
                ),
            decreases kicks@.len() - k,
        {
            let kick = kicks[k];
            let out = self.moved(matrix, tf, kick.0, kick.1, r);
            if out.is_some() {
                return out;
            }
            k += 1;
        }
        None
    }
}

/// Two strictly rising sequences with the same members are equal.
pub proof fn lemma_rising_same_members(a: Seq<(int, int)>, b: Seq<(int, int)>)
    requires
        rising(a),
        rising(b),
        forall|k: int| 0 <= k < a.len() ==> b.contains(#[trigger] a[k]),
        forall|l: int| 0 <= l < b.len() ==> a.contains(#[trigger] b[l]),
    ensures
        a == b,
    decreases a.len(),
{
    if a.len() == 0 {
        if b.len() > 0 {
            assert(a.contains(b[0]));
        }
        assert(a =~= b);
    } else {
        let la = a.len() - 1;
        assert(b.contains(a[la]));
        let l0 = choose|l: int| 0 <= l < b.len() && b[l] == a[la];
        let lb = b.len() - 1;
        assert(a.contains(b[lb]));
        let k0 = choose|k: int| 0 <= k < a.len() && a[k] == b[lb];
        if l0 < lb {
            assert(place_lt(b[l0], b[lb]));
        }
        if k0 < la {
            assert(place_lt(a[k0], a[la]));
        }
        assert(a[la] == b[lb]);
        let a1 = a.drop_last();
        let b1 = b.drop_last();
        assert forall|k: int| 0 <= k < a1.len() implies b1.contains(#[trigger] a1[k]) by {
            assert(b.contains(a[k]));
            let l = choose|l: int| 0 <= l < b.len() && b[l] == a[k];
            assert(place_lt(a[k], a[la]));
            assert(b1[l] == a1[k]);
        }
        assert forall|l: int| 0 <= l < b1.len() implies a1.contains(#[trigger] b1[l]) by {
            assert(a.contains(b[l]));
            let k = choose|k: int| 0 <= k < a.len() && a[k] == b[l];
            assert(place_lt(b[l], b[lb]));
            assert(a1[k] == b1[l]);
        }
        assert(rising(a1)) by {
            assert forall|k: int, l: int| 0 <= k < l < a1.len() implies place_lt(a1[k], a1[l]) by {
                assert(place_lt(a[k], a[l]));
            }
        }
        assert(rising(b1)) by {
            assert forall|k: int, l: int| 0 <= k < l < b1.len() implies place_lt(b1[k], b1[l]) by {
                assert(place_lt(b[k], b[l]));
            }
        }
        lemma_rising_same_members(a1, b1);
        assert(a =~= a1.push(a[la]));
        assert(b =~= b1.push(b[lb]));
    }
}

/// The least column offset among `cells`.
fn min_col(cells: &Vec<(i16, i16)>) -> (m: i16)
    requires
        cells_ok(cells@),
    ensures
        m == min_col_of(cells@),
        0 <= m < BOX,
{
    let mut m: i16 = cells[0].1;
    let mut k: usize = 1;
    assert(cells@.take(1).len() == 1 && cells@.take(1)[0] == cells@[0]);
    while k < cells.len()
        invariant
            1 <= k <= cells@.len(),
            cells_ok(cells@),
            0 <= m < BOX,
            m == min_col_of(cells@.take(k as int)),
        decreases cells@.len() - k,
    {
        assert(cells@.take(k + 1).drop_last() =~= cells@.take(k as int));
        assert(cells@.take(k + 1).last() == cells@[k as int]);
        if cells[k].1 < m {
            m = cells[k].1;
        }
        k += 1;
    }
    assert(cells@.take(k as int) =~= cells@);
    m
}

/// The greatest column offset among `cells`.
fn max_col(cells: &Vec<(i16, i16)>) -> (m: i16)
    requires
        cells_ok(cells@),
    ensures
        m == max_col_of(cells@),
        0 <= m < BOX,
{
    let mut m: i16 = cells[0].1;
    let mut k: usize = 1;
    assert(cells@.take(1).len() == 1 && cells@.take(1)[0] == cells@[0]);
    while k < cells.len()
        invariant
            1 <= k <= cells@.len(),
            cells_ok(cells@),
            0 <= m < BOX,
            m == max_col_of(cells@.take(k as int)),
        decreases cells@.len() - k,
    {
        assert(cells@.take(k + 1).drop_last() =~= cells@.take(k as int));
        assert(cells@.take(k + 1).last() == cells@[k as int]);
        if cells[k].1 > m {
            m = cells[k].1;
        }
        k += 1;
    }
    assert(cells@.take(k as int) =~= cells@);
    m
}

/// Whether `cells` is as [`cells_ok`] asks.
fn check_cells(cells: &Vec<(i16, i16)>) -> (ok: bool)
    ensures
        ok == cells_ok(cells@),
{
    if cells.len() == 0 {
        return false;
    }
    let mut k: usize = 0;
    while k < cells.len()
        invariant
            k <= cells@.len(),
            forall|q: int| 0 <= q < k ==> 0 <= (#[trigger] cells@[q]).0 < BOX && 0 <= cells@[q].1 < BOX,
            forall|p: int, q: int| 0 <= p < q < k ==> cell_lt(cells@[p], cells@[q]),
        decreases cells@.len() - k,
    {
        let c = cells[k];
        if c.0 < 0 || c.0 >= BOX || c.1 < 0 || c.1 >= BOX {
            return false;
        }
        if k > 0 {
            let b = cells[k - 1];
            if !(b.0 < c.0 || (b.0 == c.0 && b.1 < c.1)) {
                assert(!cell_lt(cells@[k - 1], cells@[k as int]));
                return false;
            }
            assert forall|p: int| 0 <= p < k implies cell_lt(cells@[p], cells@[k as int]) by {
                if p < k - 1 {
                    assert(cell_lt(cells@[p], cells@[k - 1]));
                }
            }
        }
        k += 1;
    }
    true
}

} // verus!
