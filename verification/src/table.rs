//! The table of shapes, and the shapes of the seven tetrominoes.

use crate::piece::{Color, Orientation};
use crate::shape::{cells_ok, parts_ok, Shape};
use vstd::prelude::*;

verus! {

/// A shape borrowed from a shape table.
pub type ShapeRef<'s> = &'s Shape;

/// The shapes of a rule set, at most one of each color.
#[derive(Debug)]
pub struct ShapeTable {
    shapes: Vec<Shape>,
}

impl View for ShapeTable {
    type V = Seq<Shape>;

    /// The shapes in the order in which they were added.
    closed spec fn view(&self) -> Seq<Shape> {
        self.shapes@
    }
}

impl ShapeTable {
    /// Every shape is well formed, and no two have one color.
    pub open spec fn wf(&self) -> bool {
        &&& forall|k: int| 0 <= k < self@.len() ==> (#[trigger] self@[k]).wf()
        &&& forall|k: int, l: int|
            0 <= k < l < self@.len() ==> (#[trigger] self@[k]).spec_color() != (
            #[trigger] self@[l]).spec_color()
    }

    /// Whether the table has a shape of this color.
    pub open spec fn spec_has(&self, color: Color) -> bool {
        exists|k: int| 0 <= k < self@.len() && (#[trigger] self@[k]).spec_color() == color
    }

    /// The shape of this color, where the table has one.
    pub open spec fn spec_shape(&self, color: Color) -> Shape
        recommends
            self.spec_has(color),
    {
        self@[choose|k: int| 0 <= k < self@.len() && (#[trigger] self@[k]).spec_color() == color]
    }

    /// A table without shapes.
    pub fn new() -> (table: ShapeTable)
        ensures
            table.wf(),
            table@.len() == 0,
    {
        ShapeTable { shapes: Vec::new() }
    }

    /// Adds `shape` unless the table has a shape of its color, and says
    /// whether it was added.
    pub fn insert(&mut self, shape: Shape) -> (added: bool)
        requires
            old(self).wf(),
            shape.wf(),
        ensures
            final(self).wf(),
            added == !old(self).spec_has(shape.spec_color()),
            added ==> final(self)@ == old(self)@.push(shape),
            !added ==> final(self)@ == old(self)@,
            added ==> final(self).spec_shape(shape.spec_color()) == shape,
            forall|c: Color|
                final(self).spec_has(c) <==> old(self).spec_has(c) || c == shape.spec_color(),
            forall|c: Color|
                old(self).spec_has(c) ==> #[trigger] final(self).spec_shape(c) == old(
                    self,
                ).spec_shape(c),
    {
        if self.shape(shape.color()).is_some() {
            return false;
        }
        let ghost before = self@;
        self.shapes.push(shape);
        proof {
            let n = before.len() as int;
            assert(self@[n] == shape);
            assert forall|k: int, l: int| 0 <= k < l < self@.len() implies (
            #[trigger] self@[k]).spec_color() != (#[trigger] self@[l]).spec_color() by {
                assert(self@[k] == before[k]);
                if l < n {
                    assert(self@[l] == before[l]);
                }
            }
            assert forall|c: Color|
                self.spec_has(c) <==> old(self).spec_has(c) || c == shape.spec_color() by {
                if old(self).spec_has(c) {
                    let k = choose|k: int|
                        0 <= k < before.len() && (#[trigger] before[k]).spec_color() == c;
                    assert(self@[k] == before[k]);
                }
                if self.spec_has(c) && c != shape.spec_color() {
                    let k = choose|k: int|
                        0 <= k < self@.len() && (#[trigger] self@[k]).spec_color() == c;
                    assert(self@[k] == before[k]);
                }
            }
            self.lemma_shape_at(n);
            assert forall|c: Color| old(self).spec_has(c) implies #[trigger] self.spec_shape(c)
                == old(self).spec_shape(c) by {
                let k = choose|k: int|
                    0 <= k < before.len() && (#[trigger] before[k]).spec_color() == c;
                assert(self@[k] == before[k]);
                self.lemma_shape_at(k);
            }
        }
        true
    }

    /// The shape of a color is the one shape of the table that has it.
    pub proof fn lemma_shape_at(&self, k: int)
        requires
            self.wf(),
            0 <= k < self@.len(),
        ensures
            self.spec_has(self@[k].spec_color()),
            self.spec_shape(self@[k].spec_color()) == self@[k],
    {
        let c = self@[k].spec_color();
        let w = choose|w: int| 0 <= w < self@.len() && (#[trigger] self@[w]).spec_color() == c;
        if w < k {
            assert(self@[w].spec_color() != self@[k].spec_color());
        } else if k < w {
            assert(self@[k].spec_color() != self@[w].spec_color());
        }
    }

    /// The shape of this color, or none where the table has none.
    pub fn shape(&self, color: Color) -> (found: Option<ShapeRef<'_>>)
        requires
            self.wf(),
        ensures
            found is Some <==> self.spec_has(color),
            found matches Some(s) ==> *s == self.spec_shape(color) && s.wf() && s.spec_color()
                == color,
    {
        let mut k: usize = 0;
        while k < self.shapes.len()
            invariant
                self.wf(),
                k <= self@.len(),
                forall|q: int| 0 <= q < k ==> (#[trigger] self@[q]).spec_color() != color,
            decreases self@.len() - k,
        {
            if self.shapes[k].color() == color {
                proof {
                    let w = choose|w: int|
                        0 <= w < self@.len() && (#[trigger] self@[w]).spec_color() == color;
                    if w < k {
                        assert(self@[w].spec_color() != self@[k as int].spec_color());
                    } else if w > k {
                        assert(self@[k as int].spec_color() != self@[w].spec_color());
                    }
                }
                return Some(&self.shapes[k]);
            }
            k += 1;
        }
        None
    }
}

/// Whether `c` names one of the seven tetrominoes.
pub open spec fn is_tetromino(c: char) -> bool {
    c == 'I' || c == 'J' || c == 'L' || c == 'O' || c == 'S' || c == 'T' || c == 'Z'
}

/// The cells of the tetromino `c` in orientation `r`. The pieces J, L, S, T
/// and Z turn in a box of three by three cells, I and O in one of four by
/// four; row 0 is the lowest row of the box.
pub open spec fn spec_srs_cells(c: char, r: Orientation) -> Seq<(i16, i16)> {
    if c == 'I' {
        match r {
            Orientation::R0 => seq![(2, 0), (2, 1), (2, 2), (2, 3)],
            Orientation::R1 => seq![(0, 2), (1, 2), (2, 2), (3, 2)],
            Orientation::R2 => seq![(1, 0), (1, 1), (1, 2), (1, 3)],
            Orientation::R3 => seq![(0, 1), (1, 1), (2, 1), (3, 1)],
        }
    } else if c == 'J' {
        match r {
            Orientation::R0 => seq![(1, 0), (1, 1), (1, 2), (2, 0)],
            Orientation::R1 => seq![(0, 1), (1, 1), (2, 1), (2, 2)],
            Orientation::R2 => seq![(0, 2), (1, 0), (1, 1), (1, 2)],
            Orientation::R3 => seq![(0, 0), (0, 1), (1, 1), (2, 1)],
        }
    } else if c == 'L' {
        match r {
            Orientation::R0 => seq![(1, 0), (1, 1), (1, 2), (2, 2)],
            Orientation::R1 => seq![(0, 1), (0, 2), (1, 1), (2, 1)],
            Orientation::R2 => seq![(0, 0), (1, 0), (1, 1), (1, 2)],
            Orientation::R3 => seq![(0, 1), (1, 1), (2, 0), (2, 1)],
        }
    } else if c == 'O' {
        seq![(1, 1), (1, 2), (2, 1), (2, 2)]
    } else if c == 'S' {
        match r {
            Orientation::R0 => seq![(1, 0), (1, 1), (2, 1), (2, 2)],
            Orientation::R1 => seq![(0, 2), (1, 1), (1, 2), (2, 1)],
            Orientation::R2 => seq![(0, 0), (0, 1), (1, 1), (1, 2)],
            Orientation::R3 => seq![(0, 1), (1, 0), (1, 1), (2, 0)],
        }
    } else if c == 'T' {
        match r {
            Orientation::R0 => seq![(1, 0), (1, 1), (1, 2), (2, 1)],
            Orientation::R1 => seq![(0, 1), (1, 1), (1, 2), (2, 1)],
            Orientation::R2 => seq![(0, 1), (1, 0), (1, 1), (1, 2)],
            Orientation::R3 => seq![(0, 1), (1, 0), (1, 1), (2, 1)],
        }
    } else {
        match r {
            Orientation::R0 => seq![(1, 1), (1, 2), (2, 0), (2, 1)],
            Orientation::R1 => seq![(0, 1), (1, 1), (1, 2), (2, 2)],
            Orientation::R2 => seq![(0, 1), (0, 2), (1, 0), (1, 1)],
            Orientation::R3 => seq![(0, 0), (1, 0), (1, 1), (2, 1)],
        }
    }
}

/// A row offset and a column offset as a pair.
pub open spec fn offset(di: int, dj: int) -> (i16, i16) {
    (di as i16, dj as i16)
}

/// The kick offsets of the tetromino `c` for a turn out of orientation `r`,
/// each as a row and a column offset, in the order in which they are tried.
/// The first tries the turn in place. O knows no other; I has its own.
pub open spec fn spec_srs_kicks(c: char, r: Orientation, clockwise: bool) -> Seq<(i16, i16)> {
    if c == 'O' {
        seq![offset(0, 0)]
    } else if c == 'I' {
        match (r, clockwise) {
            (Orientation::R0, true) => seq![offset(0, 0), offset(0, -2), offset(0, 1), offset(-1, -2), offset(2, 1)],
            (Orientation::R1, true) => seq![offset(0, 0), offset(0, -1), offset(0, 2), offset(2, -1), offset(-1, 2)],
            (Orientation::R2, true) => seq![offset(0, 0), offset(0, 2), offset(0, -1), offset(1, 2), offset(-2, -1)],
            (Orientation::R3, true) => seq![offset(0, 0), offset(0, 1), offset(0, -2), offset(-2, 1), offset(1, -2)],
            (Orientation::R0, false) => seq![offset(0, 0), offset(0, -1), offset(0, 2), offset(2, -1), offset(-1, 2)],
            (Orientation::R1, false) => seq![offset(0, 0), offset(0, 2), offset(0, -1), offset(1, 2), offset(-2, -1)],
            (Orientation::R2, false) => seq![offset(0, 0), offset(0, 1), offset(0, -2), offset(-2, 1), offset(1, -2)],
            (Orientation::R3, false) => seq![offset(0, 0), offset(0, -2), offset(0, 1), offset(-1, -2), offset(2, 1)],
        }
    } else {
        match (r, clockwise) {
            (Orientation::R0, true) => seq![offset(0, 0), offset(0, -1), offset(1, -1), offset(-2, 0), offset(-2, -1)],
            (Orientation::R1, true) => seq![offset(0, 0), offset(0, 1), offset(-1, 1), offset(2, 0), offset(2, 1)],
            (Orientation::R2, true) => seq![offset(0, 0), offset(0, 1), offset(1, 1), offset(-2, 0), offset(-2, 1)],
            (Orientation::R3, true) => seq![offset(0, 0), offset(0, -1), offset(-1, -1), offset(2, 0), offset(2, -1)],
            (Orientation::R0, false) => seq![offset(0, 0), offset(0, 1), offset(1, 1), offset(-2, 0), offset(-2, 1)],
            (Orientation::R1, false) => seq![offset(0, 0), offset(0, 1), offset(-1, 1), offset(2, 0), offset(2, 1)],
            (Orientation::R2, false) => seq![offset(0, 0), offset(0, -1), offset(1, -1), offset(-2, 0), offset(-2, -1)],
            (Orientation::R3, false) => seq![offset(0, 0), offset(0, -1), offset(-1, -1), offset(2, 0), offset(2, -1)],
        }
    }
}

/// Whether `shape` is the tetromino `c`.
pub open spec fn is_srs_shape(shape: &Shape, c: char) -> bool {
    &&& shape.wf()
    &&& shape.spec_color() == Color(c)
    &&& forall|r: Orientation| #[trigger] shape.spec_cells(r) == spec_srs_cells(c, r)
    &&& forall|r: Orientation, clockwise: bool| #[trigger]
        shape.spec_kicks(r, clockwise) == spec_srs_kicks(c, r, clockwise)
}

/// The cells of the tetromino `c` in orientation `r`.
fn srs_cells(c: char, r: Orientation) -> (cells: Vec<(i16, i16)>)
    requires
        is_tetromino(c),
    ensures
        cells@ == spec_srs_cells(c, r),
        cells_ok(cells@),
{
    let cells: Vec<(i16, i16)> = if c == 'I' {
        match r {
            Orientation::R0 => vec![(2, 0), (2, 1), (2, 2), (2, 3)],
            Orientation::R1 => vec![(0, 2), (1, 2), (2, 2), (3, 2)],
            Orientation::R2 => vec![(1, 0), (1, 1), (1, 2), (1, 3)],
            Orientation::R3 => vec![(0, 1), (1, 1), (2, 1), (3, 1)],
        }
    } else if c == 'J' {
        match r {
            Orientation::R0 => vec![(1, 0), (1, 1), (1, 2), (2, 0)],
            Orientation::R1 => vec![(0, 1), (1, 1), (2, 1), (2, 2)],
            Orientation::R2 => vec![(0, 2), (1, 0), (1, 1), (1, 2)],
            Orientation::R3 => vec![(0, 0), (0, 1), (1, 1), (2, 1)],
        }
    } else if c == 'L' {
        match r {
            Orientation::R0 => vec![(1, 0), (1, 1), (1, 2), (2, 2)],
            Orientation::R1 => vec![(0, 1), (0, 2), (1, 1), (2, 1)],
            Orientation::R2 => vec![(0, 0), (1, 0), (1, 1), (1, 2)],
            Orientation::R3 => vec![(0, 1), (1, 1), (2, 0), (2, 1)],
        }
    } else if c == 'O' {
        vec![(1, 1), (1, 2), (2, 1), (2, 2)]
    } else if c == 'S' {
        match r {
            Orientation::R0 => vec![(1, 0), (1, 1), (2, 1), (2, 2)],
            Orientation::R1 => vec![(0, 2), (1, 1), (1, 2), (2, 1)],
            Orientation::R2 => vec![(0, 0), (0, 1), (1, 1), (1, 2)],
            Orientation::R3 => vec![(0, 1), (1, 0), (1, 1), (2, 0)],
        }
    } else if c == 'T' {
        match r {
            Orientation::R0 => vec![(1, 0), (1, 1), (1, 2), (2, 1)],
            Orientation::R1 => vec![(0, 1), (1, 1), (1, 2), (2, 1)],
            Orientation::R2 => vec![(0, 1), (1, 0), (1, 1), (1, 2)],
            Orientation::R3 => vec![(0, 1), (1, 0), (1, 1), (2, 1)],
        }
    } else {
        match r {
            Orientation::R0 => vec![(1, 1), (1, 2), (2, 0), (2, 1)],
            Orientation::R1 => vec![(0, 1), (1, 1), (1, 2), (2, 2)],
            Orientation::R2 => vec![(0, 1), (0, 2), (1, 0), (1, 1)],
            Orientation::R3 => vec![(0, 0), (1, 0), (1, 1), (2, 1)],
        }
    };
    assert(cells@ =~= spec_srs_cells(c, r));
    cells
}

/// The kick offsets of the tetromino `c` for a turn out of orientation `r`.
fn srs_kicks(c: char, r: Orientation, clockwise: bool) -> (kicks: Vec<(i16, i16)>)
    requires
        is_tetromino(c),
    ensures
        kicks@ == spec_srs_kicks(c, r, clockwise),
{
    let kicks: Vec<(i16, i16)> = if c == 'O' {
        vec![(0, 0)]
    } else if c == 'I' {
        match (r, clockwise) {
            (Orientation::R0, true) => vec![(0, 0), (0, -2), (0, 1), (-1, -2), (2, 1)],
            (Orientation::R1, true) => vec![(0, 0), (0, -1), (0, 2), (2, -1), (-1, 2)],
            (Orientation::R2, true) => vec![(0, 0), (0, 2), (0, -1), (1, 2), (-2, -1)],
            (Orientation::R3, true) => vec![(0, 0), (0, 1), (0, -2), (-2, 1), (1, -2)],
            (Orientation::R0, false) => vec![(0, 0), (0, -1), (0, 2), (2, -1), (-1, 2)],
            (Orientation::R1, false) => vec![(0, 0), (0, 2), (0, -1), (1, 2), (-2, -1)],
            (Orientation::R2, false) => vec![(0, 0), (0, 1), (0, -2), (-2, 1), (1, -2)],
            (Orientation::R3, false) => vec![(0, 0), (0, -2), (0, 1), (-1, -2), (2, 1)],
        }
    } else {
        match (r, clockwise) {
            (Orientation::R0, true) => vec![(0, 0), (0, -1), (1, -1), (-2, 0), (-2, -1)],
            (Orientation::R1, true) => vec![(0, 0), (0, 1), (-1, 1), (2, 0), (2, 1)],
            (Orientation::R2, true) => vec![(0, 0), (0, 1), (1, 1), (-2, 0), (-2, 1)],
            (Orientation::R3, true) => vec![(0, 0), (0, -1), (-1, -1), (2, 0), (2, -1)],
            (Orientation::R0, false) => vec![(0, 0), (0, 1), (1, 1), (-2, 0), (-2, 1)],
            (Orientation::R1, false) => vec![(0, 0), (0, 1), (-1, 1), (2, 0), (2, 1)],
            (Orientation::R2, false) => vec![(0, 0), (0, -1), (1, -1), (-2, 0), (-2, -1)],
            (Orientation::R3, false) => vec![(0, 0), (0, -1), (-1, -1), (2, 0), (2, -1)],
        }
    };
    assert(kicks@ =~= spec_srs_kicks(c, r, clockwise));
    kicks
}

/// The kick lists of the tetromino `c` for one direction, by the
/// orientation turned from.
fn srs_kick_lists(c: char, clockwise: bool) -> (lists: Vec<Vec<(i16, i16)>>)
    requires
        is_tetromino(c),
    ensures
        lists@.len() == 4,
        forall|r: Orientation| (#[trigger] lists@[r.spec_index()])@ == spec_srs_kicks(c, r, clockwise),
{
    let lists = vec![
        srs_kicks(c, Orientation::R0, clockwise),
        srs_kicks(c, Orientation::R1, clockwise),
        srs_kicks(c, Orientation::R2, clockwise),
        srs_kicks(c, Orientation::R3, clockwise),
    ];
    assert forall|r: Orientation| (#[trigger] lists@[r.spec_index()])@ == spec_srs_kicks(
        c,
        r,
        clockwise,
    ) by {
        r.lemma_turns_cycle();
    }
    lists
}

/// Adds the tetromino `c` to `table`.
fn add_tetromino(table: &mut ShapeTable, c: char)
    requires
        old(table).wf(),
        is_tetromino(c),
        !old(table).spec_has(Color(c)),
    ensures
        final(table).wf(),
        is_srs_shape(&final(table).spec_shape(Color(c)), c),
        forall|o: Color| final(table).spec_has(o) <==> old(table).spec_has(o) || o == Color(c),
        forall|o: Color|
            old(table).spec_has(o) ==> #[trigger] final(table).spec_shape(o) == old(
                table,
            ).spec_shape(o),
{
    let cells = vec![
        srs_cells(c, Orientation::R0),
        srs_cells(c, Orientation::R1),
        srs_cells(c, Orientation::R2),
        srs_cells(c, Orientation::R3),
    ];
    let kicks_cw = srs_kick_lists(c, true);
    let kicks_ccw = srs_kick_lists(c, false);
    proof {
        assert forall|r: Orientation| (#[trigger] cells@[r.spec_index()])@ == spec_srs_cells(
            c,
            r,
        ) by {
            r.lemma_turns_cycle();
        }
        assert forall|k: int| 0 <= k < 4 implies cells_ok((#[trigger] cells@[k])@) by {}
        assert(parts_ok(cells@, kicks_cw@, kicks_ccw@));
    }
    match Shape::new(Color::n(c), cells, kicks_cw, kicks_ccw) {
        Some(shape) => {
            proof {
                assert(is_srs_shape(&shape, c)) by {
                    assert forall|r: Orientation, clockwise: bool| #[trigger]
                        shape.spec_kicks(r, clockwise) == spec_srs_kicks(c, r, clockwise) by {
                        assert(shape.spec_cells(r) == spec_srs_cells(c, r));
                        if clockwise {
                            assert(shape.spec_kicks(r, true) == kicks_cw@[r.spec_index()]@);
                        } else {
                            assert(shape.spec_kicks(r, false) == kicks_ccw@[r.spec_index()]@);
                        }
                    }
                }
            }
            table.insert(shape);
        },
        None => {},
    }
}

/// The shapes of the seven tetrominoes I, J, L, O, S, T and Z, each with its
/// four orientations and with the kick offsets of the Super Rotation System.
pub fn srs() -> (table: ShapeTable)
    ensures
        table.wf(),
        forall|c: char| table.spec_has(Color(c)) <==> is_tetromino(c),
        forall|c: char| is_tetromino(c) ==> is_srs_shape(&#[trigger] table.spec_shape(Color(c)), c),
{
    let mut table = ShapeTable::new();
    add_tetromino(&mut table, 'I');
    add_tetromino(&mut table, 'J');
    add_tetromino(&mut table, 'L');
    add_tetromino(&mut table, 'O');
    add_tetromino(&mut table, 'S');
    add_tetromino(&mut table, 'T');
    add_tetromino(&mut table, 'Z');
    table
}

} // verus!
