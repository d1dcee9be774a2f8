//! Placements, and the search for every placement that a piece can reach.

use crate::matrix::BasicMatrix;
use crate::piece::{Color, Input, Orientation, Transform};
use crate::shape::{NormalizedShapeTransform, Shape, BOX};
use crate::table::{ShapeRef, ShapeTable};
use std::collections::HashSet;
use vstd::prelude::*;

verus! {

broadcast use vstd::std_specs::hash::group_hash_axioms;

/// The number of keys that [`spec_place_key`] can give.
pub const PLACE_KEYS: u64 = 0x44_0000_0000_0000;

/// Where one input and the fall after it take the shape from `tf`; none
/// where the input is blocked.
pub open spec fn spec_step(shape: &Shape, m: &BasicMatrix, tf: Transform, input: Input) -> Option<
    Transform,
> {
    match shape.spec_try_input(m, tf, input) {
        Some(t) => Some(shape.spec_sonic_drop(m, t)),
        None => None,
    }
}

/// Where the inputs of `path`, each followed by a fall, take the shape from
/// `tf`; none where one of them is blocked.
pub open spec fn spec_walk(shape: &Shape, m: &BasicMatrix, tf: Transform, path: Seq<Input>) -> Option<
    Transform,
>
    decreases path.len(),
{
    if path.len() == 0 {
        Some(tf)
    } else {
        match spec_walk(shape, m, tf, path.drop_last()) {
            Some(t) => spec_step(shape, m, t, path.last()),
            None => None,
        }
    }
}

/// The place where the shape rests after it fell into column `j` in
/// orientation `r` from above the matrix.
pub open spec fn spec_start(shape: &Shape, m: &BasicMatrix, j: int, r: Orientation) -> Transform {
    (shape.spec_peak(m, j, r) as i16, j as i16, r)
}

/// Whether the shape can get to `tf`: it falls from above the matrix in some
/// orientation into some column in which it lies within the matrix, and
/// then follows some inputs, with a fall after each.
pub open spec fn reachable(shape: &Shape, m: &BasicMatrix, tf: Transform) -> bool {
    exists|j: int, r: Orientation, path: Seq<Input>|
        shape.col_valid(r, j, m.spec_cols()) && #[trigger] spec_walk(
            shape,
            m,
            spec_start(shape, m, j, r),
            path,
        ) == Some(tf)
}

/// A number for a color and a transform, a different one for each pair.
pub open spec fn spec_place_key(color: Color, tf: Transform) -> u64 {
    ((((color.0 as int) * 4 + tf.2.spec_index()) * 0x10000 + (tf.0 + 0x8000)) * 0x10000 + (tf.1
        + 0x8000)) as u64
}

/// A number for a key of covered cells, a different one for each key whose
/// row and column are those of a placed shape.
pub open spec fn spec_normal_key(n: NormalizedShapeTransform) -> u64 {
    ((((n.color.0 as int) * 4 + n.canon.spec_index()) * 0x20000 + (n.row + 0x8000)) * 0x20000 + (
    n.col + 0x8000)) as u64
}

/// Whether the row and the column of a key are those of a placed shape.
pub open spec fn normal_in_range(n: NormalizedShapeTransform) -> bool {
    i16::MIN <= n.row < i16::MAX + BOX && i16::MIN <= n.col < i16::MAX + BOX
}

/// Different pairs of a color and a transform have different numbers, each
/// below [`PLACE_KEYS`].
pub proof fn lemma_place_key(c1: Color, tf1: Transform, c2: Color, tf2: Transform)
    ensures
        spec_place_key(c1, tf1) < PLACE_KEYS,
        spec_place_key(c1, tf1) == spec_place_key(c2, tf2) ==> c1 == c2 && tf1 == tf2,
{
    tf1.2.lemma_turns_cycle();
    tf2.2.lemma_turns_cycle();
}

/// Different keys of covered cells have different numbers.
pub proof fn lemma_normal_key(n1: NormalizedShapeTransform, n2: NormalizedShapeTransform)
    requires
        normal_in_range(n1),
        normal_in_range(n2),
    ensures
        spec_normal_key(n1) == spec_normal_key(n2) ==> n1 == n2,
{
    n1.canon.lemma_turns_cycle();
    n2.canon.lemma_turns_cycle();
}

/// A finite set of numbers below `m` has at most `m` members.
pub proof fn lemma_below_len(s: Set<u64>, m: u64)
    requires
        s.finite(),
        forall|k: u64| s.contains(k) ==> k < m,
    ensures
        s.len() <= m,
    decreases m,
{
    if m == 0 {
        assert(s =~= Set::<u64>::empty());
    } else {
        let top = (m - 1) as u64;
        lemma_below_len(s.remove(top), top);
    }
}

/// The place where the shape first rests is one where it rests, and one it
/// can get to.
pub proof fn lemma_start_sound(shape: &Shape, m: &BasicMatrix, j: int, r: Orientation)
    requires
        shape.wf(),
        m.wf(),
        m.spec_rows() <= i16::MAX,
        i16::MIN <= j <= i16::MAX,
        shape.col_valid(r, j, m.spec_cols()),
    ensures
        shape.at_rest(m, spec_start(shape, m, j, r)),
        reachable(shape, m, spec_start(shape, m, j, r)),
{
    shape.lemma_room_above(m, m.spec_rows(), j, r);
    shape.lemma_drop(m, m.spec_rows(), j, r);
    let path = Seq::<Input>::empty();
    assert(spec_walk(shape, m, spec_start(shape, m, j, r), path) == Some(
        spec_start(shape, m, j, r),
    ));
}

/// Where the shape can get to `tf`, it can get to the place that one more
/// input takes it to from there, and it rests at that place.
pub proof fn lemma_step_sound(shape: &Shape, m: &BasicMatrix, tf: Transform, input: Input)
    requires
        shape.wf(),
        m.wf(),
        reachable(shape, m, tf),
        spec_step(shape, m, tf, input) is Some,
    ensures
        shape.at_rest(m, spec_step(shape, m, tf, input).unwrap()),
        reachable(shape, m, spec_step(shape, m, tf, input).unwrap()),
{
    let t = shape.spec_try_input(m, tf, input).unwrap();
    lemma_try_input_fits(shape, m, tf, input);
    shape.lemma_drop(m, t.0 as int, t.1 as int, t.2);
    let (j, r, path) = choose|j: int, r: Orientation, path: Seq<Input>|
        shape.col_valid(r, j, m.spec_cols()) && #[trigger] spec_walk(
            shape,
            m,
            spec_start(shape, m, j, r),
            path,
        ) == Some(tf);
    let longer = path.push(input);
    assert(longer.drop_last() =~= path);
    assert(spec_walk(shape, m, spec_start(shape, m, j, r), longer) == spec_step(
        shape,
        m,
        tf,
        input,
    ));
}

/// The place that an input leads to has room for the shape.
pub proof fn lemma_try_input_fits(shape: &Shape, m: &BasicMatrix, tf: Transform, input: Input)
    requires
        shape.spec_try_input(m, tf, input) is Some,
    ensures
        ({
            let t = shape.spec_try_input(m, tf, input).unwrap();
            shape.fits(m, t.0 as int, t.1 as int, t.2)
        }),
{
    match input {
        Input::CW => lemma_kicked_fits(
            shape,
            m,
            tf,
            shape.spec_kicks(tf.2, true),
            tf.2.spec_cw(),
            0,
        ),
        Input::CCW => lemma_kicked_fits(
            shape,
            m,
            tf,
            shape.spec_kicks(tf.2, false),
            tf.2.spec_ccw(),
            0,
        ),
        _ => {},
    }
}

/// The place that a kick leads to has room for the shape.
pub proof fn lemma_kicked_fits(
    shape: &Shape,
    m: &BasicMatrix,
    tf: Transform,
    kicks: Seq<(i16, i16)>,
    r: Orientation,
    from: int,
)
    requires
        shape.spec_kicked(m, tf, kicks, r, from) is Some,
    ensures
        ({
            let t = shape.spec_kicked(m, tf, kicks, r, from).unwrap();
            shape.fits(m, t.0 as int, t.1 as int, t.2)
        }),
    decreases kicks.len() - from,
{
    if 0 <= from < kicks.len() {
        if shape.spec_moved(m, tf, kicks[from].0 as int, kicks[from].1 as int, r) is None {
            lemma_kicked_fits(shape, m, tf, kicks, r, from + 1);
        }
    }
}

/// A piece placement: the shape, where it rests, and whether the hold slot
/// was used to get the piece.
#[derive(Clone, Copy, Debug)]
pub struct Place<'s> {
    /// The position of this placement among those that one run of a
    /// [`PlaceFinder`] hands out. A finder primed alike hands out the same
    /// placements with the same positions.
    pub idx: usize,
    /// The shape placed.
    pub shape: ShapeRef<'s>,
    /// Where the shape rests.
    pub tf: Transform,
    /// Whether the placement needs the hold slot.
    pub did_hold: bool,
}

impl<'s> Place<'s> {
    /// This placement moved to `tf`: the same shape, hold flag and position.
    pub open spec fn spec_at(self, tf: Transform) -> Place<'s> {
        Place { idx: self.idx, shape: self.shape, tf, did_hold: self.did_hold }
    }

    /// The key of the cells that the placement covers.
    pub open spec fn spec_normal(self) -> NormalizedShapeTransform {
        self.shape.spec_normalize(self.tf)
    }

    /// The placement that `input` and the fall after it lead to.
    pub open spec fn spec_input(self, m: &BasicMatrix, input: Input) -> Option<Place<'s>> {
        match spec_step(self.shape, m, self.tf, input) {
            Some(tf) => Some(self.spec_at(tf)),
            None => None,
        }
    }

    /// Whether the shape is well formed, rests at the place, and can get
    /// there.
    pub open spec fn sound(self, m: &BasicMatrix) -> bool {
        &&& self.shape.wf()
        &&& self.shape.at_rest(m, self.tf)
        &&& reachable(self.shape, m, self.tf)
    }

    /// A placement of `shape` at `tf`. Its position is not set yet:
    /// `usize::MAX` stands for that.
    pub fn new(shape: ShapeRef<'s>, tf: Transform, did_hold: bool) -> (pl: Place<'s>)
        ensures
            pl == (Place { idx: usize::MAX, shape, tf, did_hold }),
    {
        Place { idx: usize::MAX, shape, tf, did_hold }
    }

    /// The key of the cells that the placement covers, whatever the
    /// orientation that covers them.
    pub fn normal(&self) -> (key: NormalizedShapeTransform)
        requires
            self.shape.wf(),
        ensures
            key == self.spec_normal(),
    {
        self.shape.normalize(self.tf)
    }

    /// The placement after `input`: the shape follows the input, then falls
    /// until it rests. None where the matrix blocks the input.
    pub fn input(&self, matrix: &BasicMatrix, input: Input) -> (out: Option<Place<'s>>)
        requires
            self.shape.wf(),
            matrix.wf(),
        ensures
            out == self.spec_input(matrix, input),
    {
        match self.shape.try_input(matrix, self.tf, input) {
            Some(tf) => {
                let tf = self.shape.sonic_drop(matrix, tf);
                Some(Place { idx: self.idx, shape: self.shape, tf, did_hold: self.did_hold })
            },
            None => None,
        }
    }
}

} // verus!
