//! The search for every placement that a piece can reach on a matrix.

use crate::matrix::BasicMatrix;
use crate::piece::{Color, Input, Orientation, Transform};
use crate::place::{
    lemma_below_len, lemma_normal_key, lemma_place_key, lemma_start_sound, lemma_step_sound,
    reachable, spec_normal_key, spec_place_key, spec_start, spec_step, spec_walk, Place,
    PLACE_KEYS,
};
use crate::shape::{NormalizedShapeTransform, Shape, BOX};
use crate::table::{ShapeRef, ShapeTable};
use std::collections::HashSet;
use vstd::prelude::*;

verus! {

broadcast use vstd::std_specs::hash::group_hash_axioms;

/// The inputs that a search tries from each placement, in their order.
pub open spec fn move_at(k: int) -> Input {
    if k == 0 {
        Input::Left
    } else if k == 1 {
        Input::Right
    } else if k == 2 {
        Input::CW
    } else {
        Input::CCW
    }
}

/// The placements that the first `n` inputs of [`move_at`] lead to from
/// `pl`, in the order of the inputs; a blocked input adds none.
pub open spec fn spec_moves<'s>(pl: Place<'s>, m: &BasicMatrix, n: int) -> Seq<Place<'s>>
    decreases n,
{
    if n <= 0 {
        Seq::empty()
    } else {
        let before = spec_moves(pl, m, n - 1);
        match pl.spec_input(m, move_at(n - 1)) {
            Some(next) => before.push(next),
            None => before,
        }
    }
}

/// The number of columns in which the shape in orientation `r` lies within
/// a matrix `width` wide.
pub open spec fn spec_cols_count(shape: &Shape, r: Orientation, width: int) -> int {
    let range = shape.spec_valid_cols(r, width);
    if range.1 > range.0 {
        range.1 - range.0
    } else {
        0
    }
}

/// The placement in which the shape first rests in column `j`.
pub open spec fn spec_start_place<'s>(
    shape: ShapeRef<'s>,
    m: &BasicMatrix,
    hold: bool,
    j: int,
    r: Orientation,
) -> Place<'s> {
    Place { idx: usize::MAX, shape, tf: spec_start(shape, m, j, r), did_hold: hold }
}

/// The placements in which the shape in orientation `r` first rests, for
/// the first `n` columns in which it lies within the matrix, from the left.
pub open spec fn spec_starts_row<'s>(
    shape: ShapeRef<'s>,
    m: &BasicMatrix,
    hold: bool,
    r: Orientation,
    n: int,
) -> Seq<Place<'s>> {
    Seq::new(
        n as nat,
        |k: int|
            spec_start_place(shape, m, hold, shape.spec_valid_cols(r, m.spec_cols()).0 + k, r),
    )
}

/// The placements in which the shape first rests, for the first `n`
/// orientations, each with all its columns.
pub open spec fn spec_starts<'s>(shape: ShapeRef<'s>, m: &BasicMatrix, hold: bool, n: int) -> Seq<
    Place<'s>,
>
    decreases n,
{
    if n <= 0 {
        Seq::empty()
    } else {
        let r = Orientation::spec_from_index(n - 1);
        spec_starts(shape, m, hold, n - 1) + spec_starts_row(
            shape,
            m,
            hold,
            r,
            spec_cols_count(shape, r, m.spec_cols()),
        )
    }
}

/// Whether `queue` holds a placement of color `c` at `tf`.
spec fn queue_has<'s>(queue: Seq<Place<'s>>, c: Color, tf: Transform) -> bool {
    exists|q: int|
        0 <= q < queue.len() && (#[trigger] queue[q]).shape.spec_color() == c && queue[q].tf == tf
}

/// What a finder holds.
pub struct FinderView<'s> {
    /// The matrix that is searched.
    pub matrix: BasicMatrix,
    /// The table that the shapes are taken from.
    pub table: ShapeTable,
    /// The placements that wait to be tried; the last one is tried first.
    pub queue: Seq<Place<'s>>,
    /// The placements tried, each by its number from [`spec_place_key`].
    pub seen: Set<u64>,
    /// The cells handed out, each by the number from [`spec_normal_key`] of
    /// the key of the placement that covers them.
    pub normals: Set<u64>,
    /// The placements handed out since the finder was last given a matrix,
    /// in the order in which they were handed out.
    pub yielded: Seq<Place<'s>>,
    /// The colors that the finder was primed with since it was last given a
    /// matrix, those without a shape left out.
    pub primed: Set<Color>,
}

impl<'s> FinderView<'s> {
    /// The placement is seen or waits in the queue.
    spec fn known(self, c: Color, tf: Transform) -> bool {
        self.seen.contains(spec_place_key(c, tf)) || queue_has(self.queue, c, tf)
    }

    /// The placement that `input` leads to from `tf`, if any, is known.
    spec fn step_known(self, c: Color, tf: Transform, input: Input) -> bool {
        match spec_step(&self.table.spec_shape(c), &self.matrix, tf, input) {
            Some(t) => self.known(c, t),
            None => true,
        }
    }

    /// The placement is sound, and its shape is the table's shape of its
    /// color.
    spec fn entry_ok(self, pl: Place<'s>) -> bool {
        &&& pl.sound(&self.matrix)
        &&& self.table.spec_has(pl.shape.spec_color())
        &&& *pl.shape == self.table.spec_shape(pl.shape.spec_color())
    }

    spec fn inv_base(self) -> bool {
        &&& self.matrix.wf()
        &&& self.matrix.spec_rows() <= i16::MAX
        &&& self.matrix.spec_cols() <= i16::MAX
        &&& self.table.wf()
        &&& self.searchable()
        &&& self.normals.finite()
    }

    spec fn inv_queue(self) -> bool {
        forall|q: int| 0 <= q < self.queue.len() ==> self.entry_ok(#[trigger] self.queue[q])
    }

    spec fn inv_yield(self) -> bool {
        &&& self.normals.len() == self.yielded.len()
        &&& forall|k: int|
            0 <= k < self.yielded.len() ==> {
                &&& (#[trigger] self.yielded[k]).idx == k
                &&& self.entry_ok(self.yielded[k])
                &&& self.normals.contains(spec_normal_key(self.yielded[k].spec_normal()))
            }
        &&& forall|key: u64| #[trigger]
            self.normals.contains(key) ==> exists|k: int|
                0 <= k < self.yielded.len() && spec_normal_key(
                    (#[trigger] self.yielded[k]).spec_normal(),
                ) == key
        &&& forall|k: int, l: int|
            0 <= k < l < self.yielded.len() ==> (#[trigger] self.yielded[k]).spec_normal() != (
            #[trigger] self.yielded[l]).spec_normal()
    }

    spec fn inv_seen(self) -> bool {
        forall|c: Color, tf: Transform| #[trigger]
            self.seen.contains(spec_place_key(c, tf)) ==> {
                &&& self.table.spec_has(c)
                &&& self.normals.contains(
                    spec_normal_key(self.table.spec_shape(c).spec_normalize(tf)),
                )
                &&& self.step_known(c, tf, Input::Left)
                &&& self.step_known(c, tf, Input::Right)
                &&& self.step_known(c, tf, Input::CW)
                &&& self.step_known(c, tf, Input::CCW)
            }
    }

    spec fn inv_roots(self) -> bool {
        forall|c: Color, j: int, r: Orientation|
            self.primed.contains(c) && #[trigger] self.table.spec_shape(c).col_valid(
                r,
                j,
                self.matrix.spec_cols(),
            ) ==> self.table.spec_has(c) && self.known(
                c,
                spec_start(&self.table.spec_shape(c), &self.matrix, j, r),
            )
    }

    spec fn inv(self) -> bool {
        &&& self.inv_base()
        &&& self.inv_queue()
        &&& self.inv_yield()
        &&& self.inv_seen()
        &&& self.inv_roots()
    }

    /// The last placement of the queue, with the position `idx`.
    pub open spec fn popped(self, idx: usize) -> Place<'s> {
        Place {
            idx,
            shape: self.queue.last().shape,
            tf: self.queue.last().tf,
            did_hold: self.queue.last().did_hold,
        }
    }

    /// The finder after the last placement of the queue left it.
    pub open spec fn after_pop(self) -> FinderView<'s> {
        FinderView { queue: self.queue.drop_last(), ..self }
    }

    /// The finder after the last placement of the queue was seen for the
    /// first time: its moves wait in the queue, and it is handed out unless
    /// the cells it covers were handed out before.
    pub open spec fn after_visit(self, idx: usize) -> FinderView<'s> {
        let pl = self.popped(idx);
        let key = spec_normal_key(pl.spec_normal());
        FinderView {
            queue: self.queue.drop_last() + spec_moves(pl, &self.matrix, 4),
            seen: self.seen.insert(spec_place_key(pl.shape.spec_color(), pl.tf)),
            normals: self.normals.insert(key),
            yielded: if self.normals.contains(key) {
                self.yielded
            } else {
                self.yielded.push(pl)
            },
            ..self
        }
    }

    /// Whether the placements tried are finitely many and have numbers
    /// below [`PLACE_KEYS`], so that a search comes to an end.
    pub open spec fn searchable(self) -> bool {
        self.seen.finite() && forall|key: u64| self.seen.contains(key) ==> key < PLACE_KEYS
    }

    /// The search for the next placement to hand out: the finder after it,
    /// and the placement found, if any.
    ///
    /// With an empty queue the search is over. Else the last placement
    /// leaves the queue. Was it tried before, the search goes on without it.
    /// Else it counts as tried, and the placements that the four moves lead
    /// to from it are added to the queue. Were its cells handed out before,
    /// the search goes on; else it is handed out, with the number of
    /// placements handed out before it as its position.
    pub open spec fn spec_next(self) -> (FinderView<'s>, Option<Place<'s>>)
        decreases PLACE_KEYS - self.seen.len(), self.queue.len(),
        when self.searchable()
        via Self::spec_next_ends
    {
        if self.queue.len() == 0 {
            (self, None)
        } else {
            let idx = self.normals.len() as usize;
            let pl = self.popped(idx);
            if self.seen.contains(spec_place_key(pl.shape.spec_color(), pl.tf)) {
                self.after_pop().spec_next()
            } else if self.normals.contains(spec_normal_key(pl.spec_normal())) {
                self.after_visit(idx).spec_next()
            } else {
                (self.after_visit(idx), Some(pl))
            }
        }
    }

    #[via_fn]
    proof fn spec_next_ends(self) {
        if self.queue.len() > 0 {
            let idx = self.normals.len() as usize;
            let pl = self.popped(idx);
            let key = spec_place_key(pl.shape.spec_color(), pl.tf);
            lemma_below_len(self.seen, PLACE_KEYS);
            if !self.seen.contains(key) {
                lemma_place_key(pl.shape.spec_color(), pl.tf, pl.shape.spec_color(), pl.tf);
                lemma_below_len(self.seen.insert(key), PLACE_KEYS);
            }
        }
    }

    /// The finder with one more placement waiting in the queue.
    spec fn after_push(self, pl: Place<'s>) -> FinderView<'s> {
        FinderView { queue: self.queue.push(pl), ..self }
    }

    /// The finder with one more color primed.
    spec fn after_prime(self, c: Color) -> FinderView<'s> {
        FinderView { primed: self.primed.insert(c), ..self }
    }

    /// Whether `w` knows every placement that this finder knows, on the same
    /// matrix and table, and has handed out what this one has.
    spec fn carried_by(self, w: FinderView<'s>) -> bool {
        &&& w.matrix == self.matrix
        &&& w.table == self.table
        &&& self.normals.subset_of(w.normals)
        &&& forall|c: Color, t: Transform| #[trigger] self.known(c, t) ==> w.known(c, t)
    }

    /// What holds of the seen placements and of the first placements of a
    /// finder holds of them in one that carries it.
    proof fn lemma_carried(self, w: FinderView<'s>)
        requires
            self.inv_seen(),
            self.inv_roots(),
            self.carried_by(w),
            w.primed == self.primed,
        ensures
            w.inv_roots(),
            forall|c: Color, tf: Transform| #[trigger]
                self.seen.contains(spec_place_key(c, tf)) ==> {
                    &&& w.table.spec_has(c)
                    &&& w.normals.contains(
                        spec_normal_key(w.table.spec_shape(c).spec_normalize(tf)),
                    )
                    &&& w.step_known(c, tf, Input::Left)
                    &&& w.step_known(c, tf, Input::Right)
                    &&& w.step_known(c, tf, Input::CW)
                    &&& w.step_known(c, tf, Input::CCW)
                },
    {
        assert forall|c: Color, tf: Transform| #[trigger]
            self.seen.contains(spec_place_key(c, tf)) implies {
            &&& w.table.spec_has(c)
            &&& w.normals.contains(spec_normal_key(w.table.spec_shape(c).spec_normalize(tf)))
            &&& w.step_known(c, tf, Input::Left)
            &&& w.step_known(c, tf, Input::Right)
            &&& w.step_known(c, tf, Input::CW)
            &&& w.step_known(c, tf, Input::CCW)
        } by {
            self.lemma_step_carried(w, c, tf, Input::Left);
            self.lemma_step_carried(w, c, tf, Input::Right);
            self.lemma_step_carried(w, c, tf, Input::CW);
            self.lemma_step_carried(w, c, tf, Input::CCW);
        }
        assert forall|c: Color, j: int, r: Orientation|
            w.primed.contains(c) && #[trigger] w.table.spec_shape(c).col_valid(
                r,
                j,
                w.matrix.spec_cols(),
            ) implies w.table.spec_has(c) && w.known(
            c,
            spec_start(&w.table.spec_shape(c), &w.matrix, j, r),
        ) by {
            assert(self.known(c, spec_start(&self.table.spec_shape(c), &self.matrix, j, r)));
        }
    }

    proof fn lemma_step_carried(self, w: FinderView<'s>, c: Color, tf: Transform, input: Input)
        requires
            self.carried_by(w),
            self.step_known(c, tf, input),
        ensures
            w.step_known(c, tf, input),
    {
        match spec_step(&self.table.spec_shape(c), &self.matrix, tf, input) {
            Some(t) => {
                assert(self.known(c, t));
            },
            None => {},
        }
    }

    /// A finder whose queue lost its last placement, which is seen, and
    /// kept or got others, carries the finder it came from.
    proof fn lemma_pop_carried(self, w: FinderView<'s>)
        requires
            self.queue.len() > 0,
            w.matrix == self.matrix,
            w.table == self.table,
            self.normals.subset_of(w.normals),
            self.seen.subset_of(w.seen),
            w.seen.contains(
                spec_place_key(self.queue.last().shape.spec_color(), self.queue.last().tf),
            ),
            w.queue.len() >= self.queue.len() - 1,
            forall|q: int| 0 <= q < self.queue.len() - 1 ==> w.queue[q] == self.queue[q],
        ensures
            self.carried_by(w),
    {
        assert forall|c: Color, t: Transform| #[trigger] self.known(c, t) implies w.known(c, t) by {
            if !self.seen.contains(spec_place_key(c, t)) {
                let q = choose|q: int|
                    0 <= q < self.queue.len() && (#[trigger] self.queue[q]).shape.spec_color() == c
                        && self.queue[q].tf == t;
                if q < self.queue.len() - 1 {
                    assert(w.queue[q] == self.queue[q]);
                    assert(queue_has(w.queue, c, t));
                }
            }
        }
    }

    /// A finder with more placements waiting carries the finder it came
    /// from.
    proof fn lemma_push_carried(self, w: FinderView<'s>)
        requires
            w.matrix == self.matrix,
            w.table == self.table,
            w.normals == self.normals,
            w.seen == self.seen,
            w.queue.len() >= self.queue.len(),
            forall|q: int| 0 <= q < self.queue.len() ==> w.queue[q] == self.queue[q],
        ensures
            self.carried_by(w),
    {
        assert forall|c: Color, t: Transform| #[trigger] self.known(c, t) implies w.known(c, t) by {
            if !self.seen.contains(spec_place_key(c, t)) {
                let q = choose|q: int|
                    0 <= q < self.queue.len() && (#[trigger] self.queue[q]).shape.spec_color() == c
                        && self.queue[q].tf == t;
                assert(w.queue[q] == self.queue[q]);
                assert(queue_has(w.queue, c, t));
            }
        }
    }

    /// The invariant holds after a placement that was seen before left the
    /// queue.
    proof fn lemma_skip(self)
        requires
            self.inv(),
            self.queue.len() > 0,
            self.seen.contains(
                spec_place_key(self.queue.last().shape.spec_color(), self.queue.last().tf),
            ),
        ensures
            self.after_pop().inv(),
    {
        let w = self.after_pop();
        self.lemma_pop_carried(w);
        self.lemma_carried(w);
        assert forall|q: int| 0 <= q < w.queue.len() implies w.entry_ok(#[trigger] w.queue[q]) by {
            assert(self.entry_ok(self.queue[q]));
        }
        assert(w.inv_yield()) by {
            assert forall|k: int| 0 <= k < w.yielded.len() implies {
                &&& (#[trigger] w.yielded[k]).idx == k
                &&& w.entry_ok(w.yielded[k])
                &&& w.normals.contains(spec_normal_key(w.yielded[k].spec_normal()))
            } by {
                assert(self.entry_ok(self.yielded[k]));
            }
        }
    }

    /// The invariant holds after one more sound placement of a shape of the
    /// table waits in the queue.
    proof fn lemma_push(self, pl: Place<'s>)
        requires
            self.inv(),
            self.entry_ok(pl),
        ensures
            self.after_push(pl).inv(),
    {
        let w = self.after_push(pl);
        self.lemma_push_carried(w);
        self.lemma_carried(w);
        assert forall|q: int| 0 <= q < w.queue.len() implies w.entry_ok(#[trigger] w.queue[q]) by {
            if q < self.queue.len() {
                assert(self.entry_ok(self.queue[q]));
            }
        }
        assert(w.inv_yield()) by {
            assert forall|k: int| 0 <= k < w.yielded.len() implies {
                &&& (#[trigger] w.yielded[k]).idx == k
                &&& w.entry_ok(w.yielded[k])
                &&& w.normals.contains(spec_normal_key(w.yielded[k].spec_normal()))
            } by {
                assert(self.entry_ok(self.yielded[k]));
            }
        }
    }

    /// The invariant holds after a color is primed whose first placements
    /// are all known.
    proof fn lemma_prime(self, c: Color)
        requires
            self.inv(),
            self.table.spec_has(c),
            forall|j: int, r: Orientation| #[trigger]
                self.table.spec_shape(c).col_valid(r, j, self.matrix.spec_cols()) ==> self.known(
                    c,
                    spec_start(&self.table.spec_shape(c), &self.matrix, j, r),
                ),
        ensures
            self.after_prime(c).inv(),
    {
        let w = self.after_prime(c);
        assert forall|q: int| 0 <= q < w.queue.len() implies w.entry_ok(#[trigger] w.queue[q]) by {
            assert(self.entry_ok(self.queue[q]));
        }
        assert(w.inv_yield()) by {
            assert forall|k: int| 0 <= k < w.yielded.len() implies {
                &&& (#[trigger] w.yielded[k]).idx == k
                &&& w.entry_ok(w.yielded[k])
                &&& w.normals.contains(spec_normal_key(w.yielded[k].spec_normal()))
            } by {
                assert(self.entry_ok(self.yielded[k]));
            }
        }
        assert(w.inv_seen()) by {
            assert forall|o: Color, tf: Transform| #[trigger]
                w.seen.contains(spec_place_key(o, tf)) implies {
                &&& w.table.spec_has(o)
                &&& w.normals.contains(spec_normal_key(w.table.spec_shape(o).spec_normalize(tf)))
                &&& w.step_known(o, tf, Input::Left)
                &&& w.step_known(o, tf, Input::Right)
                &&& w.step_known(o, tf, Input::CW)
                &&& w.step_known(o, tf, Input::CCW)
            } by {
                assert(self.seen.contains(spec_place_key(o, tf)));
                assert(self.step_known(o, tf, Input::Left));
                assert(self.step_known(o, tf, Input::Right));
                assert(self.step_known(o, tf, Input::CW));
                assert(self.step_known(o, tf, Input::CCW));
            }
        }
        assert(w.inv_roots()) by {
            assert forall|o: Color, j: int, r: Orientation|
                w.primed.contains(o) && #[trigger] w.table.spec_shape(o).col_valid(
                    r,
                    j,
                    w.matrix.spec_cols(),
                ) implies w.table.spec_has(o) && w.known(
                o,
                spec_start(&w.table.spec_shape(o), &w.matrix, j, r),
            ) by {
                if o != c {
                    assert(self.primed.contains(o));
                }
                assert(self.known(o, spec_start(&self.table.spec_shape(o), &self.matrix, j, r)));
            }
        }
    }

    /// The invariant holds after a placement that was not seen before left
    /// the queue, its moves were added to the queue, and it was handed out
    /// unless its cells had been handed out before.
    proof fn lemma_visit(self, idx: usize)
        requires
            self.inv(),
            self.queue.len() > 0,
            idx == self.normals.len(),
            !self.seen.contains(
                spec_place_key(self.queue.last().shape.spec_color(), self.queue.last().tf),
            ),
        ensures
            self.after_visit(idx).inv(),
    {
        let w = self.after_visit(idx);
        let last = self.queue.last();
        let pl = self.popped(idx);
        let c0 = pl.shape.spec_color();
        let nkey = spec_normal_key(pl.spec_normal());
        let m = &self.matrix;
        assert(self.entry_ok(last));
        assert(self.entry_ok(pl));
        let stay = self.queue.drop_last();
        let moves = spec_moves(pl, m, 4);
        lemma_moves(pl, m, 4);
        assert forall|q: int| 0 <= q < self.queue.len() - 1 implies w.queue[q] == self.queue[q] by {
            assert(w.queue[q] == stay[q]);
        }
        self.lemma_pop_carried(w);
        self.lemma_carried(w);
        assert(w.inv_base()) by {
            lemma_place_key(c0, pl.tf, c0, pl.tf);
        }
        assert(w.inv_queue()) by {
            assert forall|q: int| 0 <= q < w.queue.len() implies w.entry_ok(
                #[trigger] w.queue[q],
            ) by {
                if q < stay.len() {
                    assert(self.entry_ok(self.queue[q]));
                } else {
                    let p = moves[q - stay.len()];
                    assert(w.queue[q] == p);
                    let k = choose|k: int| 0 <= k < 4 && pl.spec_input(m, move_at(k)) == Some(p);
                    lemma_step_sound(pl.shape, m, pl.tf, move_at(k));
                }
            }
        }
        assert(w.inv_yield()) by {
            if self.normals.contains(nkey) {
                assert(w.normals =~= self.normals);
                assert forall|k: int| 0 <= k < w.yielded.len() implies {
                    &&& (#[trigger] w.yielded[k]).idx == k
                    &&& w.entry_ok(w.yielded[k])
                    &&& w.normals.contains(spec_normal_key(w.yielded[k].spec_normal()))
                } by {
                    assert(self.entry_ok(self.yielded[k]));
                }
            } else {
                let n = self.yielded.len() as int;
                assert forall|k: int| 0 <= k < w.yielded.len() implies {
                    &&& (#[trigger] w.yielded[k]).idx == k
                    &&& w.entry_ok(w.yielded[k])
                    &&& w.normals.contains(spec_normal_key(w.yielded[k].spec_normal()))
                } by {
                    if k < n {
                        assert(w.yielded[k] == self.yielded[k]);
                        assert(self.entry_ok(self.yielded[k]));
                    } else {
                        assert(w.yielded[k] == pl);
                    }
                }
                assert forall|key: u64| #[trigger] w.normals.contains(key) implies exists|k: int|
                    0 <= k < w.yielded.len() && spec_normal_key(
                        (#[trigger] w.yielded[k]).spec_normal(),
                    ) == key by {
                    if key == nkey {
                        assert(w.yielded[n] == pl);
                    } else {
                        assert(self.normals.contains(key));
                        let k = choose|k: int|
                            0 <= k < self.yielded.len() && spec_normal_key(
                                (#[trigger] self.yielded[k]).spec_normal(),
                            ) == key;
                        assert(w.yielded[k] == self.yielded[k]);
                    }
                }
                assert forall|k: int, l: int| 0 <= k < l < w.yielded.len() implies (
                #[trigger] w.yielded[k]).spec_normal() != (#[trigger] w.yielded[l]).spec_normal() by {
                    assert(w.yielded[k] == self.yielded[k]);
                    if l < n {
                        assert(w.yielded[l] == self.yielded[l]);
                    } else {
                        assert(w.yielded[l] == pl);
                        assert(self.normals.contains(
                            spec_normal_key(self.yielded[k].spec_normal()),
                        ));
                    }
                }
            }
        }
        assert(w.inv_seen()) by {
            assert forall|c: Color, tf: Transform| #[trigger]
                w.seen.contains(spec_place_key(c, tf)) implies {
                &&& w.table.spec_has(c)
                &&& w.normals.contains(spec_normal_key(w.table.spec_shape(c).spec_normalize(tf)))
                &&& w.step_known(c, tf, Input::Left)
                &&& w.step_known(c, tf, Input::Right)
                &&& w.step_known(c, tf, Input::CW)
                &&& w.step_known(c, tf, Input::CCW)
            } by {
                if !self.seen.contains(spec_place_key(c, tf)) {
                    lemma_place_key(c, tf, c0, pl.tf);
                    assert(c == c0 && tf == pl.tf);
                    assert(w.table.spec_shape(c) == *pl.shape);
                    assert forall|k: int| 0 <= k < 4 implies w.step_known(
                        c,
                        tf,
                        #[trigger] move_at(k),
                    ) by {
                        match spec_step(pl.shape, m, pl.tf, move_at(k)) {
                            Some(t) => {
                                let p = pl.spec_at(t);
                                assert(pl.spec_input(m, move_at(k)) == Some(p));
                                let q = choose|q: int| 0 <= q < moves.len() && moves[q] == p;
                                assert(w.queue[stay.len() + q] == p);
                                assert(queue_has(w.queue, c, t));
                            },
                            None => {},
                        }
                    }
                    assert(w.step_known(c, tf, move_at(0)));
                    assert(w.step_known(c, tf, move_at(1)));
                    assert(w.step_known(c, tf, move_at(2)));
                    assert(w.step_known(c, tf, move_at(3)));
                }
            }
        }
    }

    /// Once the queue is empty, every placement that a primed shape can get
    /// to is seen.
    proof fn lemma_reached_seen(self, c: Color, tf: Transform)
        requires
            self.inv(),
            self.queue.len() == 0,
            self.primed.contains(c),
            reachable(&self.table.spec_shape(c), &self.matrix, tf),
        ensures
            self.seen.contains(spec_place_key(c, tf)),
    {
        let shape = &self.table.spec_shape(c);
        let (j, r, path) = choose|j: int, r: Orientation, path: Seq<Input>|
            shape.col_valid(r, j, self.matrix.spec_cols()) && #[trigger] spec_walk(
                shape,
                &self.matrix,
                spec_start(shape, &self.matrix, j, r),
                path,
            ) == Some(tf);
        let start = spec_start(shape, &self.matrix, j, r);
        assert(self.table.spec_shape(c).col_valid(r, j, self.matrix.spec_cols()));
        assert(self.known(c, start));
        self.lemma_walk_seen(c, start, path);
    }

    /// The cells of every seen placement were handed out.
    proof fn lemma_seen_yielded(self, c: Color, tf: Transform)
        requires
            self.inv(),
            self.seen.contains(spec_place_key(c, tf)),
        ensures
            exists|k: int|
                0 <= k < self.yielded.len() && (#[trigger] self.yielded[k]).spec_normal()
                    == self.table.spec_shape(c).spec_normalize(tf),
    {
        let shape = self.table.spec_shape(c);
        let key = spec_normal_key(shape.spec_normalize(tf));
        assert(self.table.spec_has(c));
        assert(self.normals.contains(key));
        let k = choose|k: int|
            0 <= k < self.yielded.len() && spec_normal_key(
                (#[trigger] self.yielded[k]).spec_normal(),
            ) == key;
        assert(self.entry_ok(self.yielded[k]));
        let w = choose|w: int|
            0 <= w < self.table@.len() && (#[trigger] self.table@[w]).spec_color() == c;
        assert(self.table@[w].wf());
        assert(shape.wf());
        shape.lemma_normalize_bounds(tf);
        self.yielded[k].shape.lemma_normalize_bounds(self.yielded[k].tf);
        lemma_normal_key(self.yielded[k].spec_normal(), shape.spec_normalize(tf));
    }

    /// Every placement that a walk leads to from a seen one is seen, once
    /// the queue is empty.
    proof fn lemma_walk_seen(self, c: Color, from: Transform, path: Seq<Input>)
        requires
            self.inv(),
            self.queue.len() == 0,
            self.seen.contains(spec_place_key(c, from)),
            spec_walk(&self.table.spec_shape(c), &self.matrix, from, path) is Some,
        ensures
            self.seen.contains(
                spec_place_key(
                    c,
                    spec_walk(&self.table.spec_shape(c), &self.matrix, from, path).unwrap(),
                ),
            ),
        decreases path.len(),
    {
        if path.len() > 0 {
            let shape = &self.table.spec_shape(c);
            let t = spec_walk(shape, &self.matrix, from, path.drop_last()).unwrap();
            self.lemma_walk_seen(c, from, path.drop_last());
            let input = path.last();
            let to = spec_step(shape, &self.matrix, t, input).unwrap();
            assert(self.seen.contains(spec_place_key(c, t)));
            assert(self.step_known(c, t, Input::Left));
            assert(self.step_known(c, t, Input::Right));
            assert(self.step_known(c, t, Input::CW));
            assert(self.step_known(c, t, Input::CCW));
            assert(self.known(c, to));
        }
    }
}

/// Each of the placements that the first `n` inputs lead to is the one that
/// one of these inputs leads to, and each placement that one of them leads
/// to is among them.
proof fn lemma_moves<'s>(pl: Place<'s>, m: &BasicMatrix, n: int)
    requires
        0 <= n <= 4,
    ensures
        spec_moves(pl, m, n).len() <= n,
        forall|q: int|
            0 <= q < spec_moves(pl, m, n).len() ==> exists|k: int|
                0 <= k < n && pl.spec_input(m, move_at(k)) == Some(#[trigger] spec_moves(pl, m, n)[q]),
        forall|k: int|
            0 <= k < n && pl.spec_input(m, move_at(k)) is Some ==> exists|q: int|
                0 <= q < spec_moves(pl, m, n).len() && spec_moves(pl, m, n)[q] == pl.spec_input(
                    m,
                    #[trigger] move_at(k),
                ).unwrap(),
    decreases n,
{
    if n > 0 {
        lemma_moves(pl, m, n - 1);
        let before = spec_moves(pl, m, n - 1);
        let now = spec_moves(pl, m, n);
        assert forall|q: int| 0 <= q < now.len() implies exists|k: int|
            0 <= k < n && pl.spec_input(m, move_at(k)) == Some(#[trigger] now[q]) by {
            if q < before.len() {
                assert(now[q] == before[q]);
                let k = choose|k: int|
                    0 <= k < n - 1 && pl.spec_input(m, move_at(k)) == Some(before[q]);
                assert(0 <= k < n);
            } else {
                assert(pl.spec_input(m, move_at(n - 1)) == Some(now[q]));
            }
        }
        assert forall|k: int| 0 <= k < n && pl.spec_input(m, move_at(k)) is Some implies exists|
            q: int,
        |
            0 <= q < now.len() && now[q] == pl.spec_input(m, #[trigger] move_at(k)).unwrap() by {
            if k < n - 1 {
                let q = choose|q: int|
                    0 <= q < before.len() && before[q] == pl.spec_input(m, move_at(k)).unwrap();
                assert(now[q] == before[q]);
            } else {
                assert(now[now.len() - 1] == pl.spec_input(m, move_at(k)).unwrap());
            }
        }
    }
}

/// The number that stands for a color and a transform in the set of seen
/// placements.
fn place_key(color: Color, tf: Transform) -> (key: u64)
    ensures
        key == spec_place_key(color, tf),
{
    let c: u64 = color.as_char() as u32 as u64;
    let r: u64 = tf.2.index() as u64;
    let i: u64 = (tf.0 as i32 + 0x8000) as u64;
    let j: u64 = (tf.1 as i32 + 0x8000) as u64;
    ((c * 4 + r) * 0x10000 + i) * 0x10000 + j
}

/// The number that stands for a key of covered cells in the set of cells
/// handed out.
fn normal_key(n: NormalizedShapeTransform) -> (key: u64)
    requires
        i16::MIN <= n.row < i16::MAX + BOX,
        i16::MIN <= n.col < i16::MAX + BOX,
    ensures
        key == spec_normal_key(n),
{
    let c: u64 = n.color.as_char() as u32 as u64;
    let r: u64 = n.canon.index() as u64;
    let i: u64 = (n.row + 0x8000) as u64;
    let j: u64 = (n.col + 0x8000) as u64;
    ((c * 4 + r) * 0x20000 + i) * 0x20000 + j
}

/// The input at position `k` of the order in which a search tries them.
fn input_at(k: usize) -> (input: Input)
    ensures
        input == move_at(k as int),
{
    if k == 0 {
        Input::Left
    } else if k == 1 {
        Input::Right
    } else if k == 2 {
        Input::CW
    } else {
        Input::CCW
    }
}

/// A search for all the placements that pieces can reach on a matrix. It is
/// primed with a matrix and with one or two colors, and then hands out one
/// placement after the other. It keeps its buffers when it is primed again.
pub struct PlaceFinder<'s> {
    shtb: &'s ShapeTable,
    matrix: BasicMatrix,
    // placements to try next, the last one first
    queue: Vec<Place<'s>>,
    // the placements tried, against walking in circles
    places_seen: HashSet<u64>,
    // the cells handed out, against handing them out twice
    normals_seen: HashSet<u64>,
    yielded: Ghost<Seq<Place<'s>>>,
    primed: Ghost<Set<Color>>,
}

impl<'s> View for PlaceFinder<'s> {
    type V = FinderView<'s>;

    closed spec fn view(&self) -> FinderView<'s> {
        FinderView {
            matrix: self.matrix,
            table: *self.shtb,
            queue: self.queue@,
            seen: self.places_seen@,
            normals: self.normals_seen@,
            yielded: self.yielded@,
            primed: self.primed@,
        }
    }
}

impl<'s> PlaceFinder<'s> {
    /// The matrix that the finder searches.
    pub open spec fn spec_matrix(&self) -> BasicMatrix {
        self@.matrix
    }

    /// The shape table that the finder takes its shapes from.
    pub open spec fn spec_table(&self) -> ShapeTable {
        self@.table
    }

    /// The placements that wait to be tried; the last one is tried first.
    pub open spec fn pending(&self) -> Seq<Place<'s>> {
        self@.queue
    }

    /// The placements handed out since the finder was last given a matrix,
    /// in the order in which they were handed out.
    pub open spec fn yielded(&self) -> Seq<Place<'s>> {
        self@.yielded
    }

    /// The colors that the finder was primed with since it was last given a
    /// matrix, those without a shape left out.
    pub open spec fn primed(&self) -> Set<Color> {
        self@.primed
    }

    /// The finder is consistent: its matrix and table are well formed, the
    /// matrix is at most `i16::MAX` high and wide, every placement that
    /// waits or was handed out is sound, the placements handed out are
    /// numbered in their order and cover different cells, and every move
    /// from a placement that was tried is tried or waits.
    pub closed spec fn wf(&self) -> bool {
        self@.inv()
    }

    /// A finder on the shapes of `shtb`. It hands out nothing until it is
    /// given a matrix with [`Self::reset_matrix`] and a color with
    /// [`Self::push_shape`].
    pub fn new(shtb: &'s ShapeTable) -> (finder: PlaceFinder<'s>)
        requires
            shtb.wf(),
        ensures
            finder.wf(),
            finder.spec_table() == *shtb,
            finder.spec_matrix()@.len() == 0,
            finder.spec_matrix().spec_cols() == 0,
            finder.pending().len() == 0,
            finder.yielded().len() == 0,
            finder.primed() == Set::<Color>::empty(),
            finder@.seen == Set::<u64>::empty(),
            finder@.normals == Set::<u64>::empty(),
    {
        let finder = PlaceFinder {
            shtb,
            matrix: BasicMatrix::with_cols(0),
            queue: Vec::with_capacity(64),
            places_seen: HashSet::with_capacity(64),
            normals_seen: HashSet::with_capacity(32),
            yielded: Ghost(Seq::empty()),
            primed: Ghost(Set::empty()),
        };
        finder
    }

    /// Starts the finder over on a copy of the matrix `mat`: nothing waits,
    /// nothing was handed out, and no color is primed. The matrix is at
    /// most `i16::MAX` rows high and columns wide, so that every place on it
    /// can be written as a transform.
    pub fn reset_matrix(&mut self, mat: &BasicMatrix)
        requires
            old(self).spec_table().wf(),
            mat.wf(),
            mat.spec_rows() <= i16::MAX,
            mat.spec_cols() <= i16::MAX,
        ensures
            final(self).wf(),
            final(self).spec_table() == old(self).spec_table(),
            final(self).spec_matrix()@ == mat@,
            final(self).spec_matrix().spec_cols() == mat.spec_cols(),
            final(self).pending().len() == 0,
            final(self).yielded().len() == 0,
            final(self).primed() == Set::<Color>::empty(),
            final(self)@.seen == Set::<u64>::empty(),
            final(self)@.normals == Set::<u64>::empty(),
    {
        self.matrix = mat.copy();
        self.places_seen.clear();
        self.normals_seen.clear();
        self.queue.clear();
        self.yielded = Ghost(Seq::empty());
        self.primed = Ghost(Set::empty());
    }

    /// Primes the finder with the shape of `color`: for each orientation and
    /// each column in which the shape lies within the matrix, the placement
    /// in which it first rests there is added to those that wait, with
    /// `hold` as its hold flag. Says whether the table has a shape of that
    /// color; where it has none, nothing changes.
    pub fn push_shape(&mut self, color: Color, hold: bool) -> (found: bool)
        requires
            old(self).wf(),
        ensures
            final(self).wf(),
            found == old(self).spec_table().spec_has(color),
            final(self).spec_table() == old(self).spec_table(),
            final(self).spec_matrix() == old(self).spec_matrix(),
            final(self).yielded() == old(self).yielded(),
            final(self)@.seen == old(self)@.seen,
            final(self)@.normals == old(self)@.normals,
            found ==> final(self).primed() == old(self).primed().insert(color),
            found ==> final(self).pending() == old(self).pending() + spec_starts(
                &old(self).spec_table().spec_shape(color),
                &old(self).spec_matrix(),
                hold,
                4,
            ),
            !found ==> final(self).primed() == old(self).primed(),
            !found ==> final(self).pending() == old(self).pending(),
    {
        let shtb = self.shtb;
        let shape = match shtb.shape(color) {
            Some(shape) => shape,
            None => {
                return false;
            },
        };
        let ghost v0 = self@;
        let mut k: usize = 0;
        while k < 4
            invariant
                k <= 4,
                self@.inv(),
                shape.wf(),
                shape.spec_color() == color,
                v0.table.spec_has(color),
                *shape == v0.table.spec_shape(color),
                self@ == (FinderView {
                    queue: v0.queue + spec_starts(shape, &v0.matrix, hold, k as int),
                    ..v0
                }),
                forall|j: int, r: Orientation|
                    r.spec_index() < k && #[trigger] shape.col_valid(r, j, v0.matrix.spec_cols())
                        ==> queue_has(self.queue@, color, spec_start(shape, &v0.matrix, j, r)),
            decreases 4 - k,
        {
            let r = Orientation::from_index(k);
            let range = shape.valid_cols(r, self.matrix.cols());
            let lo: i16 = range.0;
            let hi: i16 = range.1;
            let ghost base = self.queue@;
            let mut j: i16 = lo;
            proof {
                r.lemma_turns_cycle();
                shape.lemma_valid_cols(r, v0.matrix.spec_cols());
                assert(self.queue@ =~= base + spec_starts_row(shape, &v0.matrix, hold, r, 0));
            }
            while j < hi
                invariant
                    lo <= j,
                    lo < hi ==> j <= hi,
                    lo >= hi ==> j == lo,
                    k < 4,
                    r == Orientation::spec_from_index(k as int),
                    r.spec_index() == k,
                    self@.inv(),
                    shape.wf(),
                    shape.spec_color() == color,
                    v0.table.spec_has(color),
                    *shape == v0.table.spec_shape(color),
                    lo == shape.spec_valid_cols(r, v0.matrix.spec_cols()).0,
                    hi == shape.spec_valid_cols(r, v0.matrix.spec_cols()).1,
                    forall|c: int| lo <= c < hi <==> shape.col_valid(r, c, v0.matrix.spec_cols()),
                    base == v0.queue + spec_starts(shape, &v0.matrix, hold, k as int),
                    self@ == (FinderView {
                        queue: base + spec_starts_row(shape, &v0.matrix, hold, r, j - lo),
                        ..v0
                    }),
                    forall|c: int, o: Orientation|
                        o.spec_index() < k && #[trigger] shape.col_valid(
                            o,
                            c,
                            v0.matrix.spec_cols(),
                        ) ==> queue_has(self.queue@, color, spec_start(shape, &v0.matrix, c, o)),
                    forall|c: int|
                        lo <= c < j ==> queue_has(
                            self.queue@,
                            color,
                            #[trigger] spec_start(shape, &v0.matrix, c, r),
                        ),
                decreases hi - j,
            {
                let ghost before = self.queue@;
                let i = shape.peak(&self.matrix, j, r);
                let pl = Place::new(shape, (i, j, r), hold);
                proof {
                    lemma_start_sound(shape, &v0.matrix, j as int, r);
                    assert(pl == spec_start_place(shape, &v0.matrix, hold, j as int, r));
                    self@.lemma_push(pl);
                }
                self.queue.push(pl);
                proof {
                    assert(self.queue@ =~= base + spec_starts_row(
                        shape,
                        &v0.matrix,
                        hold,
                        r,
                        j + 1 - lo,
                    ));
                    assert forall|c: int, o: Orientation|
                        o.spec_index() < k && #[trigger] shape.col_valid(
                            o,
                            c,
                            v0.matrix.spec_cols(),
                        ) implies queue_has(
                        self.queue@,
                        color,
                        spec_start(shape, &v0.matrix, c, o),
                    ) by {
                        lemma_queue_has_pushed(before, pl, color, spec_start(shape, &v0.matrix, c, o));
                    }
                    assert forall|c: int| lo <= c < j + 1 implies queue_has(
                        self.queue@,
                        color,
                        #[trigger] spec_start(shape, &v0.matrix, c, r),
                    ) by {
                        if c < j {
                            lemma_queue_has_pushed(
                                before,
                                pl,
                                color,
                                spec_start(shape, &v0.matrix, c, r),
                            );
                        } else {
                            assert(self.queue@[before.len() as int] == pl);
                        }
                    }
                }
                j += 1;
            }
            proof {
                assert(j - lo == spec_cols_count(shape, r, v0.matrix.spec_cols()));
                assert(self.queue@ =~= v0.queue + spec_starts(shape, &v0.matrix, hold, k + 1));
                assert forall|c: int, o: Orientation|
                    o.spec_index() < k + 1 && #[trigger] shape.col_valid(
                        o,
                        c,
                        v0.matrix.spec_cols(),
                    ) implies queue_has(self.queue@, color, spec_start(shape, &v0.matrix, c, o)) by {
                    if o.spec_index() == k {
                        o.lemma_turns_cycle();
                        assert(o == r);
                        assert(lo <= c < hi);
                    }
                }
            }
            k += 1;
        }
        proof {
            assert forall|j: int, r: Orientation| #[trigger]
                self@.table.spec_shape(color).col_valid(
                    r,
                    j,
                    self@.matrix.spec_cols(),
                ) implies self@.known(
                color,
                spec_start(&self@.table.spec_shape(color), &self@.matrix, j, r),
            ) by {
                assert(shape.col_valid(r, j, v0.matrix.spec_cols()));
            }
            self@.lemma_prime(color);
        }
        self.primed = Ghost(self.primed@.insert(color));
        true
    }

    /// Adds to the queue the placements that the four moves lead to from
    /// `pl`.
    fn expand(&mut self, pl: &Place<'s>)
        requires
            old(self).matrix.wf(),
            pl.shape.wf(),
        ensures
            final(self)@ == (FinderView {
                queue: old(self)@.queue + spec_moves(*pl, &old(self).matrix, 4),
                ..old(self)@
            }),
    {
        let mut k: usize = 0;
        assert(self.queue@ =~= old(self).queue@ + spec_moves(*pl, &old(self).matrix, 0));
        while k < 4
            invariant
                k <= 4,
                self.matrix.wf(),
                pl.shape.wf(),
                self@ == (FinderView {
                    queue: old(self)@.queue + spec_moves(*pl, &old(self).matrix, k as int),
                    ..old(self)@
                }),
            decreases 4 - k,
        {
            match pl.input(&self.matrix, input_at(k)) {
                Some(next) => {
                    self.queue.push(next);
                },
                None => {},
            }
            assert(self.queue@ =~= old(self).queue@ + spec_moves(*pl, &old(self).matrix, k + 1));
            k += 1;
        }
    }

    /// Takes the last placement off the queue and gives it the position at
    /// which it would be handed out.
    fn pop(&mut self) -> (out: Option<Place<'s>>)
        ensures
            old(self).queue@.len() == 0 ==> out is None && final(self)@ == old(self)@,
            old(self).queue@.len() > 0 ==> final(self)@ == old(self)@.after_pop() && out
                == Some(old(self)@.popped(out.unwrap().idx)) && out.unwrap().idx == old(
                self,
            ).normals_seen@.len(),
    {
        match self.queue.pop() {
            Some(pl) => {
                // the number of cells handed out so far is the position of
                // the next placement to be handed out
                let idx = self.normals_seen.len();
                Some(Place { idx, shape: pl.shape, tf: pl.tf, did_hold: pl.did_hold })
            },
            None => None,
        }
    }

    /// Whether `pl` was tried before. Marks it as tried.
    fn is_cycle(&mut self, pl: &Place<'s>) -> (cycle: bool)
        ensures
            cycle == old(self).places_seen@.contains(
                spec_place_key(pl.shape.spec_color(), pl.tf),
            ),
            final(self)@ == (FinderView {
                seen: old(self)@.seen.insert(spec_place_key(pl.shape.spec_color(), pl.tf)),
                ..old(self)@
            }),
    {
        !self.places_seen.insert(place_key(pl.shape.color(), pl.tf))
    }

    /// Whether the cells that `pl` covers were handed out before. Where they
    /// were not, marks them as handed out and `pl` as the placement that was.
    fn is_repeat(&mut self, pl: &Place<'s>) -> (repeat: bool)
        requires
            pl.shape.wf(),
        ensures
            repeat == old(self).normals_seen@.contains(spec_normal_key(pl.spec_normal())),
            final(self)@ == (FinderView {
                normals: old(self)@.normals.insert(spec_normal_key(pl.spec_normal())),
                yielded: if repeat {
                    old(self)@.yielded
                } else {
                    old(self)@.yielded.push(*pl)
                },
                ..old(self)@
            }),
    {
        proof {
            pl.shape.lemma_normalize_bounds(pl.tf);
        }
        let repeat = !self.normals_seen.insert(normal_key(pl.normal()));
        if !repeat {
            self.yielded = Ghost(self.yielded@.push(*pl));
        }
        repeat
    }

    /// Hands out the next placement, or none when the search is over. Each
    /// placement taken off the queue that was not tried before has its four
    /// moves added to the queue, and is handed out unless the cells it
    /// covers were handed out before.
    pub fn next(&mut self) -> (out: Option<Place<'s>>)
        requires
            old(self).wf(),
        ensures
            final(self).wf(),
            final(self).spec_table() == old(self).spec_table(),
            final(self).spec_matrix() == old(self).spec_matrix(),
            final(self).primed() == old(self).primed(),
            (final(self)@, out) == old(self)@.spec_next(),
            match out {
                Some(pl) => final(self).yielded() == old(self).yielded().push(pl),
                None => final(self).yielded() == old(self).yielded() && final(self).pending().len()
                    == 0,
            },
    {
        loop
            invariant
                self@.inv(),
                self.shtb == old(self).shtb,
                self.matrix == old(self).matrix,
                self.primed@ == old(self).primed@,
                self.yielded@ == old(self).yielded@,
                self@.spec_next() == old(self)@.spec_next(),
            decreases PLACE_KEYS - self.places_seen@.len(), self.queue@.len(),
        {
            let ghost v0 = self@;
            proof {
                lemma_seen_below(v0);
            }
            let pl = match self.pop() {
                Some(pl) => pl,
                None => {
                    return None;
                },
            };
            proof {
                assert(v0.entry_ok(v0.queue.last()));
            }
            if !self.is_cycle(&pl) {
                self.expand(&pl);
                let repeat = self.is_repeat(&pl);
                proof {
                    assert(self@.queue =~= v0.after_visit(pl.idx).queue);
                    assert(self@ == v0.after_visit(pl.idx));
                    v0.lemma_visit(pl.idx);
                    lemma_seen_below(self@);
                }
                if !repeat {
                    return Some(pl);
                }
            } else {
                proof {
                    assert(self@.seen =~= v0.seen);
                    assert(self@ == v0.after_pop());
                    v0.lemma_skip();
                }
            }
        }
    }

    /// Each placement handed out has the position at which it was handed
    /// out, counted from 0.
    pub proof fn lemma_stable_indexing(&self)
        requires
            self.wf(),
        ensures
            forall|k: int| 0 <= k < self.yielded().len() ==> (#[trigger] self.yielded()[k]).idx == k,
    {
    }

    /// No two placements handed out have the same key: no two cover the
    /// same cells with one shape.
    pub proof fn lemma_unique_yield(&self)
        requires
            self.wf(),
        ensures
            forall|k: int, l: int|
                0 <= k < self.yielded().len() && 0 <= l < self.yielded().len() && k != l ==> (
                #[trigger] self.yielded()[k]).spec_normal() != (
                #[trigger] self.yielded()[l]).spec_normal(),
    {
        let y = self.yielded();
        assert forall|k: int, l: int| 0 <= k < y.len() && 0 <= l < y.len() && k != l implies (
        #[trigger] y[k]).spec_normal() != (#[trigger] y[l]).spec_normal() by {
            if k < l {
                assert(y[k].spec_normal() != y[l].spec_normal());
            } else {
                assert(y[l].spec_normal() != y[k].spec_normal());
            }
        }
    }

    /// No two placements of one shape that were handed out cover the same
    /// cells.
    pub proof fn lemma_unique_cells(&self)
        requires
            self.wf(),
        ensures
            forall|k: int, l: int|
                0 <= k < self.yielded().len() && 0 <= l < self.yielded().len() && k != l
                    && self.yielded()[k].shape == self.yielded()[l].shape ==> (
                #[trigger] self.yielded()[k]).shape.cells_at(self.yielded()[k].tf) != (
                #[trigger] self.yielded()[l]).shape.cells_at(self.yielded()[l].tf),
    {
        let y = self.yielded();
        self.lemma_unique_yield();
        self.lemma_yield_sound();
        assert forall|k: int, l: int|
            0 <= k < y.len() && 0 <= l < y.len() && k != l && y[k].shape == y[l].shape implies (
        #[trigger] y[k]).shape.cells_at(y[k].tf) != (#[trigger] y[l]).shape.cells_at(y[l].tf) by {
            y[k].shape.lemma_normalize_same_cells(y[k].tf, y[l].tf);
        }
    }

    /// Each placement handed out is at rest, so that a fall from it ends
    /// where it began, and the shape can get to it from a place where it
    /// first came to rest, by inputs with a fall after each.
    pub proof fn lemma_yield_sound(&self)
        requires
            self.wf(),
        ensures
            forall|k: int|
                0 <= k < self.yielded().len() ==> {
                    let pl = #[trigger] self.yielded()[k];
                    &&& pl.shape.wf()
                    &&& pl.shape.at_rest(&self.spec_matrix(), pl.tf)
                    &&& pl.shape.spec_sonic_drop(&self.spec_matrix(), pl.tf) == pl.tf
                    &&& reachable(pl.shape, &self.spec_matrix(), pl.tf)
                },
    {
        assert forall|k: int| 0 <= k < self.yielded().len() implies {
            let pl = #[trigger] self.yielded()[k];
            &&& pl.shape.wf()
            &&& pl.shape.at_rest(&self.spec_matrix(), pl.tf)
            &&& pl.shape.spec_sonic_drop(&self.spec_matrix(), pl.tf) == pl.tf
            &&& reachable(pl.shape, &self.spec_matrix(), pl.tf)
        } by {
            let pl = self.yielded()[k];
            assert(self@.entry_ok(pl));
        }
    }

    /// When the search is over, the cells of every placement that a primed
    /// shape can get to were handed out: some placement handed out has the
    /// key of that placement.
    pub proof fn lemma_complete(&self, color: Color, tf: Transform)
        requires
            self.wf(),
            self.pending().len() == 0,
            self.primed().contains(color),
            reachable(&self.spec_table().spec_shape(color), &self.spec_matrix(), tf),
        ensures
            exists|k: int|
                0 <= k < self.yielded().len() && (#[trigger] self.yielded()[k]).spec_normal()
                    == self.spec_table().spec_shape(color).spec_normalize(tf),
    {
        let v = self@;
        v.lemma_reached_seen(color, tf);
        v.lemma_seen_yielded(color, tf);
        let k = choose|k: int|
            0 <= k < v.yielded.len() && (#[trigger] v.yielded[k]).spec_normal()
                == v.table.spec_shape(color).spec_normalize(tf);
        assert(self.yielded()[k] == v.yielded[k]);
    }
}

/// The seen placements are finitely many: fewer than there are numbers for
/// them.
proof fn lemma_seen_below<'s>(v: FinderView<'s>)
    requires
        v.inv(),
    ensures
        v.seen.len() <= PLACE_KEYS,
{
    lemma_below_len(v.seen, PLACE_KEYS);
}

/// A placement that waits in a queue still waits after another joined it.
proof fn lemma_queue_has_pushed<'s>(queue: Seq<Place<'s>>, pl: Place<'s>, c: Color, tf: Transform)
    requires
        queue_has(queue, c, tf),
    ensures
        queue_has(queue.push(pl), c, tf),
{
    let q = choose|q: int|
        0 <= q < queue.len() && (#[trigger] queue[q]).shape.spec_color() == c && queue[q].tf == tf;
    assert(queue.push(pl)[q] == queue[q]);
}

} // verus!
