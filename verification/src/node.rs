//! The state of a search: the board with its queue and hold slot, and the
//! node that carries it with its score and the way that led to it.

use crate::matrix::{any_row_full, sifted, BasicMatrix};
use crate::piece::Color;
use crate::place::Place;
use crate::score::{eval, penalty, spec_eval, spec_penalty, spec_score, Features, ScoreParams};
use vstd::prelude::*;

verus! {

/// A board as it is handed to the search: the matrix, the pieces to come,
/// the next one first, and the piece in the hold slot, if any.
#[derive(Debug)]
pub struct Snapshot {
    pub matrix: BasicMatrix,
    pub queue: Vec<Color>,
    pub hold: Option<Color>,
}

/// The board of a node: the matrix, the pieces to come, and the hold slot.
///
/// The pieces are kept in reverse, so that the next piece is the last
/// element. A piece in the hold slot is kept after them, as the very last
/// element.
#[derive(Debug)]
pub struct State {
    matrix: BasicMatrix,
    queue_rev: Vec<Color>,
    has_held: bool,
    is_goal: bool,
}

/// The pieces of `q` in the opposite order.
pub open spec fn reversed(q: Seq<Color>) -> Seq<Color> {
    Seq::new(q.len(), |k: int| q[q.len() - 1 - k])
}

/// The score of a node whose last placement cleared a row, at this depth:
/// the depth less 1000, so that a row cleared sooner scores lower. A depth
/// above `i64::MAX` counts as `i64::MAX`.
pub open spec fn spec_goal_score(depth: int) -> int {
    if depth > i64::MAX {
        i64::MAX - 1000
    } else {
        depth - 1000
    }
}

impl State {
    /// The matrix.
    pub closed spec fn spec_matrix(&self) -> BasicMatrix {
        self.matrix
    }

    /// The pieces to come in reverse, with the held piece after them.
    pub closed spec fn spec_queue_rev(&self) -> Seq<Color> {
        self.queue_rev@
    }

    /// Whether the hold slot was used.
    pub closed spec fn spec_has_held(&self) -> bool {
        self.has_held
    }

    /// Whether the last placement cleared a row.
    pub closed spec fn spec_is_goal(&self) -> bool {
        self.is_goal
    }

    /// The matrix is well formed.
    pub open spec fn wf(&self) -> bool {
        self.spec_matrix().wf()
    }

    /// Whether the two states hold the same: the same cells in matrices of
    /// the same width, the same queue and the same flags.
    pub open spec fn same_as(&self, other: &State) -> bool {
        &&& self.spec_matrix()@ == other.spec_matrix()@
        &&& self.spec_matrix().spec_cols() == other.spec_matrix().spec_cols()
        &&& self.spec_queue_rev() == other.spec_queue_rev()
        &&& self.spec_has_held() == other.spec_has_held()
        &&& self.spec_is_goal() == other.spec_is_goal()
    }

    /// The element at position `pos` from the end of the reversed queue,
    /// counted from 1; none where the queue is shorter.
    pub open spec fn spec_from_top(&self, pos: int) -> Option<Color> {
        let q = self.spec_queue_rev();
        if 1 <= pos <= q.len() {
            Some(q[q.len() - pos])
        } else {
            None
        }
    }

    /// The next piece, and the piece that a press of hold would bring: the
    /// held piece where there is one, the piece after the next otherwise.
    pub open spec fn spec_next(&self) -> (Option<Color>, Option<Color>) {
        if self.spec_has_held() {
            (self.spec_from_top(2), self.spec_from_top(1))
        } else {
            (self.spec_from_top(1), self.spec_from_top(2))
        }
    }

    /// The piece in the hold slot.
    pub open spec fn spec_hold(&self) -> Option<Color> {
        if self.spec_has_held() {
            self.spec_from_top(1)
        } else {
            None
        }
    }

    /// The pieces to come, the next one first, without the held piece.
    pub open spec fn spec_previews(&self) -> Seq<Color> {
        let q = self.spec_queue_rev();
        if self.spec_has_held() && q.len() > 0 {
            reversed(q.drop_last())
        } else {
            reversed(q)
        }
    }

    /// The piece that a placement takes: the one that hold brings where it
    /// uses hold, the next one otherwise.
    pub open spec fn spec_piece(&self, hold: bool) -> Option<Color> {
        if hold {
            self.spec_next().1
        } else {
            self.spec_next().0
        }
    }

    /// The position from the end of the reversed queue of the piece that a
    /// placement takes.
    pub open spec fn spec_pop_pos(&self, hold: bool) -> int {
        if self.spec_has_held() == hold {
            1
        } else {
            2
        }
    }

    /// Whether this state is what `before` becomes when the piece of a
    /// placement leaves the queue: the piece at its position is removed, and
    /// the hold slot counts as used from the first hold on.
    pub open spec fn popped_from(&self, before: &State, hold: bool) -> bool {
        let q = before.spec_queue_rev();
        &&& self.spec_queue_rev() == q.remove(q.len() - before.spec_pop_pos(hold))
        &&& self.spec_has_held() == (before.spec_has_held() || hold)
    }

    /// Whether this state is what `before` becomes by the placement `pl`:
    /// the shape is added to the matrix, full rows and empty rows leave it,
    /// the state is a goal if a full row left, and the piece leaves the
    /// queue.
    pub open spec fn placed_from(&self, before: &State, pl: &Place) -> bool {
        let grid = before.spec_matrix().blitted(pl.shape, pl.tf);
        &&& self.spec_matrix()@ == sifted(grid)
        &&& self.spec_matrix().spec_cols() == before.spec_matrix().spec_cols()
        &&& self.spec_is_goal() == any_row_full(grid)
        &&& self.popped_from(before, pl.did_hold)
    }

    /// The state of a snapshot: the pieces to come are reversed, the held
    /// piece comes after them, and no row was cleared yet.
    pub open spec fn is_snapshot(&self, snapshot: &Snapshot) -> bool {
        &&& self.spec_matrix() == snapshot.matrix
        &&& self.spec_is_goal() == false
        &&& self.spec_has_held() == (snapshot.hold is Some)
        &&& self.spec_queue_rev() == match snapshot.hold {
            Some(c) => reversed(snapshot.queue@).push(c),
            None => reversed(snapshot.queue@),
        }
    }

    /// The matrix.
    pub fn matrix(&self) -> (m: &BasicMatrix)
        ensures
            *m == self.spec_matrix(),
    {
        &self.matrix
    }

    /// Whether the last placement cleared a row.
    pub fn is_goal(&self) -> (goal: bool)
        ensures
            goal == self.spec_is_goal(),
    {
        self.is_goal
    }

    /// Whether no piece is left, so that no further placement can be made.
    pub fn is_max_depth(&self) -> (done: bool)
        ensures
            done == (self.spec_queue_rev().len() == 0),
    {
        self.queue_rev.len() == 0
    }

    /// The element at position `pos` from the end of the reversed queue.
    fn from_top(&self, pos: usize) -> (c: Option<Color>)
        ensures
            c == self.spec_from_top(pos as int),
    {
        let n = self.queue_rev.len();
        if 1 <= pos && pos <= n {
            Some(self.queue_rev[n - pos])
        } else {
            None
        }
    }

    /// The next piece and the piece that hold would bring; either is none
    /// where there is no such piece. The second is not always the piece in
    /// the hold slot: while the slot is empty it is the piece after the
    /// next.
    pub fn next(&self) -> (pieces: (Option<Color>, Option<Color>))
        ensures
            pieces == self.spec_next(),
            pieces.0 == if self.spec_previews().len() > 0 {
                Some(self.spec_previews()[0])
            } else {
                None
            },
            pieces.1 == if self.spec_hold() is Some {
                self.spec_hold()
            } else if self.spec_previews().len() > 1 {
                Some(self.spec_previews()[1])
            } else {
                None
            },
    {
        let c1 = self.from_top(1);
        let c2 = self.from_top(2);
        if self.has_held {
            (c2, c1)
        } else {
            (c1, c2)
        }
    }

    /// A copy of this state.
    pub fn copy(&self) -> (s: State)
        ensures
            s.same_as(self),
    {
        let mut queue_rev: Vec<Color> = Vec::new();
        let mut k: usize = 0;
        while k < self.queue_rev.len()
            invariant
                k <= self.queue_rev@.len(),
                queue_rev@ == self.queue_rev@.take(k as int),
            decreases self.queue_rev@.len() - k,
        {
            queue_rev.push(self.queue_rev[k]);
            assert(self.queue_rev@.take(k + 1) =~= self.queue_rev@.take(k as int).push(
                self.queue_rev@[k as int],
            ));
            k += 1;
        }
        assert(self.queue_rev@.take(k as int) =~= self.queue_rev@);
        State {
            matrix: self.matrix.copy(),
            queue_rev,
            has_held: self.has_held,
            is_goal: self.is_goal,
        }
    }

    /// Makes the placement `pl`: adds its shape to the matrix, removes the
    /// rows that are full, notes whether there was one, and takes its piece
    /// from the queue.
    pub fn place(&mut self, pl: &Place)
        requires
            old(self).wf(),
            pl.shape.wf(),
            pl.shape.inside(&old(self).spec_matrix(), pl.tf.0 as int, pl.tf.1 as int, pl.tf.2),
            old(self).spec_piece(pl.did_hold) is Some,
        ensures
            final(self).wf(),
            final(self).placed_from(old(self), pl),
    {
        self.matrix.blit(pl.shape, pl.tf);
        self.is_goal = self.matrix.sift_rows();
        self.pop(pl.did_hold);
    }

    /// Takes a piece from the queue: the piece that hold brings if `hold`,
    /// the next piece otherwise.
    ///
    /// Without hold, the next piece leaves and the hold slot stays as it
    /// is. With hold and a held piece, the held piece leaves and the next
    /// piece takes its place. With hold and an empty slot, the next piece
    /// goes to the slot and the piece after it leaves.
    pub fn pop(&mut self, hold: bool)
        requires
            old(self).spec_piece(hold) is Some,
        ensures
            final(self).popped_from(old(self), hold),
            final(self).spec_matrix() == old(self).spec_matrix(),
            final(self).spec_is_goal() == old(self).spec_is_goal(),
            final(self).spec_queue_rev().len() == old(self).spec_queue_rev().len() - 1,
            final(self).spec_hold() == if hold {
                old(self).spec_next().0
            } else {
                old(self).spec_hold()
            },
            final(self).spec_previews() == old(self).spec_previews().skip(
                old(self).spec_played(hold),
            ),
    {
        //  | has_held | hold  | pos
        // -+----------+-------+-----
        //  | true     | false | 2
        //  | true     | true  | 1
        //  | false    | false | 1
        //  | false    | true  | 2
        let pos: usize = if self.has_held == hold {
            1
        } else {
            2
        };
        let ghost q = self.queue_rev@;
        self.queue_rev.remove(self.queue_rev.len() - pos);
        self.has_held = self.has_held || hold;
        proof {
            assert(self.queue_rev@ =~= q.remove(q.len() - pos));
            Self::lemma_queue_hold_algebra(old(self), self, hold);
        }
    }

    /// The number of pieces that leave the front of the previews when a
    /// piece is taken: one for the piece played from the previews, one for a
    /// piece that goes from the previews to an empty hold slot, and none
    /// where the held piece is played and no piece is there to follow it.
    pub open spec fn spec_played(&self, hold: bool) -> int {
        if !hold {
            1
        } else if self.spec_hold() is None {
            2
        } else if self.spec_previews().len() > 0 {
            1
        } else {
            0
        }
    }

    /// How the queue and the hold slot change when a piece is taken.
    ///
    /// One element leaves the queue. Without hold, the next piece leaves;
    /// the hold slot stays, and the piece after the next is next. With
    /// hold, the piece that was next is in the hold slot afterwards: with an
    /// empty slot the piece after it is played and the third is next, with a
    /// held piece that one is played and the piece after the next is next.
    pub proof fn lemma_queue_hold_algebra(before: &State, after: &State, hold: bool)
        requires
            before.spec_piece(hold) is Some,
            after.popped_from(before, hold),
        ensures
            after.spec_queue_rev().len() == before.spec_queue_rev().len() - 1,
            after.spec_previews() == before.spec_previews().skip(before.spec_played(hold)),
            after.spec_previews().len() == before.spec_previews().len() - before.spec_played(hold),
            !hold ==> after.spec_hold() == before.spec_hold(),
            hold ==> after.spec_hold() == before.spec_next().0,
            hold ==> after.spec_next().1 == before.spec_next().0,
            after.spec_next().0 == if after.spec_previews().len() > 0 {
                Some(before.spec_previews()[before.spec_played(hold)])
            } else {
                None
            },
    {
        let q = before.spec_queue_rev();
        let p = after.spec_queue_rev();
        let pos = before.spec_pop_pos(hold);
        assert(p.len() == q.len() - 1);
        assert forall|k: int| 0 <= k < q.len() - pos implies p[k] == q[k] by {}
        assert forall|k: int| q.len() - pos <= k < p.len() implies p[k] == q[k + 1] by {}
        let n = before.spec_played(hold);
        let a = after.spec_previews();
        let b = before.spec_previews().skip(n);
        assert(a.len() == b.len());
        assert forall|k: int| 0 <= k < a.len() implies a[k] == b[k] by {}
        assert(a =~= b);
    }
}

impl Clone for State {
    fn clone(&self) -> (s: State)
        ensures
            s.same_as(self),
    {
        self.copy()
    }
}

impl From<Snapshot> for State {
    /// The state of a snapshot: the pieces to come are reversed, the held
    /// piece comes after them, and no row was cleared yet.
    fn from(snapshot: Snapshot) -> (state: State)
        ensures
            state.is_snapshot(&snapshot),
    {
        let matrix = snapshot.matrix;
        // the queue is kept in reverse, so that the next piece is easily
        // removed; the held piece, if any, comes on top, after the previews
        let mut queue_rev: Vec<Color> = Vec::new();
        let mut k: usize = snapshot.queue.len();
        while k > 0
            invariant
                k <= snapshot.queue@.len(),
                queue_rev@.len() == snapshot.queue@.len() - k,
                forall|q: int|
                    0 <= q < queue_rev@.len() ==> queue_rev@[q] == snapshot.queue@[
                        snapshot.queue@.len() - 1 - q
                    ],
            decreases k,
        {
            k -= 1;
            queue_rev.push(snapshot.queue[k]);
        }
        assert(queue_rev@ =~= reversed(snapshot.queue@));
        let mut has_held = false;
        if let Some(hold_color) = snapshot.hold {
            has_held = true;
            queue_rev.push(hold_color);
        }
        State { matrix, queue_rev, has_held, is_goal: false }
    }
}

impl vstd::std_specs::convert::FromSpecImpl<Snapshot> for State {
    /// A state holds a vector, which no spec function can build: what
    /// `from` returns is stated by its own `ensures`.
    open spec fn obeys_from_spec() -> bool {
        false
    }

    open spec fn from_spec(snapshot: Snapshot) -> State {
        choose|state: State| state.is_snapshot(&snapshot)
    }
}

/// A node of the search: a state, its score, and the way that led to it.
#[derive(Debug)]
pub struct Node {
    state: State,
    score: i64,
    penalty: i64,
    trace: Vec<u8>,
}

impl Node {
    /// The state.
    pub closed spec fn spec_state(&self) -> State {
        self.state
    }

    /// The score; lower is better.
    pub closed spec fn spec_score(&self) -> i64 {
        self.score
    }

    /// The penalty for the length of the way.
    pub closed spec fn spec_penalty(&self) -> i64 {
        self.penalty
    }

    /// The positions of the placements chosen on the way from the root, one
    /// for each depth.
    pub closed spec fn spec_trace(&self) -> Seq<u8> {
        self.trace@
    }

    /// The number of placements on the way from the root.
    pub open spec fn spec_depth(&self) -> int {
        self.spec_trace().len() as int
    }

    /// Whether the two nodes hold the same: states that hold the same, and
    /// the same score, penalty and trace.
    pub open spec fn same_as(&self, other: &Node) -> bool {
        &&& self.spec_state().same_as(&other.spec_state())
        &&& self.spec_score() == other.spec_score()
        &&& self.spec_penalty() == other.spec_penalty()
        &&& self.spec_trace() == other.spec_trace()
    }

    /// Whether this node is what `before` becomes by the placement `place`
    /// chosen at position `idx`: the position is added to the trace, the
    /// state is the one after the placement, the score is that of a goal if
    /// a row was cleared and that of the matrix otherwise, and the penalty
    /// is that of the new depth.
    pub open spec fn succeeds(
        &self,
        before: &Node,
        scoring: &ScoreParams,
        idx: usize,
        place: &Place,
    ) -> bool {
        let state = self.spec_state();
        &&& self.spec_trace() == before.spec_trace().push(idx as u8)
        &&& state.placed_from(&before.spec_state(), place)
        &&& self.spec_score() == if state.spec_is_goal() {
            spec_goal_score(self.spec_depth())
        } else {
            spec_score(
                spec_eval(state.spec_matrix()@, state.spec_matrix().spec_cols()),
                *scoring,
            )
        }
        &&& self.spec_penalty() == spec_penalty(*scoring, self.spec_depth())
    }

    /// Whether the trace of this node is the trace of `before` with one more
    /// position, as it is for a successor.
    pub open spec fn is_child_of(&self, before: &Node) -> bool {
        exists|idx: u8| self.spec_trace() == before.spec_trace().push(idx)
    }

    /// In a line of nodes that begins with a root and goes on from each node
    /// to a successor of it, the depth of a node and the length of its trace
    /// are the number of successors made to get to it.
    pub proof fn lemma_trace_integrity(nodes: Seq<Node>)
        requires
            nodes.len() > 0,
            nodes[0].spec_trace().len() == 0,
            forall|k: int| 0 <= k < nodes.len() - 1 ==> (#[trigger] nodes[k + 1]).is_child_of(&nodes[k]),
        ensures
            forall|k: int|
                0 <= k < nodes.len() ==> (#[trigger] nodes[k]).spec_depth() == k && nodes[k].spec_trace().len()
                    == k,
        decreases nodes.len(),
    {
        if nodes.len() > 1 {
            let front = nodes.drop_last();
            assert forall|k: int| 0 <= k < front.len() - 1 implies (#[trigger] front[k + 1]).is_child_of(
                &front[k],
            ) by {
                assert(nodes[k + 1].is_child_of(&nodes[k]));
            }
            Self::lemma_trace_integrity(front);
            let last = nodes.len() - 1;
            assert(nodes[last - 1 + 1].is_child_of(&nodes[last - 1]));
            assert(front[last - 1] == nodes[last - 1]);
            assert forall|k: int| 0 <= k < nodes.len() implies (#[trigger] nodes[k]).spec_depth()
                == k && nodes[k].spec_trace().len() == k by {
                if k < last {
                    assert(front[k] == nodes[k]);
                }
            }
        }
    }

    /// A successor is a child of the node it was made from.
    pub proof fn lemma_successor_is_child(
        &self,
        before: &Node,
        scoring: &ScoreParams,
        idx: usize,
        place: &Place,
    )
        requires
            self.succeeds(before, scoring, idx, place),
        ensures
            self.is_child_of(before),
            self.spec_depth() == before.spec_depth() + 1,
    {
    }

    /// A root node on `state`, with an empty trace and no penalty. Its
    /// score is `i64::MAX`, which stands for a score not computed: a root
    /// is there to make successors of.
    pub fn new(state: State) -> (node: Node)
        ensures
            node.spec_state() == state,
            node.spec_score() == i64::MAX,
            node.spec_penalty() == 0,
            node.spec_trace() == Seq::<u8>::empty(),
            node.spec_depth() == 0,
    {
        Node { state, score: i64::MAX, penalty: 0, trace: Vec::with_capacity(8) }
    }

    /// The state.
    pub fn state(&self) -> (state: &State)
        ensures
            *state == self.spec_state(),
    {
        &self.state
    }

    /// The score; lower is better.
    pub fn score(&self) -> (score: i64)
        ensures
            score == self.spec_score(),
    {
        self.score
    }

    /// The penalty for the length of the way.
    pub fn penalty(&self) -> (penalty: i64)
        ensures
            penalty == self.spec_penalty(),
    {
        self.penalty
    }

    /// The number of placements on the way from the root: the length of the
    /// trace.
    pub fn depth(&self) -> (depth: usize)
        ensures
            depth == self.spec_depth(),
            depth == self.spec_trace().len(),
    {
        self.trace.len()
    }

    /// The positions of the placements chosen on the way from the root, one
    /// for each depth.
    pub fn trace(&self) -> (trace: Vec<usize>)
        ensures
            trace@.len() == self.spec_depth(),
            forall|k: int| 0 <= k < trace@.len() ==> trace@[k] == self.spec_trace()[k],
    {
        let mut out: Vec<usize> = Vec::new();
        let mut k: usize = 0;
        while k < self.trace.len()
            invariant
                k <= self.trace@.len(),
                out@.len() == k,
                forall|q: int| 0 <= q < k ==> out@[q] == self.trace@[q],
            decreases self.trace@.len() - k,
        {
            out.push(self.trace[k] as usize);
            k += 1;
        }
        out
    }

    /// A copy of this node.
    pub fn copy(&self) -> (node: Node)
        ensures
            node.same_as(self),
    {
        let mut trace: Vec<u8> = Vec::new();
        let mut k: usize = 0;
        while k < self.trace.len()
            invariant
                k <= self.trace@.len(),
                trace@ == self.trace@.take(k as int),
            decreases self.trace@.len() - k,
        {
            trace.push(self.trace[k]);
            assert(self.trace@.take(k + 1) =~= self.trace@.take(k as int).push(
                self.trace@[k as int],
            ));
            k += 1;
        }
        assert(self.trace@.take(k as int) =~= self.trace@);
        Node { state: self.state.copy(), score: self.score, penalty: self.penalty, trace }
    }

    /// The node after the placement `place`, which was handed out at
    /// position `idx`, scored with `scoring`.
    pub fn successor(&self, scoring: &ScoreParams, idx: usize, place: &Place) -> (succ: Node)
        requires
            idx < u8::MAX,
            self.spec_state().wf(),
            place.shape.wf(),
            place.shape.inside(
                &self.spec_state().spec_matrix(),
                place.tf.0 as int,
                place.tf.1 as int,
                place.tf.2,
            ),
            self.spec_state().spec_piece(place.did_hold) is Some,
        ensures
            succ.spec_state().wf(),
            succ.succeeds(self, scoring, idx, place),
            succ.spec_depth() == self.spec_depth() + 1,
    {
        let mut succ = self.copy();
        proof {
            let a = succ.state.matrix;
            let b = self.state.matrix;
            assert(a.wf());
            assert forall|k: int| 0 <= k < place.shape.spec_cells(place.tf.2).len() implies place.tf.0
                + (#[trigger] place.shape.spec_cells(place.tf.2)[k]).0 >= 0 && 0 <= place.tf.1
                + place.shape.spec_cells(place.tf.2)[k].1 < a.spec_cols() by {}
            assert(a.blitted(place.shape, place.tf) =~~= b.blitted(place.shape, place.tf)) by {
                assert forall|x: int, y: int| a.occupied(x, y) == b.occupied(x, y) by {}
            }
        }
        succ.trace.push(idx as u8);
        succ.state.place(place);
        succ.score = if succ.state.is_goal() {
            goal_score(succ.depth())
        } else {
            eval(&succ.state.matrix).score(scoring)
        };
        succ.penalty = penalty(scoring, succ.depth());
        succ
    }
}

impl Clone for Node {
    fn clone(&self) -> (node: Node)
        ensures
            node.same_as(self),
    {
        self.copy()
    }
}

/// The score of a node whose last placement cleared a row, at this depth.
fn goal_score(depth: usize) -> (score: i64)
    ensures
        score == spec_goal_score(depth as int),
{
    if depth as u64 > 0x7fff_ffff_ffff_ffff {
        0x7fff_ffff_ffff_ffff - 1000
    } else {
        depth as i64 - 1000
    }
}

} // verus!
