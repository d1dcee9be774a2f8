//! The score of a matrix: a weighted sum of a few features of it.

use crate::matrix::BasicMatrix;
use vstd::prelude::*;

verus! {

/// The weights of the features, and the cost of each further piece.
#[derive(Clone, Copy, Debug, PartialEq, Eq)]
pub struct ScoreParams {
    /// The weight of each row of the matrix.
    pub row_factor: i16,
    /// The weight of each hole.
    pub hole_factor: i16,
    /// The weight of each transition.
    pub transition_factor: i16,
    /// The penalty for each piece of a plan.
    pub piece_penalty: u16,
}

impl Default for ScoreParams {
    fn default() -> (params: ScoreParams)
        ensures
            params == (ScoreParams {
                row_factor: 5,
                hole_factor: 10,
                transition_factor: 2,
                piece_penalty: 10,
            }),
    {
        ScoreParams { row_factor: 5, hole_factor: 10, transition_factor: 2, piece_penalty: 10 }
    }
}

/// The features of a matrix that its score is made of.
#[derive(Clone, Copy, Debug, PartialEq, Eq)]
pub struct Features {
    /// The number of rows.
    pub rows: u32,
    /// The number of holes: empty cells with an occupied cell somewhere
    /// above them in their column.
    pub holes: u32,
    /// The number of transitions: pairs of cells side by side in a row of
    /// which one is occupied and the other is not.
    pub transitions: u32,
}

/// Whether the cell in row `i` and column `j` of `grid` is occupied.
pub open spec fn filled(grid: Seq<Seq<bool>>, i: int, j: int) -> bool {
    0 <= i < grid.len() && 0 <= j < grid[i].len() && grid[i][j]
}

/// Whether some cell above row `i` in column `j` is occupied.
pub open spec fn roofed(grid: Seq<Seq<bool>>, i: int, j: int) -> bool {
    exists|a: int| i < a < grid.len() && filled(grid, a, j)
}

/// The number of holes in column `j` in the rows from `from` up.
pub open spec fn col_holes(grid: Seq<Seq<bool>>, j: int, from: int) -> int
    decreases grid.len() - from,
{
    if from < 0 || from >= grid.len() {
        0
    } else {
        col_holes(grid, j, from + 1) + if !filled(grid, from, j) && roofed(grid, from, j) {
            1int
        } else {
            0int
        }
    }
}

/// The number of holes in the first `cols` columns.
pub open spec fn holes_in(grid: Seq<Seq<bool>>, cols: int) -> int
    decreases cols,
{
    if cols <= 0 {
        0
    } else {
        holes_in(grid, cols - 1) + col_holes(grid, cols - 1, 0)
    }
}

/// The number of transitions among the first `n` cells of `row`.
pub open spec fn row_transitions(row: Seq<bool>, n: int) -> int
    decreases n,
{
    if n <= 1 {
        0
    } else {
        row_transitions(row, n - 1) + if row[n - 2] != row[n - 1] {
            1int
        } else {
            0int
        }
    }
}

/// The number of transitions in the first `rows` rows.
pub open spec fn transitions_in(grid: Seq<Seq<bool>>, rows: int) -> int
    decreases rows,
{
    if rows <= 0 {
        0
    } else {
        transitions_in(grid, rows - 1) + row_transitions(
            grid[rows - 1],
            grid[rows - 1].len() as int,
        )
    }
}

/// The features of a matrix `cols` wide with the rows `grid`.
pub open spec fn spec_eval(grid: Seq<Seq<bool>>, cols: int) -> Features {
    Features {
        rows: grid.len() as u32,
        holes: holes_in(grid, cols) as u32,
        transitions: transitions_in(grid, grid.len() as int) as u32,
    }
}

/// The weighted sum of the features.
pub open spec fn spec_score(f: Features, params: ScoreParams) -> int {
    f.rows * params.row_factor + f.holes * params.hole_factor + f.transitions
        * params.transition_factor
}

/// The penalty of a plan of `depth` pieces: the penalty of one piece times
/// their number, and `i64::MAX` where that is more.
pub open spec fn spec_penalty(params: ScoreParams, depth: int) -> int {
    if params.piece_penalty * depth > i64::MAX {
        i64::MAX as int
    } else {
        params.piece_penalty * depth
    }
}

/// A column has no more holes than rows.
pub proof fn lemma_col_holes_bound(grid: Seq<Seq<bool>>, j: int, from: int)
    requires
        0 <= from <= grid.len(),
    ensures
        0 <= col_holes(grid, j, from) <= grid.len() - from,
    decreases grid.len() - from,
{
    if from < grid.len() {
        lemma_col_holes_bound(grid, j, from + 1);
    }
}

/// The penalty does not fall as a plan grows.
pub proof fn lemma_penalty_monotone(params: ScoreParams, shallow: int, deep: int)
    requires
        0 <= shallow <= deep,
    ensures
        0 <= spec_penalty(params, shallow) <= spec_penalty(params, deep),
{
    let p = params.piece_penalty as int;
    assert(0 <= p * shallow <= p * deep) by (nonlinear_arith)
        requires
            0 <= p,
            0 <= shallow <= deep,
    ;
}

/// The features of the matrix.
pub fn eval(matrix: &BasicMatrix) -> (f: Features)
    requires
        matrix.wf(),
    ensures
        f == spec_eval(matrix@, matrix.spec_cols()),
        f.rows == matrix@.len(),
        f.holes == holes_in(matrix@, matrix.spec_cols()),
        f.transitions == transitions_in(matrix@, matrix@.len() as int),
{
    let rows: u16 = matrix.rows();
    let cols: u16 = matrix.cols();
    let mut holes: u64 = 0;
    let mut j: u16 = 0;
    while j < cols
        invariant
            matrix.wf(),
            rows == matrix@.len(),
            cols == matrix.spec_cols(),
            j <= cols,
            holes == holes_in(matrix@, j as int),
            holes <= j * 0xffff,
        decreases cols - j,
    {
        let mut roof = false;
        let mut found: u64 = 0;
        let mut i: u16 = rows;
        while i > 0
            invariant
                matrix.wf(),
                rows == matrix@.len(),
                j < matrix.spec_cols(),
                i <= rows,
                found == col_holes(matrix@, j as int, i as int),
                found <= rows - i,
                roof == roofed(matrix@, i - 1, j as int),
            decreases i,
        {
            i -= 1;
            let cell = matrix.get(i, j);
            proof {
                lemma_col_holes_bound(matrix@, j as int, i + 1);
                assert(cell == filled(matrix@, i as int, j as int));
            }
            if !cell && roof {
                found += 1;
            }
            proof {
                if cell || roof {
                    if cell {
                        assert(filled(matrix@, i as int, j as int));
                    } else {
                        let a = choose|a: int| i < a < matrix@.len() && filled(matrix@, a, j as int);
                        assert(i - 1 < a < matrix@.len() && filled(matrix@, a, j as int));
                    }
                    assert(roofed(matrix@, i - 1, j as int));
                } else {
                    if roofed(matrix@, i - 1, j as int) {
                        let a = choose|a: int|
                            i - 1 < a < matrix@.len() && filled(matrix@, a, j as int);
                        if a > i {
                            assert(roofed(matrix@, i as int, j as int));
                        }
                    }
                }
            }
            roof = roof || cell;
        }
        holes += found;
        j += 1;
    }
    let mut transitions: u64 = 0;
    let mut i: u16 = 0;
    while i < rows
        invariant
            matrix.wf(),
            rows == matrix@.len(),
            cols == matrix.spec_cols(),
            i <= rows,
            transitions == transitions_in(matrix@, i as int),
            transitions <= i * 0xffff,
        decreases rows - i,
    {
        let mut found: u64 = 0;
        let mut k: u16 = 1;
        assert(matrix@[i as int].len() == cols);
        while k < cols
            invariant
                matrix.wf(),
                i < matrix@.len(),
                cols == matrix.spec_cols(),
                matrix@[i as int].len() == cols,
                1 <= k,
                cols >= 1 ==> k <= cols,
                cols < 1 ==> k == 1,
                found == row_transitions(matrix@[i as int], k as int),
                found <= k - 1,
            decreases cols - k,
        {
            let left = matrix.get(i, k - 1);
            let right = matrix.get(i, k);
            if left != right {
                found += 1;
            }
            k += 1;
        }
        proof {
            let row = matrix@[i as int];
            if cols < 1 {
                assert(row_transitions(row, cols as int) == 0);
                assert(row_transitions(row, 1) == 0);
            }
            assert(found == row_transitions(row, row.len() as int));
            assert(transitions_in(matrix@, i + 1) == transitions_in(matrix@, i as int)
                + row_transitions(row, row.len() as int));
        }
        transitions += found;
        i += 1;
    }
    Features { rows: rows as u32, holes: holes as u32, transitions: transitions as u32 }
}

impl Features {
    /// The score of the features under the weights `params`. Lower is
    /// better where the weights are positive.
    pub fn score(&self, params: &ScoreParams) -> (score: i64)
        ensures
            score == spec_score(*self, *params),
    {
        let rows = weighted(self.rows, params.row_factor);
        let holes = weighted(self.holes, params.hole_factor);
        let transitions = weighted(self.transitions, params.transition_factor);
        rows + holes + transitions
    }
}

/// A feature times its weight.
fn weighted(feature: u32, factor: i16) -> (product: i64)
    ensures
        product == feature * factor,
        -0x8000_0000_0000 <= product <= 0x8000_0000_0000,
{
    let a: i64 = feature as i64;
    let b: i64 = factor as i64;
    assert(-0x8000_0000_0000 <= a * b <= 0x8000_0000_0000) by (nonlinear_arith)
        requires
            0 <= a <= 0xffff_ffff,
            -0x8000 <= b <= 0x7fff,
    ;
    a * b
}

/// The penalty of a plan of `depth` pieces. It does not fall as the plan
/// grows.
pub fn penalty(params: &ScoreParams, depth: usize) -> (penalty: i64)
    ensures
        penalty == spec_penalty(*params, depth as int),
{
    let a: u128 = params.piece_penalty as u128;
    let b: u128 = depth as u128;
    assert(a * b <= 0xffff * 0xffff_ffff_ffff_ffff) by (nonlinear_arith)
        requires
            0 <= a <= 0xffff,
            0 <= b <= 0xffff_ffff_ffff_ffff,
    ;
    let product: u128 = a * b;
    if product > 0x7fff_ffff_ffff_ffff {
        0x7fff_ffff_ffff_ffff
    } else {
        product as i64
    }
}

} // verus!
