use blockfish::{eval, penalty, BasicMatrix, Features, ScoreParams};

fn board(rows: &[&[bool]]) -> BasicMatrix {
    let mut matrix = BasicMatrix::with_cols(rows[0].len() as u16);
    for (i, row) in rows.iter().enumerate() {
        for (j, &filled) in row.iter().enumerate() {
            if filled {
                matrix.set(i as u16, j as u16);
            }
        }
    }
    matrix
}

#[test]
fn test_eval_empty() {
    let f = eval(&BasicMatrix::with_cols(10));
    assert_eq!(f, Features { rows: 0, holes: 0, transitions: 0 });
    let f = eval(&BasicMatrix::with_cols(0));
    assert_eq!(f, Features { rows: 0, holes: 0, transitions: 0 });
}

#[test]
fn test_eval_counts() {
    let (xx, __) = (true, false);
    // x x . x
    // . x . .
    // x . . x
    let m = board(&[
        &[xx, __, __, xx],
        &[__, xx, __, __],
        &[xx, xx, __, xx],
    ]);
    let f = eval(&m);
    assert_eq!(f.rows, 3);
    // holes: (1,0) under (2,0); (0,1) under (1,1); (1,3) under (2,3)
    assert_eq!(f.holes, 3);
    // transitions: row 0 has 2, row 1 has 2, row 2 has 2
    assert_eq!(f.transitions, 6);
}

#[test]
fn test_eval_one_column() {
    let (xx, __) = (true, false);
    let m = board(&[&[__], &[__], &[xx], &[__], &[xx]]);
    let f = eval(&m);
    assert_eq!(f, Features { rows: 5, holes: 3, transitions: 0 });
}

#[test]
fn test_score_is_the_weighted_sum() {
    let f = Features { rows: 3, holes: 2, transitions: 7 };
    let params = ScoreParams { row_factor: 5, hole_factor: 10, transition_factor: 2, piece_penalty: 1 };
    assert_eq!(f.score(&params), 15 + 20 + 14);
    let params = ScoreParams { row_factor: -1, hole_factor: 0, transition_factor: 100, piece_penalty: 1 };
    assert_eq!(f.score(&params), -3 + 700);
    // the greatest features and weights do not overflow
    let f = Features { rows: u32::MAX, holes: u32::MAX, transitions: u32::MAX };
    let params = ScoreParams {
        row_factor: i16::MIN,
        hole_factor: i16::MIN,
        transition_factor: i16::MIN,
        piece_penalty: 0,
    };
    assert_eq!(f.score(&params), 3 * (u32::MAX as i64) * (i16::MIN as i64));
}

#[test]
fn test_default_params() {
    let params = ScoreParams::default();
    assert_eq!(params.row_factor, 5);
    assert_eq!(params.hole_factor, 10);
    assert_eq!(params.transition_factor, 2);
    assert_eq!(params.piece_penalty, 10);
}

#[test]
fn test_penalty() {
    let params = ScoreParams::default();
    assert_eq!(penalty(&params, 0), 0);
    assert_eq!(penalty(&params, 1), 10);
    assert_eq!(penalty(&params, 7), 70);
    // it never falls as the depth grows
    let mut last = 0;
    for depth in 0..100 {
        let p = penalty(&params, depth);
        assert!(p >= last);
        last = p;
    }
    // and stops at the greatest number
    assert_eq!(penalty(&params, usize::MAX), i64::MAX);
    let free = ScoreParams { piece_penalty: 0, ..params };
    assert_eq!(penalty(&free, usize::MAX), 0);
}
