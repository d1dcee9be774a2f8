use blockfish::{srs, BasicMatrix, Color, Orientation::R0, Orientation::R1};

fn grid(rows: &[&[bool]]) -> BasicMatrix {
    let mut matrix = BasicMatrix::with_cols(rows[0].len() as u16);
    for (i, row) in rows.iter().enumerate() {
        for (j, &filled) in row.iter().enumerate() {
            if filled {
                matrix.set(i as u16, j as u16);
            }
        }
    }
    matrix
}

#[test]
fn test_matrix_starts_empty() {
    let m = BasicMatrix::with_cols(10);
    assert_eq!(m.rows(), 0);
    assert_eq!(m.cols(), 10);
    assert!(!m.get(0, 0));
    assert!(!m.get(5, 9));
}

#[test]
fn test_matrix_set_grows_rows() {
    let mut m = BasicMatrix::with_cols(4);
    m.set(2, 1);
    assert_eq!(m.rows(), 3);
    assert_eq!(m.cols(), 4);
    assert!(m.get(2, 1));
    assert!(!m.get(2, 0));
    assert!(!m.get(0, 1));
    assert!(!m.get(1, 1));
    // a cell in a row that is there adds no row
    m.set(0, 3);
    assert_eq!(m.rows(), 3);
    assert!(m.get(0, 3));
    assert!(m.get(2, 1));
    // outside the matrix nothing is occupied
    assert!(!m.get(3, 1));
    assert!(!m.get(2, 4));
}

#[test]
fn test_sift_removes_full_rows() {
    let (xx, __) = (true, false);
    let mut m = grid(&[
        &[xx, xx, xx],
        &[xx, __, xx],
        &[xx, xx, xx],
        &[__, xx, __],
    ]);
    assert!(m.sift_rows());
    assert_eq!(m, grid(&[&[xx, __, xx], &[__, xx, __]]));
    // nothing is full any more
    assert!(!m.sift_rows());
    assert_eq!(m, grid(&[&[xx, __, xx], &[__, xx, __]]));
}

#[test]
fn test_sift_removes_empty_rows() {
    let (xx, __) = (true, false);
    let mut m = grid(&[&[xx, __, __], &[__, __, __], &[__, __, xx]]);
    assert_eq!(m.rows(), 3);
    // an empty row leaves, but that is no cleared row
    assert!(!m.sift_rows());
    assert_eq!(m, grid(&[&[xx, __, __], &[__, __, xx]]));
}

#[test]
fn test_sift_empty_matrix() {
    let mut m = BasicMatrix::with_cols(3);
    assert!(!m.sift_rows());
    assert_eq!(m.rows(), 0);
}

#[test]
fn test_overlaps() {
    let (xx, __) = (true, false);
    let srs = srs();
    let t = srs.shape(Color::n('T')).unwrap();
    let m = grid(&[&[__, __, __, xx]]);
    // T in R0 covers (1,0) (1,1) (1,2) (2,1) of its box
    assert!(!m.overlaps(t, (-1, 0, R0)));
    // on an occupied cell
    assert!(m.overlaps(t, (-1, 1, R0)));
    // below row 0
    assert!(m.overlaps(t, (-2, 0, R0)));
    // left of the matrix
    assert!(m.overlaps(t, (0, -1, R0)));
    // right of the matrix
    assert!(m.overlaps(t, (0, 2, R0)));
    // in R1 the first column of the box is empty
    assert!(!m.overlaps(t, (0, -1, R1)));
    // far above the matrix there is room
    assert!(!m.overlaps(t, (30000, 0, R0)));
}

#[test]
fn test_blit() {
    let (xx, __) = (true, false);
    let srs = srs();
    let t = srs.shape(Color::n('T')).unwrap();
    let mut m = grid(&[&[__, __, __, xx]]);
    m.blit(t, (-1, 0, R0));
    assert_eq!(m, grid(&[&[xx, xx, xx, xx], &[__, xx, __, __]]));
    // a shape above the matrix leaves empty rows between
    let i = srs.shape(Color::n('I')).unwrap();
    m.blit(i, (1, 0, R0));
    assert_eq!(m.rows(), 4);
    assert_eq!(
        m,
        grid(&[
            &[xx, xx, xx, xx],
            &[__, xx, __, __],
            &[__, __, __, __],
            &[xx, xx, xx, xx],
        ])
    );
}

#[test]
fn test_matrix_clone() {
    let (xx, __) = (true, false);
    let m = grid(&[&[xx, __], &[__, xx]]);
    let mut n = m.clone();
    assert_eq!(m, n);
    n.set(0, 1);
    assert_ne!(m, n);
    assert!(!m.get(0, 1));
}

#[test]
fn test_in_bounds() {
    let (xx, __) = (true, false);
    let srs = srs();
    let t = srs.shape(Color::n('T')).unwrap();
    let m = grid(&[&[__, xx, __, xx]]);
    // on occupied cells, but inside
    assert!(m.in_bounds(t, (-1, 1, R0)));
    assert!(m.in_bounds(t, (-1, 0, R0)));
    assert!(m.in_bounds(t, (300, 1, R0)));
    assert!(!m.in_bounds(t, (-2, 0, R0)));
    assert!(!m.in_bounds(t, (0, -1, R0)));
    assert!(!m.in_bounds(t, (0, 2, R0)));
    assert!(m.in_bounds(t, (0, -1, R1)));
}
