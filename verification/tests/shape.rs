use blockfish::{
    srs, BasicMatrix, Color, Input, Orientation, Orientation::R0, Orientation::R1,
    Orientation::R2, Orientation::R3, Shape, ShapeTable,
};

fn cells(rows: &[&[bool]]) -> BasicMatrix {
    let mut matrix = BasicMatrix::with_cols(rows[0].len() as u16);
    for (i, row) in rows.iter().enumerate() {
        for (j, &filled) in row.iter().enumerate() {
            if filled {
                matrix.set(i as u16, j as u16);
            }
        }
    }
    matrix
}

fn no_kicks() -> Vec<Vec<(i16, i16)>> {
    vec![vec![(0, 0)], vec![(0, 0)], vec![(0, 0)], vec![(0, 0)]]
}

fn domino_cells() -> Vec<Vec<(i16, i16)>> {
    vec![
        vec![(0, 0), (0, 1)],
        vec![(0, 0), (1, 0)],
        vec![(0, 0), (0, 1)],
        vec![(0, 0), (1, 0)],
    ]
}

#[test]
fn test_orientation_turns() {
    assert_eq!(R0.cw(), R1);
    assert_eq!(R1.cw(), R2);
    assert_eq!(R2.cw(), R3);
    assert_eq!(R3.cw(), R0);
    assert_eq!(R0.ccw(), R3);
    assert_eq!(R3.ccw(), R2);
    assert_eq!(R2.ccw(), R1);
    assert_eq!(R1.ccw(), R0);
    assert_eq!(Orientation::all(), [R0, R1, R2, R3]);
    for r in Orientation::all() {
        assert_eq!(r.cw().ccw(), r);
        assert_eq!(Orientation::from_index(r.index()), r);
        assert_eq!(Orientation::from_index(r.index() + 4), r);
    }
}

#[test]
fn test_color() {
    assert_eq!(Color::n('T').as_char(), 'T');
    assert_eq!(Color::n('T'), Color::n('T'));
    assert_ne!(Color::n('T'), Color::n('L'));
}

#[test]
fn test_srs_has_the_seven_pieces() {
    let srs = srs();
    for name in "IJLOSTZ".chars() {
        let shape = srs.shape(Color::n(name)).unwrap();
        assert_eq!(shape.color(), Color::n(name));
        for r in Orientation::all() {
            assert_eq!(shape.cells(r).len(), 4);
        }
    }
    assert!(srs.shape(Color::n('G')).is_none());
    assert!(srs.shape(Color::n(' ')).is_none());
}

#[test]
fn test_shape_new_checks_its_parts() {
    let c = Color::n('D');
    assert!(Shape::new(c, domino_cells(), no_kicks(), no_kicks()).is_some());
    // three orientations only
    let mut short = domino_cells();
    short.pop();
    assert!(Shape::new(c, short, no_kicks(), no_kicks()).is_none());
    // three kick lists only
    let mut few = no_kicks();
    few.pop();
    assert!(Shape::new(c, domino_cells(), few, no_kicks()).is_none());
    let mut few = no_kicks();
    few.pop();
    assert!(Shape::new(c, domino_cells(), no_kicks(), few).is_none());
    // an orientation without cells
    let mut hollow = domino_cells();
    hollow[2] = vec![];
    assert!(Shape::new(c, hollow, no_kicks(), no_kicks()).is_none());
    // cells out of order
    let mut unordered = domino_cells();
    unordered[0] = vec![(0, 1), (0, 0)];
    assert!(Shape::new(c, unordered, no_kicks(), no_kicks()).is_none());
    // a cell twice
    let mut twice = domino_cells();
    twice[1] = vec![(0, 0), (0, 0)];
    assert!(Shape::new(c, twice, no_kicks(), no_kicks()).is_none());
    // a cell outside the box
    let mut wide = domino_cells();
    wide[0] = vec![(0, 0), (0, 4)];
    assert!(Shape::new(c, wide, no_kicks(), no_kicks()).is_none());
    let mut low = domino_cells();
    low[0] = vec![(-1, 0), (0, 0)];
    assert!(Shape::new(c, low, no_kicks(), no_kicks()).is_none());
}

#[test]
fn test_table_keeps_one_shape_per_color() {
    let mut table = ShapeTable::new();
    assert!(table.shape(Color::n('D')).is_none());
    let first = Shape::new(Color::n('D'), domino_cells(), no_kicks(), no_kicks()).unwrap();
    assert!(table.insert(first));
    let mut other = domino_cells();
    other[0] = vec![(1, 0), (1, 1)];
    let second = Shape::new(Color::n('D'), other, no_kicks(), no_kicks()).unwrap();
    assert!(!table.insert(second));
    // the first one stays
    let found = table.shape(Color::n('D')).unwrap();
    assert_eq!(found.cells(R0), &vec![(0, 0), (0, 1)]);
    let third = Shape::new(Color::n('E'), domino_cells(), no_kicks(), no_kicks()).unwrap();
    assert!(table.insert(third));
    assert_eq!(table.shape(Color::n('E')).unwrap().color(), Color::n('E'));
}

#[test]
fn test_valid_cols() {
    let srs = srs();
    let t = srs.shape(Color::n('T')).unwrap();
    assert_eq!(t.valid_cols(R0, 10), (0, 8));
    assert_eq!(t.valid_cols(R1, 10), (-1, 8));
    assert_eq!(t.valid_cols(R3, 10), (0, 9));
    let i = srs.shape(Color::n('I')).unwrap();
    assert_eq!(i.valid_cols(R0, 10), (0, 7));
    assert_eq!(i.valid_cols(R1, 10), (-2, 8));
    assert_eq!(i.valid_cols(R3, 10), (-1, 9));
    // too narrow for the lying I: no column
    let range = i.valid_cols(R0, 3);
    assert!(range.0 >= range.1);
    let range = i.valid_cols(R0, 0);
    assert!(range.0 >= range.1);
    assert_eq!(i.valid_cols(R0, 4), (0, 1));
}

#[test]
fn test_peak_falls_from_above() {
    let (xx, __) = (true, false);
    let srs = srs();
    let t = srs.shape(Color::n('T')).unwrap();
    let empty = BasicMatrix::with_cols(5);
    assert_eq!(t.peak(&empty, 0, R0), -1);
    assert_eq!(t.peak(&empty, 0, R2), 0);
    // x . . . .
    // . . . . .
    let m = cells(&[&[__, __, __, __, __], &[xx, __, __, __, __]]);
    // the T comes to rest on the overhang, not in the room under it
    assert_eq!(t.peak(&m, 0, R0), 1);
    assert_eq!(t.peak(&m, 1, R0), -1);
    let o = srs.shape(Color::n('O')).unwrap();
    assert_eq!(o.peak(&m, -1, R0), 1);
    assert_eq!(o.peak(&m, 0, R0), -1);
}

#[test]
fn test_sonic_drop() {
    let (xx, __) = (true, false);
    let srs = srs();
    let t = srs.shape(Color::n('T')).unwrap();
    let m = cells(&[&[__, __, __, __, __], &[xx, __, __, __, __]]);
    assert_eq!(t.sonic_drop(&m, (7, 1, R0)), (-1, 1, R0));
    assert_eq!(t.sonic_drop(&m, (7, 0, R0)), (1, 0, R0));
    // under the overhang it falls on to the floor
    assert_eq!(t.sonic_drop(&m, (-1, 0, R0)), (-1, 0, R0));
    // at rest it stays
    assert_eq!(t.sonic_drop(&m, (1, 0, R0)), (1, 0, R0));
    // where one more step is blocked it stays, room or not
    assert_eq!(t.sonic_drop(&m, (-5, 0, R0)), (-5, 0, R0));
    assert_eq!(t.sonic_drop(&m, (i16::MIN, 0, R0)), (i16::MIN, 0, R0));
}

#[test]
fn test_try_input_moves() {
    let (xx, __) = (true, false);
    let srs = srs();
    let t = srs.shape(Color::n('T')).unwrap();
    let m = cells(&[&[__, __, __, __, xx]]);
    assert_eq!(t.try_input(&m, (0, 1, R0), Input::Left), Some((0, 0, R0)));
    assert_eq!(t.try_input(&m, (0, 0, R0), Input::Left), None);
    assert_eq!(t.try_input(&m, (0, 1, R0), Input::Right), Some((0, 2, R0)));
    assert_eq!(t.try_input(&m, (0, 2, R0), Input::Right), None);
    // on the floor, one row lower, the filled cell blocks
    assert_eq!(t.try_input(&m, (-1, 0, R0), Input::Right), Some((-1, 1, R0)));
    assert_eq!(t.try_input(&m, (-1, 1, R0), Input::Right), None);
    // at the ends of the numbers nothing moves
    assert_eq!(t.try_input(&m, (0, i16::MIN, R0), Input::Left), None);
    assert_eq!(t.try_input(&m, (0, i16::MAX, R0), Input::Right), None);
}

#[test]
fn test_try_input_turns_and_kicks() {
    let srs = srs();
    let t = srs.shape(Color::n('T')).unwrap();
    let m = BasicMatrix::with_cols(4);
    // with room it turns in place
    assert_eq!(t.try_input(&m, (0, 0, R0), Input::CW), Some((0, 0, R1)));
    assert_eq!(t.try_input(&m, (0, 0, R0), Input::CCW), Some((0, 0, R3)));
    assert_eq!(t.try_input(&m, (0, 0, R1), Input::CW), Some((0, 0, R2)));
    assert_eq!(t.try_input(&m, (0, 0, R3), Input::CW), Some((0, 0, R0)));
    // at the left wall in R1 the first column of the box is empty; turned to
    // R2 the piece would stick out, and the first kick moves it right
    assert_eq!(t.try_input(&m, (0, -1, R1), Input::CW), Some((0, 0, R2)));
    assert_eq!(t.try_input(&m, (0, -1, R1), Input::CCW), Some((0, 0, R0)));
    // on the floor in R0 the lowest row of the box is empty; turned to R1 in
    // place the piece would reach below the floor, and so would it one
    // column further left; the third kick lifts it by one row
    assert_eq!(t.try_input(&m, (-1, 0, R0), Input::CW), Some((0, -1, R1)));
    // boxed in, no kick fits
    let mut pit = BasicMatrix::with_cols(3);
    for i in 0..6 {
        pit.set(i, 0);
        pit.set(i, 2);
    }
    assert_eq!(t.try_input(&pit, (5, 0, R0), Input::CW), Some((5, 0, R1)));
    let i = srs.shape(Color::n('I')).unwrap();
    assert_eq!(i.try_input(&pit, (0, -1, R3), Input::CW), None);
    assert_eq!(i.try_input(&pit, (0, -1, R3), Input::CCW), None);
    // the O turns in place
    let o = srs.shape(Color::n('O')).unwrap();
    assert_eq!(o.try_input(&m, (-1, 1, R0), Input::CW), Some((-1, 1, R1)));
    assert_eq!(o.try_input(&m, (-1, 1, R0), Input::CCW), Some((-1, 1, R3)));
}

#[test]
fn test_try_input_other_inputs_move_nothing() {
    let srs = srs();
    let t = srs.shape(Color::n('T')).unwrap();
    let m = BasicMatrix::with_cols(10);
    for input in [Input::Hold, Input::SD, Input::HD] {
        assert_eq!(t.try_input(&m, (5, 3, R0), input), None);
    }
}

#[test]
fn test_normalize_is_by_cells() {
    let srs = srs();
    // the S in R2 covers, one row higher, the cells it covers in R0
    let s = srs.shape(Color::n('S')).unwrap();
    assert_eq!(s.normalize((3, 4, R0)), s.normalize((4, 4, R2)));
    assert_ne!(s.normalize((3, 4, R0)), s.normalize((3, 4, R2)));
    // standing, R1 and R3 are one column apart
    assert_eq!(s.normalize((3, 4, R1)), s.normalize((3, 5, R3)));
    assert_ne!(s.normalize((3, 4, R1)), s.normalize((3, 4, R0)));
    // the I likewise
    let i = srs.shape(Color::n('I')).unwrap();
    assert_eq!(i.normalize((-1, 1, R0)), i.normalize((0, 1, R2)));
    assert_eq!(i.normalize((0, -2, R1)), i.normalize((0, -1, R3)));
    // the O covers the same cells in every orientation
    let o = srs.shape(Color::n('O')).unwrap();
    for r in Orientation::all() {
        assert_eq!(o.normalize((2, 2, r)), o.normalize((2, 2, R0)));
    }
    assert_ne!(o.normalize((2, 2, R0)), o.normalize((2, 3, R0)));
    assert_ne!(o.normalize((2, 2, R0)), o.normalize((3, 2, R0)));
    // the T covers different cells in each
    let t = srs.shape(Color::n('T')).unwrap();
    for r in Orientation::all() {
        for q in Orientation::all() {
            for di in -1..=1 {
                for dj in -1..=1 {
                    let same = r == q && di == 0 && dj == 0;
                    let a = t.normalize((5, 5, r));
                    let b = t.normalize((5 + di, 5 + dj, q));
                    assert_eq!(a == b, same);
                }
            }
        }
    }
    // the key tells the lowest row and the leftmost column
    let key = t.normalize((5, 7, R1));
    assert_eq!(key.color, Color::n('T'));
    assert_eq!(key.row, 5);
    assert_eq!(key.col, 8);
    assert_eq!(key.canon, R1);
    assert_eq!(s.normalize((4, 4, R2)).canon, R0);
    // different shapes never share a key
    assert_ne!(o.normalize((0, 0, R0)), t.normalize((0, 0, R0)));
}
