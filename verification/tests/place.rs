use blockfish::{
    srs, BasicMatrix, Color, Input::Left, Input::Right, Orientation, Orientation::R0,
    Orientation::R1, Orientation::R2, Orientation::R3, Place, PlaceFinder, ShapeTable, Snapshot,
};

fn basic_matrix(rows: &[&[bool]]) -> BasicMatrix {
    let mut matrix = BasicMatrix::with_cols(rows[0].len() as u16);
    for (i, row) in rows.iter().enumerate() {
        for (j, &filled) in row.iter().enumerate() {
            if filled {
                matrix.set(i as u16, j as u16);
            }
        }
    }
    matrix
}

/// Returns a `PlaceFinder` already primed with the snapshot `ss`.
fn placements<'s>(shtb: &'s ShapeTable, ss: Snapshot) -> PlaceFinder<'s> {
    let mut pfind = PlaceFinder::new(shtb);
    pfind.reset_matrix(&ss.matrix);
    if let Some(&c) = ss.queue.get(0) {
        pfind.push_shape(c, false);
    }
    if let Some(c) = ss.hold {
        pfind.push_shape(c, true);
    }
    pfind
}

fn collect<'s>(mut pfind: PlaceFinder<'s>) -> Vec<Place<'s>> {
    let mut places = Vec::new();
    while let Some(pl) = pfind.next() {
        places.push(pl);
    }
    places
}

#[test]
fn test_placements_idx() {
    let snapshot = Snapshot {
        queue: vec![Color::n('O')],
        hold: Some(Color::n('S')),
        matrix: BasicMatrix::with_cols(10),
    };
    let srs = srs();
    for (idx, pl) in collect(placements(&srs, snapshot)).into_iter().enumerate() {
        assert_eq!(pl.idx, idx);
    }
}

#[test]
fn test_overlapping_placements() {
    let snapshot = Snapshot {
        queue: vec![Color::n('O')],
        hold: Some(Color::n('S')),
        matrix: BasicMatrix::with_cols(10),
    };
    let mut o_count = 0;
    let mut s02_count = 0;
    let mut s13_count = 0;
    let srs = srs();
    for pl in collect(placements(&srs, snapshot)) {
        let c = pl.shape.color();
        let r = pl.tf.2;
        match c.as_char() {
            'O' => o_count += 1,
            'S' if r == R0 || r == R2 => s02_count += 1,
            'S' => s13_count += 1,
            _ => panic!("unexpected color {:?}", c),
        }
    }
    assert_eq!(o_count, 9);
    assert_eq!(s02_count, 8);
    assert_eq!(s13_count, 9);
}

#[test]
fn test_placements_w_hold() {
    let (xx, __) = (true, false);
    let snapshot = Snapshot {
        matrix: basic_matrix(&[&[__, __, xx]]),
        queue: vec![Color::n('T')],
        hold: Some(Color::n('L')),
    };

    let srs = srs();
    let mut places: Vec<_> = collect(placements(&srs, snapshot))
        .into_iter()
        .map(|pl| {
            let c = pl.shape.color();
            let (i, j, r) = pl.tf;
            (c.as_char(), r, i, j, pl.did_hold)
        })
        .collect();
    places.sort();
    assert_eq!(
        places,
        [
            ('L', R0, 0, 0, true),
            ('L', R1, 0, -1, true),
            ('L', R1, 1, 0, true),
            ('L', R2, 0, 0, true),
            ('L', R3, 0, 0, true),
            ('L', R3, 1, 1, true),
            ('T', R0, 0, 0, false),
            ('T', R1, 0, -1, false),
            ('T', R1, 0, 0, false),
            ('T', R2, 0, 0, false),
            ('T', R3, 0, 0, false),
            ('T', R3, 1, 1, false),
        ]
    );
}

#[test]
fn test_place_input() {
    let srs = srs();
    let (xx, __) = (true, false);
    //         T
    //       T T T
    // . . . . . x
    // . . . . . x
    // . . . x . x
    let mat = basic_matrix(&[
        &[__, __, __, xx, __, xx],
        &[__, __, __, __, __, xx],
        &[__, __, __, __, __, xx],
    ]);
    let t = srs.shape(Color::n('T')).unwrap();
    let pl = Place::new(t, (2, 3, R0), false);

    // right movement fails
    assert!(pl.input(&mat, Right).is_none());
    // left movement succeeds
    let pl = pl.input(&mat, Left).unwrap();
    assert_eq!(pl.tf, (0, 2, R0));
    // 2nd left movement succeeds
    let pl = pl.input(&mat, Left).unwrap();
    assert_eq!(pl.tf, (0, 1, R0));
    // 3rd left movement succeeds
    let pl = pl.input(&mat, Left).unwrap();
    assert_eq!(pl.tf, (-1, 0, R0));
    // 4th left movement fails
    assert!(pl.input(&mat, Left).is_none());
}

fn all_places(matrix: BasicMatrix, (color_char, r): (char, Orientation)) -> Vec<(i16, i16)> {
    let snapshot = Snapshot {
        hold: None,
        queue: vec![Color::n(color_char)],
        matrix,
    };
    let srs = srs();
    let mut places: Vec<_> = collect(placements(&srs, snapshot))
        .into_iter()
        .filter(|pl| pl.tf.2 == r)
        .map(|pl| (pl.tf.0, pl.tf.1))
        .collect();
    places.sort();
    places
}

fn all_o_places(matrix: BasicMatrix) -> Vec<(i16, i16)> {
    let snapshot = Snapshot {
        hold: None,
        queue: vec![Color::n('O')],
        matrix,
    };
    let srs = srs();
    let mut places: Vec<_> = collect(placements(&srs, snapshot))
        .into_iter()
        .map(|pl| (pl.tf.0, pl.tf.1))
        .collect();
    places.sort();
    places
}

#[test]
fn test_tuck_easy() {
    let (xx, __) = (true, false);
    assert_eq!(
        all_places(
            basic_matrix(&[&[__, __, __, __, __], &[xx, __, __, __, __]]),
            ('T', R0)
        ),
        [
            // x . . . .      x T . . .
            // . . . . .  ->  T T T . .
            //                  (-1,0)
            (-1, 0),
            (-1, 1),
            (-1, 2),
            (1, 0),
        ]
    );

    assert_eq!(
        all_places(
            basic_matrix(&[
                &[__, __, __, __, __],
                &[__, __, __, xx, __],
                &[__, __, __, xx, __],
            ]),
            ('T', R0)
        ),
        [
            // . . . x .      . . . x .
            // . . . x .      . . T x .
            // . . . . .  ->  . T T T .
            //                  (-1,1)
            (-1, 0),
            (-1, 1),
            (2, 1),
            (2, 2),
        ]
    );
}

#[test]
fn test_tuck_double_sd() {
    let (xx, __) = (true, false);
    assert_eq!(
        all_o_places(basic_matrix(&[
            &[__, __, __, xx, __],
            &[__, __, __, xx, xx],
            &[__, __, __, __, __],
            &[__, __, __, __, __],
            &[xx, xx, xx, __, __],
        ])),
        [
            // x x x . .      x x x . .      x x x . .      x x x . .
            // . . . . .      . . O O .      . . . . .      . . . . .
            // . . . . .  ->  . . O O .  ->  . . . . .  ->  . . . . .
            // . . . x x      . . . x x      . O O x x      O O . x x
            // . . . x .      . . . x .      . O O x .      O O . x .
            //                  (1,1)          (-1,0)         (-1,-1)
            //                SD,L           SD,L,L         SD,L,L,SD,L
            (-1, -1),
            (-1, 0),
            (1, 1),
            (1, 2),
            (4, -1),
            (4, 0),
            (4, 1),
        ]
    );
}

#[test]
fn test_tuck_ambiguous() {
    let (xx, __) = (true, false);
    assert_eq!(
        all_o_places(basic_matrix(&[
            &[__, __, __, __, __],
            &[__, __, __, __, __],
            &[__, __, xx, __, __],
        ])),
        [
            // . . x . .      . . x . .      . . x . .
            // . . . . .  ->  . O O . .  ->  . . O O .
            // . . . . .      . O O . .      . . O O .
            //                  (-1,0)         (-1,1)
            //                SD,R           SD,R,R
            //                SD,L,L         SD,L
            (-1, -1),
            (-1, 0),
            (-1, 1),
            (-1, 2),
            (2, 0),
            (2, 1),
        ]
    );
}

#[test]
fn test_tspeen() {
    let (xx, __) = (true, false);
    assert_eq!(
        all_places(
            // x . . .
            // . . . x
            // x . x x
            basic_matrix(&[&[xx, __, xx, xx], &[__, __, __, xx], &[xx, __, __, __]]),
            ('T', R2)
        ),
        [(0, 0), (1, 1), (2, 0),]
    );
}

#[test]
fn test_lspeen() {
    let (xx, __) = (true, false);
    assert_eq!(
        all_places(
            basic_matrix(&[&[__, __, __, __, __], &[xx, xx, __, xx, xx]]),
            ('L', R0)
        ),
        [
            // . . . . .      . L L . .      . . . . .
            // x x . x x      x x L x x      x x L x x
            // . . . . .  ->  . . L . .  ->  L L L . .
            //                                 (-1,0)
            (-1, 0),
            (1, 0),
            (1, 1),
            (1, 2),
        ]
    );
}

#[test]
fn test_s_spin_triple() {
    let (xx, __) = (true, false);
    let places = all_places(
        basic_matrix(&[
            &[xx, xx, __, xx],
            &[xx, __, __, xx],
            &[xx, __, xx, xx],
            &[__, __, __, __],
            &[xx, __, __, __],
        ]),
        ('S', R1),
    );
    assert!(places.contains(&(0, 0)), "{:?}", places);
}

#[test]
fn test_s_spin_triple_overhangless() {
    let (xx, __) = (true, false);
    let places = all_places(
        basic_matrix(&[
            &[xx, xx, __, xx],
            &[xx, __, __, xx],
            &[xx, __, xx, xx],
            &[__, __, __, xx],
        ]),
        ('S', R3),
    );
    assert!(places.contains(&(0, 1)), "{:?}", places);
}

#[test]
fn test_pierce() {
    let (xx, __) = (true, false);
    // . . . x . .   . . . x . .
    // . . . . . .   . . . . . .
    // x . . . . x   x I I I I x
    // x x . x x x   x x . x x x
    let mat = basic_matrix(&[
        &[xx, xx, __, xx, xx, xx],
        &[xx, __, __, __, __, xx],
        &[__, __, __, __, __, __],
        &[__, __, __, xx, __, __],
    ]);
    let r0_places = all_places(mat.clone(), ('I', R0));
    let r2_places = all_places(mat.clone(), ('I', R2));
    assert!(
        r0_places.contains(&(-1, 1)) || r2_places.contains(&(0, 1)),
        "R0: {:?}, R2: {:?}",
        r0_places,
        r2_places
    );
}

#[test]
fn test_yield_is_numbered_unique_and_at_rest() {
    let (xx, __) = (true, false);
    let matrix = basic_matrix(&[
        &[xx, xx, __, xx, xx, xx],
        &[xx, __, __, __, __, xx],
        &[__, __, __, __, __, __],
        &[__, __, __, xx, __, __],
    ]);
    let srs = srs();
    for name in "IJLOSTZ".chars() {
        let snapshot = Snapshot {
            hold: Some(Color::n('T')),
            queue: vec![Color::n(name)],
            matrix: matrix.clone(),
        };
        let places = collect(placements(&srs, snapshot));
        assert!(!places.is_empty());
        for (k, pl) in places.iter().enumerate() {
            // numbered in the order handed out
            assert_eq!(pl.idx, k);
            // at rest: it has room, and none one row lower
            assert!(!matrix.overlaps(pl.shape, pl.tf));
            assert!(matrix.overlaps(pl.shape, (pl.tf.0 - 1, pl.tf.1, pl.tf.2)));
            assert_eq!(pl.shape.sonic_drop(&matrix, pl.tf), pl.tf);
            // no other covers the same cells
            for other in &places[..k] {
                assert_ne!(other.normal(), pl.normal());
            }
        }
    }
}

#[test]
fn test_same_priming_same_indices() {
    let (xx, __) = (true, false);
    let matrix = basic_matrix(&[&[xx, __, __, __, __, __, xx], &[xx, xx, __, __, __, __, __]]);
    let srs = srs();
    let run = |m: &BasicMatrix| {
        let snapshot = Snapshot {
            hold: Some(Color::n('J')),
            queue: vec![Color::n('S')],
            matrix: m.clone(),
        };
        collect(placements(&srs, snapshot))
            .into_iter()
            .map(|pl| (pl.idx, pl.shape.color(), pl.tf, pl.did_hold))
            .collect::<Vec<_>>()
    };
    assert_eq!(run(&matrix), run(&matrix));
}

#[test]
fn test_reset_forgets_the_run_before() {
    let srs = srs();
    let mut pfind = PlaceFinder::new(&srs);
    // nothing is handed out before the finder is primed
    assert!(pfind.next().is_none());
    pfind.reset_matrix(&BasicMatrix::with_cols(4));
    assert!(pfind.next().is_none());
    assert!(pfind.push_shape(Color::n('O'), false));
    let mut first = 0;
    while let Some(pl) = pfind.next() {
        assert_eq!(pl.idx, first);
        first += 1;
    }
    assert_eq!(first, 3);
    // primed anew, the positions start at 0 again
    pfind.reset_matrix(&BasicMatrix::with_cols(5));
    assert!(pfind.push_shape(Color::n('O'), true));
    let mut second = 0;
    while let Some(pl) = pfind.next() {
        assert_eq!(pl.idx, second);
        assert!(pl.did_hold);
        second += 1;
    }
    assert_eq!(second, 4);
}

#[test]
fn test_push_shape_without_shape() {
    let srs = srs();
    let mut pfind = PlaceFinder::new(&srs);
    pfind.reset_matrix(&BasicMatrix::with_cols(10));
    // 'G' is the color of garbage: no shape has it
    assert!(!pfind.push_shape(Color::n('G'), false));
    assert!(pfind.next().is_none());
}

#[test]
fn test_matrix_too_narrow() {
    let srs = srs();
    let mut pfind = PlaceFinder::new(&srs);
    pfind.reset_matrix(&BasicMatrix::with_cols(2));
    // the I piece lies in two columns only when it stands; standing in R1
    // it covers the cells that it covers in R3 one column further right
    assert!(pfind.push_shape(Color::n('I'), false));
    let mut places = Vec::new();
    while let Some(pl) = pfind.next() {
        let cells_from = if pl.tf.2 == R1 { pl.tf.1 + 2 } else { pl.tf.1 + 1 };
        assert!(pl.tf.2 == R1 || pl.tf.2 == R3);
        places.push((pl.tf.0, cells_from));
    }
    places.sort();
    assert_eq!(places, [(0, 0), (0, 1)]);
}
