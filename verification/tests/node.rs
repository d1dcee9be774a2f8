use blockfish::{
    srs, BasicMatrix, Color, Node, Orientation::R0, Place, ScoreParams, Snapshot, State,
};

fn node_matrix(rows: &[&[bool]]) -> BasicMatrix {
    let mut matrix = BasicMatrix::with_cols(rows[0].len() as u16);
    for (i, row) in rows.iter().enumerate() {
        for (j, &filled) in row.iter().enumerate() {
            if filled {
                matrix.set(i as u16, j as u16);
            }
        }
    }
    matrix
}

fn colors(names: &str) -> Vec<Color> {
    names.chars().map(Color::n).collect()
}

#[test]
fn test_state_operations() {
    let mut s: State = Snapshot {
        hold: None,
        queue: colors("LTJI"),
        matrix: BasicMatrix::with_cols(10),
    }
    .into();
    assert!(!s.is_max_depth());
    assert_eq!(s.matrix().rows(), 0);
    assert_eq!(s.matrix().cols(), 10);
    assert_eq!(s.next(), (Some(Color::n('L')), Some(Color::n('T'))));

    let srs = srs();
    for (i, color) in colors("LTJI").into_iter().enumerate() {
        let shape = srs.shape(color).unwrap();
        let tf = ((i * 2) as i16 - 1, 0, R0);
        s.place(&Place::new(shape, tf, false));
    }
    assert!(s.is_max_depth());
    assert_eq!(s.matrix().rows(), 7);
    assert_eq!(s.next(), (None, None));
}

#[test]
fn test_state_use_hold() {
    // something already in hold
    let mut s: State = Snapshot {
        hold: Some(Color::n('S')),
        queue: colors("LTJI"),
        matrix: BasicMatrix::with_cols(10),
    }
    .into();
    assert_eq!(s.next(), (Some(Color::n('L')), Some(Color::n('S'))));
    s.pop(true);
    assert_eq!(s.next(), (Some(Color::n('T')), Some(Color::n('L'))));
    s.pop(false);
    assert_eq!(s.next(), (Some(Color::n('J')), Some(Color::n('L'))));
    // nothing previously in hold
    s = Snapshot {
        hold: None,
        queue: colors("LTJI"),
        matrix: BasicMatrix::with_cols(10),
    }
    .into();
    assert_eq!(s.next(), (Some(Color::n('L')), Some(Color::n('T'))));
    s.pop(true);
    assert_eq!(s.next(), (Some(Color::n('J')), Some(Color::n('L'))));
}

#[test]
fn test_state_nearly_empty_queue() {
    let mut s: State = Snapshot {
        hold: None,
        queue: vec![Color::n('I')],
        matrix: BasicMatrix::with_cols(10),
    }
    .into();
    assert_eq!(s.next(), (Some(Color::n('I')), None));
    s = Snapshot {
        hold: Some(Color::n('O')),
        queue: vec![],
        matrix: BasicMatrix::with_cols(10),
    }
    .into();
    assert_eq!(s.next(), (None, Some(Color::n('O'))));
}

#[test]
fn test_node_successor() {
    let srs = srs();
    let sp = ScoreParams::default();
    let (xx, __) = (true, false);

    // x . . . .
    // x x . . .
    let matrix = node_matrix(&[&[xx, xx, __, __, __], &[xx, __, __, __, __]]);
    let mut node = Node::new(
        Snapshot {
            hold: None,
            queue: vec![Color::n('L'), Color::n('O')],
            matrix,
        }
        .into(),
    );
    assert_eq!(node.depth(), 0);
    assert_eq!(node.trace().len(), 0);
    assert_eq!(node.state().is_goal(), false);

    // x . . . L
    // x x L L L  ==>  x . . . L
    let l = srs.shape(Color::n('L')).unwrap();
    let tf = (-1, 2, R0);
    node = node.successor(&sp, 3, &Place::new(l, tf, false));
    assert_eq!(node.depth(), 1);
    assert_eq!(node.state().next().0, Some(Color::n('O')));
    assert_eq!(node.state().next().1, None);
    assert_eq!(node.state().matrix(), &node_matrix(&[&[xx, __, __, __, xx]]));
    assert_eq!(node.trace(), [3]);
    assert_eq!(node.state().is_goal(), true);

    // O O . . .
    // O O . . .
    // x . . . L
    let o = srs.shape(Color::n('O')).unwrap();
    let tf = (0, -1, R0);
    node = node.successor(&sp, 4, &Place::new(o, tf, false));
    assert_eq!(node.depth(), 2);
    assert!(node.state().is_max_depth());
    assert_eq!(node.trace(), [3, 4]);
    assert_eq!(
        node.state().matrix(),
        &node_matrix(&[
            &[xx, __, __, __, xx],
            &[xx, xx, __, __, __],
            &[xx, xx, __, __, __],
        ])
    );
    assert_eq!(node.state().is_goal(), false);
}

#[test]
fn test_node_scores() {
    let srs = srs();
    let sp = ScoreParams::default();
    let (xx, __) = (true, false);
    let matrix = node_matrix(&[&[xx, xx, __, __, __], &[xx, __, __, __, __]]);
    let root = Node::new(
        Snapshot {
            hold: None,
            queue: vec![Color::n('L'), Color::n('O')],
            matrix,
        }
        .into(),
    );
    assert_eq!(root.score(), i64::MAX);
    assert_eq!(root.penalty(), 0);

    // a cleared row: the score is the depth less 1000
    let l = srs.shape(Color::n('L')).unwrap();
    let goal = root.successor(&sp, 0, &Place::new(l, (-1, 2, R0), false));
    assert_eq!(goal.score(), 1 - 1000);
    assert_eq!(goal.penalty(), 10);

    // no cleared row: the score of the matrix
    //   O O . . .
    //   O O . . .
    //   x . . . L
    // 3 rows, 1 hole under the O, transitions 2 + 1 + 1
    let o = srs.shape(Color::n('O')).unwrap();
    let next = goal.successor(&sp, 1, &Place::new(o, (0, -1, R0), false));
    assert_eq!(next.score(), 3 * 5 + 1 * 10 + 4 * 2);
    assert_eq!(next.penalty(), 20);
    assert_eq!(next.depth(), 2);
    // the root is untouched
    assert_eq!(root.depth(), 0);
    assert_eq!(root.state().matrix().rows(), 2);
}

#[test]
fn test_state_hold_with_empty_slot() {
    // no hold piece: a hold takes the second piece and keeps the first
    let mut s: State = Snapshot {
        hold: None,
        queue: colors("LTJ"),
        matrix: BasicMatrix::with_cols(10),
    }
    .into();
    s.pop(true);
    assert_eq!(s.next(), (Some(Color::n('J')), Some(Color::n('L'))));
    // a second hold swaps: L is played, J is held
    s.pop(true);
    assert_eq!(s.next(), (None, Some(Color::n('J'))));
    s.pop(true);
    assert_eq!(s.next(), (None, None));
    assert!(s.is_max_depth());
}

#[test]
fn test_state_goal_flag() {
    let srs = srs();
    let (xx, __) = (true, false);
    let mut s: State = Snapshot {
        hold: None,
        queue: colors("II"),
        matrix: node_matrix(&[&[__, __, __, __, xx]]),
    }
    .into();
    assert!(!s.is_goal());
    let i = srs.shape(Color::n('I')).unwrap();
    // the I fills the row
    s.place(&Place::new(i, (-2, 0, R0), false));
    assert!(s.is_goal());
    assert_eq!(s.matrix().rows(), 0);
    // the next I fills nothing
    s.place(&Place::new(i, (-2, 0, R0), false));
    assert!(!s.is_goal());
    assert_eq!(s.matrix().rows(), 1);
}

#[test]
fn test_state_clone_is_apart() {
    let srs = srs();
    let s: State = Snapshot {
        hold: None,
        queue: colors("TO"),
        matrix: BasicMatrix::with_cols(4),
    }
    .into();
    let mut t = s.clone();
    let shape = srs.shape(Color::n('T')).unwrap();
    t.place(&Place::new(shape, (-1, 0, R0), false));
    assert_eq!(s.matrix().rows(), 0);
    assert_eq!(t.matrix().rows(), 2);
    assert_eq!(s.next(), (Some(Color::n('T')), Some(Color::n('O'))));
    assert_eq!(t.next(), (Some(Color::n('O')), None));
}
