use tetris::shape::{Pos, Shape};

fn shape_of(cells: Vec<Pos>, anchor: Pos) -> Shape {
    Shape { positions: cells, anchor }
}

#[test]
fn variants_have_four_distinct_cells() {
    let mut v: u8 = 0;
    while v < 7 {
        let s = Shape::construct(v);
        let ps = s.iter_positions();
        assert_eq!(ps.len(), 4);
        for i in 0..ps.len() {
            for j in 0..ps.len() {
                if i != j {
                    assert_ne!(ps[i], ps[j]);
                }
            }
        }
        v += 1;
    }
}

#[test]
fn rotation_four_times_is_identity() {
    let mut v: u8 = 0;
    while v < 7 {
        let s = Shape::construct(v);
        let r = s.rotated().rotated().rotated().rotated();
        assert!(r.same_cells(&s));
        assert_eq!(r.anchor, s.anchor);
        v += 1;
    }
}

#[test]
fn rotation_once_moves_i_piece() {
    let s = Shape::construct(0);
    let r = s.rotated();
    // anchor (1, 0): (x, y) -> (-y + 0 + 1, x - 1 + 0)
    assert!(r.contains_pos(Pos(1, -1)));
    assert!(r.contains_pos(Pos(1, 0)));
    assert!(r.contains_pos(Pos(1, 1)));
    assert!(r.contains_pos(Pos(1, 2)));
    assert_eq!(r.iter_positions().len(), 4);
    assert_eq!(r.anchor, s.anchor);
}

#[test]
fn translation_composes() {
    let a = Pos(3, -2);
    let b = Pos(-1, 7);
    let mut v: u8 = 0;
    while v < 7 {
        let s = Shape::construct(v);
        let one = s.translated(a).translated(b);
        let two = s.translated(a.plus(b));
        assert!(one.same_cells(&two));
        assert_eq!(one.anchor, two.anchor);
        v += 1;
    }
}

#[test]
fn collision_is_symmetric() {
    let s = shape_of(vec![Pos(0, 0), Pos(1, 0)], Pos(0, 0));
    let t = shape_of(vec![Pos(1, 0), Pos(2, 0)], Pos(1, 0));
    let u = shape_of(vec![Pos(5, 5)], Pos(5, 5));
    assert!(s.collides_with(&t));
    assert!(t.collides_with(&s));
    assert!(!s.collides_with(&u));
    assert!(!u.collides_with(&s));
}

#[test]
fn remove_line_drops_row_and_shifts_above() {
    let mut s = shape_of(
        vec![Pos(0, 0), Pos(0, 1), Pos(0, 2), Pos(1, 1), Pos(2, 3)],
        Pos(0, 1),
    );
    s.remove_line(1);
    // row 1 vanished; rows above (0) moved down to 1; rows below (2, 3) kept.
    let ps = s.iter_positions();
    assert_eq!(ps.len(), 3);
    assert!(s.contains_pos(Pos(0, 1)));
    assert!(s.contains_pos(Pos(0, 2)));
    assert!(s.contains_pos(Pos(2, 3)));
    assert!(!s.contains_pos(Pos(0, 0)));
    assert!(!s.contains_pos(Pos(1, 1)));
    assert_eq!(s.anchor, Pos(0, 1));
}

#[test]
fn remove_line_can_empty_a_shape() {
    let mut s = shape_of(vec![Pos(0, 4), Pos(1, 4)], Pos(0, 4));
    s.remove_line(4);
    assert_eq!(s.iter_positions().len(), 0);
}

#[test]
fn random_shape_is_one_of_the_templates() {
    let s = Shape::new_random();
    assert_eq!(s.iter_positions().len(), 4);
    let mut matched = false;
    let mut v: u8 = 0;
    while v < 7 {
        let t = Shape::construct(v);
        if s.same_cells(&t) && s.anchor == t.anchor {
            matched = true;
        }
        v += 1;
    }
    assert!(matched);
}

#[test]
fn pos_plus_adds_componentwise() {
    assert_eq!(Pos(2, -3).plus(Pos(-5, 4)), Pos(-3, 1));
}
