use tetris::shape::{Pos, Shape};
use tetris::tetris::{Cell, Direction, Tetris};

fn shape_of(cells: Vec<Pos>, anchor: Pos) -> Shape {
    Shape { positions: cells, anchor }
}

fn board_with(width: i32, height: i32, current: Shape, fixed: Vec<Shape>) -> Tetris {
    Tetris { width, height, current_shape: current, fixed_shapes: fixed, lost: false }
}

#[test]
fn test() {
    let mut tetris = Tetris::new(10, 30);
    tetris.tick();
    tetris.tick();

    println!("{:#?}", tetris);
}

#[test]
fn spawn_is_at_top_middle() {
    let mut v: u8 = 0;
    while v < 7 {
        let t = Tetris::new_with_variant(10, 30, v);
        for p in t.current_shape.iter_positions() {
            assert!(p.1 >= 0);
        }
        assert!(t.current_shape.anchor.0 == 5 || t.current_shape.anchor.0 == 6);
        assert!(t.current_shape.anchor.1 == 0 || t.current_shape.anchor.1 == 1);
        assert!(!t.lost);
        assert_eq!(t.fixed_shapes.len(), 0);
        v += 1;
    }
}

#[test]
fn i_piece_falls_three_rows() {
    let mut t = Tetris::new_with_variant(10, 30, 0);
    t.tick_with_variant(0);
    t.tick_with_variant(0);
    t.tick_with_variant(0);
    assert!(!t.lost);
    assert_eq!(t.fixed_shapes.len(), 0);
    let ps = t.current_shape.iter_positions();
    assert_eq!(ps.len(), 4);
    for p in ps {
        assert_eq!(p.1, 3);
        assert!(5 <= p.0 && p.0 <= 8);
    }
    assert_eq!(t.current_shape.anchor, Pos(6, 3));
}

#[test]
fn shift_left_stops_at_the_wall() {
    let mut t = Tetris::new_with_variant(10, 30, 0);
    // I-piece cells at columns 5..=8; five shifts reach the wall.
    for _ in 0..5 {
        t.shift(Direction::Left);
    }
    let at_wall = t.current_shape.iter_positions();
    assert!(t.current_shape.contains_pos(Pos(0, 0)));
    assert!(t.current_shape.contains_pos(Pos(3, 0)));
    t.shift(Direction::Left);
    let after = t.current_shape.iter_positions();
    assert_eq!(at_wall, after);
}

#[test]
fn shift_right_moves_one_column() {
    let mut t = Tetris::new_with_variant(10, 30, 0);
    t.shift(Direction::Right);
    assert!(t.current_shape.contains_pos(Pos(6, 0)));
    assert!(t.current_shape.contains_pos(Pos(9, 0)));
    assert_eq!(t.current_shape.anchor, Pos(7, 0));
}

#[test]
fn rotate_at_right_wall_is_rejected() {
    let vertical = shape_of(
        vec![Pos(9, 2), Pos(9, 3), Pos(9, 4), Pos(9, 5)],
        Pos(9, 3),
    );
    let mut t = board_with(10, 30, vertical, vec![]);
    let before = t.current_shape.iter_positions();
    t.rotate();
    let after = t.current_shape.iter_positions();
    assert_eq!(before, after);
    assert_eq!(t.current_shape.anchor, Pos(9, 3));
}

#[test]
fn rotate_in_open_space_turns_the_piece() {
    let mut t = Tetris::new_with_variant(10, 30, 0);
    t.tick_with_variant(0);
    t.tick_with_variant(0);
    // anchor now (6, 2); the horizontal I turns vertical through it.
    t.rotate();
    assert!(t.current_shape.contains_pos(Pos(6, 1)));
    assert!(t.current_shape.contains_pos(Pos(6, 2)));
    assert!(t.current_shape.contains_pos(Pos(6, 3)));
    assert!(t.current_shape.contains_pos(Pos(6, 4)));
    assert_eq!(t.current_shape.anchor, Pos(6, 2));
}

#[test]
fn full_line_is_detected() {
    let a = shape_of(vec![Pos(0, 1)], Pos(0, 1));
    let b = shape_of(vec![Pos(1, 1), Pos(1, 0)], Pos(1, 1));
    let t = board_with(2, 2, shape_of(vec![Pos(0, 0)], Pos(0, 0)), vec![a, b]);
    assert!(t.is_line_full(1));
    assert!(!t.is_line_full(0));
}

#[test]
fn duplicate_cells_from_two_shapes_count_once() {
    let a = shape_of(vec![Pos(0, 1)], Pos(0, 1));
    let b = shape_of(vec![Pos(0, 1)], Pos(0, 1));
    let t = board_with(2, 2, shape_of(vec![Pos(1, 0)], Pos(1, 0)), vec![a, b]);
    assert!(!t.is_line_full(1));
}

#[test]
fn lock_clears_full_row_and_shifts_cells_down() {
    // Width 4: row 4 is full except column 3; a vertical domino fills it.
    let settled = shape_of(
        vec![Pos(0, 4), Pos(1, 4), Pos(2, 4), Pos(0, 3), Pos(0, 5)],
        Pos(0, 4),
    );
    let falling = shape_of(vec![Pos(3, 4), Pos(3, 5)], Pos(3, 4));
    let mut t = board_with(4, 6, falling, vec![settled]);
    t.tick_with_variant(1);
    assert!(!t.lost);
    assert_eq!(t.fixed_shapes.len(), 2);
    // The settled shape lost its three row-4 cells; (0, 3) dropped to (0, 4);
    // (0, 5), below the cleared row, is untouched.
    assert_eq!(t.fixed_shapes[0].iter_positions().len(), 2);
    assert!(t.fixed_shapes[0].contains_pos(Pos(0, 4)));
    assert!(t.fixed_shapes[0].contains_pos(Pos(0, 5)));
    // The locked domino lost its row-4 cell and kept (3, 5).
    assert_eq!(t.fixed_shapes[1].iter_positions().len(), 1);
    assert!(t.fixed_shapes[1].contains_pos(Pos(3, 5)));
    // An O-piece spawned at the middle of the top row.
    assert!(t.current_shape.contains_pos(Pos(2, 0)));
    assert!(t.current_shape.contains_pos(Pos(3, 0)));
    assert!(t.current_shape.contains_pos(Pos(2, 1)));
    assert!(t.current_shape.contains_pos(Pos(3, 1)));
}

#[test]
fn loss_is_sticky_and_freezes_the_board() {
    // A settled O-piece sits exactly where the next O-piece will spawn.
    let blocker = shape_of(
        vec![Pos(2, 0), Pos(3, 0), Pos(2, 1), Pos(3, 1)],
        Pos(2, 0),
    );
    let falling = shape_of(vec![Pos(0, 2)], Pos(0, 2));
    let mut t = board_with(4, 3, falling, vec![blocker]);
    t.tick_with_variant(1);
    assert!(t.lost);

    let current = t.current_shape.iter_positions();
    let fixed_count = t.fixed_shapes.len();
    t.tick_with_variant(0);
    t.tick();
    t.shift(Direction::Left);
    t.shift(Direction::Right);
    t.rotate();
    assert!(t.lost);
    assert_eq!(t.current_shape.iter_positions(), current);
    assert_eq!(t.fixed_shapes.len(), fixed_count);
}

#[test]
fn lock_without_full_row_keeps_cells() {
    let falling = shape_of(vec![Pos(0, 1)], Pos(0, 1));
    let mut t = board_with(2, 2, falling, vec![]);
    t.tick_with_variant(0);
    assert!(!t.lost);
    assert_eq!(t.fixed_shapes.len(), 1);
    assert_eq!(t.fixed_shapes[0].iter_positions().len(), 1);
    assert!(t.fixed_shapes[0].contains_pos(Pos(0, 1)));
    // The fresh I-piece spawned with its anchor at column 1.
    assert!(t.current_shape.contains_pos(Pos(1, 0)));
}

#[test]
fn draw_reports_active_and_settled_cells() {
    let falling = shape_of(vec![Pos(0, 0)], Pos(0, 0));
    let settled = shape_of(vec![Pos(2, 1)], Pos(2, 1));
    let t = board_with(3, 2, falling, vec![settled]);
    let buf = t.draw();
    assert_eq!(buf.len(), 6);
    assert_eq!(buf[0], Cell::Active);
    assert_eq!(buf[1], Cell::Inactive);
    assert_eq!(buf[2], Cell::Inactive);
    assert_eq!(buf[3], Cell::Inactive);
    assert_eq!(buf[4], Cell::Inactive);
    assert_eq!(buf[5], Cell::Active);
}

#[test]
fn bounds_and_collision_helpers() {
    let t = Tetris::new_with_variant(10, 30, 0);
    let inside = shape_of(vec![Pos(0, 0), Pos(9, 29)], Pos(0, 0));
    let outside = shape_of(vec![Pos(10, 0)], Pos(10, 0));
    let negative = shape_of(vec![Pos(-1, 0)], Pos(-1, 0));
    assert!(!t.is_out_of_bounds(&inside));
    assert!(t.is_out_of_bounds(&outside));
    assert!(t.is_out_of_bounds(&negative));
    // No settled pieces yet, so nothing collides.
    assert!(!t.is_colliding(&inside));
}

#[test]
fn new_board_starts_playing() {
    let t = Tetris::new(8, 16);
    assert_eq!(t.width, 8);
    assert_eq!(t.height, 16);
    assert!(!t.lost);
    assert_eq!(t.fixed_shapes.len(), 0);
    assert_eq!(t.current_shape.iter_positions().len(), 4);
}
