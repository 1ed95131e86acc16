use vstd::prelude::*;
use crate::shape::{
    Pos, Shape, pos_cell, cells_of_seq, translated_cells, rotated_cells, cells_collide,
    line_removed_cells, template_positions, template_anchor, lemma_cells_of_seq_membership,
    lemma_template_bounds, random_variant,
};

verus! {

/// A lateral move request.
#[derive(Clone, Copy, PartialEq, Eq, Structural, Debug)]
pub enum Direction {
    Left,
    Right,
}

/// One cell of the display read-out.
#[derive(Clone, Copy, PartialEq, Eq, Structural, Debug)]
pub enum Cell {
    Active,
    Inactive,
}

/// The horizontal displacement a direction stands for.
pub open spec fn direction_dx(d: Direction) -> int {
    match d {
        Direction::Left => -1,
        Direction::Right => 1,
    }
}

/// Whether a cell lies on the board.
pub open spec fn in_bounds_cell(c: (int, int), w: int, h: int) -> bool {
    0 <= c.0 < w && 0 <= c.1 < h
}

/// Whether any cell of the set lies off the board.
pub open spec fn cells_out_of_bounds(cells: Set<(int, int)>, w: int, h: int) -> bool {
    exists|c: (int, int)| cells.contains(c) && !in_bounds_cell(c, w, h)
}

/// Whether the cell set shares a position with any of the fixed cell sets.
pub open spec fn hits_fixed(fixed: Seq<Set<(int, int)>>, cells: Set<(int, int)>) -> bool {
    exists|i: int| 0 <= i < fixed.len() && cells_collide(#[trigger] fixed[i], cells)
}

/// The columns occupied at row `y` by any of the fixed cell sets.
pub open spec fn row_xs(fixed: Seq<Set<(int, int)>>, y: int) -> Set<int> {
    Set::new(|x: int| exists|i: int| 0 <= i < fixed.len() && (#[trigger] fixed[i]).contains((x, y)))
}

/// A row is full when the deduplicated cells at that row number exactly the
/// board width.
pub open spec fn row_full(fixed: Seq<Set<(int, int)>>, y: int, w: int) -> bool {
    row_xs(fixed, y).finite() && row_xs(fixed, y).len() == w
}

/// One pass of the line-clear sweep at row `y`: if the row is full, every
/// fixed cell set drops its row-`y` cells and shifts the cells above down.
pub open spec fn rows_cleared_at(fixed: Seq<Set<(int, int)>>, y: int, w: int) -> Seq<
    Set<(int, int)>,
> {
    if row_full(fixed, y, w) {
        fixed.map_values(|s: Set<(int, int)>| line_removed_cells(s, y))
    } else {
        fixed
    }
}

/// The line-clear sweep over rows `0, 1, ..., y - 1`, in ascending order,
/// each row judged against the state left by the previous rows.
pub open spec fn rows_cleared_upto(fixed: Seq<Set<(int, int)>>, w: int, y: int) -> Seq<
    Set<(int, int)>,
>
    decreases y,
{
    if y <= 0 {
        fixed
    } else {
        rows_cleared_at(rows_cleared_upto(fixed, w, y - 1), y - 1, w)
    }
}

/// The cells of a freshly spawned piece of variant `v`: the template shifted
/// so its anchor column is the middle of the board.
pub open spec fn spawn_cells(v: int, w: int) -> Set<(int, int)> {
    translated_cells(cells_of_seq(template_positions(v)), w / 2, 0)
}

/// The anchor of a freshly spawned piece of variant `v`.
pub open spec fn spawn_anchor(v: int, w: int) -> (int, int) {
    (template_anchor(v).0 + w / 2, template_anchor(v).1 as int)
}

/// Every cell within a margin of four around the board: the region any
/// reachable shape stays inside, which keeps the move arithmetic in range.
pub open spec fn cells_in_box(cells: Set<(int, int)>, w: int, h: int) -> bool {
    forall|c: (int, int)| #[trigger] cells.contains(c) ==> -4 <= c.0 <= w + 4 && -4 <= c.1 <= h + 4
}

/// Every cell within three of the anchor: true of the templates and kept by
/// translation and rotation, it bounds the anchor whenever a cell is bounded.
pub open spec fn anchor_near(s: Shape) -> bool {
    forall|c: (int, int)| #[trigger] s.cells().contains(c)
        ==> -3 <= c.0 - s.anchor.0 <= 3 && -3 <= c.1 - s.anchor.1 <= 3
}

/// The falling-block board: dimensions, the piece being steered, the settled
/// pieces, and the sticky loss flag.
#[derive(Debug)]
pub struct Tetris {
    pub width: i32,
    pub height: i32,
    pub current_shape: Shape,
    pub fixed_shapes: Vec<Shape>,
    pub lost: bool,
}

impl Tetris {
    /// The settled pieces, as a sequence of cell sets.
    pub open spec fn fixed_cells(&self) -> Seq<Set<(int, int)>> {
        self.fixed_shapes@.map_values(|s: Shape| s.cells())
    }

    /// The board invariant: sane dimensions, a nonempty duplicate-free active
    /// piece near its anchor inside the margin box, and duplicate-free fixed
    /// pieces inside the margin box.
    pub open spec fn wf(&self) -> bool {
        &&& 1 <= self.width <= 0x1000_0000
        &&& 1 <= self.height <= 0x1000_0000
        &&& self.current_shape.wf()
        &&& self.current_shape.positions@.len() > 0
        &&& cells_in_box(self.current_shape.cells(), self.width as int, self.height as int)
        &&& anchor_near(self.current_shape)
        &&& -8 <= self.current_shape.anchor.0 <= self.width + 8
        &&& -8 <= self.current_shape.anchor.1 <= self.height + 8
        &&& forall|i: int|
            0 <= i < self.fixed_shapes@.len() ==> {
                &&& (#[trigger] self.fixed_shapes@[i]).wf()
                &&& cells_in_box(
                    self.fixed_shapes@[i].cells(),
                    self.width as int,
                    self.height as int,
                )
            }
    }
}

/// A shape whose cells sit in the margin box of a bounded board, with a
/// bounded anchor, has the machine-integer headroom for any one-step move and
/// for the quarter-turn.
pub proof fn lemma_box_headroom(s: Shape, w: int, h: int, d: Pos)
    requires
        1 <= w <= 0x1000_0000,
        1 <= h <= 0x1000_0000,
        cells_in_box(s.cells(), w, h),
        -8 <= s.anchor.0 <= w + 8,
        -8 <= s.anchor.1 <= h + 8,
        -0x1000_0000 <= d.0 <= 0x1000_0000,
        -0x1000_0000 <= d.1 <= 0x1000_0000,
    ensures
        s.can_translate(d),
        s.can_rotate(),
{
    assert forall|k: int| 0 <= k < s.positions@.len() implies {
        &&& -4 <= (#[trigger] s.positions@[k]).0 <= w + 4
        &&& -4 <= s.positions@[k].1 <= h + 4
    } by {
        lemma_cells_of_seq_membership(s.positions@, pos_cell(s.positions@[k]));
        assert(s.cells().contains(pos_cell(s.positions@[k])));
    }
}

impl Tetris {
    /// Whether any cell of `shape` lies off the board.
    pub fn is_out_of_bounds(&self, shape: &Shape) -> (r: bool)
        ensures
            r == cells_out_of_bounds(shape.cells(), self.width as int, self.height as int),
    {
        let w = self.width;
        let h = self.height;
        let mut i: usize = 0;
        while i < shape.positions.len()
            invariant
                0 <= i <= shape.positions@.len(),
                w == self.width,
                h == self.height,
                forall|k: int|
                    0 <= k < i ==> in_bounds_cell(
                        pos_cell(#[trigger] shape.positions@[k]),
                        w as int,
                        h as int,
                    ),
            decreases shape.positions@.len() - i,
        {
            let p = shape.positions[i];
            if !(0 <= p.0 && p.0 < w && 0 <= p.1 && p.1 < h) {
                proof {
                    lemma_cells_of_seq_membership(shape.positions@, pos_cell(p));
                    assert(shape.cells().contains(pos_cell(p)));
                }
                return true;
            }
            i = i + 1;
        }
        proof {
            if cells_out_of_bounds(shape.cells(), w as int, h as int) {
                let c = choose|c: (int, int)|
                    shape.cells().contains(c) && !in_bounds_cell(c, w as int, h as int);
                lemma_cells_of_seq_membership(shape.positions@, c);
                let k = choose|k: int|
                    0 <= k < shape.positions@.len() && pos_cell(#[trigger] shape.positions@[k])
                        == c;
                assert(in_bounds_cell(pos_cell(shape.positions@[k]), w as int, h as int));
            }
        }
        false
    }

    /// Whether `shape` shares a cell with any settled piece.
    pub fn is_colliding(&self, shape: &Shape) -> (r: bool)
        ensures
            r == hits_fixed(self.fixed_cells(), shape.cells()),
    {
        let mut i: usize = 0;
        while i < self.fixed_shapes.len()
            invariant
                0 <= i <= self.fixed_shapes@.len(),
                forall|k: int|
                    0 <= k < i ==> !cells_collide(
                        (#[trigger] self.fixed_shapes@[k]).cells(),
                        shape.cells(),
                    ),
            decreases self.fixed_shapes@.len() - i,
        {
            if self.fixed_shapes[i].collides_with(shape) {
                proof {
                    assert(self.fixed_cells()[i as int] == self.fixed_shapes@[i as int].cells());
                }
                return true;
            }
            i = i + 1;
        }
        proof {
            if hits_fixed(self.fixed_cells(), shape.cells()) {
                let k = choose|k: int|
                    0 <= k < self.fixed_cells().len() && cells_collide(
                        #[trigger] self.fixed_cells()[k],
                        shape.cells(),
                    );
                assert(!cells_collide(self.fixed_shapes@[k].cells(), shape.cells()));
            }
        }
        false
    }
}

/// Build the active piece of variant `v` at the spawn position: the template
/// translated so its anchor sits at column `width / 2`, row unchanged.
fn spawn_shape(width: i32, v: u8) -> (r: Shape)
    requires
        v < 7,
        1 <= width <= 0x1000_0000,
    ensures
        r.wf(),
        r.positions@.len() == 4,
        r.cells() == spawn_cells(v as int, width as int),
        pos_cell(r.anchor) == spawn_anchor(v as int, width as int),
        anchor_near(r),
        forall|c: (int, int)| #[trigger] r.cells().contains(c)
            ==> -1 <= c.0 <= width / 2 + 3 && 0 <= c.1 <= 2,
{
    let t = Shape::construct(v);
    let d = Pos(width / 2, 0);
    proof {
        lemma_template_bounds(v as int);
        assert(t.can_translate(d));
    }
    let r = t.translated(d);
    proof {
        let w2 = (width / 2) as int;
        assert forall|c: (int, int)| #[trigger] r.cells().contains(c) implies {
            &&& -1 <= c.0 <= width / 2 + 3
            &&& 0 <= c.1 <= 2
            &&& -3 <= c.0 - r.anchor.0 <= 3
            &&& -3 <= c.1 - r.anchor.1 <= 3
        } by {
            assert(t.cells().contains((c.0 - w2, c.1)));
            lemma_cells_of_seq_membership(t.positions@, (c.0 - w2, c.1));
            let k = choose|k: int|
                0 <= k < t.positions@.len() && pos_cell(#[trigger] t.positions@[k]) == (
                    c.0 - w2,
                    c.1,
                );
        }
    }
    r
}

/// Whether the sequence holds the column value `x`.
pub open spec fn xs_has(xs: Seq<i32>, x: int) -> bool {
    exists|n: int| 0 <= n < xs.len() && (#[trigger] xs[n]) as int == x
}

/// Linear membership scan over a column list.
fn contains_i32(xs: &Vec<i32>, x: i32) -> (r: bool)
    ensures
        r == xs_has(xs@, x as int),
{
    let mut i: usize = 0;
    while i < xs.len()
        invariant
            0 <= i <= xs@.len(),
            forall|n: int| 0 <= n < i ==> (#[trigger] xs@[n]) != x,
        decreases xs@.len() - i,
    {
        if xs[i] == x {
            return true;
        }
        i = i + 1;
    }
    proof {
        if xs_has(xs@, x as int) {
            let n = choose|n: int| 0 <= n < xs@.len() && (#[trigger] xs@[n]) as int == x as int;
            assert(xs@[n] != x);
        }
    }
    false
}

impl Tetris {
    /// Whether row `y` is full: the deduplicated settled cells at that row
    /// number exactly the board width.
    pub fn is_line_full(&self, y: i32) -> (r: bool)
        requires
            self.wf(),
        ensures
            r == row_full(self.fixed_cells(), y as int, self.width as int),
    {
        let mut xs: Vec<i32> = Vec::new();
        let mut i: usize = 0;
        while i < self.fixed_shapes.len()
            invariant
                self.wf(),
                0 <= i <= self.fixed_shapes@.len(),
                xs@.no_duplicates(),
                forall|n: int|
                    0 <= n < xs@.len() ==> row_xs(self.fixed_cells(), y as int).contains(
                        (#[trigger] xs@[n]) as int,
                    ),
                forall|k: int, x: int|
                    0 <= k < i && #[trigger] self.fixed_cells()[k].contains((x, y as int))
                        ==> xs_has(xs@, x),
            decreases self.fixed_shapes@.len() - i,
        {
            let shape = &self.fixed_shapes[i];
            let mut j: usize = 0;
            while j < shape.positions.len()
                invariant
                    self.wf(),
                    0 <= i < self.fixed_shapes@.len(),
                    shape == &self.fixed_shapes@[i as int],
                    0 <= j <= shape.positions@.len(),
                    xs@.no_duplicates(),
                    forall|n: int|
                        0 <= n < xs@.len() ==> row_xs(self.fixed_cells(), y as int).contains(
                            (#[trigger] xs@[n]) as int,
                        ),
                    forall|k: int, x: int|
                        0 <= k < i && #[trigger] self.fixed_cells()[k].contains((x, y as int))
                            ==> xs_has(xs@, x),
                    forall|m: int|
                        0 <= m < j && (#[trigger] shape.positions@[m]).1 == y ==> xs_has(
                            xs@,
                            shape.positions@[m].0 as int,
                        ),
                decreases shape.positions@.len() - j,
            {
                let p = shape.positions[j];
                if p.1 == y {
                    if !contains_i32(&xs, p.0) {
                        let ghost xs0 = xs@;
                        xs.push(p.0);
                        proof {
                            assert forall|a: int, b: int|
                                0 <= a < xs@.len() && 0 <= b < xs@.len() && a != b
                                implies xs@[a] != xs@[b] by {
                                if a < xs0.len() && b < xs0.len() {
                                    assert(xs0[a] != xs0[b]);
                                } else if a < xs0.len() {
                                    assert(xs@[b] == p.0 && !xs_has(xs0, p.0 as int));
                                    assert(xs0[a] as int != p.0 as int);
                                } else if b < xs0.len() {
                                    assert(xs@[a] == p.0 && !xs_has(xs0, p.0 as int));
                                    assert(xs0[b] as int != p.0 as int);
                                }
                            }
                            lemma_cells_of_seq_membership(shape.positions@, pos_cell(p));
                            assert(shape.cells().contains((p.0 as int, y as int)));
                            assert(self.fixed_cells()[i as int] == shape.cells());
                            assert(row_xs(self.fixed_cells(), y as int).contains(p.0 as int));
                            assert forall|n: int| 0 <= n < xs@.len() implies row_xs(
                                self.fixed_cells(),
                                y as int,
                            ).contains((#[trigger] xs@[n]) as int) by {
                                if n < xs0.len() {
                                    assert(xs@[n] == xs0[n]);
                                }
                            }
                            assert forall|k: int, x: int|
                                0 <= k < i && #[trigger] self.fixed_cells()[k].contains(
                                    (x, y as int),
                                ) implies xs_has(xs@, x) by {
                                let n = choose|n: int|
                                    0 <= n < xs0.len() && (#[trigger] xs0[n]) as int == x;
                                assert(xs@[n] as int == x);
                            }
                            assert forall|m: int|
                                0 <= m < j + 1 && (#[trigger] shape.positions@[m]).1 == y
                                implies xs_has(xs@, shape.positions@[m].0 as int) by {
                                if m < j {
                                    let n = choose|n: int|
                                        0 <= n < xs0.len() && (#[trigger] xs0[n]) as int
                                            == shape.positions@[m].0 as int;
                                    assert(xs@[n] as int == shape.positions@[m].0 as int);
                                } else {
                                    assert(xs@[xs@.len() - 1] == p.0);
                                }
                            }
                        }
                    }
                }
                j = j + 1;
            }
            proof {
                assert forall|k: int, x: int|
                    0 <= k < i + 1 && #[trigger] self.fixed_cells()[k].contains((x, y as int))
                    implies xs_has(xs@, x) by {
                    if k == i {
                        assert(self.fixed_cells()[k] == self.fixed_shapes@[k].cells());
                        lemma_cells_of_seq_membership(
                            self.fixed_shapes@[k].positions@,
                            (x, y as int),
                        );
                        let m = choose|m: int|
                            0 <= m < self.fixed_shapes@[k].positions@.len() && pos_cell(
                                #[trigger] self.fixed_shapes@[k].positions@[m],
                            ) == (x, y as int);
                        assert(shape.positions@[m].1 == y);
                        assert(xs_has(xs@, shape.positions@[m].0 as int));
                    }
                }
            }
            i = i + 1;
        }
        proof {
            broadcast use vstd::seq_lib::seq_to_set_is_finite;

            let mv = xs@.map_values(|x: i32| x as int);
            assert(mv.no_duplicates()) by {
                assert forall|a: int, b: int|
                    0 <= a < mv.len() && 0 <= b < mv.len() && a != b implies mv[a] != mv[b] by {
                    assert(xs@[a] != xs@[b]);
                }
            }
            mv.unique_seq_to_set();
            assert forall|z: int|
                mv.to_set().contains(z) <==> row_xs(
                    self.fixed_cells(),
                    y as int,
                ).contains(z) by {
                if mv.to_set().contains(z) {
                    let n = choose|n: int| 0 <= n < mv.len() && mv[n] == z;
                    assert(xs@[n] as int == z);
                    assert(row_xs(self.fixed_cells(), y as int).contains(z));
                }
                if row_xs(self.fixed_cells(), y as int).contains(z) {
                    let n = choose|n: int| 0 <= n < xs@.len() && (#[trigger] xs@[n]) as int == z;
                    assert(mv[n] == z);
                    assert(mv.contains(z));
                }
            }
            assert(mv.to_set() =~= row_xs(self.fixed_cells(), y as int));
            assert(row_xs(self.fixed_cells(), y as int).len() == xs@.len());
        }
        xs.len() == self.width as usize
    }

    /// Clear row `y` in every settled piece: each independently drops its
    /// row-`y` cells and shifts its cells above the row down by one.
    fn remove_line(&mut self, y: i32)
        requires
            old(self).wf(),
            0 <= y < old(self).height,
        ensures
            final(self).wf(),
            final(self).width == old(self).width,
            final(self).height == old(self).height,
            final(self).lost == old(self).lost,
            final(self).current_shape == old(self).current_shape,
            final(self).fixed_cells() == old(self).fixed_cells().map_values(
                |s: Set<(int, int)>| line_removed_cells(s, y as int),
            ),
    {
        let n = self.fixed_shapes.len();
        let mut i: usize = 0;
        while i < n
            invariant
                0 <= i <= n,
                n == old(self).fixed_shapes@.len(),
                self.width == old(self).width,
                self.height == old(self).height,
                self.lost == old(self).lost,
                self.current_shape == old(self).current_shape,
                old(self).wf(),
                0 <= y < old(self).height,
                self.fixed_shapes@.len() == n,
                forall|k: int|
                    0 <= k < n - i ==> #[trigger] self.fixed_shapes@[k] == old(
                        self,
                    ).fixed_shapes@[k + i],
                forall|k: int|
                    n - i <= k < n ==> {
                        &&& (#[trigger] self.fixed_shapes@[k]).wf()
                        &&& self.fixed_shapes@[k].cells() == line_removed_cells(
                            old(self).fixed_shapes@[k - (n - i)].cells(),
                            y as int,
                        )
                        &&& cells_in_box(
                            self.fixed_shapes@[k].cells(),
                            self.width as int,
                            self.height as int,
                        )
                    },
            decreases n - i,
        {
            let mut s = self.fixed_shapes.remove(0);
            let ghost s_pre = s;
            s.remove_line(y);
            proof {
                assert(s_pre == old(self).fixed_shapes@[i as int]);
                assert(cells_in_box(s.cells(), self.width as int, self.height as int)) by {
                    assert forall|c: (int, int)| #[trigger] s.cells().contains(c) implies {
                        &&& -4 <= c.0 <= self.width + 4
                        &&& -4 <= c.1 <= self.height + 4
                    } by {
                        if c.1 > y as int {
                            assert(s_pre.cells().contains(c));
                        } else {
                            assert(s_pre.cells().contains((c.0, c.1 - 1)));
                        }
                    }
                }
            }
            self.fixed_shapes.push(s);
            i = i + 1;
        }
        proof {
            assert forall|k: int|
                0 <= k < n implies #[trigger] self.fixed_cells()[k] == line_removed_cells(
                old(self).fixed_cells()[k],
                y as int,
            ) by {
                assert(self.fixed_shapes@[k].cells() == line_removed_cells(
                    old(self).fixed_shapes@[k].cells(),
                    y as int,
                ));
            }
            assert(self.fixed_cells() =~= old(self).fixed_cells().map_values(
                |s: Set<(int, int)>| line_removed_cells(s, y as int),
            ));
        }
    }

    /// One left-to-right sweep over all rows, clearing each row that is full
    /// at the moment it is examined.
    fn remove_full_lines(&mut self)
        requires
            old(self).wf(),
        ensures
            final(self).wf(),
            final(self).width == old(self).width,
            final(self).height == old(self).height,
            final(self).lost == old(self).lost,
            final(self).current_shape == old(self).current_shape,
            final(self).fixed_cells() == rows_cleared_upto(
                old(self).fixed_cells(),
                old(self).width as int,
                old(self).height as int,
            ),
    {
        let h = self.height;
        let mut y: i32 = 0;
        while y < h
            invariant
                self.wf(),
                0 <= y <= h,
                h == self.height,
                self.width == old(self).width,
                self.height == old(self).height,
                self.lost == old(self).lost,
                self.current_shape == old(self).current_shape,
                self.fixed_cells() == rows_cleared_upto(
                    old(self).fixed_cells(),
                    self.width as int,
                    y as int,
                ),
            decreases h - y,
        {
            let ghost pre = self.fixed_cells();
            if self.is_line_full(y) {
                self.remove_line(y);
                proof {
                    assert(self.fixed_cells() =~= rows_cleared_at(
                        pre,
                        y as int,
                        self.width as int,
                    ));
                }
            } else {
                proof {
                    assert(self.fixed_cells() =~= rows_cleared_at(
                        pre,
                        y as int,
                        self.width as int,
                    ));
                }
            }
            proof {
                assert(rows_cleared_upto(
                    old(self).fixed_cells(),
                    self.width as int,
                    y as int + 1,
                ) == rows_cleared_at(pre, y as int, self.width as int));
            }
            y = y + 1;
        }
    }
}


/// The outcome of a guarded lateral move or rotation: the candidate replaces
/// the active piece exactly when all its cells are on the board and it hits
/// no settled piece; otherwise the whole board is unchanged. Settled pieces
/// and the loss flag never change.
pub open spec fn move_step(
    pre: Tetris,
    post: Tetris,
    cand_cells: Set<(int, int)>,
    cand_anchor: (int, int),
) -> bool {
    let w = pre.width as int;
    let h = pre.height as int;
    if !cells_out_of_bounds(cand_cells, w, h) && !hits_fixed(pre.fixed_cells(), cand_cells) {
        &&& post.current_shape.cells() == cand_cells
        &&& pos_cell(post.current_shape.anchor) == cand_anchor
        &&& post.fixed_shapes@ == pre.fixed_shapes@
        &&& post.lost == pre.lost
    } else {
        post == pre
    }
}

/// The outcome of one gravity step on a board that is still playing. Either
/// the piece falls one row, or it locks: it joins the settled pieces, full
/// rows are swept, a new piece of variant `v` spawns, and the game is lost
/// exactly when the spawned piece hits a settled cell.
pub open spec fn tick_step(pre: Tetris, post: Tetris, v: int) -> bool {
    let w = pre.width as int;
    let h = pre.height as int;
    let cand = translated_cells(pre.current_shape.cells(), 0, 1);
    if !cells_out_of_bounds(cand, w, h) && !hits_fixed(pre.fixed_cells(), cand) {
        &&& post.current_shape.cells() == cand
        &&& post.current_shape.anchor.0 == pre.current_shape.anchor.0
        &&& post.current_shape.anchor.1 == pre.current_shape.anchor.1 + 1
        &&& post.fixed_shapes@ == pre.fixed_shapes@
        &&& post.lost == false
    } else {
        let cleared = rows_cleared_upto(pre.fixed_cells().push(pre.current_shape.cells()), w, h);
        &&& post.fixed_cells() == cleared
        &&& post.current_shape.cells() == spawn_cells(v, w)
        &&& pos_cell(post.current_shape.anchor) == spawn_anchor(v, w)
        &&& post.lost == hits_fixed(cleared, spawn_cells(v, w))
    }
}

/// A candidate whose cells all lie on the board, and which keeps its cells
/// near its anchor, satisfies the active-piece part of the board invariant.
proof fn lemma_accepted_keeps_wf(s: Shape, w: int, h: int)
    requires
        1 <= w <= 0x1000_0000,
        1 <= h <= 0x1000_0000,
        s.positions@.len() > 0,
        !cells_out_of_bounds(s.cells(), w, h),
        anchor_near(s),
    ensures
        cells_in_box(s.cells(), w, h),
        -8 <= s.anchor.0 <= w + 8,
        -8 <= s.anchor.1 <= h + 8,
{
    assert forall|c: (int, int)| #[trigger] s.cells().contains(c) implies in_bounds_cell(
        c,
        w,
        h,
    ) by {
        if !in_bounds_cell(c, w, h) {
            assert(cells_out_of_bounds(s.cells(), w, h));
        }
    }
    lemma_cells_of_seq_membership(s.positions@, pos_cell(s.positions@[0]));
    let c0 = pos_cell(s.positions@[0]);
    assert(s.cells().contains(c0));
}

/// Translation moves the cells and the anchor by the same vector, so the
/// cells stay near the anchor.
proof fn lemma_translate_keeps_anchor_near(pre: Shape, post: Shape, dx: int, dy: int)
    requires
        anchor_near(pre),
        post.cells() == translated_cells(pre.cells(), dx, dy),
        post.anchor.0 == pre.anchor.0 + dx,
        post.anchor.1 == pre.anchor.1 + dy,
    ensures
        anchor_near(post),
{
    assert forall|c: (int, int)| #[trigger] post.cells().contains(c) implies {
        &&& -3 <= c.0 - post.anchor.0 <= 3
        &&& -3 <= c.1 - post.anchor.1 <= 3
    } by {
        assert(pre.cells().contains((c.0 - dx, c.1 - dy)));
    }
}

/// The quarter-turn permutes each cell's offset from the anchor, so the
/// cells stay near the anchor.
proof fn lemma_rotate_keeps_anchor_near(pre: Shape, post: Shape)
    requires
        anchor_near(pre),
        post.cells() == rotated_cells(pre.cells(), pre.anchor.0 as int, pre.anchor.1 as int),
        post.anchor == pre.anchor,
    ensures
        anchor_near(post),
{
    let a = pre.anchor.0 as int;
    let b = pre.anchor.1 as int;
    assert forall|c: (int, int)| #[trigger] post.cells().contains(c) implies {
        &&& -3 <= c.0 - post.anchor.0 <= 3
        &&& -3 <= c.1 - post.anchor.1 <= 3
    } by {
        assert(pre.cells().contains((c.1 + a - b, a + b - c.0)));
    }
}

impl Tetris {
    /// Build a board of the given dimensions with a freshly spawned piece of
    /// variant `v`, no settled pieces, and the game running.
    pub fn new_with_variant(width: u32, height: u32, v: u8) -> (r: Tetris)
        requires
            1 <= width <= 0x1000_0000,
            1 <= height <= 0x1000_0000,
            v < 7,
        ensures
            r.wf(),
            r.width == width,
            r.height == height,
            r.fixed_shapes@.len() == 0,
            !r.lost,
            r.current_shape.cells() == spawn_cells(v as int, width as int),
            pos_cell(r.current_shape.anchor) == spawn_anchor(v as int, width as int),
    {
        let w = width as i32;
        let h = height as i32;
        let s = spawn_shape(w, v);
        let r = Tetris {
            width: w,
            height: h,
            current_shape: s,
            fixed_shapes: Vec::new(),
            lost: false,
        };
        proof {
            lemma_template_bounds(v as int);
            assert(cells_in_box(r.current_shape.cells(), w as int, h as int));
        }
        r
    }

    /// Build a board with a uniformly random first piece.
    pub fn new(width: u32, height: u32) -> (r: Tetris)
        requires
            1 <= width <= 0x1000_0000,
            1 <= height <= 0x1000_0000,
        ensures
            r.wf(),
            r.width == width,
            r.height == height,
            r.fixed_shapes@.len() == 0,
            !r.lost,
            exists|v: int|
                0 <= v < 7 && r.current_shape.cells() == spawn_cells(v, width as int)
                    && pos_cell(r.current_shape.anchor) == spawn_anchor(v, width as int),
    {
        let v = random_variant();
        let r = Tetris::new_with_variant(width, height, v);
        proof {
            assert(r.current_shape.cells() == spawn_cells(v as int, width as int) && pos_cell(
                r.current_shape.anchor,
            ) == spawn_anchor(v as int, width as int));
        }
        r
    }

    /// One gravity step, spawning a piece of variant `v` if the fall locks.
    /// Does nothing once the game is lost.
    pub fn tick_with_variant(&mut self, v: u8)
        requires
            old(self).wf(),
            v < 7,
        ensures
            final(self).wf(),
            final(self).width == old(self).width,
            final(self).height == old(self).height,
            old(self).lost ==> *final(self) == *old(self),
            !old(self).lost ==> tick_step(*old(self), *final(self), v as int),
    {
        if self.lost {
            return ;
        }
        proof {
            lemma_box_headroom(
                self.current_shape,
                self.width as int,
                self.height as int,
                Pos(0, 1),
            );
        }
        let cand = self.current_shape.translated(Pos(0, 1));
        let off = self.is_out_of_bounds(&cand);
        let hit = self.is_colliding(&cand);
        if !off && !hit {
            proof {
                lemma_translate_keeps_anchor_near(self.current_shape, cand, 0, 1);
                lemma_accepted_keeps_wf(cand, self.width as int, self.height as int);
            }
            self.current_shape = cand;
        } else {
            let mut locked = spawn_shape(self.width, v);
            core::mem::swap(&mut self.current_shape, &mut locked);
            let ghost mid = *self;
            self.fixed_shapes.push(locked);
            proof {
                lemma_template_bounds(v as int);
                assert(self.fixed_cells() =~= old(self).fixed_cells().push(
                    old(self).current_shape.cells(),
                ));
                assert(self.wf());
            }
            self.remove_full_lines();
            let hit_spawn = self.is_colliding(&self.current_shape);
            if hit_spawn {
                self.lost = true;
            }
        }
    }

    /// One gravity step with a uniformly random replacement piece on lock.
    /// Does nothing once the game is lost.
    pub fn tick(&mut self)
        requires
            old(self).wf(),
        ensures
            final(self).wf(),
            final(self).width == old(self).width,
            final(self).height == old(self).height,
            old(self).lost ==> *final(self) == *old(self),
            !old(self).lost ==> exists|v: int|
                0 <= v < 7 && tick_step(*old(self), *final(self), v),
    {
        let v = random_variant();
        self.tick_with_variant(v);
        proof {
            if !old(self).lost {
                assert(tick_step(*old(self), *self, v as int));
            }
        }
    }

    /// Move the active piece one column left or right; the move is silently
    /// rejected if it would leave the board or hit a settled piece. Does
    /// nothing once the game is lost.
    pub fn shift(&mut self, direction: Direction)
        requires
            old(self).wf(),
        ensures
            final(self).wf(),
            final(self).width == old(self).width,
            final(self).height == old(self).height,
            old(self).lost ==> *final(self) == *old(self),
            !old(self).lost ==> move_step(
                *old(self),
                *final(self),
                translated_cells(
                    old(self).current_shape.cells(),
                    direction_dx(direction),
                    0,
                ),
                (
                    old(self).current_shape.anchor.0 + direction_dx(direction),
                    old(self).current_shape.anchor.1 as int,
                ),
            ),
    {
        if self.lost {
            return ;
        }
        let delta = match direction {
            Direction::Left => Pos(-1, 0),
            Direction::Right => Pos(1, 0),
        };
        proof {
            lemma_box_headroom(self.current_shape, self.width as int, self.height as int, delta);
        }
        let cand = self.current_shape.translated(delta);
        let off = self.is_out_of_bounds(&cand);
        let hit = self.is_colliding(&cand);
        if !off && !hit {
            proof {
                lemma_translate_keeps_anchor_near(
                    self.current_shape,
                    cand,
                    delta.0 as int,
                    delta.1 as int,
                );
                lemma_accepted_keeps_wf(cand, self.width as int, self.height as int);
            }
            self.current_shape = cand;
        }
    }

    /// Turn the active piece a clockwise quarter-turn about its anchor; the
    /// turn is silently rejected if it would leave the board or hit a settled
    /// piece. Does nothing once the game is lost.
    pub fn rotate(&mut self)
        requires
            old(self).wf(),
        ensures
            final(self).wf(),
            final(self).width == old(self).width,
            final(self).height == old(self).height,
            old(self).lost ==> *final(self) == *old(self),
            !old(self).lost ==> move_step(
                *old(self),
                *final(self),
                rotated_cells(
                    old(self).current_shape.cells(),
                    old(self).current_shape.anchor.0 as int,
                    old(self).current_shape.anchor.1 as int,
                ),
                pos_cell(old(self).current_shape.anchor),
            ),
    {
        if self.lost {
            return ;
        }
        proof {
            lemma_box_headroom(
                self.current_shape,
                self.width as int,
                self.height as int,
                Pos(0, 0),
            );
        }
        let cand = self.current_shape.rotated();
        let off = self.is_out_of_bounds(&cand);
        let hit = self.is_colliding(&cand);
        if !off && !hit {
            proof {
                lemma_rotate_keeps_anchor_near(self.current_shape, cand);
                lemma_accepted_keeps_wf(cand, self.width as int, self.height as int);
            }
            self.current_shape = cand;
        }
    }
}


/// The entry of a row-major buffer at a given cell.
pub open spec fn cell_at(buf: Seq<Cell>, w: int, row: int, col: int) -> Cell {
    buf[row * w + col]
}

impl Tetris {
    /// Whether the board shows an occupied cell at `(col, row)`: the active
    /// piece or some settled piece covers it.
    pub open spec fn occupied(&self, col: int, row: int) -> bool {
        self.current_shape.cells().contains((col, row)) || exists|i: int|
            0 <= i < self.fixed_cells().len() && (#[trigger] self.fixed_cells()[i]).contains(
                (col, row),
            )
    }

    /// The display read-out: a fully recomputed row-major buffer with one
    /// entry per board cell, `Active` exactly where the active piece or a
    /// settled piece has a cell.
    pub fn draw(&self) -> (r: Vec<Cell>)
        requires
            self.wf(),
            self.width as int * self.height as int <= 0x4000_0000,
        ensures
            r@.len() == self.width as int * self.height as int,
            forall|row: int, col: int|
                0 <= row < self.height && 0 <= col < self.width ==> #[trigger] cell_at(
                    r@,
                    self.width as int,
                    row,
                    col,
                ) == (if self.occupied(col, row) {
                    Cell::Active
                } else {
                    Cell::Inactive
                }),
    {
        let w = self.width;
        let h = self.height;
        let ghost n = w as int * h as int;
        proof {
            lemma_row_major_in_range(w as int, h as int, 0, h as int - 1);
        }
        let total: usize = (w as usize) * (h as usize);
        let mut buf: Vec<Cell> = Vec::new();
        let mut t: usize = 0;
        while t < total
            invariant
                0 <= t <= total,
                total == n,
                buf@.len() == t,
                forall|q: int| 0 <= q < t ==> buf@[q] == Cell::Inactive,
            decreases total - t,
        {
            buf.push(Cell::Inactive);
            t = t + 1;
        }
        let ghost init_buf = buf@;
        paint(&mut buf, &self.current_shape, w, h);
        proof {
            assert forall|row: int, col: int|
                0 <= row < h && 0 <= col < w implies #[trigger] cell_at(
                buf@,
                w as int,
                row,
                col,
            ) == (if self.current_shape.cells().contains((col, row)) {
                Cell::Active
            } else {
                Cell::Inactive
            }) by {
                lemma_row_major_in_range(w as int, h as int, col, row);
                assert(cell_at(init_buf, w as int, row, col) == Cell::Inactive);
            }
        }
        let mut i: usize = 0;
        while i < self.fixed_shapes.len()
            invariant
                self.wf(),
                w == self.width,
                h == self.height,
                n == w as int * h as int,
                n <= 0x4000_0000,
                0 <= i <= self.fixed_shapes@.len(),
                buf@.len() == n,
                forall|row: int, col: int|
                    0 <= row < h && 0 <= col < w ==> #[trigger] cell_at(buf@, w as int, row, col)
                        == (if self.current_shape.cells().contains((col, row)) || exists|k: int|
                        0 <= k < i && (#[trigger] self.fixed_cells()[k]).contains((col, row)) {
                        Cell::Active
                    } else {
                        Cell::Inactive
                    }),
            decreases self.fixed_shapes@.len() - i,
        {
            let ghost before = buf@;
            paint(&mut buf, &self.fixed_shapes[i], w, h);
            proof {
                assert forall|row: int, col: int|
                    0 <= row < h && 0 <= col < w implies #[trigger] cell_at(
                    buf@,
                    w as int,
                    row,
                    col,
                ) == (if self.current_shape.cells().contains((col, row)) || exists|k: int|
                        0 <= k < i + 1 && (#[trigger] self.fixed_cells()[k]).contains(
                            (col, row),
                        ) {
                        Cell::Active
                    } else {
                        Cell::Inactive
                    }) by {
                    assert(self.fixed_cells()[i as int] == self.fixed_shapes@[i as int].cells());
                    if self.fixed_shapes@[i as int].cells().contains((col, row)) {
                        assert(self.fixed_cells()[i as int].contains((col, row)));
                    } else {
                        if exists|k: int|
                            0 <= k < i + 1 && (#[trigger] self.fixed_cells()[k]).contains(
                                (col, row),
                            ) {
                            let k = choose|k: int|
                                0 <= k < i + 1 && (#[trigger] self.fixed_cells()[k]).contains(
                                    (col, row),
                                );
                            assert(k < i || k == i);
                        }
                    }
                }
            }
            i = i + 1;
        }
        proof {
            assert forall|row: int, col: int|
                0 <= row < h && 0 <= col < w implies #[trigger] cell_at(
                buf@,
                w as int,
                row,
                col,
            ) == (if self.occupied(col, row) {
                Cell::Active
            } else {
                Cell::Inactive
            }) by {
                assert(i as int == self.fixed_cells().len());
            }
        }
        buf
    }
}

/// A row-major index lies in the buffer, and two distinct cells never share
/// one.
proof fn lemma_row_major_in_range(w: int, h: int, col: int, row: int)
    requires
        1 <= w,
        1 <= h,
        0 <= col < w,
        0 <= row < h,
    ensures
        0 <= row * w + col < w * h,
    decreases h,
{
    assert(0 <= row * w + col < w * h) by (nonlinear_arith)
        requires
            1 <= w,
            1 <= h,
            0 <= col < w,
            0 <= row < h,
    ;
}

/// Two distinct in-range cells have distinct row-major indices.
proof fn lemma_row_major_injective(w: int, r1: int, c1: int, r2: int, c2: int)
    requires
        1 <= w,
        0 <= c1 < w,
        0 <= c2 < w,
        0 <= r1,
        0 <= r2,
        r1 * w + c1 == r2 * w + c2,
    ensures
        r1 == r2,
        c1 == c2,
{
    assert(r1 == r2 && c1 == c2) by (nonlinear_arith)
        requires
            1 <= w,
            0 <= c1 < w,
            0 <= c2 < w,
            0 <= r1,
            0 <= r2,
            r1 * w + c1 == r2 * w + c2,
    ;
}

/// Mark every on-board cell of `s` as `Active` in the row-major buffer,
/// leaving every other entry as it was.
fn paint(buf: &mut Vec<Cell>, s: &Shape, w: i32, h: i32)
    requires
        1 <= w <= 0x1000_0000,
        1 <= h <= 0x1000_0000,
        old(buf)@.len() == w as int * h as int,
        w as int * h as int <= 0x4000_0000,
    ensures
        final(buf)@.len() == old(buf)@.len(),
        forall|row: int, col: int|
            0 <= row < h && 0 <= col < w ==> #[trigger] cell_at(final(buf)@, w as int, row, col)
                == (if s.cells().contains((col, row)) {
                Cell::Active
            } else {
                cell_at(old(buf)@, w as int, row, col)
            }),
{
    let mut i: usize = 0;
    while i < s.positions.len()
        invariant
            1 <= w <= 0x1000_0000,
            1 <= h <= 0x1000_0000,
            w as int * h as int <= 0x4000_0000,
            0 <= i <= s.positions@.len(),
            buf@.len() == w as int * h as int,
            forall|row: int, col: int|
                0 <= row < h && 0 <= col < w ==> #[trigger] cell_at(buf@, w as int, row, col) == (
                if exists|k: int|
                    0 <= k < i && pos_cell(#[trigger] s.positions@[k]) == (col, row) {
                    Cell::Active
                } else {
                    cell_at(old(buf)@, w as int, row, col)
                }),
        decreases s.positions@.len() - i,
    {
        let ghost before = buf@;
        let p = s.positions[i];
        if 0 <= p.0 && p.0 < w && 0 <= p.1 && p.1 < h {
            proof {
                lemma_row_major_in_range(w as int, h as int, p.0 as int, p.1 as int);
            }
            let idx: usize = (p.1 as usize) * (w as usize) + (p.0 as usize);
            buf[idx] = Cell::Active;
            proof {
                assert(buf@ == before.update(p.1 as int * w as int + p.0 as int, Cell::Active));
                assert forall|row: int, col: int|
                    0 <= row < h && 0 <= col < w implies #[trigger] cell_at(
                    buf@,
                    w as int,
                    row,
                    col,
                ) == (if exists|k: int|
                    0 <= k < i + 1 && pos_cell(#[trigger] s.positions@[k]) == (col, row) {
                    Cell::Active
                } else {
                    cell_at(old(buf)@, w as int, row, col)
                }) by {
                    lemma_row_major_in_range(w as int, h as int, col, row);
                    if row == p.1 as int && col == p.0 as int {
                        assert(pos_cell(s.positions@[i as int]) == (col, row));
                    } else {
                        if row * (w as int) + col == p.1 as int * (w as int) + p.0 as int {
                            lemma_row_major_injective(
                                w as int,
                                row,
                                col,
                                p.1 as int,
                                p.0 as int,
                            );
                        }
                        assert(cell_at(buf@, w as int, row, col) == cell_at(
                            before,
                            w as int,
                            row,
                            col,
                        ));
                        assert forall|k: int|
                            0 <= k < i + 1 && pos_cell(#[trigger] s.positions@[k]) == (col, row)
                            implies k < i by {
                            if k == i {
                                assert((col, row) == (p.0 as int, p.1 as int));
                            }
                        }
                    }
                }
            }
        } else {
            proof {
                assert forall|row: int, col: int|
                    0 <= row < h && 0 <= col < w implies #[trigger] cell_at(
                    buf@,
                    w as int,
                    row,
                    col,
                ) == (if exists|k: int|
                    0 <= k < i + 1 && pos_cell(#[trigger] s.positions@[k]) == (col, row) {
                    Cell::Active
                } else {
                    cell_at(old(buf)@, w as int, row, col)
                }) by {
                    assert forall|k: int|
                        0 <= k < i + 1 && pos_cell(#[trigger] s.positions@[k]) == (col, row)
                        implies k < i by {
                        if k == i {
                            assert((p.0 as int, p.1 as int) == (col, row));
                        }
                    }
                }
            }
        }
        i = i + 1;
    }
    proof {
        assert forall|row: int, col: int|
            0 <= row < h && 0 <= col < w implies #[trigger] cell_at(buf@, w as int, row, col) == (
        if s.cells().contains((col, row)) {
            Cell::Active
        } else {
            cell_at(old(buf)@, w as int, row, col)
        }) by {
            lemma_cells_of_seq_membership(s.positions@, (col, row));
        }
    }
}

/// A freshly spawned piece has every cell at row zero or below it on the
/// board (`y >= 0`), and its anchor in the two middle columns near the top.
pub proof fn lemma_spawn_position(v: int, w: int)
    requires
        0 <= v < 7,
        1 <= w,
    ensures
        forall|c: (int, int)| #[trigger] spawn_cells(v, w).contains(c) ==> 0 <= c.1 <= 2,
        w / 2 <= spawn_anchor(v, w).0 <= w / 2 + 1,
        0 <= spawn_anchor(v, w).1 <= 1,
{
    lemma_template_bounds(v);
    assert forall|c: (int, int)| #[trigger] spawn_cells(v, w).contains(c) implies 0 <= c.1
        <= 2 by {
        assert(cells_of_seq(template_positions(v)).contains((c.0 - w / 2, c.1)));
        lemma_cells_of_seq_membership(template_positions(v), (c.0 - w / 2, c.1));
    }
}

} // verus!
