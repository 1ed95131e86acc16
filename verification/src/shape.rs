use vstd::prelude::*;

verus! {

/// A grid position: column `x`, row `y`, in a y-down coordinate system.
/// Values may be negative transiently, e.g. during rotation math, before a
/// bounds check decides whether a move is accepted.
#[derive(Clone, Copy, PartialEq, Eq, Structural, Debug, Hash)]
pub struct Pos(pub i32, pub i32);

/// The mathematical value of a position: a pair of unbounded integers.
pub open spec fn pos_cell(p: Pos) -> (int, int) {
    (p.0 as int, p.1 as int)
}

/// The set of cells denoted by a sequence of positions.
pub open spec fn cells_of_seq(s: Seq<Pos>) -> Set<(int, int)> {
    s.map_values(|p: Pos| pos_cell(p)).to_set()
}

/// The cell set shifted componentwise by `(dx, dy)`.
pub open spec fn translated_cells(cells: Set<(int, int)>, dx: int, dy: int) -> Set<(int, int)> {
    Set::new(|c: (int, int)| cells.contains((c.0 - dx, c.1 - dy)))
}

/// One cell after a clockwise quarter-turn about the anchor `(a, b)`.
pub open spec fn rotated_cell(c: (int, int), a: int, b: int) -> (int, int) {
    (-c.1 + b + a, c.0 - a + b)
}

/// The cell set after a clockwise quarter-turn about the anchor `(a, b)`.
/// Membership goes through the inverse transform, so that the image of a set
/// is stated without an existential.
pub open spec fn rotated_cells(cells: Set<(int, int)>, a: int, b: int) -> Set<(int, int)> {
    Set::new(|c: (int, int)| cells.contains((c.1 + a - b, a + b - c.0)))
}

/// The cell set after clearing row `y`: cells on row `y` vanish, cells above
/// (smaller row, in a y-down grid) drop by one row, cells below stay put.
pub open spec fn line_removed_cells(cells: Set<(int, int)>, y: int) -> Set<(int, int)> {
    Set::new(|c: (int, int)|
        (c.1 > y && cells.contains(c)) || (c.1 <= y && cells.contains((c.0, c.1 - 1)))
    )
}

/// Two cell sets collide when they share at least one position.
pub open spec fn cells_collide(a: Set<(int, int)>, b: Set<(int, int)>) -> bool {
    exists|c: (int, int)| a.contains(c) && b.contains(c)
}

impl Pos {
    /// Componentwise addition.
    pub fn plus(self, rhs: Pos) -> (r: Pos)
        requires
            i32::MIN <= self.0 + rhs.0 <= i32::MAX,
            i32::MIN <= self.1 + rhs.1 <= i32::MAX,
        ensures
            r.0 == self.0 + rhs.0,
            r.1 == self.1 + rhs.1,
    {
        Pos(self.0 + rhs.0, self.1 + rhs.1)
    }
}

/// A falling-block piece: a duplicate-free collection of cells plus the
/// anchor the piece rotates about.
#[derive(Clone, Debug)]
pub struct Shape {
    pub positions: Vec<Pos>,
    pub anchor: Pos,
}

impl Shape {
    /// The cells of the shape, as a mathematical set.
    pub open spec fn cells(&self) -> Set<(int, int)> {
        cells_of_seq(self.positions@)
    }

    /// Well-formed shapes never list the same cell twice.
    pub open spec fn wf(&self) -> bool {
        self.positions@.no_duplicates()
    }
}

/// The fixed cell template of variant `v` (0 ≤ v < 7, in the order
/// I, O, T, J, L, S, Z).
pub open spec fn template_positions(v: int) -> Seq<Pos> {
    if v == 0 {
        seq![Pos(0, 0), Pos(1, 0), Pos(2, 0), Pos(3, 0)]
    } else if v == 1 {
        seq![Pos(0, 0), Pos(1, 0), Pos(0, 1), Pos(1, 1)]
    } else if v == 2 {
        seq![Pos(0, 0), Pos(1, 0), Pos(2, 0), Pos(1, 1)]
    } else if v == 3 {
        seq![Pos(0, 0), Pos(0, 1), Pos(0, 2), Pos(-1i32, 2)]
    } else if v == 4 {
        seq![Pos(0, 0), Pos(0, 1), Pos(0, 2), Pos(1, 2)]
    } else if v == 5 {
        seq![Pos(0, 0), Pos(1, 0), Pos(0, 1), Pos(-1i32, 1)]
    } else {
        seq![Pos(0, 0), Pos(-1i32, 0), Pos(0, 1), Pos(1, 1)]
    }
}

/// The rotation anchor of variant `v`.
pub open spec fn template_anchor(v: int) -> Pos {
    if v == 0 {
        Pos(1, 0)
    } else if v == 1 {
        Pos(0, 0)
    } else if v == 2 {
        Pos(1, 0)
    } else if v == 3 {
        Pos(0, 1)
    } else if v == 4 {
        Pos(0, 1)
    } else if v == 5 {
        Pos(0, 0)
    } else {
        Pos(0, 0)
    }
}

impl Shape {
    /// Build the canonical piece of variant `v`.
    pub fn construct(v: u8) -> (r: Shape)
        requires
            v < 7,
        ensures
            r.positions@ == template_positions(v as int),
            r.anchor == template_anchor(v as int),
            r.wf(),
    {
        let r = match v {
            0 => Shape { positions: vec![Pos(0, 0), Pos(1, 0), Pos(2, 0), Pos(3, 0)], anchor: Pos(1, 0) },
            1 => Shape { positions: vec![Pos(0, 0), Pos(1, 0), Pos(0, 1), Pos(1, 1)], anchor: Pos(0, 0) },
            2 => Shape { positions: vec![Pos(0, 0), Pos(1, 0), Pos(2, 0), Pos(1, 1)], anchor: Pos(1, 0) },
            3 => Shape { positions: vec![Pos(0, 0), Pos(0, 1), Pos(0, 2), Pos(-1, 2)], anchor: Pos(0, 1) },
            4 => Shape { positions: vec![Pos(0, 0), Pos(0, 1), Pos(0, 2), Pos(1, 2)], anchor: Pos(0, 1) },
            5 => Shape { positions: vec![Pos(0, 0), Pos(1, 0), Pos(0, 1), Pos(-1, 1)], anchor: Pos(0, 0) },
            _ => Shape { positions: vec![Pos(0, 0), Pos(-1, 0), Pos(0, 1), Pos(1, 1)], anchor: Pos(0, 0) },
        };
        proof {
            assert(r.positions@ =~= template_positions(v as int));
        }
        r
    }

    /// Build a piece whose variant is drawn uniformly from the seven templates.
    pub fn new_random() -> (r: Shape)
        ensures
            exists|v: int|
                0 <= v < 7 && r.positions@ == template_positions(v) && r.anchor
                    == template_anchor(v),
            r.wf(),
    {
        let v = random_variant();
        let r = Shape::construct(v);
        proof {
            assert(r.positions@ == template_positions(v as int) && r.anchor == template_anchor(
                v as int,
            ));
        }
        r
    }

    /// The shape's cells, in an unspecified order.
    pub fn iter_positions(&self) -> (r: Vec<Pos>)
        ensures
            r@ == self.positions@,
    {
        let mut r: Vec<Pos> = Vec::new();
        let mut i: usize = 0;
        while i < self.positions.len()
            invariant
                0 <= i <= self.positions@.len(),
                r@ == self.positions@.take(i as int),
            decreases self.positions@.len() - i,
        {
            r.push(self.positions[i]);
            i = i + 1;
        }
        proof {
            assert(r@ =~= self.positions@);
        }
        r
    }

    /// Whether the shape occupies position `p`.
    pub fn contains_pos(&self, p: Pos) -> (r: bool)
        ensures
            r == self.cells().contains(pos_cell(p)),
    {
        let mut i: usize = 0;
        while i < self.positions.len()
            invariant
                0 <= i <= self.positions@.len(),
                forall|k: int| 0 <= k < i ==> pos_cell(#[trigger] self.positions@[k]) != pos_cell(p),
            decreases self.positions@.len() - i,
        {
            if self.positions[i] == p {
                proof {
                    assert(self.positions@.map_values(|q: Pos| pos_cell(q))[i as int] == pos_cell(
                        p,
                    ));
                    assert(self.positions@.map_values(|q: Pos| pos_cell(q)).contains(pos_cell(p)));
                }
                return true;
            }
            i = i + 1;
        }
        proof {
            let m = self.positions@.map_values(|q: Pos| pos_cell(q));
            assert(!m.contains(pos_cell(p))) by {
                if m.contains(pos_cell(p)) {
                    let k = choose|k: int| 0 <= k < m.len() && m[k] == pos_cell(p);
                    assert(pos_cell(self.positions@[k]) == pos_cell(p));
                }
            }
        }
        false
    }
}

/// A cell set has exactly the values of the positions in the sequence.
pub proof fn lemma_cells_of_seq_membership(s: Seq<Pos>, c: (int, int))
    ensures
        cells_of_seq(s).contains(c) <==> exists|k: int|
            0 <= k < s.len() && pos_cell(#[trigger] s[k]) == c,
{
    let m = s.map_values(|p: Pos| pos_cell(p));
    if cells_of_seq(s).contains(c) {
        let k = choose|k: int| 0 <= k < m.len() && m[k] == c;
        assert(pos_cell(s[k]) == c);
    }
    if exists|k: int| 0 <= k < s.len() && pos_cell(#[trigger] s[k]) == c {
        let k = choose|k: int| 0 <= k < s.len() && pos_cell(#[trigger] s[k]) == c;
        assert(m[k] == c);
        assert(m.contains(c));
    }
}

/// A duplicate-free sequence of positions denotes a finite cell set of the
/// same cardinality.
pub proof fn lemma_cells_count(s: Seq<Pos>)
    requires
        s.no_duplicates(),
    ensures
        cells_of_seq(s).finite(),
        cells_of_seq(s).len() == s.len(),
{
    broadcast use vstd::seq_lib::seq_to_set_is_finite;

    let m = s.map_values(|p: Pos| pos_cell(p));
    assert(m.no_duplicates()) by {
        assert forall|i: int, j: int|
            0 <= i < m.len() && 0 <= j < m.len() && i != j implies m[i] != m[j] by {
            assert(s[i] != s[j]);
            assert(m[i] == pos_cell(s[i]) && m[j] == pos_cell(s[j]));
        }
    }
    m.unique_seq_to_set();
}

impl Shape {
    /// Whether every cell and the anchor can be shifted by `d` without
    /// leaving the machine integer range.
    pub open spec fn can_translate(&self, d: Pos) -> bool {
        &&& forall|k: int|
            0 <= k < self.positions@.len() ==> {
                &&& i32::MIN <= (#[trigger] self.positions@[k]).0 + d.0 <= i32::MAX
                &&& i32::MIN <= self.positions@[k].1 + d.1 <= i32::MAX
            }
        &&& i32::MIN <= self.anchor.0 + d.0 <= i32::MAX
        &&& i32::MIN <= self.anchor.1 + d.1 <= i32::MAX
    }

    /// A new shape with every cell and the anchor shifted by `delta`.
    pub fn translated(&self, delta: Pos) -> (r: Shape)
        requires
            self.wf(),
            self.can_translate(delta),
        ensures
            r.wf(),
            r.cells() == translated_cells(self.cells(), delta.0 as int, delta.1 as int),
            r.anchor.0 == self.anchor.0 + delta.0,
            r.anchor.1 == self.anchor.1 + delta.1,
            r.positions@.len() == self.positions@.len(),
    {
        let mut ps: Vec<Pos> = Vec::new();
        let mut i: usize = 0;
        while i < self.positions.len()
            invariant
                0 <= i <= self.positions@.len(),
                self.can_translate(delta),
                ps@.len() == i,
                forall|k: int|
                    0 <= k < i ==> {
                        &&& (#[trigger] ps@[k]).0 == self.positions@[k].0 + delta.0
                        &&& ps@[k].1 == self.positions@[k].1 + delta.1
                    },
            decreases self.positions@.len() - i,
        {
            let p = self.positions[i];
            ps.push(Pos(p.0 + delta.0, p.1 + delta.1));
            i = i + 1;
        }
        let r = Shape { positions: ps, anchor: self.anchor.plus(delta) };
        proof {
            let dx = delta.0 as int;
            let dy = delta.1 as int;
            assert(r.positions@.no_duplicates()) by {
                assert forall|i: int, j: int|
                    0 <= i < r.positions@.len() && 0 <= j < r.positions@.len() && i != j
                    implies r.positions@[i] != r.positions@[j] by {
                    assert(self.positions@[i] != self.positions@[j]);
                }
            }
            assert forall|c: (int, int)|
                r.cells().contains(c) <==> translated_cells(self.cells(), dx, dy).contains(c) by {
                lemma_cells_of_seq_membership(r.positions@, c);
                lemma_cells_of_seq_membership(self.positions@, (c.0 - dx, c.1 - dy));
                if r.cells().contains(c) {
                    let k = choose|k: int|
                        0 <= k < r.positions@.len() && pos_cell(#[trigger] r.positions@[k]) == c;
                    assert(pos_cell(self.positions@[k]) == (c.0 - dx, c.1 - dy));
                }
                if translated_cells(self.cells(), dx, dy).contains(c) {
                    let k = choose|k: int|
                        0 <= k < self.positions@.len() && pos_cell(#[trigger] self.positions@[k])
                            == (c.0 - dx, c.1 - dy);
                    assert(pos_cell(r.positions@[k]) == c);
                }
            }
            assert(r.cells() =~= translated_cells(self.cells(), dx, dy));
        }
        r
    }

    /// Whether every cell can be rotated about the anchor without leaving
    /// the machine integer range.
    pub open spec fn can_rotate(&self) -> bool {
        forall|k: int|
            0 <= k < self.positions@.len() ==> {
                &&& i32::MIN <= self.anchor.1 - (#[trigger] self.positions@[k]).1 <= i32::MAX
                &&& i32::MIN <= self.anchor.1 - self.positions@[k].1 + self.anchor.0 <= i32::MAX
                &&& i32::MIN <= self.positions@[k].0 - self.anchor.0 <= i32::MAX
                &&& i32::MIN <= self.positions@[k].0 - self.anchor.0 + self.anchor.1 <= i32::MAX
            }
    }

    /// A new shape turned a clockwise quarter-turn about its anchor; the
    /// anchor itself is unchanged.
    pub fn rotated(&self) -> (r: Shape)
        requires
            self.wf(),
            self.can_rotate(),
        ensures
            r.wf(),
            r.cells() == rotated_cells(self.cells(), self.anchor.0 as int, self.anchor.1 as int),
            r.anchor == self.anchor,
            r.positions@.len() == self.positions@.len(),
    {
        let a = self.anchor.0;
        let b = self.anchor.1;
        let mut ps: Vec<Pos> = Vec::new();
        let mut i: usize = 0;
        while i < self.positions.len()
            invariant
                0 <= i <= self.positions@.len(),
                self.can_rotate(),
                a == self.anchor.0,
                b == self.anchor.1,
                ps@.len() == i,
                forall|k: int|
                    0 <= k < i ==> pos_cell(#[trigger] ps@[k]) == rotated_cell(
                        pos_cell(self.positions@[k]),
                        a as int,
                        b as int,
                    ),
            decreases self.positions@.len() - i,
        {
            let p = self.positions[i];
            ps.push(Pos(b - p.1 + a, p.0 - a + b));
            i = i + 1;
        }
        let r = Shape { positions: ps, anchor: self.anchor };
        proof {
            let ai = a as int;
            let bi = b as int;
            assert(r.positions@.no_duplicates()) by {
                assert forall|i: int, j: int|
                    0 <= i < r.positions@.len() && 0 <= j < r.positions@.len() && i != j
                    implies r.positions@[i] != r.positions@[j] by {
                    assert(self.positions@[i] != self.positions@[j]);
                    assert(pos_cell(r.positions@[i]) == rotated_cell(
                        pos_cell(self.positions@[i]),
                        ai,
                        bi,
                    ));
                    assert(pos_cell(r.positions@[j]) == rotated_cell(
                        pos_cell(self.positions@[j]),
                        ai,
                        bi,
                    ));
                }
            }
            assert forall|c: (int, int)|
                r.cells().contains(c) <==> rotated_cells(self.cells(), ai, bi).contains(c) by {
                lemma_cells_of_seq_membership(r.positions@, c);
                lemma_cells_of_seq_membership(self.positions@, (c.1 + ai - bi, ai + bi - c.0));
                if r.cells().contains(c) {
                    let k = choose|k: int|
                        0 <= k < r.positions@.len() && pos_cell(#[trigger] r.positions@[k]) == c;
                    assert(pos_cell(self.positions@[k]) == (c.1 + ai - bi, ai + bi - c.0));
                }
                if rotated_cells(self.cells(), ai, bi).contains(c) {
                    let k = choose|k: int|
                        0 <= k < self.positions@.len() && pos_cell(#[trigger] self.positions@[k])
                            == (c.1 + ai - bi, ai + bi - c.0);
                    assert(pos_cell(r.positions@[k]) == c);
                }
            }
            assert(r.cells() =~= rotated_cells(self.cells(), ai, bi));
        }
        r
    }

    /// Whether the two shapes share at least one cell.
    pub fn collides_with(&self, other: &Shape) -> (r: bool)
        ensures
            r == cells_collide(self.cells(), other.cells()),
    {
        let mut i: usize = 0;
        while i < self.positions.len()
            invariant
                0 <= i <= self.positions@.len(),
                forall|k: int|
                    0 <= k < i ==> !other.cells().contains(pos_cell(
                        #[trigger] self.positions@[k],
                    )),
            decreases self.positions@.len() - i,
        {
            if other.contains_pos(self.positions[i]) {
                proof {
                    lemma_cells_of_seq_membership(self.positions@, pos_cell(self.positions@[i as int]));
                }
                return true;
            }
            i = i + 1;
        }
        proof {
            if cells_collide(self.cells(), other.cells()) {
                let c = choose|c: (int, int)|
                    self.cells().contains(c) && other.cells().contains(c);
                lemma_cells_of_seq_membership(self.positions@, c);
                let k = choose|k: int|
                    0 <= k < self.positions@.len() && pos_cell(#[trigger] self.positions@[k]) == c;
                assert(!other.cells().contains(pos_cell(self.positions@[k])));
            }
        }
        false
    }

    /// Whether the two shapes occupy exactly the same cells.
    pub fn same_cells(&self, other: &Shape) -> (r: bool)
        ensures
            r == (self.cells() == other.cells()),
    {
        let mut i: usize = 0;
        while i < self.positions.len()
            invariant
                0 <= i <= self.positions@.len(),
                forall|k: int|
                    0 <= k < i ==> other.cells().contains(pos_cell(#[trigger] self.positions@[k])),
            decreases self.positions@.len() - i,
        {
            if !other.contains_pos(self.positions[i]) {
                proof {
                    lemma_cells_of_seq_membership(self.positions@, pos_cell(self.positions@[i as int]));
                    assert(self.cells().contains(pos_cell(self.positions@[i as int])));
                }
                return false;
            }
            i = i + 1;
        }
        let mut j: usize = 0;
        while j < other.positions.len()
            invariant
                forall|k: int|
                    0 <= k < self.positions@.len() ==> other.cells().contains(pos_cell(
                        #[trigger] self.positions@[k],
                    )),
                0 <= j <= other.positions@.len(),
                forall|k: int|
                    0 <= k < j ==> self.cells().contains(pos_cell(#[trigger] other.positions@[k])),
            decreases other.positions@.len() - j,
        {
            if !self.contains_pos(other.positions[j]) {
                proof {
                    lemma_cells_of_seq_membership(other.positions@, pos_cell(other.positions@[j as int]));
                    assert(other.cells().contains(pos_cell(other.positions@[j as int])));
                }
                return false;
            }
            j = j + 1;
        }
        proof {
            assert forall|c: (int, int)|
                self.cells().contains(c) <==> other.cells().contains(c) by {
                lemma_cells_of_seq_membership(self.positions@, c);
                lemma_cells_of_seq_membership(other.positions@, c);
            }
            assert(self.cells() =~= other.cells());
        }
        true
    }

    /// Drop every cell on row `y` and move every cell above it (smaller row)
    /// down by one row; cells below `y` and the anchor are unchanged.
    pub fn remove_line(&mut self, y: i32)
        requires
            old(self).wf(),
        ensures
            final(self).wf(),
            final(self).cells() == line_removed_cells(old(self).cells(), y as int),
            final(self).anchor == old(self).anchor,
    {
        let yi = y;
        let mut ps: Vec<Pos> = Vec::new();
        let ghost mut src: Seq<int> = Seq::empty();
        let mut i: usize = 0;
        while i < self.positions.len()
            invariant
                0 <= i <= self.positions@.len(),
                self.positions@ == old(self).positions@,
                self.anchor == old(self).anchor,
                self.positions@.no_duplicates(),
                src.len() == ps@.len(),
                forall|k: int|
                    0 <= k < ps@.len() ==> {
                        &&& 0 <= #[trigger] src[k] < i
                        &&& self.positions@[src[k]].1 != yi
                        &&& ps@[k] == shifted_pos(self.positions@[src[k]], yi as int)
                    },
                forall|m: int|
                    0 <= m < i && (#[trigger] self.positions@[m]).1 != yi ==> exists|k: int|
                        0 <= k < ps@.len() && #[trigger] src[k] == m,
                ps@.no_duplicates(),
            decreases self.positions@.len() - i,
        {
            let ghost ps0 = ps@;
            let ghost src0 = src;
            let p = self.positions[i];
            if p.1 != yi {
                let q = if p.1 >= yi {
                    p
                } else {
                    Pos(p.0, p.1 + 1)
                };
                proof {
                    assert(q == shifted_pos(self.positions@[i as int], yi as int));
                    assert forall|k: int| 0 <= k < ps0.len() implies ps0[k] != q by {
                        if ps0[k] == q {
                            lemma_shifted_pos_injective(
                                self.positions@[src0[k]],
                                self.positions@[i as int],
                                yi as int,
                            );
                            assert(self.positions@[src0[k]] == self.positions@[i as int]);
                        }
                    }
                }
                ps.push(q);
                proof {
                    src = src0.push(i as int);
                    assert forall|m: int|
                        0 <= m < i + 1 && (#[trigger] self.positions@[m]).1 != yi
                        implies exists|k: int| 0 <= k < ps@.len() && #[trigger] src[k] == m by {
                        if m < i {
                            let k = choose|k: int| 0 <= k < ps0.len() && #[trigger] src0[k] == m;
                            assert(src[k] == m);
                        } else {
                            assert(src[src.len() - 1] == m);
                        }
                    }
                }
            } else {
                proof {
                    assert forall|m: int|
                        0 <= m < i + 1 && (#[trigger] self.positions@[m]).1 != yi
                        implies exists|k: int| 0 <= k < ps@.len() && #[trigger] src[k] == m by {
                        assert(m < i);
                        let k = choose|k: int| 0 <= k < ps0.len() && #[trigger] src0[k] == m;
                        assert(src[k] == m);
                    }
                }
            }
            i = i + 1;
        }
        proof {
            let n = self.positions@.len() as int;
            assert forall|c: (int, int)|
                cells_of_seq(ps@).contains(c) <==> line_removed_cells(
                    old(self).cells(),
                    y as int,
                ).contains(c) by {
                lemma_cells_of_seq_membership(ps@, c);
                lemma_cells_of_seq_membership(self.positions@, c);
                lemma_cells_of_seq_membership(self.positions@, (c.0, c.1 - 1));
                if cells_of_seq(ps@).contains(c) {
                    let k = choose|k: int| 0 <= k < ps@.len() && pos_cell(#[trigger] ps@[k]) == c;
                    let m = src[k];
                    assert(ps@[k] == shifted_pos(self.positions@[m], y as int));
                    assert(pos_cell(shifted_pos(self.positions@[m], y as int)) == c);
                }
                if line_removed_cells(old(self).cells(), y as int).contains(c) {
                    if c.1 > y as int {
                        let m = choose|m: int|
                            0 <= m < n && pos_cell(#[trigger] self.positions@[m]) == c;
                        assert(shifted_pos(self.positions@[m], y as int) == self.positions@[m]);
                        let k = choose|k: int| 0 <= k < ps@.len() && #[trigger] src[k] == m;
                        assert(pos_cell(ps@[k]) == c);
                    } else {
                        let m = choose|m: int|
                            0 <= m < n && pos_cell(#[trigger] self.positions@[m]) == (c.0, c.1 - 1);
                        assert(pos_cell(shifted_pos(self.positions@[m], y as int)) == c);
                        let k = choose|k: int| 0 <= k < ps@.len() && #[trigger] src[k] == m;
                        assert(pos_cell(ps@[k]) == c);
                    }
                }
            }
            assert(cells_of_seq(ps@) =~= line_removed_cells(old(self).cells(), y as int));
        }
        self.positions = ps;
    }
}

/// What one kept position becomes when row `y` is cleared: rows above `y`
/// drop by one, rows below stay put.
pub open spec fn shifted_pos(p: Pos, y: int) -> Pos {
    if p.1 >= y {
        p
    } else {
        Pos(p.0, (p.1 + 1) as i32)
    }
}

/// The per-cell line-removal shift never maps two distinct kept positions to
/// the same position.
pub proof fn lemma_shifted_pos_injective(p: Pos, q: Pos, y: int)
    requires
        i32::MIN <= y <= i32::MAX,
        p.1 != y,
        q.1 != y,
        shifted_pos(p, y) == shifted_pos(q, y),
    ensures
        p == q,
{
    if p.1 < y && q.1 < y {
        assert(p.1 + 1 <= y && q.1 + 1 <= y);
        assert((p.1 + 1) as i32 == (q.1 + 1) as i32);
        assert(p.1 + 1 == q.1 + 1);
    } else if p.1 < y && q.1 > y {
        assert(shifted_pos(p, y).1 <= y < shifted_pos(q, y).1);
    } else if p.1 > y && q.1 < y {
        assert(shifted_pos(q, y).1 <= y < shifted_pos(p, y).1);
    }
}



/// Concrete bounds of the seven templates: four cells each, all within a
/// small box, and never further than three cells from the anchor.
pub proof fn lemma_template_bounds(v: int)
    requires
        0 <= v < 7,
    ensures
        template_positions(v).len() == 4,
        template_positions(v).no_duplicates(),
        forall|k: int|
            0 <= k < template_positions(v).len() ==> {
                &&& -1 <= (#[trigger] template_positions(v)[k]).0 <= 3
                &&& 0 <= template_positions(v)[k].1 <= 2
                &&& -3 <= template_positions(v)[k].0 - template_anchor(v).0 <= 3
                &&& -3 <= template_positions(v)[k].1 - template_anchor(v).1 <= 3
            },
        0 <= template_anchor(v).0 <= 1,
        0 <= template_anchor(v).1 <= 1,
{
}

/// Each of the seven shape templates has exactly four cells, all distinct.
pub proof fn lemma_template_four_cells(v: int)
    requires
        0 <= v < 7,
    ensures
        template_positions(v).no_duplicates(),
        cells_of_seq(template_positions(v)).finite(),
        cells_of_seq(template_positions(v)).len() == 4,
{
    assert(template_positions(v).no_duplicates());
    lemma_cells_count(template_positions(v));
}

/// Rotation is a group of order four: four quarter-turns about one anchor
/// give back the original cell set.
pub proof fn lemma_rotation_order_four(cells: Set<(int, int)>, a: int, b: int)
    ensures
        rotated_cells(rotated_cells(rotated_cells(rotated_cells(cells, a, b), a, b), a, b), a, b)
            == cells,
{
    let r1 = rotated_cells(cells, a, b);
    let r2 = rotated_cells(r1, a, b);
    let r3 = rotated_cells(r2, a, b);
    let r4 = rotated_cells(r3, a, b);
    assert forall|c: (int, int)| r4.contains(c) <==> cells.contains(c) by {
        assert(r4.contains(c) <==> r3.contains((c.1 + a - b, a + b - c.0)));
        assert(r3.contains((c.1 + a - b, a + b - c.0)) <==> r2.contains(
            (a + b - c.0 + a - b, a + b - (c.1 + a - b)),
        ));
        assert(r2.contains((2 * a - c.0, 2 * b - c.1)) <==> r1.contains(
            (2 * b - c.1 + a - b, a + b - (2 * a - c.0)),
        ));
        assert(r1.contains((a + b - c.1, b - a + c.0)) <==> cells.contains(
            (b - a + c.0 + a - b, a + b - (a + b - c.1)),
        ));
    }
    assert(r4 =~= cells);
}

/// Translating by `(dx1, dy1)` and then by `(dx2, dy2)` is one translation
/// by the componentwise sum.
pub proof fn lemma_translate_compose(
    cells: Set<(int, int)>,
    dx1: int,
    dy1: int,
    dx2: int,
    dy2: int,
)
    ensures
        translated_cells(translated_cells(cells, dx1, dy1), dx2, dy2) == translated_cells(
            cells,
            dx1 + dx2,
            dy1 + dy2,
        ),
{
    assert(translated_cells(translated_cells(cells, dx1, dy1), dx2, dy2) =~= translated_cells(
        cells,
        dx1 + dx2,
        dy1 + dy2,
    ));
}

/// Collision between two cell sets does not depend on their order.
pub proof fn lemma_collision_symmetric(a: Set<(int, int)>, b: Set<(int, int)>)
    ensures
        cells_collide(a, b) == cells_collide(b, a),
{
    if cells_collide(a, b) {
        let c = choose|c: (int, int)| a.contains(c) && b.contains(c);
        assert(b.contains(c) && a.contains(c));
    }
    if cells_collide(b, a) {
        let c = choose|c: (int, int)| b.contains(c) && a.contains(c);
        assert(a.contains(c) && b.contains(c));
    }
}

/// Relies on rand::random_range: a value drawn uniformly from the given
/// range, here one of the seven template indices.
#[verifier::external_body]
pub(crate) fn random_variant() -> (r: u8)
    ensures
        r < 7,
{
    rand::random_range(0..7u8)
}

} // verus!
