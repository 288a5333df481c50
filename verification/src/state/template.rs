//! The seven shapes, their rotation states, and the falling piece.
//!
//! Offsets are measured from a pivot, `dx` to the right and `dy` downwards.
//! Each shape has a base state; every further state is the one before it
//! turned by a quarter, clockwise on the screen, about the pivot.

use vstd::prelude::*;
use crate::state::color::Color;
use crate::state::grid::Pos;

verus! {

/// How many cells a piece covers.
pub const CELLS: usize = 4;

/// How many shapes there are.
pub const SHAPES: u32 = 7;

/// How far, in columns or rows, a cell of a piece can lie from the pivot.
pub const REACH: i32 = 2;

/// A displacement: `dx` columns to the right, `dy` rows down.
#[derive(Clone, Copy, Debug, PartialEq, Eq, Structural)]
pub struct DeltaPos {
    pub dx: i32,
    pub dy: i32,
}

/// One of the seven tetrominoes.
#[derive(Clone, Copy, Debug, PartialEq, Eq, Structural)]
pub enum Shape {
    I,
    O,
    T,
    S,
    Z,
    J,
    L,
}

/// The offset `d` after `n` quarter turns about the pivot, for `n` from 0 to 3.
pub open spec fn quarter_turns(d: (int, int), n: int) -> (int, int) {
    if n == 0 {
        d
    } else if n == 1 {
        (-d.1, d.0)
    } else if n == 2 {
        (-d.0, -d.1)
    } else {
        (d.1, -d.0)
    }
}

/// The cells covered by a piece of the given shape and rotation state whose
/// pivot is at column `px` of row `py`, as (column, row) pairs.
pub open spec fn cells_of(shape: Shape, rotation: int, px: int, py: int) -> Seq<(int, int)> {
    Seq::new(
        CELLS as nat,
        |k: int| (px + shape.spec_offset(rotation, k).0, py + shape.spec_offset(rotation, k).1),
    )
}

impl Shape {
    /// The number of rotation states of the shape.
    pub open spec fn spec_states(self) -> int {
        match self {
            Shape::O => 1,
            Shape::I | Shape::S | Shape::Z => 2,
            Shape::T | Shape::J | Shape::L => 4,
        }
    }

    /// The position of the shape in the list of shapes.
    pub open spec fn spec_index(self) -> int {
        match self {
            Shape::I => 0,
            Shape::O => 1,
            Shape::T => 2,
            Shape::S => 3,
            Shape::Z => 4,
            Shape::J => 5,
            Shape::L => 6,
        }
    }

    /// The colour of the shape's tiles.
    pub open spec fn spec_color(self) -> Color {
        match self {
            Shape::I => Color::Cyan,
            Shape::O => Color::Yellow,
            Shape::T => Color::Purple,
            Shape::S => Color::Green,
            Shape::Z => Color::Red,
            Shape::J => Color::Blue,
            Shape::L => Color::Orange,
        }
    }

    /// Offset `k` of the base state. The base state lies in the pivot's row
    /// and the row below it, from one column left of the pivot to two
    /// columns right of it.
    pub open spec fn base(self, k: int) -> (int, int) {
        match self {
            Shape::I => if k == 0 {
                (-1, 0)
            } else if k == 1 {
                (0, 0)
            } else if k == 2 {
                (1, 0)
            } else {
                (2, 0)
            },
            Shape::O => if k == 0 {
                (0, 0)
            } else if k == 1 {
                (1, 0)
            } else if k == 2 {
                (0, 1)
            } else {
                (1, 1)
            },
            Shape::T => if k == 0 {
                (-1, 0)
            } else if k == 1 {
                (0, 0)
            } else if k == 2 {
                (1, 0)
            } else {
                (0, 1)
            },
            Shape::S => if k == 0 {
                (0, 0)
            } else if k == 1 {
                (1, 0)
            } else if k == 2 {
                (-1, 1)
            } else {
                (0, 1)
            },
            Shape::Z => if k == 0 {
                (-1, 0)
            } else if k == 1 {
                (0, 0)
            } else if k == 2 {
                (0, 1)
            } else {
                (1, 1)
            },
            Shape::J => if k == 0 {
                (-1, 0)
            } else if k == 1 {
                (0, 0)
            } else if k == 2 {
                (1, 0)
            } else {
                (1, 1)
            },
            Shape::L => if k == 0 {
                (-1, 0)
            } else if k == 1 {
                (0, 0)
            } else if k == 2 {
                (1, 0)
            } else {
                (-1, 1)
            },
        }
    }

    /// Offset `k` of rotation state `rotation`: the base offset after that
    /// many quarter turns.
    pub open spec fn spec_offset(self, rotation: int, k: int) -> (int, int) {
        quarter_turns(self.base(k), rotation)
    }

    /// The number of rotation states of the shape.
    pub fn states(self) -> (n: u8)
        ensures
            n == self.spec_states(),
    {
        match self {
            Shape::O => 1,
            Shape::I | Shape::S | Shape::Z => 2,
            Shape::T | Shape::J | Shape::L => 4,
        }
    }

    /// The colour of the shape's tiles.
    pub fn color(self) -> (c: Color)
        ensures
            c == self.spec_color(),
            c != Color::Empty,
    {
        match self {
            Shape::I => Color::Cyan,
            Shape::O => Color::Yellow,
            Shape::T => Color::Purple,
            Shape::S => Color::Green,
            Shape::Z => Color::Red,
            Shape::J => Color::Blue,
            Shape::L => Color::Orange,
        }
    }

    /// The shape at position `i` of the list of shapes, counted round and
    /// round: every number names a shape.
    pub fn from_index(i: u32) -> (s: Shape)
        ensures
            s.spec_index() == i as int % SHAPES as int,
    {
        let r: u32 = i % SHAPES;
        if r == 0 {
            Shape::I
        } else if r == 1 {
            Shape::O
        } else if r == 2 {
            Shape::T
        } else if r == 3 {
            Shape::S
        } else if r == 4 {
            Shape::Z
        } else if r == 5 {
            Shape::J
        } else {
            Shape::L
        }
    }

    /// The four offsets of rotation state `rotation`, from the table of
    /// shapes. The table agrees with the quarter turns of the base state.
    pub fn offsets(self, rotation: u8) -> (t: [DeltaPos; 4])
        requires
            rotation < self.spec_states(),
        ensures
            forall|k: int|
                0 <= k < CELLS ==> (#[trigger] t[k]).dx == self.spec_offset(rotation as int, k).0
                    && t[k].dy == self.spec_offset(rotation as int, k).1,
    {
        match self {
            Shape::I => if rotation == 0 {
                row(-1, 0, 0, 0, 1, 0, 2, 0)
            } else {
                row(0, -1, 0, 0, 0, 1, 0, 2)
            },
            Shape::O => row(0, 0, 1, 0, 0, 1, 1, 1),
            Shape::T => if rotation == 0 {
                row(-1, 0, 0, 0, 1, 0, 0, 1)
            } else if rotation == 1 {
                row(0, -1, 0, 0, 0, 1, -1, 0)
            } else if rotation == 2 {
                row(1, 0, 0, 0, -1, 0, 0, -1)
            } else {
                row(0, 1, 0, 0, 0, -1, 1, 0)
            },
            Shape::S => if rotation == 0 {
                row(0, 0, 1, 0, -1, 1, 0, 1)
            } else {
                row(0, 0, 0, 1, -1, -1, -1, 0)
            },
            Shape::Z => if rotation == 0 {
                row(-1, 0, 0, 0, 0, 1, 1, 1)
            } else {
                row(0, -1, 0, 0, -1, 0, -1, 1)
            },
            Shape::J => if rotation == 0 {
                row(-1, 0, 0, 0, 1, 0, 1, 1)
            } else if rotation == 1 {
                row(0, -1, 0, 0, 0, 1, -1, 1)
            } else if rotation == 2 {
                row(1, 0, 0, 0, -1, 0, -1, -1)
            } else {
                row(0, 1, 0, 0, 0, -1, 1, -1)
            },
            Shape::L => if rotation == 0 {
                row(-1, 0, 0, 0, 1, 0, -1, 1)
            } else if rotation == 1 {
                row(0, -1, 0, 0, 0, 1, -1, -1)
            } else if rotation == 2 {
                row(1, 0, 0, 0, -1, 0, 1, -1)
            } else {
                row(0, 1, 0, 0, 0, -1, 1, 1)
            },
        }
    }
}

/// One line of the table of shapes: four offsets, each as `dx` then `dy`.
fn row(ax: i32, ay: i32, bx: i32, by: i32, cx: i32, cy: i32, dx: i32, dy: i32) -> (t: [DeltaPos;
    4])
    ensures
        t[0] == (DeltaPos { dx: ax, dy: ay }),
        t[1] == (DeltaPos { dx: bx, dy: by }),
        t[2] == (DeltaPos { dx: cx, dy: cy }),
        t[3] == (DeltaPos { dx: dx, dy: dy }),
{
    [
        DeltaPos { dx: ax, dy: ay },
        DeltaPos { dx: bx, dy: by },
        DeltaPos { dx: cx, dy: cy },
        DeltaPos { dx: dx, dy: dy },
    ]
}

/// Every offset of every rotation state lies within `REACH` of the pivot,
/// and the pivot itself is one of the cells.
pub proof fn lemma_offsets_within_reach(shape: Shape, rotation: int, k: int)
    requires
        0 <= rotation < shape.spec_states(),
        0 <= k < CELLS,
    ensures
        -REACH <= shape.spec_offset(rotation, k).0 <= REACH,
        -REACH <= shape.spec_offset(rotation, k).1 <= REACH,
        exists|j: int| 0 <= j < CELLS && #[trigger] shape.spec_offset(rotation, j) == (0int, 0int),
{
    assert(shape.spec_offset(rotation, 0) == (0int, 0int) || shape.spec_offset(rotation, 1) == (
        0int,
        0int,
    ));
}

/// The four cells of a rotation state are four different cells.
pub proof fn lemma_cells_distinct(shape: Shape, rotation: int, j: int, k: int)
    requires
        0 <= rotation < shape.spec_states(),
        0 <= j < k < CELLS,
    ensures
        shape.spec_offset(rotation, j) != shape.spec_offset(rotation, k),
{
}

/// A number drawn by `rand::random`, which takes it from the random number
/// generator of the calling thread. Any number can come; nothing is claimed
/// of it.
#[verifier::external_body]
fn draw() -> (n: u32) {
    rand::random::<u32>()
}

impl Shape {
    /// A shape chosen by chance.
    pub fn random() -> (s: Shape) {
        Shape::from_index(draw())
    }
}

/// A shape in one of its rotation states, with its pivot at a position.
#[derive(Clone, Copy, Debug, PartialEq, Eq, Structural)]
pub struct Piece {
    pub shape: Shape,
    pub rotation: u8,
    pub pivot: Pos,
}

impl Piece {
    /// The rotation state is one of the shape's, and every cell within
    /// `REACH` of the pivot has a position.
    pub open spec fn wf(self) -> bool {
        &&& self.rotation < self.shape.spec_states()
        &&& i32::MIN + REACH <= self.pivot.x <= i32::MAX - REACH
        &&& i32::MIN + REACH <= self.pivot.y <= i32::MAX - REACH
    }

    /// The cells the piece covers, as (column, row) pairs.
    pub open spec fn cells(self) -> Seq<(int, int)> {
        cells_of(self.shape, self.rotation as int, self.pivot.x as int, self.pivot.y as int)
    }

    /// The piece in its next rotation state; after the last state comes the
    /// first.
    pub open spec fn spec_rotate(self) -> Piece {
        Piece { rotation: ((self.rotation + 1) % self.shape.spec_states()) as u8, ..self }
    }

    /// The piece after `n` rotations.
    pub open spec fn spec_rotate_times(self, n: nat) -> Piece
        decreases n,
    {
        if n == 0 {
            self
        } else {
            self.spec_rotate_times((n - 1) as nat).spec_rotate()
        }
    }

    /// The pivot moved by `delta` is the pivot of a well-formed piece.
    pub open spec fn can_translate(self, delta: DeltaPos) -> bool {
        &&& i32::MIN + REACH <= self.pivot.x + delta.dx <= i32::MAX - REACH
        &&& i32::MIN + REACH <= self.pivot.y + delta.dy <= i32::MAX - REACH
    }

    /// The piece with its pivot moved by `delta`.
    pub open spec fn spec_translate(self, delta: DeltaPos) -> Piece {
        Piece {
            pivot: Pos {
                x: (self.pivot.x + delta.dx) as i32,
                y: (self.pivot.y + delta.dy) as i32,
            },
            ..self
        }
    }

    /// Whether the rotation state is one of the shape's and every cell
    /// within `REACH` of the pivot has a position: what every other
    /// operation asks of the piece.
    pub fn is_valid(&self) -> (r: bool)
        ensures
            r == self.wf(),
    {
        self.rotation < self.shape.states() && i32::MIN + REACH <= self.pivot.x && self.pivot.x
            <= i32::MAX - REACH && i32::MIN + REACH <= self.pivot.y && self.pivot.y <= i32::MAX
            - REACH
    }

    /// The positions of the cells the piece covers, in the order of the
    /// shape's offsets.
    pub fn occupied_cells(&self) -> (out: Vec<Pos>)
        requires
            self.wf(),
        ensures
            out@.len() == CELLS,
            forall|k: int|
                0 <= k < CELLS ==> ((#[trigger] out@[k]).x as int, out@[k].y as int)
                    == self.cells()[k],
    {
        let t = self.shape.offsets(self.rotation);
        let mut out: Vec<Pos> = Vec::new();
        let mut k: usize = 0;
        while k < CELLS
            invariant
                self.wf(),
                k <= CELLS,
                out@.len() == k,
                forall|j: int|
                    0 <= j < CELLS ==> (#[trigger] t[j]).dx == self.shape.spec_offset(
                        self.rotation as int,
                        j,
                    ).0 && t[j].dy == self.shape.spec_offset(self.rotation as int, j).1,
                forall|j: int|
                    0 <= j < k ==> ((#[trigger] out@[j]).x as int, out@[j].y as int)
                        == self.cells()[j],
            decreases CELLS - k,
        {
            proof {
                lemma_offsets_within_reach(self.shape, self.rotation as int, k as int);
            }
            let d = t[k];
            out.push(Pos { x: self.pivot.x + d.dx, y: self.pivot.y + d.dy });
            k += 1;
        }
        out
    }

    /// The piece in its next rotation state, at the same pivot.
    pub fn rotate(&self) -> (p: Piece)
        requires
            self.wf(),
        ensures
            p == self.spec_rotate(),
            p.wf(),
    {
        let n = self.shape.states();
        let next: u8 = if self.rotation + 1 < n {
            self.rotation + 1
        } else {
            0
        };
        Piece { shape: self.shape, rotation: next, pivot: self.pivot }
    }

    /// The piece with its pivot moved by `delta`, or `None` when a cell
    /// within `REACH` of the moved pivot would have no position.
    pub fn translate(&self, delta: DeltaPos) -> (p: Option<Piece>)
        requires
            self.wf(),
        ensures
            self.can_translate(delta) ==> p == Some(self.spec_translate(delta)),
            !self.can_translate(delta) ==> p.is_none(),
            p matches Some(q) ==> q.wf() && q.cells() == cells_of(
                self.shape,
                self.rotation as int,
                self.pivot.x + delta.dx,
                self.pivot.y + delta.dy,
            ),
    {
        let x: i64 = self.pivot.x as i64 + delta.dx as i64;
        let y: i64 = self.pivot.y as i64 + delta.dy as i64;
        let lo: i64 = i32::MIN as i64 + REACH as i64;
        let hi: i64 = i32::MAX as i64 - REACH as i64;
        if lo <= x && x <= hi && lo <= y && y <= hi {
            Some(
                Piece {
                    shape: self.shape,
                    rotation: self.rotation,
                    pivot: Pos { x: x as i32, y: y as i32 },
                },
            )
        } else {
            None
        }
    }
}

/// Rotating a piece as many times as its shape has rotation states brings it
/// back to where it started: the same state, the same cells.
pub proof fn lemma_rotation_is_cyclic(p: Piece)
    requires
        p.wf(),
    ensures
        p.spec_rotate_times(p.shape.spec_states() as nat) == p,
        p.spec_rotate_times(p.shape.spec_states() as nat).cells() == p.cells(),
{
    let p1 = p.spec_rotate();
    let p2 = p1.spec_rotate();
    let p3 = p2.spec_rotate();
    let p4 = p3.spec_rotate();
    assert(p.spec_rotate_times(0) == p);
    assert(p.spec_rotate_times(1) == p1);
    assert(p.spec_rotate_times(2) == p2);
    assert(p.spec_rotate_times(3) == p3);
    assert(p.spec_rotate_times(4) == p4);
    match p.shape {
        Shape::O => {
            assert(p1.rotation == (p.rotation + 1) % 1);
            assert(p1.rotation == p.rotation);
        },
        Shape::I | Shape::S | Shape::Z => {
            assert(p1.rotation == (p.rotation + 1) % 2);
            assert(p2.rotation == (p1.rotation + 1) % 2);
            assert(p2.rotation == p.rotation);
        },
        Shape::T | Shape::J | Shape::L => {
            assert(p1.rotation == (p.rotation + 1) % 4);
            assert(p2.rotation == (p1.rotation + 1) % 4);
            assert(p3.rotation == (p2.rotation + 1) % 4);
            assert(p4.rotation == (p3.rotation + 1) % 4);
            assert(p4.rotation == p.rotation);
        },
    }
}

/// Moving a piece changes neither its shape nor its rotation state, and
/// shifts every cell by the same displacement.
pub proof fn lemma_translate_shifts_cells(p: Piece, delta: DeltaPos, k: int)
    requires
        p.wf(),
        p.can_translate(delta),
        0 <= k < CELLS,
    ensures
        p.spec_translate(delta).wf(),
        p.spec_translate(delta).cells()[k] == (
            p.cells()[k].0 + delta.dx,
            p.cells()[k].1 + delta.dy,
        ),
{
}

} // verus!
