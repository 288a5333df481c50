//! The board: a dense rectangle of cells, each empty or coloured.
//!
//! A grid is modelled as a sequence of rows, top row first, each row a
//! sequence of colours, left cell first. Every contract in this module is
//! stated over that model.

use vstd::prelude::*;
use crate::state::color::Color;

verus! {

/// Smallest width and height a grid may have.
pub const MIN_SIDE: usize = 4;

/// Largest width and height a grid may have, so that every cell, and every
/// cell next to the grid that a piece on it can reach, has a position.
pub const MAX_SIDE: usize = 0x4000_0000;

/// A cell position: column `x` counted from the left, row `y` from the top.
/// A position may lie outside any grid.
#[derive(Clone, Copy, Debug, PartialEq, Eq, Structural)]
pub struct Pos {
    pub x: i32,
    pub y: i32,
}

/// The size of a grid.
#[derive(Clone, Copy, Debug, PartialEq, Eq, Structural)]
pub struct Dim {
    pub w: usize,
    pub h: usize,
}

/// A position or a row outside the grid was named.
#[derive(Clone, Copy, Debug, PartialEq, Eq, Structural)]
pub struct OutOfBounds;

/// The width of a model: the length of its first row.
pub open spec fn width_of(g: Seq<Seq<Color>>) -> nat {
    if g.len() > 0 {
        g[0].len()
    } else {
        0
    }
}

/// A model is a rectangle of admissible size.
pub open spec fn rectangular(g: Seq<Seq<Color>>) -> bool {
    &&& MIN_SIDE <= g.len() <= MAX_SIDE
    &&& MIN_SIDE <= width_of(g) <= MAX_SIDE
    &&& forall|y: int| 0 <= y < g.len() ==> (#[trigger] g[y]).len() == width_of(g)
}

/// Column `x` of row `y` is a cell of the model.
pub open spec fn in_bounds(g: Seq<Seq<Color>>, x: int, y: int) -> bool {
    0 <= y < g.len() && 0 <= x < width_of(g)
}

/// Column `x` of row `y` is a cell of the model and holds a tile.
pub open spec fn occupied_at(g: Seq<Seq<Color>>, x: int, y: int) -> bool {
    in_bounds(g, x, y) && g[y][x] != Color::Empty
}

/// A row of `w` empty cells.
pub open spec fn empty_row(w: nat) -> Seq<Color> {
    Seq::new(w, |x: int| Color::Empty)
}

/// A grid of `h` rows of `w` empty cells.
pub open spec fn empty_grid(w: nat, h: nat) -> Seq<Seq<Color>> {
    Seq::new(h, |y: int| empty_row(w))
}

/// Every cell of the row holds a tile.
pub open spec fn row_full(row: Seq<Color>) -> bool {
    forall|x: int| 0 <= x < row.len() ==> (#[trigger] row[x]) != Color::Empty
}

/// The model with the cell at column `x` of row `y` set to `c`.
pub open spec fn with_tile(g: Seq<Seq<Color>>, x: int, y: int, c: Color) -> Seq<Seq<Color>> {
    g.update(y, g[y].update(x, c))
}

/// The model with row `y` taken out and an empty row put on top: the rows
/// above `y` move down by one, the rows below stay.
pub open spec fn without_row(g: Seq<Seq<Color>>, y: int) -> Seq<Seq<Color>> {
    seq![empty_row(width_of(g))] + g.remove(y)
}

/// `a` comes before `b` when the cells are read row by row from the top,
/// each row from the left.
pub open spec fn precedes(a: Pos, b: Pos) -> bool {
    a.y < b.y || (a.y == b.y && a.x < b.x)
}

/// Reading back a cell that was just written gives the colour written.
pub proof fn lemma_tile_after_set_tile(g: Seq<Seq<Color>>, x: int, y: int, c: Color)
    requires
        rectangular(g),
        in_bounds(g, x, y),
    ensures
        rectangular(with_tile(g, x, y, c)),
        in_bounds(with_tile(g, x, y, c), x, y),
        with_tile(g, x, y, c)[y][x] == c,
{
    let n = with_tile(g, x, y, c);
    assert(g[0].len() == width_of(g));
    assert(g[y].len() == width_of(g));
    assert(n[0].len() == width_of(g));
    assert forall|r: int| 0 <= r < n.len() implies (#[trigger] n[r]).len() == width_of(n) by {
        assert(g[r].len() == width_of(g));
    }
}

/// Writing one cell leaves every other cell as it was.
pub proof fn lemma_set_tile_keeps_others(
    g: Seq<Seq<Color>>,
    x: int,
    y: int,
    c: Color,
    x2: int,
    y2: int,
)
    requires
        rectangular(g),
        in_bounds(g, x, y),
        in_bounds(g, x2, y2),
        x2 != x || y2 != y,
    ensures
        with_tile(g, x, y, c)[y2][x2] == g[y2][x2],
{
    assert(g[y].len() == width_of(g));
}

/// Taking out row `y` leaves an empty row on top, moves each row above `y`
/// down by one, so that the old row `y` is gone, and keeps the rows below.
pub proof fn lemma_remove_row_shifts(g: Seq<Seq<Color>>, y: int)
    requires
        rectangular(g),
        0 <= y < g.len(),
    ensures
        rectangular(without_row(g, y)),
        without_row(g, y).len() == g.len(),
        width_of(without_row(g, y)) == width_of(g),
        without_row(g, y)[0] == empty_row(width_of(g)),
        !row_full(without_row(g, y)[0]),
        forall|j: int| 1 <= j <= y ==> #[trigger] without_row(g, y)[j] == g[j - 1],
        forall|j: int| y < j < g.len() ==> #[trigger] without_row(g, y)[j] == g[j],
{
    let n = without_row(g, y);
    let w = width_of(g);
    assert(n.len() == g.len());
    assert(n[0] == empty_row(w));
    assert(n[0].len() == w);
    assert forall|j: int| 1 <= j <= y implies #[trigger] n[j] == g[j - 1] by {
        assert(n[j] == g.remove(y)[j - 1]);
    }
    assert forall|j: int| y < j < g.len() implies #[trigger] n[j] == g[j] by {
        assert(n[j] == g.remove(y)[j - 1]);
    }
    assert forall|j: int| 0 <= j < n.len() implies (#[trigger] n[j]).len() == width_of(n) by {
        if j == 0 {
        } else if j <= y {
            assert(n[j] == g[j - 1]);
            assert(g[j - 1].len() == w);
        } else {
            assert(n[j] == g[j]);
            assert(g[j].len() == w);
        }
    }
    assert(n[0][0] == Color::Empty);
}

/// A rectangle of cells, each empty or coloured.
pub struct Grid {
    rows: Vec<Vec<Color>>,
}

impl Grid {
    /// The rows of the grid, top row first.
    pub closed spec fn view(&self) -> Seq<Seq<Color>> {
        Seq::new(self.rows@.len(), |y: int| self.rows@[y]@)
    }

    /// The grid is a rectangle of admissible size.
    pub open spec fn wf(&self) -> bool {
        rectangular(self@)
    }

    proof fn lemma_row(&self, y: int)
        requires
            self.wf(),
            0 <= y < self@.len(),
        ensures
            self.rows@.len() == self@.len(),
            self.rows@[y]@ == self@[y],
            self.rows@[y]@.len() == width_of(self@),
    {
    }

    /// Whether the grid is a rectangle of admissible size: what every other
    /// operation asks of it.
    pub fn is_valid(&self) -> (r: bool)
        ensures
            r == self.wf(),
    {
        let h = self.rows.len();
        if h < MIN_SIDE || h > MAX_SIDE {
            return false;
        }
        let w = self.rows[0].len();
        assert(self@[0] == self.rows@[0]@);
        if w < MIN_SIDE || w > MAX_SIDE {
            return false;
        }
        let mut y: usize = 0;
        while y < h
            invariant
                y <= h,
                h == self.rows@.len(),
                w == width_of(self@),
                forall|j: int| 0 <= j < y ==> (#[trigger] self@[j]).len() == w,
            decreases h - y,
        {
            assert(self@[y as int] == self.rows@[y as int]@);
            if self.rows[y].len() != w {
                return false;
            }
            y += 1;
        }
        true
    }

    /// Whether the two grids have the same size and the same colour in every
    /// cell.
    pub fn same_as(&self, other: &Grid) -> (r: bool)
        ensures
            r == (self@ == other@),
    {
        let h = self.rows.len();
        if other.rows.len() != h {
            assert(self@.len() != other@.len());
            return false;
        }
        let mut y: usize = 0;
        while y < h
            invariant
                y <= h,
                h == self.rows@.len(),
                h == other.rows@.len(),
                forall|j: int| 0 <= j < y ==> #[trigger] self@[j] == other@[j],
            decreases h - y,
        {
            let a = &self.rows[y];
            let b = &other.rows[y];
            assert(self@[y as int] == a@ && other@[y as int] == b@);
            let w = a.len();
            if b.len() != w {
                return false;
            }
            let mut x: usize = 0;
            while x < w
                invariant
                    x <= w,
                    y < h,
                    w == a@.len(),
                    w == b@.len(),
                    self@[y as int] == a@,
                    other@[y as int] == b@,
                    forall|i: int| 0 <= i < x ==> #[trigger] a@[i] == b@[i],
                decreases w - x,
            {
                if a[x] != b[x] {
                    return false;
                }
                x += 1;
            }
            assert(a@ =~= b@);
            y += 1;
        }
        assert(self@ =~= other@);
        true
    }

    /// An empty grid `w` cells wide and `h` cells high.
    pub fn new(w: usize, h: usize) -> (g: Grid)
        requires
            MIN_SIDE <= w <= MAX_SIDE,
            MIN_SIDE <= h <= MAX_SIDE,
        ensures
            g.wf(),
            g@ == empty_grid(w as nat, h as nat),
    {
        let mut rows: Vec<Vec<Color>> = Vec::new();
        let mut y: usize = 0;
        while y < h
            invariant
                y <= h,
                rows@.len() == y,
                forall|j: int| 0 <= j < y ==> (#[trigger] rows@[j])@ == empty_row(w as nat),
            decreases h - y,
        {
            let row = Self::blank_row(w);
            rows.push(row);
            y += 1;
        }
        let g = Grid { rows };
        assert(g@ =~= empty_grid(w as nat, h as nat));
        g
    }

    fn blank_row(w: usize) -> (row: Vec<Color>)
        ensures
            row@ == empty_row(w as nat),
    {
        let mut row: Vec<Color> = Vec::new();
        let mut x: usize = 0;
        while x < w
            invariant
                x <= w,
                row@.len() == x,
                forall|i: int| 0 <= i < x ==> (#[trigger] row@[i]) == Color::Empty,
            decreases w - x,
        {
            row.push(Color::Empty);
            x += 1;
        }
        assert(row@ =~= empty_row(w as nat));
        row
    }

    /// The width and height of the grid.
    pub fn dim(&self) -> (d: Dim)
        requires
            self.wf(),
        ensures
            d.w == width_of(self@),
            d.h == self@.len(),
    {
        Dim { w: self.rows[0].len(), h: self.rows.len() }
    }

    /// Whether `pos` names a cell of the grid.
    pub fn contains(&self, pos: Pos) -> (r: bool)
        requires
            self.wf(),
        ensures
            r == in_bounds(self@, pos.x as int, pos.y as int),
    {
        pos.x >= 0 && pos.y >= 0 && (pos.y as usize) < self.rows.len() && (pos.x as usize)
            < self.rows[0].len()
    }

    /// The colour of the cell at `pos`, or `OutOfBounds` when `pos` names no
    /// cell of the grid.
    pub fn tile(&self, pos: Pos) -> (r: Result<Color, OutOfBounds>)
        requires
            self.wf(),
        ensures
            in_bounds(self@, pos.x as int, pos.y as int) ==> r == Ok::<Color, OutOfBounds>(
                self@[pos.y as int][pos.x as int],
            ),
            !in_bounds(self@, pos.x as int, pos.y as int) ==> r == Err::<Color, OutOfBounds>(
                OutOfBounds,
            ),
    {
        if self.contains(pos) {
            proof {
                self.lemma_row(pos.y as int);
            }
            Ok(self.rows[pos.y as usize][pos.x as usize])
        } else {
            Err(OutOfBounds)
        }
    }

    /// Sets the cell at `pos` to `color`. When `pos` names no cell of the
    /// grid, nothing changes and `OutOfBounds` is returned.
    pub fn set_tile(&mut self, pos: Pos, color: Color) -> (r: Result<(), OutOfBounds>)
        requires
            old(self).wf(),
        ensures
            final(self).wf(),
            in_bounds(old(self)@, pos.x as int, pos.y as int) ==> r.is_ok() && final(self)@
                == with_tile(old(self)@, pos.x as int, pos.y as int, color),
            !in_bounds(old(self)@, pos.x as int, pos.y as int) ==> r == Err::<(), OutOfBounds>(
                OutOfBounds,
            ) && final(self)@ == old(self)@,
    {
        if self.contains(pos) {
            let x = pos.x as usize;
            let y = pos.y as usize;
            proof {
                self.lemma_row(y as int);
            }
            self.rows[y][x] = color;
            proof {
                assert(final(self)@ =~= with_tile(old(self)@, x as int, y as int, color));
                lemma_tile_after_set_tile(old(self)@, x as int, y as int, color);
            }
            Ok(())
        } else {
            Err(OutOfBounds)
        }
    }

    /// The positions of all occupied cells, read row by row from the top and
    /// each row from the left.
    pub fn get_iter(&self) -> (out: Vec<Pos>)
        requires
            self.wf(),
        ensures
            forall|i: int|
                0 <= i < out@.len() ==> occupied_at(
                    self@,
                    (#[trigger] out@[i]).x as int,
                    out@[i].y as int,
                ),
            forall|x: int, y: int| #[trigger]
                occupied_at(self@, x, y) ==> out@.contains(Pos { x: x as i32, y: y as i32 }),
            forall|i: int, j: int|
                0 <= i < j < out@.len() ==> precedes(#[trigger] out@[i], #[trigger] out@[j]),
    {
        let d = self.dim();
        let mut out: Vec<Pos> = Vec::new();
        let mut y: usize = 0;
        while y < d.h
            invariant
                self.wf(),
                d.w == width_of(self@),
                d.h == self@.len(),
                y <= d.h,
                forall|i: int|
                    0 <= i < out@.len() ==> occupied_at(
                        self@,
                        (#[trigger] out@[i]).x as int,
                        out@[i].y as int,
                    ) && out@[i].y < y,
                forall|x: int, r: int| #[trigger]
                    occupied_at(self@, x, r) && r < y ==> out@.contains(
                        Pos { x: x as i32, y: r as i32 },
                    ),
                forall|i: int, j: int|
                    0 <= i < j < out@.len() ==> precedes(#[trigger] out@[i], #[trigger] out@[j]),
            decreases d.h - y,
        {
            let mut x: usize = 0;
            while x < d.w
                invariant
                    self.wf(),
                    d.w == width_of(self@),
                    d.h == self@.len(),
                    y < d.h,
                    x <= d.w,
                    forall|i: int|
                        0 <= i < out@.len() ==> occupied_at(
                            self@,
                            (#[trigger] out@[i]).x as int,
                            out@[i].y as int,
                        ) && precedes(out@[i], Pos { x: x as i32, y: y as i32 }),
                    forall|c: int, r: int| #[trigger]
                        occupied_at(self@, c, r) && (r < y || (r == y && c < x))
                            ==> out@.contains(Pos { x: c as i32, y: r as i32 }),
                    forall|i: int, j: int|
                        0 <= i < j < out@.len() ==> precedes(
                            #[trigger] out@[i],
                            #[trigger] out@[j],
                        ),
                decreases d.w - x,
            {
                let ghost before = out@;
                let here = Pos { x: x as i32, y: y as i32 };
                proof {
                    self.lemma_row(y as int);
                }
                if self.rows[y][x] != Color::Empty {
                    out.push(here);
                }
                proof {
                    assert forall|c: int, r: int| #[trigger]
                        occupied_at(self@, c, r) && (r < y || (r == y && c < x + 1))
                        implies out@.contains(Pos { x: c as i32, y: r as i32 }) by {
                        let p = Pos { x: c as i32, y: r as i32 };
                        if r == y && c == x {
                            assert(out@[out@.len() - 1] == p);
                        } else {
                            assert(before.contains(p));
                            let i = choose|i: int| 0 <= i < before.len() && before[i] == p;
                            assert(out@[i] == p);
                        }
                    }
                }
                x += 1;
            }
            y += 1;
        }
        out
    }

    /// Whether `y` names a row of the grid and every cell of that row holds a
    /// tile.
    pub fn row_is_full(&self, y: i32) -> (r: bool)
        requires
            self.wf(),
        ensures
            r == (0 <= y < self@.len() && row_full(self@[y as int])),
    {
        if y < 0 || (y as usize) >= self.rows.len() {
            return false;
        }
        let row = &self.rows[y as usize];
        proof {
            self.lemma_row(y as int);
        }
        let mut x: usize = 0;
        while x < row.len()
            invariant
                row@ == self@[y as int],
                0 <= y < self@.len(),
                x <= row@.len(),
                forall|i: int| 0 <= i < x ==> (#[trigger] row@[i]) != Color::Empty,
            decreases row@.len() - x,
        {
            if row[x] == Color::Empty {
                return false;
            }
            x += 1;
        }
        true
    }

    /// Takes out row `y`: the rows above it move down by one and the top row
    /// becomes empty. When `y` names no row of the grid, nothing changes and
    /// `OutOfBounds` is returned.
    pub fn remove_row(&mut self, y: i32) -> (r: Result<(), OutOfBounds>)
        requires
            old(self).wf(),
        ensures
            final(self).wf(),
            0 <= y < old(self)@.len() ==> r.is_ok() && final(self)@ == without_row(
                old(self)@,
                y as int,
            ),
            !(0 <= y < old(self)@.len()) ==> r == Err::<(), OutOfBounds>(OutOfBounds)
                && final(self)@ == old(self)@,
    {
        if y < 0 || (y as usize) >= self.rows.len() {
            return Err(OutOfBounds);
        }
        let w = self.rows[0].len();
        self.rows.remove(y as usize);
        let top = Self::blank_row(w);
        self.rows.insert(0, top);
        proof {
            assert(final(self)@ =~= without_row(old(self)@, y as int));
            lemma_remove_row_shifts(old(self)@, y as int);
        }
        Ok(())
    }

    /// Empties every cell.
    pub fn clear(&mut self)
        requires
            old(self).wf(),
        ensures
            final(self).wf(),
            final(self)@ == empty_grid(width_of(old(self)@), old(self)@.len()),
    {
        let d = self.dim();
        let mut y: usize = 0;
        while y < d.h
            invariant
                y <= d.h,
                d.h == self.rows@.len(),
                d.h == old(self)@.len(),
                d.w == width_of(old(self)@),
                forall|j: int| 0 <= j < y ==> (#[trigger] self.rows@[j])@ == empty_row(d.w as nat),
            decreases d.h - y,
        {
            let row = Self::blank_row(d.w);
            self.rows[y] = row;
            y += 1;
        }
        assert(self@ =~= empty_grid(d.w as nat, d.h as nat));
    }
}

} // verus!
