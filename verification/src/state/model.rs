//! The rules of the game, stated over a mathematical model of the state.
//!
//! `Model` holds the two grids as sequences of rows and the rest of the
//! state as plain values. Each operation of the game is a function from
//! model to model; the executable operations of `State` are specified by
//! them, and the laws at the end of this module are proved of them.

use vstd::prelude::*;
use crate::state::color::Color;
use crate::state::grid::{
    empty_grid, empty_row, in_bounds, rectangular, row_full, width_of, Pos, MAX_SIDE, MIN_SIDE,
};
use crate::state::template::{
    cells_of, lemma_offsets_within_reach, lemma_rotation_is_cyclic, DeltaPos, Piece, Shape,
    CELLS, REACH,
};
use crate::state::timer::Timer;

verus! {

/// Width of the pane that shows the next shape.
pub const PREVIEW_WIDTH: usize = 4;

/// Height of the pane that shows the next shape.
pub const PREVIEW_HEIGHT: usize = 4;

/// What one cleared row adds to the score.
pub const ROW_POINTS: u64 = 100;

/// Width of the play field of a new game.
pub const WIDTH: usize = 10;

/// Height of the play field of a new game.
pub const HEIGHT: usize = 20;

/// Units of time between two steps of gravity in a new game.
pub const INTERVAL: u64 = 500;

/// Whether the falling piece is written into the board or wiped from it.
#[derive(Clone, Copy, Debug, PartialEq, Eq, Structural)]
pub enum Visible {
    Yes,
    No,
}

/// What the player can ask for.
#[derive(Clone, Copy, Debug, PartialEq, Eq, Structural)]
pub enum Command {
    Left,
    Right,
    Down,
    Rotate,
    Drop,
}

/// One column to the left.
pub open spec fn left() -> DeltaPos {
    DeltaPos { dx: (-1) as i32, dy: 0 }
}

/// One column to the right.
pub open spec fn right() -> DeltaPos {
    DeltaPos { dx: 1, dy: 0 }
}

/// One row down.
pub open spec fn down() -> DeltaPos {
    DeltaPos { dx: 0, dy: 1 }
}

/// Column `x` of row `y` is a cell of the grid and holds no tile.
pub open spec fn free_at(g: Seq<Seq<Color>>, x: int, y: int) -> bool {
    in_bounds(g, x, y) && g[y][x] == Color::Empty
}

/// Every one of the cells lies on the grid and holds no tile: a piece can
/// be there.
pub open spec fn placeable(g: Seq<Seq<Color>>, cells: Seq<(int, int)>) -> bool {
    forall|k: int| 0 <= k < cells.len() ==> free_at(g, (#[trigger] cells[k]).0, cells[k].1)
}

/// Every one of the cells lies on the grid.
pub open spec fn all_in_bounds(g: Seq<Seq<Color>>, cells: Seq<(int, int)>) -> bool {
    forall|k: int| 0 <= k < cells.len() ==> in_bounds(g, (#[trigger] cells[k]).0, cells[k].1)
}

/// The grid with colour `c` in each of the cells that lie on it, and every
/// other cell as it was.
pub open spec fn painted(g: Seq<Seq<Color>>, cells: Seq<(int, int)>, c: Color) -> Seq<Seq<Color>> {
    Seq::new(
        g.len(),
        |y: int|
            Seq::new(
                g[y].len(),
                |x: int|
                    if cells.contains((x, y)) {
                        c
                    } else {
                        g[y][x]
                    },
            ),
    )
}

/// The positions as (column, row) pairs.
pub open spec fn pairs(cells: Seq<Pos>) -> Seq<(int, int)> {
    Seq::new(cells.len(), |k: int| (cells[k].x as int, cells[k].y as int))
}

/// The test that a row passes when it is not full.
pub open spec fn not_full() -> spec_fn(Seq<Color>) -> bool {
    |row: Seq<Color>| !row_full(row)
}

/// The rows that are not full, in their order.
pub open spec fn kept_rows(g: Seq<Seq<Color>>) -> Seq<Seq<Color>> {
    g.filter(not_full())
}

/// The number of full rows.
pub open spec fn full_rows(g: Seq<Seq<Color>>) -> nat {
    (g.len() - kept_rows(g).len()) as nat
}

/// The grid with its full rows taken out: the other rows sink to the
/// bottom in their order, and as many empty rows come on top.
pub open spec fn collapsed(g: Seq<Seq<Color>>) -> Seq<Seq<Color>> {
    empty_grid(width_of(g), full_rows(g)) + kept_rows(g)
}

/// The score after `rows` rows were cleared. The score stops at the largest
/// number it can hold.
pub open spec fn score_after(score: u64, rows: nat) -> u64 {
    if score + ROW_POINTS * rows > u64::MAX {
        u64::MAX
    } else {
        (score + ROW_POINTS * rows) as u64
    }
}

/// Where the pivot of a new piece goes on a board `w` cells wide.
pub open spec fn spawn_pivot(w: nat) -> Pos {
    Pos { x: (w / 2 - 1) as i32, y: 0 }
}

/// A new piece of the given shape on a board `w` cells wide.
pub open spec fn spawn_of(shape: Shape, w: nat) -> Piece {
    Piece { shape, rotation: 0, pivot: spawn_pivot(w) }
}

/// The piece that shows a shape in the preview pane.
pub open spec fn preview_piece(shape: Shape) -> Piece {
    Piece { shape, rotation: 0, pivot: Pos { x: 1, y: 1 } }
}

/// The preview pane that shows the given shape.
pub open spec fn preview_of(shape: Shape) -> Seq<Seq<Color>> {
    painted(
        empty_grid(PREVIEW_WIDTH as nat, PREVIEW_HEIGHT as nat),
        preview_piece(shape).cells(),
        shape.spec_color(),
    )
}

/// The state of a game as plain values.
pub struct Model {
    /// The play field, top row first.
    pub main: Seq<Seq<Color>>,
    /// The pane that shows the next shape.
    pub preview: Seq<Seq<Color>>,
    /// The falling piece.
    pub piece: Piece,
    /// The shape of the piece that falls next.
    pub next: Shape,
    pub timer: Timer,
    pub score: u64,
    pub is_gameover: bool,
}

impl Model {
    /// The play field is a rectangle, the falling piece lies on it, and the
    /// preview pane shows the next shape.
    pub open spec fn wf(self) -> bool {
        &&& rectangular(self.main)
        &&& self.preview == preview_of(self.next)
        &&& self.piece.wf()
        &&& all_in_bounds(self.main, self.piece.cells())
    }

    /// The first state of a game on a board `w` cells wide and `h` cells
    /// high: an empty play field with a piece of shape `first` written in at
    /// the top, and `next` queued.
    pub open spec fn start(w: nat, h: nat, first: Shape, next: Shape) -> Model {
        Model {
            main: empty_grid(w, h),
            preview: preview_of(next),
            piece: spawn_of(first, w),
            next,
            timer: Timer { elapsed: 0, interval: INTERVAL },
            score: 0,
            is_gameover: false,
        }.draw(Visible::Yes)
    }

    /// The colour that `draw` writes.
    pub open spec fn ink(self, visible: Visible) -> Color {
        match visible {
            Visible::Yes => self.piece.shape.spec_color(),
            Visible::No => Color::Empty,
        }
    }

    /// The falling piece written into the play field, or wiped from it.
    pub open spec fn draw(self, visible: Visible) -> Model {
        Model { main: painted(self.main, self.piece.cells(), self.ink(visible)), ..self }
    }

    /// The cells of the falling piece if its pivot were moved by `delta`.
    pub open spec fn cells_moved(self, delta: DeltaPos) -> Seq<(int, int)> {
        cells_of(
            self.piece.shape,
            self.piece.rotation as int,
            self.piece.pivot.x + delta.dx,
            self.piece.pivot.y + delta.dy,
        )
    }

    /// The falling piece can move by `delta`: every cell it would cover lies
    /// on the play field and holds no tile.
    pub open spec fn can_move(self, delta: DeltaPos) -> bool {
        placeable(self.main, self.cells_moved(delta))
    }

    /// The falling piece moved by `delta` if it can move so, else the state
    /// as it is.
    pub open spec fn move_piece(self, delta: DeltaPos) -> Model {
        if self.can_move(delta) {
            Model { piece: self.piece.spec_translate(delta), ..self }
        } else {
            self
        }
    }

    /// The falling piece can turn into its next rotation state.
    pub open spec fn can_rotate(self) -> bool {
        placeable(self.main, self.piece.spec_rotate().cells())
    }

    /// The falling piece in its next rotation state if it can turn, else the
    /// state as it is.
    pub open spec fn rotate_piece(self) -> Model {
        if self.can_rotate() {
            Model { piece: self.piece.spec_rotate(), ..self }
        } else {
            self
        }
    }

    /// The state after `n` uses of `rotate_piece`.
    pub open spec fn rotate_piece_times(self, n: nat) -> Model
        decreases n,
    {
        if n == 0 {
            self
        } else {
            self.rotate_piece_times((n - 1) as nat).rotate_piece()
        }
    }

    /// `after` is this state with the falling piece dropped as far as it
    /// goes: every row on the way down was free for it, and the row below
    /// the last is not.
    pub open spec fn drops_to(self, after: Model) -> bool {
        &&& after == Model { piece: after.piece, ..self }
        &&& after.piece == Piece {
            pivot: Pos { x: self.piece.pivot.x, y: after.piece.pivot.y },
            ..self.piece
        }
        &&& self.piece.pivot.y <= after.piece.pivot.y
        &&& forall|y: int|
            self.piece.pivot.y < y <= after.piece.pivot.y ==> placeable(
                self.main,
                #[trigger] cells_of(
                    self.piece.shape,
                    self.piece.rotation as int,
                    self.piece.pivot.x as int,
                    y,
                ),
            )
        &&& !after.can_move(down())
    }

    /// The state with the falling piece dropped as far as it goes.
    pub open spec fn hard_drop(self) -> Model {
        choose|after: Model| self.drops_to(after)
    }

    /// The play field with its full rows cleared, and the score raised by
    /// `ROW_POINTS` for each of them.
    pub open spec fn collapse_rows(self) -> Model {
        Model {
            main: collapsed(self.main),
            score: score_after(self.score, full_rows(self.main)),
            ..self
        }
    }

    /// A new piece of the queued shape can enter the play field.
    pub open spec fn can_spawn(self) -> bool {
        placeable(self.main, spawn_of(self.next, width_of(self.main)).cells())
    }

    /// A new piece of the queued shape at the top of the play field, `next`
    /// queued and shown in the preview pane, and the timer reset; or, when
    /// the new piece cannot enter, the state as it is.
    pub open spec fn spawn_piece(self, next: Shape) -> Model {
        if self.can_spawn() {
            Model {
                piece: spawn_of(self.next, width_of(self.main)),
                next,
                preview: preview_of(next),
                timer: self.timer.spec_reset(),
                ..self
            }
        } else {
            self
        }
    }

    /// What follows once the falling piece has landed and is written into
    /// the play field: full rows are cleared; then the next piece enters and
    /// is written into the play field, or, when it cannot enter, the game is
    /// over.
    pub open spec fn settle(self, next: Shape) -> Model {
        let cleared = self.collapse_rows();
        if cleared.can_spawn() {
            cleared.spawn_piece(next).draw(Visible::Yes)
        } else {
            Model { is_gameover: true, ..cleared }
        }
    }

    /// One step of gravity: the falling piece moves one row down, or, when
    /// it cannot, it has landed and the state settles.
    pub open spec fn fall(self, next: Shape) -> Model {
        let lifted = self.draw(Visible::No);
        if lifted.can_move(down()) {
            lifted.move_piece(down()).draw(Visible::Yes)
        } else {
            lifted.draw(Visible::Yes).settle(next)
        }
    }

    /// The state after `elapsed` more units of time: nothing once the game
    /// is over; else the timer runs on, and when it is up it is reset and
    /// gravity takes one step.
    pub open spec fn advance(self, elapsed: u64, next: Shape) -> Model {
        if self.is_gameover {
            self
        } else if self.timer.spec_tick(elapsed).spec_is_up() {
            Model { timer: self.timer.spec_reset(), ..self }.fall(next)
        } else {
            Model { timer: self.timer.spec_tick(elapsed), ..self }
        }
    }

    /// The state after a command of the player: nothing once the game is
    /// over; else the falling piece is wiped, moved, turned or dropped as
    /// far as the rules allow, and written back; after a drop the state
    /// settles.
    pub open spec fn handle(self, command: Command, next: Shape) -> Model {
        if self.is_gameover {
            self
        } else {
            let lifted = self.draw(Visible::No);
            match command {
                Command::Left => lifted.move_piece(left()).draw(Visible::Yes),
                Command::Right => lifted.move_piece(right()).draw(Visible::Yes),
                Command::Down => lifted.move_piece(down()).draw(Visible::Yes),
                Command::Rotate => lifted.rotate_piece().draw(Visible::Yes),
                Command::Drop => lifted.hard_drop().draw(Visible::Yes).settle(next),
            }
        }
    }
}

/// Painting keeps the size of the grid.
pub proof fn lemma_painted_rectangular(g: Seq<Seq<Color>>, cells: Seq<(int, int)>, c: Color)
    requires
        rectangular(g),
    ensures
        rectangular(painted(g, cells, c)),
        painted(g, cells, c).len() == g.len(),
        width_of(painted(g, cells, c)) == width_of(g),
        forall|x: int, y: int|
            in_bounds(g, x, y) ==> #[trigger] painted(g, cells, c)[y][x] == (if cells.contains(
                (x, y),
            ) {
                c
            } else {
                g[y][x]
            }),
{
    let p = painted(g, cells, c);
    assert(g[0].len() == width_of(g));
    assert(p[0].len() == g[0].len());
    assert forall|y: int| 0 <= y < p.len() implies (#[trigger] p[y]).len() == width_of(p) by {
        assert(g[y].len() == width_of(g));
    }
    assert forall|x: int, y: int| in_bounds(g, x, y) implies #[trigger] p[y][x] == (
    if cells.contains((x, y)) {
        c
    } else {
        g[y][x]
    }) by {
        assert(g[y].len() == width_of(g));
    }
}

/// Painting the cells one after the other: the grid painted in the first `k`
/// cells, with cell `k` set, is the grid painted in the first `k + 1` cells.
pub proof fn lemma_paint_next(g: Seq<Seq<Color>>, cells: Seq<(int, int)>, k: int, c: Color)
    requires
        rectangular(g),
        0 <= k < cells.len(),
    ensures
        in_bounds(g, cells[k].0, cells[k].1) ==> painted(g, cells.take(k + 1), c) == painted(
            g,
            cells.take(k),
            c,
        ).update(
            cells[k].1,
            painted(g, cells.take(k), c)[cells[k].1].update(cells[k].0, c),
        ),
        !in_bounds(g, cells[k].0, cells[k].1) ==> painted(g, cells.take(k + 1), c) == painted(
            g,
            cells.take(k),
            c,
        ),
{
    let before = cells.take(k);
    let after = cells.take(k + 1);
    let a = painted(g, before, c);
    let b = painted(g, after, c);
    let px = cells[k].0;
    let py = cells[k].1;
    assert(after[k] == cells[k]);
    assert forall|q: (int, int)| after.contains(q) <==> (before.contains(q) || q == cells[k]) by {
        if before.contains(q) {
            let i = choose|i: int| 0 <= i < before.len() && before[i] == q;
            assert(after[i] == q);
        }
        if after.contains(q) && q != cells[k] {
            let i = choose|i: int| 0 <= i < after.len() && after[i] == q;
            assert(before[i] == q);
        }
    }
    lemma_painted_rectangular(g, before, c);
    lemma_painted_rectangular(g, after, c);
    if in_bounds(g, px, py) {
        let n = a.update(py, a[py].update(px, c));
        assert(n.len() == b.len());
        assert forall|y: int| 0 <= y < b.len() implies #[trigger] b[y] == n[y] by {
            assert(g[y].len() == width_of(g));
            assert(b[y] =~= n[y]);
        }
        assert(b =~= n);
    } else {
        assert forall|y: int| 0 <= y < b.len() implies #[trigger] b[y] == a[y] by {
            assert(g[y].len() == width_of(g));
            assert(b[y] =~= a[y]);
        }
        assert(b =~= a);
    }
}

/// Painting no cell changes nothing.
pub proof fn lemma_paint_none(g: Seq<Seq<Color>>, c: Color)
    ensures
        painted(g, Seq::<(int, int)>::empty(), c) == g,
{
    let p = painted(g, Seq::<(int, int)>::empty(), c);
    assert forall|y: int| 0 <= y < g.len() implies #[trigger] p[y] == g[y] by {
        assert(p[y] =~= g[y]);
    }
    assert(p =~= g);
}

/// A piece that is placeable has its pivot on the grid, so the pivot and
/// every cell within reach of it has a position.
pub proof fn lemma_placeable_on_grid(
    g: Seq<Seq<Color>>,
    shape: Shape,
    rotation: int,
    px: int,
    py: int,
)
    requires
        rectangular(g),
        0 <= rotation < shape.spec_states(),
        all_in_bounds(g, cells_of(shape, rotation, px, py)),
    ensures
        0 <= px < width_of(g),
        0 <= py < g.len(),
        i32::MIN + REACH <= px <= i32::MAX - REACH,
        i32::MIN + REACH <= py <= i32::MAX - REACH,
{
    lemma_offsets_within_reach(shape, rotation, 0);
    let j = choose|j: int|
        0 <= j < CELLS && #[trigger] shape.spec_offset(rotation, j) == (0int, 0int);
    let cells = cells_of(shape, rotation, px, py);
    assert(cells[j] == (px, py));
    assert(in_bounds(g, cells[j].0, cells[j].1));
}

/// The rows that are not full, once a row is put in front.
pub proof fn lemma_kept_rows_front(row: Seq<Color>, g: Seq<Seq<Color>>)
    ensures
        row_full(row) ==> kept_rows(seq![row] + g) == kept_rows(g),
        !row_full(row) ==> kept_rows(seq![row] + g) == seq![row] + kept_rows(g),
{
    let one = seq![row];
    Seq::filter_distributes_over_add(one, g, not_full());
    reveal_with_fuel(Seq::filter, 2);
    assert(one.drop_last() =~= Seq::<Seq<Color>>::empty());
    assert(one.last() == row);
    if row_full(row) {
        assert(one.filter(not_full()) =~= Seq::<Seq<Color>>::empty());
        assert(one.filter(not_full()) + kept_rows(g) =~= kept_rows(g));
    } else {
        assert(one.filter(not_full()) =~= one);
    }
}

/// No row that is kept is full, and no more rows are kept than there are.
pub proof fn lemma_kept_rows(g: Seq<Seq<Color>>)
    ensures
        kept_rows(g).len() <= g.len(),
        forall|i: int| 0 <= i < kept_rows(g).len() ==> !row_full(#[trigger] kept_rows(g)[i]),
        forall|i: int|
            0 <= i < kept_rows(g).len() ==> exists|j: int|
                0 <= j < g.len() && g[j] == #[trigger] kept_rows(g)[i],
    decreases g.len(),
{
    reveal(Seq::filter);
    if g.len() > 0 {
        let front = g.drop_last();
        lemma_kept_rows(front);
        let k = kept_rows(g);
        assert forall|i: int| 0 <= i < k.len() implies exists|j: int|
            0 <= j < g.len() && g[j] == #[trigger] k[i] by {
            if i < kept_rows(front).len() {
                let j = choose|j: int| 0 <= j < front.len() && front[j] == kept_rows(front)[i];
                assert(g[j] == k[i]);
            } else {
                assert(g[g.len() - 1] == k[i]);
            }
        }
    }
}

/// Clearing the full rows keeps the size of the grid and leaves no full row.
pub proof fn lemma_collapsed_rectangular(g: Seq<Seq<Color>>)
    requires
        rectangular(g),
    ensures
        rectangular(collapsed(g)),
        collapsed(g).len() == g.len(),
        width_of(collapsed(g)) == width_of(g),
        full_rows(g) <= g.len(),
        forall|y: int| 0 <= y < g.len() ==> !row_full(#[trigger] collapsed(g)[y]),
{
    lemma_kept_rows(g);
    let c = collapsed(g);
    let n = full_rows(g);
    let w = width_of(g);
    let kept = kept_rows(g);
    assert(c.len() == g.len());
    assert forall|y: int| 0 <= y < c.len() implies (#[trigger] c[y]).len() == w && !row_full(
        c[y],
    ) by {
        if y < n {
            assert(c[y] == empty_row(w));
            assert(c[y][0] == Color::Empty);
        } else {
            assert(c[y] == kept[y - n]);
            let j = choose|j: int| 0 <= j < g.len() && g[j] == kept[y - n];
            assert(g[j].len() == w);
        }
    }
    assert(c[0].len() == w);
}

/// A grid without a full row is left as it is when its full rows are
/// cleared.
pub proof fn lemma_collapsed_unchanged(g: Seq<Seq<Color>>)
    requires
        forall|y: int| 0 <= y < g.len() ==> !row_full(#[trigger] g[y]),
    ensures
        kept_rows(g) == g,
        full_rows(g) == 0,
        collapsed(g) == g,
    decreases g.len(),
{
    reveal(Seq::filter);
    if g.len() > 0 {
        let front = g.drop_last();
        lemma_collapsed_unchanged(front);
        assert(!row_full(g[g.len() - 1]));
        assert(kept_rows(g) =~= g);
    } else {
        assert(kept_rows(g) =~= g);
    }
    assert(collapsed(g) =~= g);
}

/// The cells of a new piece lie on every admissible board, and the cells of
/// the piece in the preview pane lie on the pane.
pub proof fn lemma_spawn_on_grid(g: Seq<Seq<Color>>, shape: Shape)
    requires
        rectangular(g),
    ensures
        spawn_of(shape, width_of(g)).wf(),
        all_in_bounds(g, spawn_of(shape, width_of(g)).cells()),
        preview_piece(shape).wf(),
        rectangular(preview_of(shape)),
        preview_of(shape).len() == PREVIEW_HEIGHT,
        width_of(preview_of(shape)) == PREVIEW_WIDTH,
        all_in_bounds(
            empty_grid(PREVIEW_WIDTH as nat, PREVIEW_HEIGHT as nat),
            preview_piece(shape).cells(),
        ),
{
    let w = width_of(g);
    let p = spawn_of(shape, w);
    assert(w <= MAX_SIDE);
    assert(p.pivot.x == w / 2 - 1);
    assert forall|k: int| 0 <= k < p.cells().len() implies in_bounds(
        g,
        (#[trigger] p.cells()[k]).0,
        p.cells()[k].1,
    ) by {
        assert(-1 <= shape.base(k).0 <= 2);
        assert(0 <= shape.base(k).1 <= 1);
    }
    let e = empty_grid(PREVIEW_WIDTH as nat, PREVIEW_HEIGHT as nat);
    assert(e[0].len() == PREVIEW_WIDTH);
    assert(rectangular(e));
    lemma_painted_rectangular(e, preview_piece(shape).cells(), shape.spec_color());
    let q = preview_piece(shape);
    assert forall|k: int| 0 <= k < q.cells().len() implies in_bounds(
        e,
        (#[trigger] q.cells()[k]).0,
        q.cells()[k].1,
    ) by {
        assert(-1 <= shape.base(k).0 <= 2);
        assert(0 <= shape.base(k).1 <= 1);
    }
}

/// Writing the falling piece into the play field, or wiping it, keeps the
/// state well formed.
pub proof fn lemma_draw_wf(m: Model, visible: Visible)
    requires
        m.wf(),
    ensures
        m.draw(visible).wf(),
        m.draw(visible).main.len() == m.main.len(),
        width_of(m.draw(visible).main) == width_of(m.main),
{
    lemma_painted_rectangular(m.main, m.piece.cells(), m.ink(visible));
}

/// A piece that can be placed lies on the grid and is well formed.
pub proof fn lemma_placeable_piece(g: Seq<Seq<Color>>, p: Piece)
    requires
        rectangular(g),
        p.rotation < p.shape.spec_states(),
        placeable(g, cells_of(p.shape, p.rotation as int, p.pivot.x as int, p.pivot.y as int)),
    ensures
        p.wf(),
        all_in_bounds(g, p.cells()),
{
    let cells = p.cells();
    assert forall|k: int| 0 <= k < cells.len() implies in_bounds(
        g,
        (#[trigger] cells[k]).0,
        cells[k].1,
    ) by {
        assert(free_at(g, cells[k].0, cells[k].1));
    }
    lemma_placeable_on_grid(g, p.shape, p.rotation as int, p.pivot.x as int, p.pivot.y as int);
}

/// A move that the rules allow keeps the pivot where it has a position, and
/// the state well formed. A move never changes a tile of the play field:
/// whether it succeeds or not, only the falling piece can differ.
pub proof fn lemma_move_keeps_tiles(m: Model, delta: DeltaPos)
    requires
        m.wf(),
    ensures
        m.can_move(delta) ==> m.piece.can_translate(delta),
        m.move_piece(delta).wf(),
        m.move_piece(delta).main == m.main,
        m.move_piece(delta) == (Model { piece: m.move_piece(delta).piece, ..m }),
        !m.can_move(delta) ==> m.move_piece(delta) == m,
{
    if m.can_move(delta) {
        let cells = m.cells_moved(delta);
        assert forall|k: int| 0 <= k < cells.len() implies in_bounds(
            m.main,
            (#[trigger] cells[k]).0,
            cells[k].1,
        ) by {
            assert(free_at(m.main, cells[k].0, cells[k].1));
        }
        lemma_placeable_on_grid(
            m.main,
            m.piece.shape,
            m.piece.rotation as int,
            m.piece.pivot.x + delta.dx,
            m.piece.pivot.y + delta.dy,
        );
        let q = m.piece.spec_translate(delta);
        assert(q.cells() == cells);
    }
}

/// A turn keeps the state well formed and changes no tile of the play field.
pub proof fn lemma_rotate_keeps_tiles(m: Model)
    requires
        m.wf(),
    ensures
        m.piece.spec_rotate().wf(),
        m.rotate_piece().wf(),
        m.rotate_piece().main == m.main,
{
    if m.can_rotate() {
        let q = m.piece.spec_rotate();
        lemma_placeable_piece(m.main, q);
    }
}

/// Turning the falling piece as many times as its shape has rotation states
/// brings the state back to where it started, when every one of the turns
/// is allowed.
pub proof fn lemma_rotate_piece_cycle(m: Model)
    requires
        m.wf(),
        forall|k: nat|
            k < m.piece.shape.spec_states() ==> (#[trigger] m.rotate_piece_times(k)).can_rotate(),
    ensures
        m.rotate_piece_times(m.piece.shape.spec_states() as nat) == m,
        m.rotate_piece_times(m.piece.shape.spec_states() as nat).piece.cells() == m.piece.cells(),
{
    let n = m.piece.shape.spec_states();
    let p = m.piece;
    lemma_rotation_is_cyclic(p);
    assert(m.rotate_piece_times(0) == m);
    assert(p.spec_rotate_times(0) == p);
    assert(m == Model { piece: p.spec_rotate_times(0), ..m });
    let m1 = m.rotate_piece_times(1);
    assert(m1 == m.rotate_piece_times(0).rotate_piece());
    assert(p.spec_rotate_times(1) == p.spec_rotate_times(0).spec_rotate());
    assert(m1 == Model { piece: p.spec_rotate_times(1), ..m });
    if n >= 2 {
        let m2 = m.rotate_piece_times(2);
        assert(m2 == m1.rotate_piece());
        assert(m1.can_rotate());
        assert(p.spec_rotate_times(2) == p.spec_rotate_times(1).spec_rotate());
        assert(m2 == Model { piece: p.spec_rotate_times(2), ..m });
        if n >= 3 {
            let m3 = m.rotate_piece_times(3);
            assert(m3 == m2.rotate_piece());
            assert(m2.can_rotate());
            assert(p.spec_rotate_times(3) == p.spec_rotate_times(2).spec_rotate());
            assert(m3 == Model { piece: p.spec_rotate_times(3), ..m });
            let m4 = m.rotate_piece_times(4);
            assert(m4 == m3.rotate_piece());
            assert(m3.can_rotate());
            assert(p.spec_rotate_times(4) == p.spec_rotate_times(3).spec_rotate());
            assert(m4 == Model { piece: p.spec_rotate_times(4), ..m });
        }
    }
}

/// A piece can be dropped to one place only.
pub proof fn lemma_drop_unique(m: Model, a: Model, b: Model)
    requires
        m.drops_to(a),
        m.drops_to(b),
    ensures
        a == b,
        m.hard_drop() == a,
{
    let shape = m.piece.shape;
    let rotation = m.piece.rotation as int;
    let x = m.piece.pivot.x as int;
    assert forall|c: Model, d: Model| m.drops_to(c) && m.drops_to(d) implies c.piece.pivot.y
        >= d.piece.pivot.y by {
        if c.piece.pivot.y < d.piece.pivot.y {
            let y = c.piece.pivot.y + 1;
            assert(placeable(m.main, cells_of(shape, rotation, x, y)));
            assert(c.cells_moved(down()) == cells_of(shape, rotation, x, y));
        }
    }
    let c = m.hard_drop();
    assert(m.drops_to(c));
}

/// From any row that the falling piece can reach on its way down, it comes
/// to rest somewhere.
proof fn lemma_drop_exists(m: Model, y: int) -> (after: Model)
    requires
        m.wf(),
        m.piece.pivot.y <= y,
        forall|r: int|
            m.piece.pivot.y < r <= y ==> placeable(
                m.main,
                #[trigger] cells_of(
                    m.piece.shape,
                    m.piece.rotation as int,
                    m.piece.pivot.x as int,
                    r,
                ),
            ),
    ensures
        m.drops_to(after),
    decreases m.main.len() - y,
{
    let shape = m.piece.shape;
    let rotation = m.piece.rotation as int;
    let x = m.piece.pivot.x as int;
    if y > m.piece.pivot.y {
        let cells = cells_of(shape, rotation, x, y);
        assert(placeable(m.main, cells));
        assert forall|k: int| 0 <= k < cells.len() implies in_bounds(
            m.main,
            (#[trigger] cells[k]).0,
            cells[k].1,
        ) by {
            assert(free_at(m.main, cells[k].0, cells[k].1));
        }
        lemma_placeable_on_grid(m.main, shape, rotation, x, y);
    } else {
        lemma_placeable_on_grid(m.main, shape, rotation, x, y);
    }
    let here = Model {
        piece: Piece { pivot: Pos { x: m.piece.pivot.x, y: y as i32 }, ..m.piece },
        ..m
    };
    assert(here.cells_moved(down()) == cells_of(shape, rotation, x, y + 1));
    if placeable(m.main, cells_of(shape, rotation, x, y + 1)) {
        let cells = cells_of(shape, rotation, x, y + 1);
        assert forall|k: int| 0 <= k < cells.len() implies in_bounds(
            m.main,
            (#[trigger] cells[k]).0,
            cells[k].1,
        ) by {
            assert(free_at(m.main, cells[k].0, cells[k].1));
        }
        lemma_placeable_on_grid(m.main, shape, rotation, x, y + 1);
        lemma_drop_exists(m, y + 1)
    } else {
        here
    }
}

/// A dropped piece rests: it has gone straight down, every row on its way
/// was free for it, and one more move down is refused and changes nothing.
pub proof fn lemma_hard_drop_rests(m: Model)
    requires
        m.wf(),
    ensures
        m.drops_to(m.hard_drop()),
        m.hard_drop().wf(),
        m.hard_drop().main == m.main,
        !m.hard_drop().can_move(down()),
        m.hard_drop().move_piece(down()) == m.hard_drop(),
{
    let after = lemma_drop_exists(m, m.piece.pivot.y as int);
    lemma_drop_unique(m, after, after);
    let y = after.piece.pivot.y as int;
    if y > m.piece.pivot.y {
        assert(placeable(
            m.main,
            cells_of(m.piece.shape, m.piece.rotation as int, m.piece.pivot.x as int, y),
        ));
        lemma_placeable_piece(m.main, after.piece);
    } else {
        assert(after.piece == m.piece);
    }
}

/// Clearing the full rows keeps the state well formed, leaves no full row,
/// and never lowers the score.
pub proof fn lemma_collapse_wf(m: Model)
    requires
        m.wf(),
    ensures
        m.collapse_rows().wf(),
        m.collapse_rows().score >= m.score,
        forall|y: int| 0 <= y < m.main.len() ==> !row_full(#[trigger] m.collapse_rows().main[y]),
{
    lemma_collapsed_rectangular(m.main);
}

/// Letting a new piece enter keeps the state well formed.
pub proof fn lemma_spawn_wf(m: Model, next: Shape)
    requires
        m.wf(),
    ensures
        m.spawn_piece(next).wf(),
        m.spawn_piece(next).main == m.main,
        m.spawn_piece(next).score == m.score,
        m.spawn_piece(next).is_gameover == m.is_gameover,
{
    lemma_spawn_on_grid(m.main, m.next);
}

/// The first state of a game is well formed.
pub proof fn lemma_start_wf(w: nat, h: nat, first: Shape, next: Shape)
    requires
        MIN_SIDE <= w <= MAX_SIDE,
        MIN_SIDE <= h <= MAX_SIDE,
    ensures
        rectangular(empty_grid(w, h)),
        width_of(empty_grid(w, h)) == w,
        Model::start(w, h, first, next).wf(),
{
    let e = empty_grid(w, h);
    assert(e[0].len() == w);
    assert(rectangular(e));
    lemma_spawn_on_grid(e, first);
    let before = Model {
        main: e,
        preview: preview_of(next),
        piece: spawn_of(first, w),
        next,
        timer: Timer { elapsed: 0, interval: INTERVAL },
        score: 0,
        is_gameover: false,
    };
    lemma_draw_wf(before, Visible::Yes);
}

/// Settling keeps the state well formed, and ends the game exactly when the
/// next piece cannot enter.
pub proof fn lemma_settle_wf(m: Model, next: Shape)
    requires
        m.wf(),
    ensures
        m.settle(next).wf(),
        m.settle(next).score >= m.score,
        !m.is_gameover ==> (m.settle(next).is_gameover <==> !m.collapse_rows().can_spawn()),
{
    lemma_collapse_wf(m);
    let cleared = m.collapse_rows();
    lemma_spawn_wf(cleared, next);
    lemma_draw_wf(cleared.spawn_piece(next), Visible::Yes);
}

/// Once the game is over, neither time nor any command changes the state.
pub proof fn lemma_gameover_is_final(m: Model, elapsed: u64, command: Command, next: Shape)
    requires
        m.is_gameover,
    ensures
        m.advance(elapsed, next) == m,
        m.handle(command, next) == m,
{
}

/// One step of gravity keeps the state well formed.
pub proof fn lemma_fall_wf(m: Model, next: Shape)
    requires
        m.wf(),
    ensures
        m.fall(next).wf(),
        m.fall(next).score >= m.score,
        m.fall(next).main.len() == m.main.len(),
        width_of(m.fall(next).main) == width_of(m.main),
{
    let lifted = m.draw(Visible::No);
    lemma_draw_wf(m, Visible::No);
    lemma_move_keeps_tiles(lifted, down());
    lemma_draw_wf(lifted.move_piece(down()), Visible::Yes);
    lemma_draw_wf(lifted, Visible::Yes);
    let landed = lifted.draw(Visible::Yes);
    lemma_settle_wf(landed, next);
    lemma_settle_size(landed, next);
}

/// Settling keeps the size of the play field.
pub proof fn lemma_settle_size(m: Model, next: Shape)
    requires
        m.wf(),
    ensures
        m.settle(next).main.len() == m.main.len(),
        width_of(m.settle(next).main) == width_of(m.main),
{
    lemma_collapse_wf(m);
    lemma_collapsed_rectangular(m.main);
    let cleared = m.collapse_rows();
    lemma_spawn_wf(cleared, next);
    lemma_draw_wf(cleared.spawn_piece(next), Visible::Yes);
}

/// Whatever time passes and whatever the player asks for, the state stays
/// well formed, the play field keeps its size, the score never falls, and a
/// game that is over stays over.
pub proof fn lemma_play_goes_on(m: Model, elapsed: u64, command: Command, next: Shape)
    requires
        m.wf(),
    ensures
        m.advance(elapsed, next).wf(),
        m.handle(command, next).wf(),
        m.advance(elapsed, next).score >= m.score,
        m.handle(command, next).score >= m.score,
        m.advance(elapsed, next).main.len() == m.main.len(),
        m.handle(command, next).main.len() == m.main.len(),
        width_of(m.advance(elapsed, next).main) == width_of(m.main),
        width_of(m.handle(command, next).main) == width_of(m.main),
        m.is_gameover ==> m.advance(elapsed, next).is_gameover,
        m.is_gameover ==> m.handle(command, next).is_gameover,
{
    if !m.is_gameover {
        let ticked = Model { timer: m.timer.spec_reset(), ..m };
        lemma_fall_wf(ticked, next);
        let lifted = m.draw(Visible::No);
        lemma_draw_wf(m, Visible::No);
        match command {
            Command::Left => {
                lemma_move_keeps_tiles(lifted, left());
                lemma_draw_wf(lifted.move_piece(left()), Visible::Yes);
            },
            Command::Right => {
                lemma_move_keeps_tiles(lifted, right());
                lemma_draw_wf(lifted.move_piece(right()), Visible::Yes);
            },
            Command::Down => {
                lemma_move_keeps_tiles(lifted, down());
                lemma_draw_wf(lifted.move_piece(down()), Visible::Yes);
            },
            Command::Rotate => {
                lemma_rotate_keeps_tiles(lifted);
                lemma_draw_wf(lifted.rotate_piece(), Visible::Yes);
            },
            Command::Drop => {
                lemma_hard_drop_rests(lifted);
                let dropped = lifted.hard_drop();
                lemma_draw_wf(dropped, Visible::Yes);
                lemma_settle_wf(dropped.draw(Visible::Yes), next);
                lemma_settle_size(dropped.draw(Visible::Yes), next);
            },
        }
    }
}

} // verus!
