//! The game state and the operations of the game.
//!
//! The falling piece is kept apart from the tiles of the play field and is
//! written into the field, or wiped from it, by `draw_piece`. Whoever moves
//! or turns the piece wipes it first and writes it back afterwards; `advance`
//! and `handle` do so for every step of gravity and every command of the
//! player.

pub mod color;
pub mod grid;
pub mod model;
pub mod template;
pub mod timer;

use vstd::prelude::*;
use crate::state::color::Color;
use crate::state::grid::{
    empty_grid, in_bounds, rectangular, width_of, without_row, Dim, Grid, Pos, MAX_SIDE, MIN_SIDE,
};
use crate::state::model::{
    collapsed, down, free_at, full_rows, kept_rows, lemma_collapse_wf, lemma_draw_wf,
    lemma_drop_unique, lemma_kept_rows, lemma_kept_rows_front, lemma_move_keeps_tiles,
    lemma_paint_next, lemma_paint_none, lemma_painted_rectangular, lemma_placeable_on_grid,
    lemma_rotate_keeps_tiles, lemma_settle_wf, lemma_spawn_on_grid, lemma_spawn_wf,
    lemma_start_wf, painted, pairs, placeable, Model,
};
pub use crate::state::model::{
    Command, Visible, HEIGHT, INTERVAL, PREVIEW_HEIGHT, PREVIEW_WIDTH, ROW_POINTS, WIDTH,
};
use crate::state::template::{cells_of, DeltaPos, Piece, Shape, CELLS};
use crate::state::timer::Timer;

verus! {

/// The falling piece cannot be where it was asked to go.
#[derive(Clone, Copy, Debug, PartialEq, Eq, Structural)]
pub struct CollisionError;

/// The next piece cannot enter the play field: the board is topped out.
#[derive(Clone, Copy, Debug, PartialEq, Eq, Structural)]
pub struct SpawnError;

/// A game in progress.
pub struct State {
    /// The play field.
    pub main: Grid,
    /// The pane that shows the next shape.
    pub preview: Grid,
    /// The falling piece.
    pub piece: Piece,
    /// The shape of the piece that falls next.
    pub next: Shape,
    /// The gravity timer.
    pub timer: Timer,
    /// Points won so far.
    pub score: u64,
    /// Whether the game has ended.
    pub is_gameover: bool,
}

/// Writes `color` into each of the cells that lie on the grid.
fn paint(grid: &mut Grid, cells: &Vec<Pos>, color: Color)
    requires
        old(grid).wf(),
    ensures
        final(grid).wf(),
        final(grid)@ == painted(old(grid)@, pairs(cells@), color),
{
    let ghost before = grid@;
    let ghost all = pairs(cells@);
    let mut k: usize = 0;
    proof {
        assert(all.take(0) =~= Seq::<(int, int)>::empty());
        lemma_paint_none(before, color);
    }
    while k < cells.len()
        invariant
            k <= cells@.len(),
            all == pairs(cells@),
            rectangular(before),
            grid.wf(),
            grid@ == painted(before, all.take(k as int), color),
        decreases cells@.len() - k,
    {
        proof {
            lemma_paint_next(before, all, k as int, color);
            lemma_painted_rectangular(before, all.take(k as int), color);
        }
        let _ = grid.set_tile(cells[k], color);
        k += 1;
    }
    proof {
        assert(all.take(cells@.len() as int) =~= all);
    }
}

impl State {
    /// The state as plain values.
    pub open spec fn view(&self) -> Model {
        Model {
            main: self.main@,
            preview: self.preview@,
            piece: self.piece,
            next: self.next,
            timer: self.timer,
            score: self.score,
            is_gameover: self.is_gameover,
        }
    }

    /// The play field is a rectangle, the falling piece lies on it, and the
    /// preview pane shows the next shape.
    pub open spec fn wf(&self) -> bool {
        self@.wf()
    }

    /// Whether the play field is a rectangle, the falling piece lies on it,
    /// and the preview pane shows the next shape: what every other operation
    /// asks of the state.
    pub fn is_valid(&self) -> (r: bool)
        ensures
            r == self.wf(),
    {
        if !self.main.is_valid() || !self.piece.is_valid() {
            return false;
        }
        let cells = self.piece.occupied_cells();
        let mut k: usize = 0;
        while k < CELLS
            invariant
                k <= CELLS,
                self.main.wf(),
                cells@.len() == CELLS,
                self.piece.cells().len() == CELLS,
                forall|j: int|
                    0 <= j < CELLS ==> ((#[trigger] cells@[j]).x as int, cells@[j].y as int)
                        == self.piece.cells()[j],
                forall|j: int|
                    0 <= j < k ==> in_bounds(
                        self.main@,
                        (#[trigger] self.piece.cells()[j]).0,
                        self.piece.cells()[j].1,
                    ),
            decreases CELLS - k,
        {
            if !self.main.contains(cells[k]) {
                proof {
                    assert(!in_bounds(
                        self.main@,
                        self.piece.cells()[k as int].0,
                        self.piece.cells()[k as int].1,
                    ));
                }
                return false;
            }
            k += 1;
        }
        proof {
            lemma_spawn_on_grid(self.main@, self.next);
        }
        let mut pane = Grid::new(PREVIEW_WIDTH, PREVIEW_HEIGHT);
        let shown = Piece { shape: self.next, rotation: 0, pivot: Pos { x: 1, y: 1 } };
        let cells = shown.occupied_cells();
        proof {
            assert(pairs(cells@) =~= shown.cells());
        }
        paint(&mut pane, &cells, self.next.color());
        self.preview.same_as(&pane)
    }

    /// A game on a board `w` cells wide and `h` cells high, with a piece of
    /// shape `first` written in at the top of the empty play field and `next`
    /// queued.
    pub fn with_board(w: usize, h: usize, first: Shape, next: Shape) -> (s: State)
        requires
            MIN_SIDE <= w <= MAX_SIDE,
            MIN_SIDE <= h <= MAX_SIDE,
        ensures
            s.wf(),
            s@ == Model::start(w as nat, h as nat, first, next),
    {
        proof {
            lemma_start_wf(w as nat, h as nat, first, next);
            lemma_spawn_on_grid(empty_grid(w as nat, h as nat), next);
        }
        let main = Grid::new(w, h);
        let mut preview = Grid::new(PREVIEW_WIDTH, PREVIEW_HEIGHT);
        let shown = Piece { shape: next, rotation: 0, pivot: Pos { x: 1, y: 1 } };
        let cells = shown.occupied_cells();
        proof {
            assert(pairs(cells@) =~= shown.cells());
        }
        paint(&mut preview, &cells, next.color());
        let piece = Piece { shape: first, rotation: 0, pivot: Pos { x: (w / 2 - 1) as i32, y: 0 } };
        let mut s = State {
            main,
            preview,
            piece,
            next,
            timer: Timer::new(INTERVAL),
            score: 0,
            is_gameover: false,
        };
        s.draw_piece(Visible::Yes);
        s
    }

    /// A game on the standard board, with the first piece and the queued
    /// shape chosen by chance.
    pub fn new() -> (s: State)
        ensures
            s.wf(),
            exists|first: Shape, next: Shape|
                s@ == #[trigger] Model::start(WIDTH as nat, HEIGHT as nat, first, next),
    {
        let first = Shape::random();
        let next = Shape::random();
        Self::with_board(WIDTH, HEIGHT, first, next)
    }

    /// The width and height of the play field.
    pub fn dim(&self) -> (d: Dim)
        requires
            self.wf(),
        ensures
            d.w == width_of(self@.main),
            d.h == self@.main.len(),
    {
        self.main.dim()
    }

    /// Whether every cell of `piece` lies on the play field and holds no
    /// tile.
    pub fn fits(&self, piece: &Piece) -> (r: bool)
        requires
            self.main.wf(),
            piece.wf(),
        ensures
            r == placeable(self.main@, piece.cells()),
    {
        let cells = piece.occupied_cells();
        let mut k: usize = 0;
        while k < CELLS
            invariant
                k <= CELLS,
                self.main.wf(),
                cells@.len() == CELLS,
                piece.cells().len() == CELLS,
                forall|j: int|
                    0 <= j < CELLS ==> ((#[trigger] cells@[j]).x as int, cells@[j].y as int)
                        == piece.cells()[j],
                forall|j: int|
                    0 <= j < k ==> free_at(
                        self.main@,
                        (#[trigger] piece.cells()[j]).0,
                        piece.cells()[j].1,
                    ),
            decreases CELLS - k,
        {
            let here = cells[k];
            let free = match self.main.tile(here) {
                Ok(c) => c == Color::Empty,
                Err(_) => false,
            };
            if !free {
                proof {
                    assert(!free_at(
                        self.main@,
                        piece.cells()[k as int].0,
                        piece.cells()[k as int].1,
                    ));
                }
                return false;
            }
            k += 1;
        }
        true
    }

    /// Writes the falling piece into the play field in its colour
    /// (`Visible::Yes`) or wipes its cells (`Visible::No`).
    pub fn draw_piece(&mut self, visible: Visible)
        requires
            old(self).wf(),
        ensures
            final(self).wf(),
            final(self)@ == old(self)@.draw(visible),
    {
        let color = match visible {
            Visible::Yes => self.piece.shape.color(),
            Visible::No => Color::Empty,
        };
        let cells = self.piece.occupied_cells();
        proof {
            assert(pairs(cells@) =~= self.piece.cells());
            lemma_draw_wf(self@, visible);
        }
        paint(&mut self.main, &cells, color);
    }

    /// Moves the falling piece by `delta` when every cell it would then
    /// cover lies on the play field and holds no tile; else leaves it where
    /// it is and returns `CollisionError`. No tile of the play field changes.
    pub fn move_piece(&mut self, delta: DeltaPos) -> (r: Result<(), CollisionError>)
        requires
            old(self).wf(),
        ensures
            final(self).wf(),
            final(self)@ == old(self)@.move_piece(delta),
            r.is_ok() == old(self)@.can_move(delta),
            final(self).main == old(self).main,
    {
        proof {
            lemma_move_keeps_tiles(self@, delta);
        }
        match self.piece.translate(delta) {
            Some(candidate) => {
                if self.fits(&candidate) {
                    self.piece = candidate;
                    Ok(())
                } else {
                    Err(CollisionError)
                }
            },
            None => Err(CollisionError),
        }
    }

    /// Turns the falling piece into its next rotation state when every cell
    /// it would then cover lies on the play field and holds no tile; else
    /// leaves it as it is. No tile of the play field changes.
    pub fn rotate_piece(&mut self)
        requires
            old(self).wf(),
        ensures
            final(self).wf(),
            final(self)@ == old(self)@.rotate_piece(),
            final(self).main == old(self).main,
    {
        proof {
            lemma_rotate_keeps_tiles(self@);
        }
        let candidate = self.piece.rotate();
        if self.fits(&candidate) {
            self.piece = candidate;
        }
    }

    /// Drops the falling piece straight down as far as it goes. Afterwards
    /// one more move down is refused. No tile of the play field changes.
    pub fn hard_drop(&mut self)
        requires
            old(self).wf(),
        ensures
            final(self).wf(),
            old(self)@.drops_to(final(self)@),
            final(self)@ == old(self)@.hard_drop(),
            !final(self)@.can_move(down()),
            final(self).main == old(self).main,
    {
        let ghost start = self@;
        let d = self.main.dim();
        let mut falling = true;
        proof {
            lemma_placeable_on_grid(
                self@.main,
                self.piece.shape,
                self.piece.rotation as int,
                self.piece.pivot.x as int,
                self.piece.pivot.y as int,
            );
        }
        while falling
            invariant
                start == old(self)@,
                self.wf(),
                self.main == old(self).main,
                self@ == (Model { piece: self.piece, ..start }),
                self.piece == (Piece {
                    pivot: Pos { x: start.piece.pivot.x, y: self.piece.pivot.y },
                    ..start.piece
                }),
                start.piece.pivot.y <= self.piece.pivot.y < start.main.len(),
                forall|y: int|
                    start.piece.pivot.y < y <= self.piece.pivot.y ==> placeable(
                        start.main,
                        #[trigger] cells_of(
                            start.piece.shape,
                            start.piece.rotation as int,
                            start.piece.pivot.x as int,
                            y,
                        ),
                    ),
                !falling ==> !self@.can_move(down()),
            decreases start.main.len() - self.piece.pivot.y + (if falling { 1int } else { 0int }),
        {
            let ghost here = self@;
            let moved = self.move_piece(DeltaPos { dx: 0, dy: 1 });
            if moved.is_err() {
                falling = false;
            } else {
                proof {
                    assert(here.cells_moved(down()) == cells_of(
                        start.piece.shape,
                        start.piece.rotation as int,
                        start.piece.pivot.x as int,
                        here.piece.pivot.y + 1,
                    ));
                    lemma_placeable_on_grid(
                        self@.main,
                        self.piece.shape,
                        self.piece.rotation as int,
                        self.piece.pivot.x as int,
                        self.piece.pivot.y as int,
                    );
                }
            }
        }
        proof {
            lemma_drop_unique(start, self@, self@);
        }
    }

    /// Clears every full row of the play field: the rows above a cleared
    /// row sink, empty rows come in at the top, and each cleared row adds
    /// `ROW_POINTS` to the score.
    pub fn collapse_rows(&mut self)
        requires
            old(self).wf(),
        ensures
            final(self).wf(),
            final(self)@ == old(self)@.collapse_rows(),
            final(self).score >= old(self).score,
    {
        let ghost start = self@;
        let ghost g = self@.main;
        let d = self.main.dim();
        let mut y: usize = d.h;
        let mut cleared: usize = 0;
        proof {
            lemma_collapse_wf(start);
            assert(g.skip(d.h as int) =~= Seq::<Seq<Color>>::empty());
            lemma_kept_rows(g.skip(d.h as int));
            assert(g.take(d.h as int) =~= g);
            assert(self.main@ =~= empty_grid(d.w as nat, 0) + g.take(d.h as int) + kept_rows(
                g.skip(d.h as int),
            ));
        }
        while y > cleared
            invariant
                start == old(self)@,
                g == start.main,
                rectangular(g),
                d.h == g.len(),
                d.w == width_of(g),
                self.main.wf(),
                self@ == (Model { main: self.main@, ..start }),
                cleared <= y <= d.h,
                kept_rows(g.skip(y - cleared)).len() == d.h - y,
                self.main@ == empty_grid(d.w as nat, cleared as nat) + g.take(y - cleared)
                    + kept_rows(g.skip(y - cleared)),
            decreases y - cleared,
        {
            let ghost m = y - cleared;
            let ghost current = self.main@;
            let row: i32 = (y - 1) as i32;
            proof {
                assert(g.skip(m - 1) =~= seq![g[m - 1]] + g.skip(m));
                lemma_kept_rows_front(g[m - 1], g.skip(m));
                assert(current[y - 1] == g[m - 1]);
                assert(current.len() == d.h);
                assert(current[0].len() == d.w);
            }
            if self.main.row_is_full(row) {
                let _ = self.main.remove_row(row);
                cleared += 1;
                proof {
                    assert(self.main@ == without_row(current, y - 1));
                    assert(self.main@ =~= empty_grid(d.w as nat, cleared as nat) + g.take(m - 1)
                        + kept_rows(g.skip(m - 1)));
                }
            } else {
                y -= 1;
                proof {
                    assert(self.main@ =~= empty_grid(d.w as nat, cleared as nat) + g.take(m - 1)
                        + kept_rows(g.skip(m - 1)));
                }
            }
        }
        proof {
            assert(g.skip(0) =~= g);
            assert(g.take(0) =~= Seq::<Seq<Color>>::empty());
            assert(full_rows(g) == cleared);
            assert(self.main@ =~= collapsed(g));
        }
        let gain: u64 = ROW_POINTS * (cleared as u64);
        self.score = if u64::MAX - self.score < gain {
            u64::MAX
        } else {
            self.score + gain
        };
    }

    /// Lets a piece of the queued shape enter at the top of the play field,
    /// queues `next`, shows it in the preview pane and resets the timer.
    /// When a cell of the new piece holds a tile, nothing changes and
    /// `SpawnError` is returned: the board is topped out, and it is for the
    /// caller to end the game.
    pub fn spawn_piece_with(&mut self, next: Shape) -> (r: Result<(), SpawnError>)
        requires
            old(self).wf(),
        ensures
            final(self).wf(),
            final(self)@ == old(self)@.spawn_piece(next),
            r.is_ok() == old(self)@.can_spawn(),
    {
        proof {
            lemma_spawn_on_grid(self@.main, self.next);
            lemma_spawn_on_grid(self@.main, next);
            lemma_spawn_wf(self@, next);
        }
        let d = self.main.dim();
        let candidate = Piece {
            shape: self.next,
            rotation: 0,
            pivot: Pos { x: (d.w / 2 - 1) as i32, y: 0 },
        };
        if self.fits(&candidate) {
            self.piece = candidate;
            self.next = next;
            self.preview.clear();
            let shown = Piece { shape: next, rotation: 0, pivot: Pos { x: 1, y: 1 } };
            let cells = shown.occupied_cells();
            proof {
                assert(pairs(cells@) =~= shown.cells());
            }
            paint(&mut self.preview, &cells, next.color());
            self.timer.reset();
            Ok(())
        } else {
            Err(SpawnError)
        }
    }

    /// `spawn_piece_with` a shape chosen by chance.
    pub fn spawn_piece(&mut self) -> (r: Result<(), SpawnError>)
        requires
            old(self).wf(),
        ensures
            final(self).wf(),
            exists|next: Shape| final(self)@ == #[trigger] old(self)@.spawn_piece(next),
            r.is_ok() == old(self)@.can_spawn(),
    {
        let next = Shape::random();
        self.spawn_piece_with(next)
    }

    /// What follows once the falling piece has landed and is written into
    /// the play field. Returns whether the game ended.
    fn settle(&mut self, next: Shape) -> (ended: bool)
        requires
            old(self).wf(),
            !old(self).is_gameover,
        ensures
            final(self).wf(),
            final(self)@ == old(self)@.settle(next),
            ended == final(self).is_gameover,
    {
        proof {
            lemma_settle_wf(self@, next);
        }
        self.collapse_rows();
        if self.spawn_piece_with(next).is_err() {
            self.is_gameover = true;
            true
        } else {
            self.draw_piece(Visible::Yes);
            false
        }
    }

    /// One step of gravity. Returns whether the game ended.
    fn fall(&mut self, next: Shape) -> (ended: bool)
        requires
            old(self).wf(),
            !old(self).is_gameover,
        ensures
            final(self).wf(),
            final(self)@ == old(self)@.fall(next),
            ended == final(self).is_gameover,
    {
        self.draw_piece(Visible::No);
        if self.move_piece(DeltaPos { dx: 0, dy: 1 }).is_err() {
            self.draw_piece(Visible::Yes);
            self.settle(next)
        } else {
            self.draw_piece(Visible::Yes);
            false
        }
    }

    /// Lets `elapsed` units of time pass. Once the game is over nothing
    /// changes. Else the timer runs on; when it is up, it is reset and the
    /// falling piece moves one row down, or, when it cannot, it has landed:
    /// full rows are cleared and the next piece enters, with `next` queued
    /// behind it. When the next piece cannot enter, the game is over.
    /// Returns whether this call ended the game.
    pub fn advance(&mut self, elapsed: u64, next: Shape) -> (ended: bool)
        requires
            old(self).wf(),
        ensures
            final(self).wf(),
            final(self)@ == old(self)@.advance(elapsed, next),
            ended == (!old(self).is_gameover && final(self).is_gameover),
    {
        if self.is_gameover {
            return false;
        }
        self.timer.tick(elapsed);
        if !self.timer.is_up() {
            return false;
        }
        self.timer.reset();
        self.fall(next)
    }

    /// Carries out a command of the player. Once the game is over nothing
    /// changes. Else the falling piece is wiped from the play field, moved,
    /// turned or dropped as far as the rules allow, and written back; a
    /// refused move or turn leaves it where it was. After a drop full rows
    /// are cleared and the next piece enters, with `next` queued behind it;
    /// when it cannot enter, the game is over. Returns whether this call
    /// ended the game.
    pub fn handle(&mut self, command: Command, next: Shape) -> (ended: bool)
        requires
            old(self).wf(),
        ensures
            final(self).wf(),
            final(self)@ == old(self)@.handle(command, next),
            ended == (!old(self).is_gameover && final(self).is_gameover),
    {
        if self.is_gameover {
            return false;
        }
        self.draw_piece(Visible::No);
        match command {
            Command::Left => {
                let _ = self.move_piece(DeltaPos { dx: -1, dy: 0 });
                self.draw_piece(Visible::Yes);
                false
            },
            Command::Right => {
                let _ = self.move_piece(DeltaPos { dx: 1, dy: 0 });
                self.draw_piece(Visible::Yes);
                false
            },
            Command::Down => {
                let _ = self.move_piece(DeltaPos { dx: 0, dy: 1 });
                self.draw_piece(Visible::Yes);
                false
            },
            Command::Rotate => {
                self.rotate_piece();
                self.draw_piece(Visible::Yes);
                false
            },
            Command::Drop => {
                self.hard_drop();
                self.draw_piece(Visible::Yes);
                self.settle(next)
            },
        }
    }
}

} // verus!
