use tetris::state::color::Color;
use tetris::state::grid::{Dim, Grid, Pos};
use tetris::state::template::{DeltaPos, Piece, Shape};
use tetris::state::timer::Timer;
use tetris::state::{
    CollisionError, Command, SpawnError, State, Visible, HEIGHT, INTERVAL, PREVIEW_HEIGHT,
    PREVIEW_WIDTH, ROW_POINTS, WIDTH,
};

const DOWN: DeltaPos = DeltaPos { dx: 0, dy: 1 };
const LEFT: DeltaPos = DeltaPos { dx: -1, dy: 0 };
const RIGHT: DeltaPos = DeltaPos { dx: 1, dy: 0 };

fn at(x: i32, y: i32) -> Pos {
    Pos { x, y }
}

fn tiles(g: &Grid) -> Vec<(i32, i32, Color)> {
    g.get_iter().into_iter().map(|p| (p.x, p.y, g.tile(p).unwrap())).collect()
}

fn fill_row(g: &mut Grid, y: i32, color: Color) {
    let w = g.dim().w as i32;
    for x in 0..w {
        assert_eq!(g.set_tile(at(x, y), color), Ok(()));
    }
}

/// A standard board with nothing on it, and the given piece lifted off it.
fn bare(shape: Shape, next: Shape) -> State {
    let mut s = State::with_board(WIDTH, HEIGHT, shape, next);
    s.draw_piece(Visible::No);
    assert!(s.main.get_iter().is_empty());
    s
}

#[test]
fn new_game_starts_with_a_piece_at_the_top() {
    let s = State::with_board(10, 20, Shape::I, Shape::T);
    assert_eq!(s.dim(), Dim { w: 10, h: 20 });
    assert_eq!(s.piece, Piece { shape: Shape::I, rotation: 0, pivot: at(4, 0) });
    assert_eq!(s.next, Shape::T);
    assert_eq!(s.score, 0);
    assert!(!s.is_gameover);
    assert_eq!(s.timer, Timer { elapsed: 0, interval: INTERVAL });
    assert_eq!(
        tiles(&s.main),
        vec![(3, 0, Color::Cyan), (4, 0, Color::Cyan), (5, 0, Color::Cyan), (6, 0, Color::Cyan)]
    );
}

#[test]
fn new_game_shows_the_next_shape_in_the_preview() {
    let s = State::with_board(10, 20, Shape::I, Shape::T);
    assert_eq!(s.preview.dim(), Dim { w: PREVIEW_WIDTH, h: PREVIEW_HEIGHT });
    assert_eq!(
        tiles(&s.preview),
        vec![(0, 1, Color::Purple), (1, 1, Color::Purple), (2, 1, Color::Purple), (1, 2, Color::Purple)]
    );
}

#[test]
fn new_game_on_the_smallest_board() {
    let s = State::with_board(4, 4, Shape::I, Shape::O);
    assert_eq!(s.piece.pivot, at(1, 0));
    assert_eq!(
        tiles(&s.main),
        vec![(0, 0, Color::Cyan), (1, 0, Color::Cyan), (2, 0, Color::Cyan), (3, 0, Color::Cyan)]
    );
}

#[test]
fn new_game_by_chance_is_a_first_state() {
    for _ in 0..20 {
        let s = State::new();
        assert_eq!(s.dim(), Dim { w: WIDTH, h: HEIGHT });
        assert_eq!(s.piece.rotation, 0);
        assert_eq!(s.piece.pivot, at(4, 0));
        assert_eq!(s.score, 0);
        assert!(!s.is_gameover);
        let t = tiles(&s.main);
        assert_eq!(t.len(), 4);
        for (_, _, c) in t {
            assert_eq!(c, s.piece.shape.color());
        }
        let p = tiles(&s.preview);
        assert_eq!(p.len(), 4);
        for (_, _, c) in p {
            assert_eq!(c, s.next.color());
        }
    }
}

#[test]
fn draw_piece_writes_and_wipes_the_piece() {
    let mut s = State::with_board(10, 20, Shape::O, Shape::I);
    assert_eq!(s.main.set_tile(at(0, 19), Color::Red), Ok(()));
    s.draw_piece(Visible::No);
    assert_eq!(tiles(&s.main), vec![(0, 19, Color::Red)]);
    s.draw_piece(Visible::Yes);
    assert_eq!(
        tiles(&s.main),
        vec![
            (4, 0, Color::Yellow),
            (5, 0, Color::Yellow),
            (4, 1, Color::Yellow),
            (5, 1, Color::Yellow),
            (0, 19, Color::Red)
        ]
    );
    s.draw_piece(Visible::Yes);
    assert_eq!(tiles(&s.main).len(), 5);
}

#[test]
fn fits_checks_bounds_and_tiles() {
    let mut s = bare(Shape::T, Shape::I);
    assert!(s.fits(&Piece { shape: Shape::T, rotation: 0, pivot: at(1, 0) }));
    assert!(!s.fits(&Piece { shape: Shape::T, rotation: 0, pivot: at(0, 0) }));
    assert!(!s.fits(&Piece { shape: Shape::T, rotation: 0, pivot: at(9, 0) }));
    assert!(s.fits(&Piece { shape: Shape::T, rotation: 0, pivot: at(8, 18) }));
    assert!(!s.fits(&Piece { shape: Shape::T, rotation: 0, pivot: at(8, 19) }));
    assert!(!s.fits(&Piece { shape: Shape::T, rotation: 2, pivot: at(5, 0) }));
    assert!(s.fits(&Piece { shape: Shape::T, rotation: 2, pivot: at(5, 19) }));
    assert_eq!(s.main.set_tile(at(5, 18), Color::Red), Ok(()));
    assert!(!s.fits(&Piece { shape: Shape::T, rotation: 2, pivot: at(5, 19) }));
    assert!(!s.fits(&Piece { shape: Shape::T, rotation: 0, pivot: at(5, 17) }));
    assert!(s.fits(&Piece { shape: Shape::T, rotation: 0, pivot: at(5, 16) }));
    assert!(!s.fits(&Piece { shape: Shape::T, rotation: 0, pivot: at(-5, 17) }));
}

#[test]
fn i_piece_falls_to_the_floor() {
    let mut s = bare(Shape::I, Shape::O);
    let spawn_y = s.piece.pivot.y;
    let mut moves = 0;
    while s.move_piece(DOWN) == Ok(()) {
        moves += 1;
        assert!(moves <= 100);
    }
    assert_eq!(moves, HEIGHT as i32 - spawn_y - 1);
    assert_eq!(moves, 19);
    assert_eq!(s.piece, Piece { shape: Shape::I, rotation: 0, pivot: at(4, 19) });
    assert_eq!(s.move_piece(DOWN), Err(CollisionError));
    assert!(s.main.get_iter().is_empty());
}

#[test]
fn move_piece_stops_at_the_walls() {
    let mut s = bare(Shape::I, Shape::O);
    for _ in 0..3 {
        assert_eq!(s.move_piece(LEFT), Ok(()));
    }
    assert_eq!(s.piece.pivot, at(1, 0));
    assert_eq!(s.move_piece(LEFT), Err(CollisionError));
    assert_eq!(s.piece.pivot, at(1, 0));
    for _ in 0..6 {
        assert_eq!(s.move_piece(RIGHT), Ok(()));
    }
    assert_eq!(s.piece.pivot, at(7, 0));
    assert_eq!(s.move_piece(RIGHT), Err(CollisionError));
    assert_eq!(s.move_piece(DeltaPos { dx: 0, dy: -1 }), Err(CollisionError));
    assert_eq!(s.piece, Piece { shape: Shape::I, rotation: 0, pivot: at(7, 0) });
}

#[test]
fn move_piece_stops_at_tiles() {
    let mut s = bare(Shape::O, Shape::I);
    assert_eq!(s.main.set_tile(at(5, 3), Color::Red), Ok(()));
    assert_eq!(s.move_piece(DOWN), Ok(()));
    assert_eq!(s.move_piece(DOWN), Err(CollisionError));
    assert_eq!(s.piece.pivot, at(4, 1));
    assert_eq!(s.move_piece(LEFT), Ok(()));
    assert_eq!(s.move_piece(LEFT), Ok(()));
    assert_eq!(s.move_piece(DOWN), Ok(()));
    assert_eq!(s.piece.pivot, at(2, 2));
}

#[test]
fn move_piece_takes_any_displacement() {
    let mut s = bare(Shape::O, Shape::I);
    assert_eq!(s.move_piece(DeltaPos { dx: 4, dy: 18 }), Ok(()));
    assert_eq!(s.piece.pivot, at(8, 18));
    assert_eq!(s.move_piece(DeltaPos { dx: -8, dy: -18 }), Ok(()));
    assert_eq!(s.piece.pivot, at(0, 0));
    for d in [
        DeltaPos { dx: i32::MAX, dy: 0 },
        DeltaPos { dx: i32::MIN, dy: 0 },
        DeltaPos { dx: 0, dy: i32::MAX },
        DeltaPos { dx: i32::MIN, dy: i32::MIN },
        DeltaPos { dx: 9, dy: 0 },
        DeltaPos { dx: 0, dy: 19 },
    ] {
        assert_eq!(s.move_piece(d), Err(CollisionError));
        assert_eq!(s.piece.pivot, at(0, 0));
    }
}

#[test]
fn move_piece_changes_no_tile() {
    let mut s = State::with_board(10, 20, Shape::T, Shape::I);
    assert_eq!(s.main.set_tile(at(0, 19), Color::Red), Ok(()));
    assert_eq!(s.main.set_tile(at(6, 1), Color::Blue), Ok(()));
    let before = tiles(&s.main);
    for d in [DOWN, LEFT, RIGHT, DOWN, DeltaPos { dx: 2, dy: 5 }, DeltaPos { dx: -30, dy: 1 }] {
        let _ = s.move_piece(d);
        assert_eq!(tiles(&s.main), before);
    }
    s.rotate_piece();
    assert_eq!(tiles(&s.main), before);
}

#[test]
fn rotate_piece_turns_where_there_is_room() {
    let mut s = bare(Shape::T, Shape::I);
    assert_eq!(s.move_piece(DOWN), Ok(()));
    s.rotate_piece();
    assert_eq!(s.piece, Piece { shape: Shape::T, rotation: 1, pivot: at(4, 1) });
    s.rotate_piece();
    s.rotate_piece();
    s.rotate_piece();
    assert_eq!(s.piece, Piece { shape: Shape::T, rotation: 0, pivot: at(4, 1) });
}

#[test]
fn rotate_piece_fails_silently() {
    let mut s = bare(Shape::T, Shape::I);
    // at the top row the next state would reach above the board
    s.rotate_piece();
    assert_eq!(s.piece, Piece { shape: Shape::T, rotation: 0, pivot: at(4, 0) });
    assert_eq!(s.move_piece(DOWN), Ok(()));
    assert_eq!(s.main.set_tile(at(4, 0), Color::Red), Ok(()));
    s.rotate_piece();
    assert_eq!(s.piece, Piece { shape: Shape::T, rotation: 0, pivot: at(4, 1) });
    assert_eq!(tiles(&s.main), vec![(4, 0, Color::Red)]);
}

#[test]
fn rotate_piece_is_cyclic_for_every_shape() {
    for shape in [Shape::I, Shape::O, Shape::T, Shape::S, Shape::Z, Shape::J, Shape::L] {
        let mut s = bare(shape, Shape::I);
        assert_eq!(s.move_piece(DeltaPos { dx: 0, dy: 5 }), Ok(()));
        let start = s.piece;
        let cells = start.occupied_cells();
        for turn in 1..=shape.states() {
            s.rotate_piece();
            assert_eq!(s.piece.rotation, turn % shape.states());
        }
        assert_eq!(s.piece, start);
        assert_eq!(s.piece.occupied_cells(), cells);
    }
}

#[test]
fn hard_drop_goes_to_the_floor() {
    let mut s = bare(Shape::I, Shape::O);
    s.hard_drop();
    assert_eq!(s.piece, Piece { shape: Shape::I, rotation: 0, pivot: at(4, 19) });
    assert!(s.main.get_iter().is_empty());
    assert_eq!(s.score, 0);
}

#[test]
fn hard_drop_rests_on_tiles() {
    let mut s = bare(Shape::O, Shape::I);
    assert_eq!(s.main.set_tile(at(5, 10), Color::Red), Ok(()));
    s.hard_drop();
    assert_eq!(s.piece.pivot, at(4, 8));
}

#[test]
fn move_down_after_hard_drop_fails() {
    for shape in [Shape::I, Shape::O, Shape::T, Shape::S, Shape::Z, Shape::J, Shape::L] {
        let mut s = bare(shape, Shape::I);
        assert_eq!(s.main.set_tile(at(4, 15), Color::Red), Ok(()));
        s.hard_drop();
        let rest = s.piece;
        assert_eq!(s.move_piece(DOWN), Err(CollisionError));
        assert_eq!(s.piece, rest);
        s.hard_drop();
        assert_eq!(s.piece, rest);
    }
}

#[test]
fn hard_drop_of_a_resting_piece_stays() {
    let mut s = bare(Shape::O, Shape::I);
    fill_row(&mut s.main, 2, Color::Red);
    s.hard_drop();
    assert_eq!(s.piece.pivot, at(4, 0));
}

#[test]
fn collapse_rows_clears_the_row_that_the_piece_completes() {
    let mut s = bare(Shape::I, Shape::O);
    for x in 0..10 {
        if x != 7 {
            assert_eq!(s.main.set_tile(at(x, 19), Color::Red), Ok(()));
        }
    }
    s.piece = Piece { shape: Shape::I, rotation: 1, pivot: at(7, 17) };
    s.collapse_rows();
    assert_eq!(s.score, 0);
    assert_eq!(s.main.get_iter().len(), 9);
    s.draw_piece(Visible::Yes);
    assert!(s.main.row_is_full(19));
    s.collapse_rows();
    assert_eq!(s.score, ROW_POINTS);
    assert_eq!(
        tiles(&s.main),
        vec![(7, 17, Color::Cyan), (7, 18, Color::Cyan), (7, 19, Color::Cyan)]
    );
    s.collapse_rows();
    assert_eq!(s.score, ROW_POINTS);
}

#[test]
fn collapse_rows_clears_two_full_rows_at_once() {
    let mut s = bare(Shape::I, Shape::O);
    fill_row(&mut s.main, 19, Color::Red);
    fill_row(&mut s.main, 18, Color::Blue);
    assert_eq!(s.main.set_tile(at(2, 17), Color::Green), Ok(()));
    assert_eq!(s.main.set_tile(at(3, 16), Color::Orange), Ok(()));
    s.collapse_rows();
    assert_eq!(s.score, 2 * ROW_POINTS);
    assert_eq!(tiles(&s.main), vec![(3, 18, Color::Orange), (2, 19, Color::Green)]);
    assert_eq!(s.main.dim(), Dim { w: 10, h: 20 });
}

#[test]
fn collapse_rows_clears_full_rows_that_are_apart() {
    let mut s = bare(Shape::I, Shape::O);
    fill_row(&mut s.main, 19, Color::Red);
    assert_eq!(s.main.set_tile(at(0, 18), Color::Green), Ok(()));
    fill_row(&mut s.main, 17, Color::Blue);
    fill_row(&mut s.main, 16, Color::Blue);
    assert_eq!(s.main.set_tile(at(9, 15), Color::Orange), Ok(()));
    fill_row(&mut s.main, 0, Color::Purple);
    s.score = 50;
    s.collapse_rows();
    assert_eq!(s.score, 50 + 4 * ROW_POINTS);
    assert_eq!(tiles(&s.main), vec![(9, 18, Color::Orange), (0, 19, Color::Green)]);
}

#[test]
fn collapse_rows_clears_a_board_of_full_rows() {
    let mut s = State::with_board(4, 4, Shape::I, Shape::O);
    for y in 0..4 {
        fill_row(&mut s.main, y, Color::Red);
    }
    s.collapse_rows();
    assert_eq!(s.score, 4 * ROW_POINTS);
    assert!(s.main.get_iter().is_empty());
}

#[test]
fn collapse_rows_without_a_full_row_changes_nothing() {
    let mut s = State::with_board(10, 20, Shape::T, Shape::O);
    assert_eq!(s.main.set_tile(at(0, 19), Color::Red), Ok(()));
    let before = tiles(&s.main);
    s.collapse_rows();
    assert_eq!(tiles(&s.main), before);
    assert_eq!(s.score, 0);
}

#[test]
fn score_stops_at_the_largest_number() {
    let mut s = bare(Shape::I, Shape::O);
    fill_row(&mut s.main, 19, Color::Red);
    fill_row(&mut s.main, 18, Color::Red);
    s.score = u64::MAX - 150;
    s.collapse_rows();
    assert_eq!(s.score, u64::MAX);
    fill_row(&mut s.main, 19, Color::Red);
    s.collapse_rows();
    assert_eq!(s.score, u64::MAX);
}

#[test]
fn spawn_piece_with_brings_in_the_queued_shape() {
    let mut s = bare(Shape::I, Shape::T);
    s.hard_drop();
    s.draw_piece(Visible::Yes);
    s.timer.tick(77);
    assert_eq!(s.spawn_piece_with(Shape::Z), Ok(()));
    assert_eq!(s.piece, Piece { shape: Shape::T, rotation: 0, pivot: at(4, 0) });
    assert_eq!(s.next, Shape::Z);
    assert_eq!(s.timer, Timer { elapsed: 0, interval: INTERVAL });
    assert_eq!(
        tiles(&s.preview),
        vec![(0, 1, Color::Red), (1, 1, Color::Red), (1, 2, Color::Red), (2, 2, Color::Red)]
    );
    // the new piece is not written into the play field yet
    assert_eq!(
        tiles(&s.main),
        vec![(3, 19, Color::Cyan), (4, 19, Color::Cyan), (5, 19, Color::Cyan), (6, 19, Color::Cyan)]
    );
    assert!(!s.is_gameover);
}

#[test]
fn spawn_piece_on_occupied_cells_is_a_spawn_error() {
    let mut s = bare(Shape::I, Shape::T);
    s.hard_drop();
    s.draw_piece(Visible::Yes);
    assert_eq!(s.main.set_tile(at(4, 1), Color::Red), Ok(()));
    let before = tiles(&s.main);
    let preview = tiles(&s.preview);
    let piece = s.piece;
    s.timer.tick(9);
    assert_eq!(s.spawn_piece_with(Shape::Z), Err(SpawnError));
    assert_eq!(s.piece, piece);
    assert_eq!(s.next, Shape::T);
    assert_eq!(tiles(&s.main), before);
    assert_eq!(tiles(&s.preview), preview);
    assert_eq!(s.timer.elapsed, 9);
    assert_eq!(s.score, 0);
    assert!(!s.is_gameover);

    // the caller ends the game; from then on nothing moves
    s.is_gameover = true;
    let _ = s.move_piece(DOWN);
    assert_eq!(tiles(&s.main), before);
    s.rotate_piece();
    assert_eq!(tiles(&s.main), before);
    for c in [Command::Left, Command::Right, Command::Down, Command::Rotate, Command::Drop] {
        assert!(!s.handle(c, Shape::O));
        assert_eq!(tiles(&s.main), before);
        assert_eq!(s.piece, piece);
    }
    assert!(!s.advance(10 * INTERVAL, Shape::O));
    assert_eq!(tiles(&s.main), before);
    assert_eq!(s.timer.elapsed, 9);
    assert!(s.is_gameover);
}

#[test]
fn spawn_piece_by_chance_queues_some_shape() {
    let mut s = bare(Shape::I, Shape::J);
    s.hard_drop();
    s.draw_piece(Visible::Yes);
    assert_eq!(s.spawn_piece(), Ok(()));
    assert_eq!(s.piece, Piece { shape: Shape::J, rotation: 0, pivot: at(4, 0) });
    let p = tiles(&s.preview);
    assert_eq!(p.len(), 4);
    for (_, _, c) in p {
        assert_eq!(c, s.next.color());
    }
    assert_eq!(s.main.set_tile(at(4, 0), Color::Red), Ok(()));
    assert_eq!(s.spawn_piece(), Err(SpawnError));
}

#[test]
fn advance_waits_for_the_timer() {
    let mut s = State::with_board(10, 20, Shape::O, Shape::I);
    assert!(!s.advance(INTERVAL - 1, Shape::T));
    assert_eq!(s.piece.pivot, at(4, 0));
    assert_eq!(s.timer.elapsed, INTERVAL - 1);
    assert!(!s.advance(1, Shape::T));
    assert_eq!(s.piece.pivot, at(4, 1));
    assert_eq!(s.timer.elapsed, 0);
    assert_eq!(
        tiles(&s.main),
        vec![(4, 1, Color::Yellow), (5, 1, Color::Yellow), (4, 2, Color::Yellow), (5, 2, Color::Yellow)]
    );
    assert_eq!(s.next, Shape::I);
}

#[test]
fn advance_settles_a_landed_piece() {
    let mut s = State::with_board(10, 20, Shape::O, Shape::I);
    for _ in 0..18 {
        assert!(!s.advance(INTERVAL, Shape::T));
    }
    assert_eq!(s.piece.pivot, at(4, 18));
    assert!(!s.advance(INTERVAL, Shape::T));
    assert_eq!(s.piece, Piece { shape: Shape::I, rotation: 0, pivot: at(4, 0) });
    assert_eq!(s.next, Shape::T);
    assert_eq!(
        tiles(&s.main),
        vec![
            (3, 0, Color::Cyan),
            (4, 0, Color::Cyan),
            (5, 0, Color::Cyan),
            (6, 0, Color::Cyan),
            (4, 18, Color::Yellow),
            (5, 18, Color::Yellow),
            (4, 19, Color::Yellow),
            (5, 19, Color::Yellow)
        ]
    );
    assert_eq!(tiles(&s.preview).len(), 4);
    assert_eq!(tiles(&s.preview)[0].2, Color::Purple);
}

#[test]
fn handle_moves_and_turns_the_piece() {
    let mut s = State::with_board(10, 20, Shape::T, Shape::I);
    assert!(!s.handle(Command::Down, Shape::O));
    assert!(!s.handle(Command::Left, Shape::O));
    assert_eq!(s.piece, Piece { shape: Shape::T, rotation: 0, pivot: at(3, 1) });
    assert!(!s.handle(Command::Rotate, Shape::O));
    assert_eq!(s.piece, Piece { shape: Shape::T, rotation: 1, pivot: at(3, 1) });
    assert!(!s.handle(Command::Right, Shape::O));
    assert!(!s.handle(Command::Right, Shape::O));
    assert_eq!(s.piece.pivot, at(5, 1));
    assert_eq!(
        tiles(&s.main),
        vec![(5, 0, Color::Purple), (4, 1, Color::Purple), (5, 1, Color::Purple), (5, 2, Color::Purple)]
    );
    assert_eq!(s.next, Shape::I);
}

#[test]
fn handle_ignores_a_move_into_the_wall() {
    let mut s = State::with_board(10, 20, Shape::I, Shape::O);
    for _ in 0..5 {
        assert!(!s.handle(Command::Left, Shape::T));
    }
    assert_eq!(s.piece.pivot, at(1, 0));
    assert_eq!(
        tiles(&s.main),
        vec![(0, 0, Color::Cyan), (1, 0, Color::Cyan), (2, 0, Color::Cyan), (3, 0, Color::Cyan)]
    );
}

#[test]
fn handle_drop_settles_and_scores() {
    let mut s = State::with_board(10, 20, Shape::I, Shape::O);
    for x in 0..10 {
        if !(3..=6).contains(&x) {
            assert_eq!(s.main.set_tile(at(x, 19), Color::Red), Ok(()));
        }
    }
    assert_eq!(s.main.set_tile(at(0, 18), Color::Green), Ok(()));
    assert!(!s.handle(Command::Drop, Shape::L));
    assert_eq!(s.score, ROW_POINTS);
    assert_eq!(s.piece, Piece { shape: Shape::O, rotation: 0, pivot: at(4, 0) });
    assert_eq!(s.next, Shape::L);
    assert_eq!(
        tiles(&s.main),
        vec![
            (4, 0, Color::Yellow),
            (5, 0, Color::Yellow),
            (4, 1, Color::Yellow),
            (5, 1, Color::Yellow),
            (0, 19, Color::Green)
        ]
    );
}

#[test]
fn game_ends_when_the_board_is_topped_out() {
    let mut s = State::with_board(4, 4, Shape::O, Shape::O);
    // the first piece lands on the floor, the second on top of it
    assert!(!s.handle(Command::Drop, Shape::O));
    assert_eq!(s.piece.pivot, at(1, 0));
    let ended = s.handle(Command::Drop, Shape::O);
    assert!(ended);
    assert!(s.is_gameover);
    assert_eq!(s.score, 0);
    assert_eq!(tiles(&s.main).len(), 8);
    let before = tiles(&s.main);
    assert!(!s.handle(Command::Drop, Shape::O));
    assert!(!s.advance(INTERVAL, Shape::O));
    assert_eq!(tiles(&s.main), before);
    assert!(s.is_gameover);
}

#[test]
fn gravity_ends_the_game_too() {
    let mut s = State::with_board(5, 4, Shape::I, Shape::I);
    assert_eq!(s.main.set_tile(at(0, 1), Color::Red), Ok(()));
    // the piece cannot fall, and the next one cannot enter on top of it
    assert!(!s.advance(INTERVAL - 1, Shape::T));
    assert!(s.advance(1, Shape::T));
    assert!(s.is_gameover);
    assert_eq!(s.score, 0);
    assert_eq!(s.next, Shape::I);
    assert_eq!(s.piece, Piece { shape: Shape::I, rotation: 0, pivot: at(1, 0) });
    assert_eq!(tiles(&s.main).len(), 5);
}

#[test]
fn a_piece_that_fills_its_row_on_landing_clears_it() {
    let mut s = State::with_board(4, 4, Shape::I, Shape::O);
    assert_eq!(s.main.set_tile(at(0, 1), Color::Red), Ok(()));
    assert!(!s.advance(INTERVAL, Shape::T));
    assert_eq!(s.score, ROW_POINTS);
    assert_eq!(s.piece, Piece { shape: Shape::O, rotation: 0, pivot: at(1, 0) });
    assert_eq!(
        tiles(&s.main),
        vec![
            (1, 0, Color::Yellow),
            (2, 0, Color::Yellow),
            (0, 1, Color::Red),
            (1, 1, Color::Yellow),
            (2, 1, Color::Yellow)
        ]
    );
}

#[test]
fn is_valid_tells_a_sound_state_from_a_broken_one() {
    let mut s = State::with_board(10, 20, Shape::T, Shape::L);
    assert!(s.is_valid());
    s.piece.pivot = at(0, 0);
    assert!(!s.is_valid());
    s.piece.pivot = at(1, 0);
    assert!(s.is_valid());
    s.piece.rotation = 4;
    assert!(!s.is_valid());
    s.piece.rotation = 0;
    s.next = Shape::J;
    assert!(!s.is_valid());
    s.next = Shape::L;
    assert!(s.is_valid());
    assert_eq!(s.preview.set_tile(at(3, 3), Color::Red), Ok(()));
    assert!(!s.is_valid());
    assert_eq!(s.preview.set_tile(at(3, 3), Color::Empty), Ok(()));
    assert!(s.is_valid());
    s.preview = Grid::new(5, 4);
    assert!(!s.is_valid());
}

#[test]
fn a_long_game_keeps_the_state_sound() {
    let commands = [
        Command::Left,
        Command::Rotate,
        Command::Down,
        Command::Right,
        Command::Right,
        Command::Drop,
        Command::Rotate,
        Command::Left,
        Command::Left,
        Command::Left,
        Command::Drop,
    ];
    let mut s = State::with_board(10, 20, Shape::T, Shape::L);
    let mut score = 0;
    let mut ended_at = None;
    for i in 0..5000u32 {
        let next = Shape::from_index(i.wrapping_mul(2654435761) >> 7);
        let was_over = s.is_gameover;
        let before = tiles(&s.main);
        let ended = if i % 3 == 0 {
            s.advance(INTERVAL / 2 + 1, next)
        } else {
            s.handle(commands[(i as usize * 7 + i as usize / 11) % commands.len()], next)
        };
        assert!(s.is_valid());
        assert_eq!(s.dim(), Dim { w: 10, h: 20 });
        assert!(s.score >= score);
        assert_eq!((s.score - score) % ROW_POINTS, 0);
        score = s.score;
        assert_eq!(ended, !was_over && s.is_gameover);
        for y in 0..20 {
            assert!(!s.main.row_is_full(y));
        }
        if was_over {
            assert!(s.is_gameover);
            assert_eq!(tiles(&s.main), before);
        }
        if ended {
            ended_at = Some(i);
        }
    }
    assert!(ended_at.is_some());
    assert!(s.is_gameover);
}
