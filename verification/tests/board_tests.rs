//! Board, piece and game-state transition behaviour on concrete values.

use cold_clear_2::board::Board;
use cold_clear_2::data::GameState;
use cold_clear_2::data::Piece;
use cold_clear_2::data::PieceLocation;
use cold_clear_2::data::PieceSet;
use cold_clear_2::data::Placement;
use cold_clear_2::data::Rotation;
use cold_clear_2::data::Spin;

fn full_bag() -> PieceSet {
    PieceSet::all()
}

fn state_with_board(board: Board) -> GameState {
    GameState {
        board,
        bag: full_bag(),
        reserve: Piece::I,
        back_to_back: false,
        combo: 0,
    }
}

#[test]
fn occupied_is_total_outside_the_playfield() {
    let b = Board::empty();
    assert!(b.occupied((-1, 0)));
    assert!(b.occupied((10, 0)));
    assert!(b.occupied((0, -1)));
    assert!(b.occupied((0, 40)));
    assert!(!b.occupied((0, 0)));
    assert!(!b.occupied((9, 39)));
}

#[test]
fn place_fills_the_four_cells() {
    let mut b = Board::empty();
    let loc = PieceLocation { piece: Piece::O, rotation: Rotation::North, x: 0, y: 0 };
    b.place(loc);
    assert!(b.occupied((0, 0)));
    assert!(b.occupied((1, 0)));
    assert!(b.occupied((0, 1)));
    assert!(b.occupied((1, 1)));
    assert!(!b.occupied((2, 0)));
}

#[test]
fn line_clears_reports_full_rows() {
    let mut b = Board::empty();
    for x in 0..10 {
        b.cols[x] = 0b101;
    }
    b.cols[4] = 0b001;
    assert_eq!(b.line_clears(), 0b001);
    b.cols[4] = 0b101;
    assert_eq!(b.line_clears(), 0b101);
}

#[test]
fn remove_lines_packs_rows_downward() {
    assert_eq!(cold_clear_2::board::clear_lines(0b1011, 0b0010), 0b101);
    assert_eq!(cold_clear_2::board::clear_lines(0b1111, 0b1111), 0);
    assert_eq!(cold_clear_2::board::clear_lines(0b110101, 0b000101), 0b1100);
}

#[test]
fn count_bits_counts() {
    assert_eq!(Board::count_bits(0), 0);
    assert_eq!(Board::count_bits(0b1011), 3);
    assert_eq!(Board::count_bits(u64::MAX), 64);
}

#[test]
fn distance_to_ground_stops_on_stack_or_floor() {
    let mut b = Board::empty();
    assert_eq!(b.distance_to_ground(3, 5), 5);
    b.cols[3] = 0b1;
    assert_eq!(b.distance_to_ground(3, 5), 4);
    assert_eq!(b.distance_to_ground(3, 1), 0);
}

#[test]
fn rotations_cycle() {
    assert_eq!(Rotation::North.cw(), Rotation::East);
    assert_eq!(Rotation::East.cw(), Rotation::South);
    assert_eq!(Rotation::South.cw(), Rotation::West);
    assert_eq!(Rotation::West.cw(), Rotation::North);
    assert_eq!(Rotation::North.ccw(), Rotation::West);
    assert_eq!(Rotation::North.flip(), Rotation::South);
}

#[test]
fn four_clockwise_rotations_return_to_start() {
    for r in [Rotation::North, Rotation::East, Rotation::South, Rotation::West] {
        assert_eq!(r.cw().cw().cw().cw(), r);
    }
    let loc = PieceLocation { piece: Piece::T, rotation: Rotation::East, x: 4, y: 7 };
    let rotated = PieceLocation { rotation: loc.rotation.cw().cw().cw().cw(), ..loc };
    assert_eq!(rotated, loc);
}

#[test]
fn canonical_form_collapses_symmetric_rotations() {
    let o_east = PieceLocation { piece: Piece::O, rotation: Rotation::East, x: 4, y: 5 };
    assert_eq!(
        o_east.canonical_form(),
        PieceLocation { piece: Piece::O, rotation: Rotation::North, x: 4, y: 4 }
    );
    let s_south = PieceLocation { piece: Piece::S, rotation: Rotation::South, x: 4, y: 5 };
    assert_eq!(
        s_south.canonical_form(),
        PieceLocation { piece: Piece::S, rotation: Rotation::North, x: 4, y: 4 }
    );
    let i_west = PieceLocation { piece: Piece::I, rotation: Rotation::West, x: 4, y: 5 };
    assert_eq!(
        i_west.canonical_form(),
        PieceLocation { piece: Piece::I, rotation: Rotation::East, x: 4, y: 6 }
    );
    let t_any = PieceLocation { piece: Piece::T, rotation: Rotation::South, x: 4, y: 5 };
    assert_eq!(t_any.canonical_form(), t_any);
    // Taking the canonical form twice changes nothing further.
    assert_eq!(o_east.canonical_form().canonical_form(), o_east.canonical_form());
}

#[test]
fn piece_set_insert_remove_contains() {
    let empty = PieceSet::empty();
    assert!(empty.is_empty());
    let s = empty.insert(Piece::T).insert(Piece::J);
    assert!(s.contains(Piece::T));
    assert!(s.contains(Piece::J));
    assert!(!s.contains(Piece::I));
    let s2 = s.remove(Piece::T);
    assert!(!s2.contains(Piece::T));
    assert!(s2.contains(Piece::J));
    assert_eq!(PieceSet::all().size(), 7);
    assert_eq!(s.size(), 2);
    assert_eq!(s.to_vec(), vec![Piece::T, Piece::J]);
}

#[test]
fn advance_draws_from_bag_and_refills_when_empty() {
    let mut s = state_with_board(Board::empty());
    s.bag = PieceSet::empty().insert(Piece::T);
    let mv = Placement {
        location: PieceLocation { piece: Piece::T, rotation: Rotation::North, x: 4, y: 0 },
        spin: Spin::NoSpin,
    };
    s.advance(Piece::T, mv);
    // The bag emptied and refilled to all seven.
    assert_eq!(s.bag, PieceSet::all());
}

#[test]
fn advance_holds_when_placing_another_piece() {
    let mut s = state_with_board(Board::empty());
    s.reserve = Piece::L;
    let mv = Placement {
        location: PieceLocation { piece: Piece::L, rotation: Rotation::North, x: 4, y: 0 },
        spin: Spin::NoSpin,
    };
    // The queue piece is T but the L from reserve is placed: T becomes held.
    s.advance(Piece::T, mv);
    assert_eq!(s.reserve, Piece::T);
}

#[test]
fn perfect_clear_after_filling_the_last_gap() {
    // Bottom row filled except columns 3 through 6: an I laid flat fits.
    let mut b = Board::empty();
    for x in 0..10 {
        if !(3..=6).contains(&x) {
            b.cols[x] = 0b1;
        }
    }
    let mut s = state_with_board(b);
    let mv = Placement {
        location: PieceLocation { piece: Piece::I, rotation: Rotation::North, x: 4, y: 0 },
        spin: Spin::NoSpin,
    };
    let info = s.advance(Piece::I, mv);
    assert_eq!(info.lines_cleared, 1);
    assert!(info.perfect_clear);
    assert!(s.board.cols.iter().all(|&c| c == 0));
}

#[test]
fn back_to_back_extends_across_consecutive_tetrises() {
    // Eight full rows except column nine; two vertical I pieces clear four
    // rows each.
    let mut b = Board::empty();
    for x in 0..9 {
        b.cols[x] = 0b1111_1111;
    }
    let mut s = state_with_board(b);
    let vertical_i = |y: i8| Placement {
        location: PieceLocation { piece: Piece::I, rotation: Rotation::East, x: 9, y },
        spin: Spin::NoSpin,
    };
    let first = s.advance(Piece::I, vertical_i(2));
    assert_eq!(first.lines_cleared, 4);
    assert!(!first.back_to_back);
    assert!(s.back_to_back);
    let second = s.advance(Piece::I, vertical_i(2));
    assert_eq!(second.lines_cleared, 4);
    assert!(second.back_to_back);
    assert!(s.back_to_back);
}

#[test]
fn tslot_finders_locate_the_notch() {
    // Columns 0..=2 rise, column 3 is the notch, column 4 walls it off with
    // an overhang cell: a left-facing T slot at window position 2.
    let mut b = Board::empty();
    b.cols[0] = 0b111;
    b.cols[1] = 0b111;
    b.cols[2] = 0b111;
    b.cols[3] = 0b001;
    b.cols[4] = 0b10101;
    for x in 5..10 {
        b.cols[x] = 0b111;
    }
    let left = cold_clear_2::board::well_known_tslot_left(&b).expect("left slot found");
    assert_eq!(
        left,
        PieceLocation { piece: Piece::T, rotation: Rotation::South, x: 3, y: 3 }
    );
    // The mirrored board has the right-facing slot.
    let mut m = Board::empty();
    for x in 0..10 {
        m.cols[x] = b.cols[9 - x];
    }
    let right = cold_clear_2::board::well_known_tslot_right(&m).expect("right slot found");
    assert_eq!(right.piece, Piece::T);
    assert_eq!(right.rotation, Rotation::South);
    // No slot on an empty board.
    assert!(cold_clear_2::board::well_known_tslot_left(&Board::empty()).is_none());
    assert!(cold_clear_2::board::well_known_tslot_right(&Board::empty()).is_none());
}

#[test]
fn combo_counts_consecutive_clearing_placements() {
    let mut b = Board::empty();
    for x in 0..9 {
        b.cols[x] = 0b11;
    }
    let mut s = state_with_board(b);
    let vertical_i = |y: i8| Placement {
        location: PieceLocation { piece: Piece::I, rotation: Rotation::East, x: 9, y },
        spin: Spin::NoSpin,
    };
    let first = s.advance(Piece::I, vertical_i(2));
    assert_eq!(first.lines_cleared, 2);
    assert_eq!(first.combo, 1);
    // The remaining two cells of the I stay as a stub; a placement that
    // clears nothing resets the combo.
    let flat_o = Placement {
        location: PieceLocation { piece: Piece::O, rotation: Rotation::North, x: 0, y: 5 },
        spin: Spin::NoSpin,
    };
    let second = s.advance(Piece::O, flat_o);
    assert_eq!(second.lines_cleared, 0);
    assert_eq!(second.combo, 0);
}
