//! Move generator behaviour: counts on an empty board, validity and
//! distinctness of the results, and T-spin detection on a prepared board.

use cold_clear_2::board::Board;
use cold_clear_2::data::GameState;
use cold_clear_2::data::Piece;
use cold_clear_2::data::PieceSet;
use cold_clear_2::data::Spin;
use cold_clear_2::movegen::find_moves;

fn tspin_board() -> Board {
    Board {
        cols: [
            0b00111111,
            0b00111111,
            0b00011111,
            0b00000111,
            0b00000001,
            0b00000000,
            0b00001101,
            0b00011111,
            0b00111111,
            0b11111111,
        ],
    }
}

#[test]
fn empty_board_i_piece_has_seventeen_placements() {
    let b = Board::empty();
    let moves = find_moves(&b, Piece::I);
    // Seven horizontal and ten vertical canonical placements.
    assert_eq!(moves.len(), 17);
}

#[test]
fn empty_board_o_piece_has_nine_placements() {
    let b = Board::empty();
    let moves = find_moves(&b, Piece::O);
    assert_eq!(moves.len(), 9);
}

#[test]
fn empty_board_t_piece_has_thirty_four_placements() {
    let b = Board::empty();
    let moves = find_moves(&b, Piece::T);
    assert_eq!(moves.len(), 34);
}

#[test]
fn returned_placements_are_valid_and_distinct() {
    let b = tspin_board();
    for piece in [
        Piece::I,
        Piece::O,
        Piece::T,
        Piece::L,
        Piece::J,
        Piece::S,
        Piece::Z,
    ] {
        let moves = find_moves(&b, piece);
        for (i, &(mv, _)) in moves.iter().enumerate() {
            assert_eq!(mv.location.piece, piece);
            // Collision-free and in bounds.
            assert!(!mv.location.obstructed(&b));
            // Its own canonical form.
            assert_eq!(mv.location.canonical_form(), mv.location);
            // No other entry shares its canonical location.
            for &(other, _) in &moves[i + 1..] {
                assert_ne!(mv.location, other.location);
            }
        }
    }
}

#[test]
fn tspin_board_offers_a_full_spin_double() {
    let b = tspin_board();
    let moves = find_moves(&b, Piece::T);
    let spin_move = moves
        .iter()
        .find(|&&(mv, _)| mv.spin == Spin::Full)
        .expect("a full T-spin placement");
    let mut state = GameState {
        board: b,
        bag: PieceSet::all(),
        reserve: Piece::T,
        back_to_back: false,
        combo: 0,
    };
    let info = state.advance(Piece::T, spin_move.0);
    assert_eq!(info.lines_cleared, 2);
}

#[test]
fn blocked_spawn_returns_no_moves() {
    let mut b = Board::empty();
    // Fill the spawn rows completely.
    for x in 0..10 {
        b.cols[x] = !0u64 >> 24;
    }
    let moves = find_moves(&b, Piece::T);
    assert!(moves.is_empty());
}

#[test]
fn blocked_first_spawn_row_falls_back_to_the_second() {
    // A single cell at (4, 19) obstructs the first spawn row for a T piece
    // but leaves the second free.
    let mut b = Board::empty();
    b.cols[4] = 1 << 19;
    let moves = find_moves(&b, Piece::T);
    assert!(!moves.is_empty());
}

#[test]
fn every_returned_placement_is_grounded() {
    let b = tspin_board();
    for piece in [Piece::I, Piece::T, Piece::L, Piece::S] {
        for &(mv, _) in &find_moves(&b, piece) {
            assert_eq!(mv.location.drop_distance(&b), 0);
        }
    }
}

#[test]
fn soft_drop_distances_are_zero_on_simple_drops() {
    let b = Board::empty();
    let moves = find_moves(&b, Piece::L);
    // On an empty board every placement is reachable by a straight drop.
    assert!(moves.iter().all(|&(_, sd)| sd == 0));
}
