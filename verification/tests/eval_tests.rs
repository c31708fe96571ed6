//! The integer evaluation type: saturation, floor division, and the
//! missing-child sentinel in averages.

use cold_clear_2::bot::CellCountEvaluator;
use cold_clear_2::bot::Evaluator;
use cold_clear_2::board::Board;
use cold_clear_2::data::GameState;
use cold_clear_2::data::Piece;
use cold_clear_2::data::PieceLocation;
use cold_clear_2::data::PieceSet;
use cold_clear_2::data::Placement;
use cold_clear_2::data::PlacementInfo;
use cold_clear_2::data::Rotation;
use cold_clear_2::data::Spin;
use cold_clear_2::eval::div_floor;
use cold_clear_2::eval::sat_add;
use cold_clear_2::eval::Evaluation;
use cold_clear_2::eval::IntEval;

#[test]
fn saturating_addition_clamps_at_the_ends() {
    assert_eq!(sat_add(1, 2), 3);
    assert_eq!(sat_add(i64::MAX, 1), i64::MAX);
    assert_eq!(sat_add(i64::MIN, -1), i64::MIN);
    assert_eq!(sat_add(-5, 3), -2);
}

#[test]
fn floor_division_rounds_toward_negative_infinity() {
    assert_eq!(div_floor(7, 2), 3);
    assert_eq!(div_floor(-7, 2), -4);
    assert_eq!(div_floor(-6, 3), -2);
    assert_eq!(div_floor(0, 5), 0);
    assert_eq!(div_floor(i64::MIN, 1), i64::MIN);
}

#[test]
fn average_uses_the_missing_child_sentinel() {
    let items = vec![Some(IntEval { value: 500 }), None];
    // (500 + -1000000) / 2 rounded toward negative infinity: the sentinel is
    // minus one thousand points in fixed-point thousandths.
    assert_eq!(IntEval::average(&items), IntEval { value: -499750 });
    let sole = vec![Some(IntEval { value: 42 })];
    assert_eq!(IntEval::average(&sole), IntEval { value: 42 });
    let empty: Vec<Option<IntEval>> = Vec::new();
    assert_eq!(IntEval::average(&empty), IntEval { value: 0 });
}

#[test]
fn ordering_is_numeric() {
    let a = IntEval { value: -3 };
    let b = IntEval { value: 4 };
    assert!(a.le_exec(&b));
    assert!(!b.le_exec(&a));
    assert!(a.le_exec(&a));
}

#[test]
fn cell_count_evaluator_scores_board_and_clears() {
    let mut board = Board::empty();
    board.cols[0] = 0b11;
    board.cols[5] = 0b1;
    let state = GameState {
        board,
        bag: PieceSet::all(),
        reserve: Piece::I,
        back_to_back: false,
        combo: 0,
    };
    let info = PlacementInfo {
        placement: Placement {
            location: PieceLocation { piece: Piece::T, rotation: Rotation::North, x: 4, y: 0 },
            spin: Spin::NoSpin,
        },
        lines_cleared: 2,
        combo: 1,
        back_to_back: false,
        perfect_clear: false,
    };
    let (eval, reward) = CellCountEvaluator.evaluate(&state, &info, 3);
    assert_eq!(eval.value, -30);
    assert_eq!(reward.value, 200);
}
