//! Move generation: every reachable final placement of a piece on a board,
//! found by seeding spawn (or drop) positions and exploring shift, rotate and
//! soft-drop neighbours in order of soft-drop cost.

use vstd::prelude::*;

use std::collections::HashMap;

use crate::board::lemma_dist_to_ground;
use crate::board::Board;
use crate::data::Piece;
use crate::data::PieceLocation;
use crate::data::Placement;
use crate::data::Rotation;
use crate::data::Spin;

verus! {

/// A reachable intermediate position: inside the playfield and collision-free.
pub open spec fn candidate_ok(b: Board, loc: PieceLocation) -> bool {
    &&& loc.coords_in_range()
    &&& loc.cells_in_bounds()
    &&& !loc.obstructed_spec(b)
}

/// What the move generator guarantees of every returned placement: it places
/// `piece`, collision-free and fully inside the playfield, grounded (it can
/// fall no further), and it is its own canonical form.
pub open spec fn valid_move(b: Board, piece: Piece, mv: Placement) -> bool {
    &&& mv.location.piece == piece
    &&& candidate_ok(b, mv.location)
    &&& mv.location.canonical_spec() == mv.location
    &&& mv.location.drop_dist_spec(b) == 0
}

/// A location whose cells are all in bounds keeps its coordinates within two
/// cells of the playfield.
pub proof fn lemma_coords_bounded(loc: PieceLocation)
    requires
        loc.cells_in_bounds(),
    ensures
        -2 <= loc.x <= 11,
        -2 <= loc.y <= 41,
{
    lemma_cell_near(loc, 0);
    assert(0 <= loc.cell(0).0 < 10 && 0 <= loc.cell(0).1 < 40);
}

/// Each cell of a location lies within two columns and two rows of the
/// location's position.
pub proof fn lemma_cell_near(loc: PieceLocation, i: int)
    requires
        0 <= i < 4,
    ensures
        -2 <= loc.cell(i).0 - loc.x <= 2,
        -2 <= loc.cell(i).1 - loc.y <= 2,
{
    let c = loc.piece.shape()[i];
    assert(-1 <= c.0 <= 2 && 0 <= c.1 <= 1) by {
        if i == 0 {
        } else if i == 1 {
        } else if i == 2 {
        } else {
            assert(i == 3);
        }
    }
}

/// A location that does not collide with the board lies fully inside the
/// playfield, because out-of-bounds cells count as filled.
pub proof fn lemma_unobstructed_in_bounds(b: Board, loc: PieceLocation)
    requires
        !loc.obstructed_spec(b),
    ensures
        loc.cells_in_bounds(),
{
    assert forall|i: int| 0 <= i < 4 implies {
        let c = #[trigger] loc.cell(i);
        0 <= c.0 < 10 && 0 <= c.1 < 40
    } by {
        assert(!b.occ(loc.cell(i).0, loc.cell(i).1));
    }
}

/// The SRS offset table of a piece in a rotation, as the kick rule reads it.
pub open spec fn offsets_spec(piece: Piece, rotation: Rotation) -> Seq<(i8, i8)> {
    match piece {
        Piece::O => match rotation {
            Rotation::North => seq![(0i8, 0i8), (0i8, 0i8), (0i8, 0i8), (0i8, 0i8), (0i8, 0i8)],
            Rotation::East => seq![
                (0i8, -1i8),
                (0i8, -1i8),
                (0i8, -1i8),
                (0i8, -1i8),
                (0i8, -1i8),
            ],
            Rotation::South => seq![
                (-1i8, -1i8),
                (-1i8, -1i8),
                (-1i8, -1i8),
                (-1i8, -1i8),
                (-1i8, -1i8),
            ],
            Rotation::West => seq![
                (-1i8, 0i8),
                (-1i8, 0i8),
                (-1i8, 0i8),
                (-1i8, 0i8),
                (-1i8, 0i8),
            ],
        },
        Piece::I => match rotation {
            Rotation::North => seq![(0i8, 0i8), (-1i8, 0i8), (2i8, 0i8), (-1i8, 0i8), (2i8, 0i8)],
            Rotation::East => seq![(-1i8, 0i8), (0i8, 0i8), (0i8, 0i8), (0i8, 1i8), (0i8, -2i8)],
            Rotation::South => seq![(-1i8, 1i8), (1i8, 1i8), (-2i8, 1i8), (1i8, 0i8), (-2i8, 0i8)],
            Rotation::West => seq![(0i8, 1i8), (0i8, 1i8), (0i8, 1i8), (0i8, -1i8), (0i8, 2i8)],
        },
        _ => match rotation {
            Rotation::North => seq![(0i8, 0i8), (0i8, 0i8), (0i8, 0i8), (0i8, 0i8), (0i8, 0i8)],
            Rotation::East => seq![(0i8, 0i8), (1i8, 0i8), (1i8, -1i8), (0i8, 2i8), (1i8, 2i8)],
            Rotation::South => seq![(0i8, 0i8), (0i8, 0i8), (0i8, 0i8), (0i8, 0i8), (0i8, 0i8)],
            Rotation::West => seq![(0i8, 0i8), (-1i8, 0i8), (-1i8, -1i8), (0i8, 2i8), (-1i8, 2i8)],
        },
    }
}

/// The kick table of a rotation: the componentwise differences of the two
/// offset tables, tried in order.
pub open spec fn kick_table(piece: Piece, from: Rotation, to: Rotation) -> Seq<(i8, i8)> {
    Seq::new(
        5,
        |k: int|
            (
                (offsets_spec(piece, from)[k].0 - offsets_spec(piece, to)[k].0) as i8,
                (offsets_spec(piece, from)[k].1 - offsets_spec(piece, to)[k].1) as i8,
            ),
    )
}

/// The location `unkicked` displaced by a kick offset.
pub open spec fn kicked(unkicked: PieceLocation, offset: (i8, i8)) -> PieceLocation {
    PieceLocation {
        x: (unkicked.x + offset.0) as i8,
        y: (unkicked.y + offset.1) as i8,
        ..unkicked
    }
}

/// The first index at or after `k` whose kicked target is free on `b`, or
/// five when every candidate is obstructed.
pub open spec fn first_free_kick(
    b: Board,
    unkicked: PieceLocation,
    table: Seq<(i8, i8)>,
    k: int,
) -> int
    decreases 5 - k,
{
    if k < 0 || k >= 5 {
        5
    } else if !kicked(unkicked, table[k]).obstructed_spec(b) {
        k
    } else {
        first_free_kick(b, unkicked, table, k + 1)
    }
}

/// Count of the four diagonal corners of a T piece's centre that are filled
/// or out of bounds.
pub open spec fn corner_count(b: Board, target: PieceLocation) -> int {
    (if b.occ(target.x - 1, target.y - 1) {
        1int
    } else {
        0int
    }) + (if b.occ(target.x + 1, target.y - 1) {
        1int
    } else {
        0int
    }) + (if b.occ(target.x - 1, target.y + 1) {
        1int
    } else {
        0int
    }) + (if b.occ(target.x + 1, target.y + 1) {
        1int
    } else {
        0int
    })
}

/// Count of the two front corners, rotated with the piece, that are filled
/// or out of bounds.
pub open spec fn mini_corner_count(b: Board, target: PieceLocation) -> int {
    let c1 = target.rotation.rot_spec((-1, 1));
    let c2 = target.rotation.rot_spec((1, 1));
    (if b.occ(c1.0 + target.x, c1.1 + target.y) {
        1int
    } else {
        0int
    }) + (if b.occ(c2.0 + target.x, c2.1 + target.y) {
        1int
    } else {
        0int
    })
}

/// The spin a rotation confers: only T pieces spin; at least three blocked
/// diagonal corners are needed; the spin is full when both front corners are
/// blocked or the accepted kick was the last of the table.
pub open spec fn spin_rule(b: Board, target: PieceLocation, kick_index: int) -> Spin {
    if target.piece != Piece::T {
        Spin::NoSpin
    } else if corner_count(b, target) < 3 {
        Spin::NoSpin
    } else if mini_corner_count(b, target) == 2 || kick_index == 4 {
        Spin::Full
    } else {
        Spin::Mini
    }
}

/// What a successful rotation returns: the first free kicked target in table
/// order, carrying the spin the rule above confers; failure means every
/// kicked target is obstructed.
pub open spec fn rotation_outcome(
    b: Board,
    unkicked: PieceLocation,
    table: Seq<(i8, i8)>,
    r: Option<Placement>,
) -> bool {
    let k = first_free_kick(b, unkicked, table, 0);
    if k == 5 {
        r is None
    } else {
        r == Some(
            Placement {
                location: kicked(unkicked, table[k]),
                spin: spin_rule(b, kicked(unkicked, table[k]), k),
            },
        )
    }
}

/// If index `i` holds the first free kicked target, the scan from the start
/// finds exactly it.
proof fn lemma_first_free_is(
    b: Board,
    unkicked: PieceLocation,
    table: Seq<(i8, i8)>,
    from: int,
    i: int,
)
    requires
        0 <= from <= i <= 5,
        i < 5 ==> !kicked(unkicked, table[i]).obstructed_spec(b),
        forall|j: int| from <= j < i ==> kicked(unkicked, #[trigger] table[j]).obstructed_spec(b),
    ensures
        first_free_kick(b, unkicked, table, from) == (if i < 5 {
            i
        } else {
            5int
        }),
    decreases i - from,
{
    if from < i {
        lemma_first_free_is(b, unkicked, table, from + 1, i);
    }
}

/// A location with a cell resting on the stack or the floor can fall no
/// further: one zero among the four nonnegative per-cell distances makes the
/// least of them zero.
proof fn lemma_zero_drop(b: Board, loc: PieceLocation, i: int)
    requires
        loc.cells_in_bounds(),
        0 <= i < 4,
        b.dist_to_ground(loc.cell(i).0, loc.cell(i).1) == 0,
    ensures
        loc.drop_dist_spec(b) == 0,
{
    lemma_dist_to_ground(b, loc.cell(0).0, loc.cell(0).1);
    lemma_dist_to_ground(b, loc.cell(1).0, loc.cell(1).1);
    lemma_dist_to_ground(b, loc.cell(2).0, loc.cell(2).1);
    lemma_dist_to_ground(b, loc.cell(3).0, loc.cell(3).1);
}

/// Move `loc` straight down as far as it can fall. The result is grounded.
fn drop_to_ground(board: &Board, loc: PieceLocation) -> (r: (PieceLocation, i8))
    requires
        candidate_ok(*board, loc),
    ensures
        candidate_ok(*board, r.0),
        0 <= r.1 < 40,
        r.1 == loc.drop_dist_spec(*board),
        r.0 == (PieceLocation { y: (loc.y - r.1) as i8, ..loc }),
        r.0.drop_dist_spec(*board) == 0,
{
    let d = loc.drop_distance(board);
    proof {
        lemma_coords_bounded(loc);
    }
    let dropped = PieceLocation { y: loc.y - d, ..loc };
    proof {
        assert forall|i: int| 0 <= i < 4 implies (#[trigger] dropped.cell(i)) == (
        loc.cell(i).0,
        loc.cell(i).1 - d,
        ) by {}
        assert forall|i: int| 0 <= i < 4 implies !board.occ(
            dropped.cell(i).0,
            dropped.cell(i).1,
        ) && 0 <= dropped.cell(i).0 < 10 && 0 <= dropped.cell(i).1 < 40 by {
            let cx = loc.cell(i).0;
            let cy = loc.cell(i).1;
            assert(!board.occ(cx, cy));
            lemma_dist_to_ground(*board, cx, cy);
            assert(d <= board.dist_to_ground(cx, cy));
            if d > 0 {
                assert(!board.occ(cx, cy - d));
            }
        }
        // Some cell's ground distance equals the least: after dropping by it,
        // that cell rests.
        let i0: int = if loc.drop_dist_spec(*board) == board.dist_to_ground(
            loc.cell(0).0,
            loc.cell(0).1,
        ) {
            0
        } else if loc.drop_dist_spec(*board) == board.dist_to_ground(
            loc.cell(1).0,
            loc.cell(1).1,
        ) {
            1
        } else if loc.drop_dist_spec(*board) == board.dist_to_ground(
            loc.cell(2).0,
            loc.cell(2).1,
        ) {
            2
        } else {
            3
        };
        crate::board::lemma_dist_shift(
            *board,
            loc.cell(i0).0,
            loc.cell(i0).1,
            d as int,
        );
        assert(board.dist_to_ground(dropped.cell(i0).0, dropped.cell(i0).1) == 0);
        lemma_zero_drop(*board, dropped, i0);
    }
    (dropped, d)
}

/// The location one column to the side, when that position is free.
fn shift(location: PieceLocation, board: &Board, dx: i8) -> (r: Option<Placement>)
    requires
        candidate_ok(*board, location),
        -1 <= dx <= 1,
    ensures
        r matches Some(mv) ==> candidate_ok(*board, mv.location) && mv.location.piece
            == location.piece && mv.spin == Spin::NoSpin,
        ({
            let moved = PieceLocation { x: (location.x + dx) as i8, ..location };
            if moved.obstructed_spec(*board) {
                r is None
            } else {
                r == Some(Placement { location: moved, spin: Spin::NoSpin })
            }
        }),
{
    proof {
        lemma_coords_bounded(location);
    }
    let moved = PieceLocation { x: location.x + dx, ..location };
    if moved.obstructed(board) {
        return None;
    }
    proof {
        lemma_unobstructed_in_bounds(*board, moved);
    }
    Some(Placement { location: moved, spin: Spin::NoSpin })
}

/// SRS offset table for a piece in a rotation; the five entries stay within
/// two cells of the origin.
fn offsets(piece: Piece, rotation: Rotation) -> (r: [(i8, i8); 5])
    ensures
        forall|k: int| 0 <= k < 5 ==> -2 <= #[trigger] r@[k].0 <= 2 && -2 <= r@[k].1 <= 2,
        r@ == offsets_spec(piece, rotation),
{
    let r: [(i8, i8); 5] = match piece {
        Piece::O => match rotation {
            Rotation::North => [(0, 0), (0, 0), (0, 0), (0, 0), (0, 0)],
            Rotation::East => [(0, -1), (0, -1), (0, -1), (0, -1), (0, -1)],
            Rotation::South => [(-1, -1), (-1, -1), (-1, -1), (-1, -1), (-1, -1)],
            Rotation::West => [(-1, 0), (-1, 0), (-1, 0), (-1, 0), (-1, 0)],
        },
        Piece::I => match rotation {
            Rotation::North => [(0, 0), (-1, 0), (2, 0), (-1, 0), (2, 0)],
            Rotation::East => [(-1, 0), (0, 0), (0, 0), (0, 1), (0, -2)],
            Rotation::South => [(-1, 1), (1, 1), (-2, 1), (1, 0), (-2, 0)],
            Rotation::West => [(0, 1), (0, 1), (0, 1), (0, -1), (0, 2)],
        },
        _ => match rotation {
            Rotation::North => [(0, 0), (0, 0), (0, 0), (0, 0), (0, 0)],
            Rotation::East => [(0, 0), (1, 0), (1, -1), (0, 2), (1, 2)],
            Rotation::South => [(0, 0), (0, 0), (0, 0), (0, 0), (0, 0)],
            Rotation::West => [(0, 0), (-1, 0), (-1, -1), (0, 2), (-1, 2)],
        },
    };
    proof {
        assert(r@ =~= offsets_spec(piece, rotation));
    }
    r
}

/// Kick table for a rotation of `piece` from `from` to `to`: the differences
/// of the two offset tables, tried in order.
fn kicks(piece: Piece, from: Rotation, to: Rotation) -> (r: [(i8, i8); 5])
    ensures
        forall|k: int| 0 <= k < 5 ==> -4 <= #[trigger] r@[k].0 <= 4 && -4 <= r@[k].1 <= 4,
        r@ == kick_table(piece, from, to),
{
    let f = offsets(piece, from);
    let t = offsets(piece, to);
    let r: [(i8, i8); 5] = [
        (f[0].0 - t[0].0, f[0].1 - t[0].1),
        (f[1].0 - t[1].0, f[1].1 - t[1].1),
        (f[2].0 - t[2].0, f[2].1 - t[2].1),
        (f[3].0 - t[3].0, f[3].1 - t[3].1),
        (f[4].0 - t[4].0, f[4].1 - t[4].1),
    ];
    proof {
        assert(r@ =~= kick_table(piece, from, to));
    }
    r
}

/// Try the kicks of a rotation in order and classify the spin of the first
/// free position. A spin other than `NoSpin` arises only for T pieces: at
/// least three of the four diagonal corners are blocked, and the spin is full
/// when both front corners are blocked or the last kick was used.
fn rotate_attempt(board: &Board, unkicked: PieceLocation, table: [(i8, i8); 5]) -> (r: Option<
    Placement,
>)
    requires
        -20 <= unkicked.x <= 20,
        -20 <= unkicked.y <= 45,
        forall|k: int| 0 <= k < 5 ==> -4 <= #[trigger] table@[k].0 <= 4 && -4 <= table@[k].1 <= 4,
    ensures
        r matches Some(mv) ==> candidate_ok(*board, mv.location) && mv.location.piece
            == unkicked.piece && mv.location.rotation == unkicked.rotation,
        r matches Some(mv) ==> (mv.spin != Spin::NoSpin ==> mv.location.piece == Piece::T),
        rotation_outcome(*board, unkicked, table@, r),
{
    let mut i: usize = 0;
    while i < 5
        invariant
            i <= 5,
            -20 <= unkicked.x <= 20,
            -20 <= unkicked.y <= 45,
            forall|k: int|
                0 <= k < 5 ==> -4 <= #[trigger] table@[k].0 <= 4 && -4 <= table@[k].1 <= 4,
            forall|j: int|
                0 <= j < i as int ==> kicked(unkicked, #[trigger] table@[j]).obstructed_spec(
                    *board,
                ),
        decreases 5 - i,
    {
        let (dx, dy) = table[i];
        let target = PieceLocation { x: unkicked.x + dx, y: unkicked.y + dy, ..unkicked };
        proof {
            assert(target == kicked(unkicked, table@[i as int]));
        }
        if !target.obstructed(board) {
            proof {
                lemma_unobstructed_in_bounds(*board, target);
                lemma_first_free_is(*board, unkicked, table@, 0, i as int);
            }
            let spin: Spin;
            if !matches!(target.piece, Piece::T) {
                spin = Spin::NoSpin;
            } else {
                let mut corners: u32 = 0;
                if board.occupied((target.x - 1, target.y - 1)) {
                    corners = corners + 1;
                }
                if board.occupied((target.x + 1, target.y - 1)) {
                    corners = corners + 1;
                }
                if board.occupied((target.x - 1, target.y + 1)) {
                    corners = corners + 1;
                }
                if board.occupied((target.x + 1, target.y + 1)) {
                    corners = corners + 1;
                }
                let mut mini_corners: u32 = 0;
                let c1 = target.rotation.rotate_cell((-1, 1));
                let c2 = target.rotation.rotate_cell((1, 1));
                if board.occupied((c1.0 + target.x, c1.1 + target.y)) {
                    mini_corners = mini_corners + 1;
                }
                if board.occupied((c2.0 + target.x, c2.1 + target.y)) {
                    mini_corners = mini_corners + 1;
                }
                proof {
                    assert(corners as int == corner_count(*board, target));
                    assert(mini_corners as int == mini_corner_count(*board, target));
                }
                if corners < 3 {
                    spin = Spin::NoSpin;
                } else if mini_corners == 2 || i == 4 {
                    spin = Spin::Full;
                } else {
                    spin = Spin::Mini;
                }
            }
            proof {
                assert(spin == spin_rule(*board, target, i as int));
            }
            return Some(Placement { location: target, spin });
        }
        i = i + 1;
    }
    proof {
        lemma_first_free_is(*board, unkicked, table@, 0, 5);
    }
    None
}

/// The first free kicked position of a clockwise rotation, with its spin.
fn rotate_cw(from: PieceLocation, board: &Board) -> (r: Option<Placement>)
    requires
        candidate_ok(*board, from),
    ensures
        r matches Some(mv) ==> candidate_ok(*board, mv.location) && mv.location.piece
            == from.piece,
        r matches Some(mv) ==> (mv.spin != Spin::NoSpin ==> mv.location.piece == Piece::T),
        from.piece == Piece::O ==> r is None,
        from.piece != Piece::O ==> rotation_outcome(
            *board,
            PieceLocation { rotation: from.rotation.cw_spec(), ..from },
            kick_table(from.piece, from.rotation, from.rotation.cw_spec()),
            r,
        ),
{
    if matches!(from.piece, Piece::O) {
        return None;
    }
    proof {
        lemma_coords_bounded(from);
    }
    let unkicked = PieceLocation { rotation: from.rotation.cw(), ..from };
    let table = kicks(from.piece, from.rotation, from.rotation.cw());
    rotate_attempt(board, unkicked, table)
}

/// The first free kicked position of a counter-clockwise rotation, with its
/// spin.
fn rotate_ccw(from: PieceLocation, board: &Board) -> (r: Option<Placement>)
    requires
        candidate_ok(*board, from),
    ensures
        r matches Some(mv) ==> candidate_ok(*board, mv.location) && mv.location.piece
            == from.piece,
        r matches Some(mv) ==> (mv.spin != Spin::NoSpin ==> mv.location.piece == Piece::T),
        from.piece == Piece::O ==> r is None,
        from.piece != Piece::O ==> rotation_outcome(
            *board,
            PieceLocation { rotation: from.rotation.ccw_spec(), ..from },
            kick_table(from.piece, from.rotation, from.rotation.ccw_spec()),
            r,
        ),
{
    if matches!(from.piece, Piece::O) {
        return None;
    }
    proof {
        lemma_coords_bounded(from);
    }
    let unkicked = PieceLocation { rotation: from.rotation.ccw(), ..from };
    let table = kicks(from.piece, from.rotation, from.rotation.ccw());
    rotate_attempt(board, unkicked, table)
}

/// Pack a candidate placement into a map key. Injective over the coordinate
/// ranges that reachable candidates occupy.
fn encode_key(mv: Placement) -> u64
    requires
        -16 <= mv.location.x < 48,
        -16 <= mv.location.y < 48,
{
    let piece_part: u64 = mv.location.piece.index() as u64;
    let rot_part: u64 = match mv.location.rotation {
        Rotation::North => 0,
        Rotation::East => 1,
        Rotation::South => 2,
        Rotation::West => 3,
    };
    let spin_part: u64 = match mv.spin {
        Spin::NoSpin => 0,
        Spin::Mini => 1,
        Spin::Full => 2,
    };
    let x_part = (mv.location.x + 16) as u64;
    let y_part = (mv.location.y + 16) as u64;
    (((piece_part * 4 + rot_part) * 64 + x_part) * 64 + y_part) * 4 + spin_part
}

/// All candidates on the queue are reachable positions of `piece` on `b`.
pub open spec fn queue_ok(b: Board, piece: Piece, q: Seq<(Placement, u32)>) -> bool {
    forall|i: int|
        0 <= i < q.len() ==> candidate_ok(b, (#[trigger] q[i]).0.location) && q[i].0.location.piece
            == piece && (q[i].0.spin != Spin::NoSpin ==> q[i].0.location.piece == Piece::T)
}

/// All recorded locks are valid moves with pairwise distinct locations, and
/// only T pieces carry a spin.
pub open spec fn locks_ok(b: Board, piece: Piece, locks: Seq<(Placement, u32)>) -> bool {
    &&& forall|i: int|
        0 <= i < locks.len() ==> valid_move(b, piece, (#[trigger] locks[i]).0) && (locks[i].0.spin
            != Spin::NoSpin ==> locks[i].0.location.piece == Piece::T)
    &&& forall|i: int, j: int|
        0 <= i < j < locks.len() ==> locks[i].0.location != locks[j].0.location
}

/// Some entry of `locks` lies at exactly this location.
pub open spec fn location_recorded(locks: Seq<(Placement, u32)>, loc: PieceLocation) -> bool {
    exists|i: int| 0 <= i < locks.len() && (#[trigger] locks[i]).0.location == loc
}

/// The spawn position tried at row `y0`: the piece in its spawn orientation
/// in the middle of the board.
pub open spec fn spawn_loc(piece: Piece, y0: int) -> PieceLocation {
    PieceLocation { piece, rotation: Rotation::North, x: 4, y: y0 as i8 }
}

/// Where the spawn position tried at row `y0` comes to rest under a
/// straight drop.
pub open spec fn spawn_drop(b: Board, piece: Piece, y0: int) -> PieceLocation {
    PieceLocation { y: (y0 - spawn_loc(piece, y0).drop_dist_spec(b)) as i8, ..spawn_loc(piece, y0) }
}

/// On a board whose stacks stay below row sixteen, the spawn position is
/// free: its cells lie on rows sixteen and above.
proof fn lemma_fast_spawn_free(b: Board, piece: Piece)
    requires
        forall|x: int| 0 <= x < 10 ==> #[trigger] b.cols@[x] < 0x10000,
    ensures
        !spawn_loc(piece, 19).obstructed_spec(b),
{
    let sp = spawn_loc(piece, 19);
    assert forall|i: int| 0 <= i < 4 implies !b.occ(
        (#[trigger] sp.cell(i)).0,
        sp.cell(i).1,
    ) by {
        lemma_cell_near(sp, i);
        let cx = sp.cell(i).0;
        let cy = sp.cell(i).1;
        assert(2 <= cx <= 6 && 17 <= cy <= 21);
        let c = b.cols@[cx];
        let yu = cy as u64;
        assert(c < 0x10000 && 16 <= yu < 40 ==> c >> yu & 1 == 0) by (bit_vector);
    }
}

/// Record a lock: take the least soft-drop cost per canonical location, and
/// keep the strongest spin classification seen for it.
fn record_lock(
    locks: &mut Vec<(Placement, u32)>,
    board: &Board,
    piece: Piece,
    mv: Placement,
    soft_drops: u32,
)
    requires
        locks_ok(*board, piece, old(locks)@),
        valid_move(*board, piece, mv),
        mv.spin != Spin::NoSpin ==> mv.location.piece == Piece::T,
    ensures
        locks_ok(*board, piece, final(locks)@),
        final(locks)@.len() >= old(locks)@.len(),
        forall|k: int|
            0 <= k < old(locks)@.len() ==> (#[trigger] final(locks)@[k]).0.location == old(
                locks,
            )@[k].0.location,
        location_recorded(final(locks)@, mv.location),
        forall|loc: PieceLocation|
            #[trigger] location_recorded(old(locks)@, loc) ==> location_recorded(
                final(locks)@,
                loc,
            ),
{
    let mut i: usize = 0;
    while i < locks.len()
        invariant
            i <= locks@.len(),
            locks@ == old(locks)@,
            locks_ok(*board, piece, locks@),
            valid_move(*board, piece, mv),
            mv.spin != Spin::NoSpin ==> mv.location.piece == Piece::T,
            forall|k: int| 0 <= k < i as int ==> (#[trigger] locks@[k]).0.location != mv.location,
        decreases locks@.len() - i,
    {
        let (existing, sd) = locks[i];
        if existing.location == mv.location {
            let best_sd = if soft_drops < sd {
                soft_drops
            } else {
                sd
            };
            let best_spin = match (existing.spin, mv.spin) {
                (Spin::Full, _) | (_, Spin::Full) => Spin::Full,
                (Spin::Mini, _) | (_, Spin::Mini) => Spin::Mini,
                _ => Spin::NoSpin,
            };
            let merged = (Placement { location: existing.location, spin: best_spin }, best_sd);
            let ghost pre = locks@;
            locks[i] = merged;
            proof {
                // A merged spin comes from one of the two entries, both of
                // which place a T when they spin.
                if best_spin != Spin::NoSpin {
                    assert(pre[i as int].0 == existing);
                    assert(locks_ok(*board, piece, pre));
                    if existing.spin != Spin::NoSpin {
                        assert(existing.location.piece == Piece::T);
                    } else {
                        assert(mv.spin != Spin::NoSpin);
                        assert(existing.location.piece == Piece::T);
                    }
                }
                assert(locks@[i as int].0.location == mv.location);
                assert forall|loc: PieceLocation|
                    #[trigger] location_recorded(pre, loc) implies location_recorded(
                    locks@,
                    loc,
                ) by {
                    let k = choose|k: int| 0 <= k < pre.len() && pre[k].0.location == loc;
                    assert(locks@[k].0.location == loc);
                }
            }
            return ;
        }
        i = i + 1;
    }
    let ghost pre = locks@;
    locks.push((mv, soft_drops));
    proof {
        assert(locks@[pre.len() as int].0.location == mv.location);
        assert forall|loc: PieceLocation| #[trigger] location_recorded(pre, loc) implies
            location_recorded(locks@, loc) by {
            let k = choose|k: int| 0 <= k < pre.len() && pre[k].0.location == loc;
            assert(locks@[k].0.location == loc);
        }
    }
}

/// Push `target` onto the queue when it improves on the best soft-drop cost
/// seen for it; in fast mode positions wholly above the stack are skipped,
/// because seeding already covers every straight drop.
fn update_position(
    queue: &mut Vec<(Placement, u32)>,
    values: &mut HashMap<u64, u32>,
    fast_mode: bool,
    board: &Board,
    piece: Piece,
    target: Placement,
    soft_drops: u32,
)
    requires
        queue_ok(*board, piece, old(queue)@),
        candidate_ok(*board, target.location),
        target.location.piece == piece,
        target.spin != Spin::NoSpin ==> target.location.piece == Piece::T,
    ensures
        queue_ok(*board, piece, final(queue)@),
{
    if fast_mode && target.location.above_stack(board) {
        return ;
    }
    proof {
        lemma_coords_bounded(target.location);
    }
    let key = encode_key(target);
    let prev: u32 = match values.get(&key) {
        Some(v) => *v,
        None => 40,
    };
    if soft_drops < prev {
        values.insert(key, soft_drops);
        queue.push((target, soft_drops));
    }
}

/// Remove and return the queued candidate with the least soft-drop cost.
fn pop_min(queue: &mut Vec<(Placement, u32)>) -> (r: (Placement, u32))
    requires
        old(queue)@.len() > 0,
    ensures
        final(queue)@.len() == old(queue)@.len() - 1,
        old(queue)@.contains(r),
        forall|i: int|
            0 <= i < final(queue)@.len() ==> old(queue)@.contains(#[trigger] final(queue)@[i]),
{
    let mut best: usize = 0;
    let mut i: usize = 1;
    while i < queue.len()
        invariant
            best < i <= queue@.len(),
            queue@.len() > 0,
        decreases queue@.len() - i,
    {
        if queue[i].1 < queue[best].1 {
            best = i;
        }
        i = i + 1;
    }
    let r = queue.swap_remove(best);
    r
}

/// Enumerate every reachable final placement of `piece` on `board`, paired
/// with the least soft-drop cost seen for it. Every returned placement is
/// collision-free, lies fully inside the playfield and is its own canonical
/// form, and no two returned entries share a canonical location.
pub fn find_moves(board: &Board, piece: Piece) -> (r: Vec<(Placement, u32)>)
    ensures
        forall|i: int| 0 <= i < r@.len() ==> valid_move(*board, piece, (#[trigger] r@[i]).0),
        forall|i: int, j: int| 0 <= i < j < r@.len() ==> r@[i].0.location != r@[j].0.location,
        forall|i: int|
            0 <= i < r@.len() ==> ((#[trigger] r@[i]).0.spin != Spin::NoSpin
                ==> r@[i].0.location.piece == Piece::T),
        spawn_loc(piece, 19).obstructed_spec(*board) && spawn_loc(piece, 20).obstructed_spec(
            *board,
        ) ==> r@.len() == 0,
        !spawn_loc(piece, 19).obstructed_spec(*board) ==> location_recorded(
            r@,
            spawn_drop(*board, piece, 19),
        ),
        spawn_loc(piece, 19).obstructed_spec(*board) && !spawn_loc(piece, 20).obstructed_spec(
            *board,
        ) ==> location_recorded(r@, spawn_drop(*board, piece, 20)),
        !(spawn_loc(piece, 19).obstructed_spec(*board) && spawn_loc(piece, 20).obstructed_spec(
            *board,
        )) ==> r@.len() > 0,
{
    let mut queue: Vec<(Placement, u32)> = Vec::new();
    let mut values: HashMap<u64, u32> = HashMap::new();
    let mut locks: Vec<(Placement, u32)> = Vec::new();

    let mut fast_mode = true;
    let mut c: usize = 0;
    while c < 10
        invariant
            c <= 10,
            fast_mode ==> forall|k: int| 0 <= k < c as int ==> #[trigger] board.cols@[k] < 0x10000,
        decreases 10 - c,
    {
        if board.cols[c] >= 1u64 << 16 {
            fast_mode = false;
        }
        proof {
            assert(1u64 << 16 == 0x10000) by (bit_vector);
        }
        c = c + 1;
    }

    // The straight drop from the spawn position is always offered when the
    // spawn is free: record it up front, so it stands whatever the search
    // finds later.
    let spawn19 = PieceLocation { piece, rotation: Rotation::North, x: 4, y: 19 };
    let spawn19_free = !spawn19.obstructed(board);
    if spawn19_free {
        proof {
            lemma_unobstructed_in_bounds(*board, spawn19);
        }
        let (dropped19, _d19) = drop_to_ground(board, spawn19);
        proof {
            assert(dropped19.canonical_spec() == dropped19);
            assert(dropped19 == spawn_drop(*board, piece, 19));
        }
        record_lock(
            &mut locks,
            board,
            piece,
            Placement { location: dropped19, spin: Spin::NoSpin },
            0,
        );
    }

    if fast_mode {
        proof {
            lemma_fast_spawn_free(*board, piece);
        }
        let rotations = [Rotation::North, Rotation::East, Rotation::South, Rotation::West];
        let mut ri: usize = 0;
        while ri < 4
            invariant
                queue_ok(*board, piece, queue@),
                locks_ok(*board, piece, locks@),
                ri <= 4,
                !spawn_loc(piece, 19).obstructed_spec(*board),
                location_recorded(locks@, spawn_drop(*board, piece, 19)),
            decreases 4 - ri,
        {
            let rotation = rotations[ri];
            let mut x: i8 = 0;
            while x < 10
                invariant
                    queue_ok(*board, piece, queue@),
                    locks_ok(*board, piece, locks@),
                    0 <= x <= 10,
                    !spawn_loc(piece, 19).obstructed_spec(*board),
                    location_recorded(locks@, spawn_drop(*board, piece, 19)),
                decreases 10 - x,
            {
                let location = PieceLocation { piece, rotation, x, y: 19 };
                if !location.obstructed(board) {
                    proof {
                        lemma_unobstructed_in_bounds(*board, location);
                    }
                    let (dropped, distance) = drop_to_ground(board, location);
                    let mv = Placement { location: dropped, spin: Spin::NoSpin };

                    let sd = distance as u32;
                    if let Some(n) = shift(dropped, board, -1) {
                        update_position(&mut queue, &mut values, fast_mode, board, piece, n, sd);
                    }
                    if let Some(n) = shift(dropped, board, 1) {
                        update_position(&mut queue, &mut values, fast_mode, board, piece, n, sd);
                    }
                    if let Some(n) = rotate_cw(dropped, board) {
                        update_position(&mut queue, &mut values, fast_mode, board, piece, n, sd);
                    }
                    if let Some(n) = rotate_ccw(dropped, board) {
                        update_position(&mut queue, &mut values, fast_mode, board, piece, n, sd);
                    }

                    let canonical = dropped.canonical_form();
                    if canonical == dropped {
                        proof {
                            lemma_canonical_idempotent_for(dropped);
                        }
                        record_lock(&mut locks, board, piece, mv, 0);
                    }
                }
                x = x + 1;
            }
            ri = ri + 1;
        }
    } else {
        let mut spawned = spawn19;
        if !spawn19_free {
            spawned = PieceLocation { y: 20, ..spawned };
            if spawned.obstructed(board) {
                return Vec::new();
            }
            // The fallback spawn is free: record its straight drop too.
            proof {
                lemma_unobstructed_in_bounds(*board, spawned);
            }
            let (dropped20, _d20) = drop_to_ground(board, spawned);
            proof {
                assert(dropped20.canonical_spec() == dropped20);
                assert(dropped20 == spawn_drop(*board, piece, 20));
            }
            record_lock(
                &mut locks,
                board,
                piece,
                Placement { location: dropped20, spin: Spin::NoSpin },
                0,
            );
        }
        proof {
            lemma_unobstructed_in_bounds(*board, spawned);
            lemma_coords_bounded(spawned);
        }
        let mv = Placement { location: spawned, spin: Spin::NoSpin };
        values.insert(encode_key(mv), 0);
        queue.push((mv, 0));
    }

    proof {
        if fast_mode {
            lemma_fast_spawn_free(*board, piece);
        }
    }
    let mut fuel: usize = 1000000;
    while queue.len() > 0 && fuel > 0
        invariant
            queue_ok(*board, piece, queue@),
            locks_ok(*board, piece, locks@),
            !spawn_loc(piece, 19).obstructed_spec(*board) ==> location_recorded(
                locks@,
                spawn_drop(*board, piece, 19),
            ),
            spawn_loc(piece, 19).obstructed_spec(*board) && !spawn_loc(
                piece,
                20,
            ).obstructed_spec(*board) ==> location_recorded(locks@, spawn_drop(*board, piece, 20)),
            !(spawn_loc(piece, 19).obstructed_spec(*board) && spawn_loc(
                piece,
                20,
            ).obstructed_spec(*board)),
        decreases fuel,
    {
        fuel = fuel - 1;
        let (mv, soft_drops) = pop_min(&mut queue);
        proof {
            assert(candidate_ok(*board, mv.location) && mv.location.piece == piece);
        }
        proof {
            lemma_coords_bounded(mv.location);
        }
        let key = encode_key(mv);
        let up_to_date = match values.get(&key) {
            Some(v) => *v == soft_drops,
            None => false,
        };
        if up_to_date {
            let (dropped_loc, drop_dist) = drop_to_ground(board, mv.location);
            let dropped = Placement {
                location: dropped_loc,
                spin: if drop_dist == 0 {
                    mv.spin
                } else {
                    Spin::NoSpin
                },
            };

            proof {
                lemma_coords_bounded(dropped_loc);
            }
            let canonical = dropped_loc.canonical_form();
            proof {
                lemma_canonical_preserves_fit(*board, dropped_loc);
                lemma_canonical_grounded(*board, dropped_loc);
                lemma_canonical_idempotent_for(dropped_loc);
            }
            record_lock(
                &mut locks,
                board,
                piece,
                Placement { location: canonical, spin: dropped.spin },
                soft_drops,
            );

            update_position(
                &mut queue,
                &mut values,
                fast_mode,
                board,
                piece,
                dropped,
                soft_drops.saturating_add(drop_dist as u32),
            );
            if let Some(n) = shift(mv.location, board, -1) {
                update_position(&mut queue, &mut values, fast_mode, board, piece, n, soft_drops);
            }
            if let Some(n) = shift(mv.location, board, 1) {
                update_position(&mut queue, &mut values, fast_mode, board, piece, n, soft_drops);
            }
            if let Some(n) = rotate_cw(mv.location, board) {
                update_position(&mut queue, &mut values, fast_mode, board, piece, n, soft_drops);
            }
            if let Some(n) = rotate_ccw(mv.location, board) {
                update_position(&mut queue, &mut values, fast_mode, board, piece, n, soft_drops);
            }
        }
    }
    locks
}

/// A grounded position stays grounded after renaming its cells by a
/// permutation: the least per-cell ground distance does not depend on the
/// order the cells are listed in.
proof fn lemma_zero_drop_perm(b: Board, src: PieceLocation, dst: PieceLocation, perm: Seq<int>)
    requires
        src.cells_in_bounds(),
        dst.cells_in_bounds(),
        src.drop_dist_spec(b) == 0,
        forall|i: int| 0 <= i < 4 ==> 0 <= #[trigger] perm[i] < 4,
        forall|i: int| 0 <= i < 4 ==> #[trigger] dst.cell(i) == src.cell(perm[i]),
        perm[0] == 0 || perm[1] == 0 || perm[2] == 0 || perm[3] == 0,
        perm[0] == 1 || perm[1] == 1 || perm[2] == 1 || perm[3] == 1,
        perm[0] == 2 || perm[1] == 2 || perm[2] == 2 || perm[3] == 2,
        perm[0] == 3 || perm[1] == 3 || perm[2] == 3 || perm[3] == 3,
    ensures
        dst.drop_dist_spec(b) == 0,
{
    lemma_dist_to_ground(b, src.cell(0).0, src.cell(0).1);
    lemma_dist_to_ground(b, src.cell(1).0, src.cell(1).1);
    lemma_dist_to_ground(b, src.cell(2).0, src.cell(2).1);
    lemma_dist_to_ground(b, src.cell(3).0, src.cell(3).1);
    let j: int = if b.dist_to_ground(src.cell(0).0, src.cell(0).1) == 0 {
        0
    } else if b.dist_to_ground(src.cell(1).0, src.cell(1).1) == 0 {
        1
    } else if b.dist_to_ground(src.cell(2).0, src.cell(2).1) == 0 {
        2
    } else {
        3
    };
    let i: int = if perm[0] == j {
        0
    } else if perm[1] == j {
        1
    } else if perm[2] == j {
        2
    } else {
        3
    };
    assert(dst.cell(i) == src.cell(j));
    lemma_zero_drop(b, dst, i);
}

/// A grounded position stays grounded after collapsing to its canonical
/// form, which covers exactly the same cells.
#[verifier::spinoff_prover]
pub proof fn lemma_canonical_grounded(b: Board, loc: PieceLocation)
    requires
        candidate_ok(b, loc),
        loc.drop_dist_spec(b) == 0,
    ensures
        loc.canonical_spec().drop_dist_spec(b) == 0,
{
    lemma_canonical_preserves_fit(b, loc);
    crate::data::lemma_canonical_same_cells(loc);
    lemma_zero_drop_perm(b, loc, loc.canonical_spec(), crate::data::canonical_perm(loc));
}

/// A position that fits the board keeps fitting after collapsing to its
/// canonical form: the canonical form covers exactly the same cells.
#[verifier::rlimit(100)]
pub proof fn lemma_canonical_preserves_fit(b: Board, loc: PieceLocation)
    requires
        candidate_ok(b, loc),
    ensures
        candidate_ok(b, loc.canonical_spec()),
{
    let c = loc.canonical_spec();
    crate::data::lemma_canonical_same_cells(loc);
    assert forall|i: int| 0 <= i < 4 implies !b.occ(
        (#[trigger] c.cell(i)).0,
        c.cell(i).1,
    ) by {
        let j = crate::data::canonical_perm(loc)[i];
        assert(c.cell(i) == loc.cell(j));
        assert(!b.occ(loc.cell(j).0, loc.cell(j).1));
    }
    lemma_unobstructed_in_bounds(b, c);
    lemma_coords_bounded(c);
}

/// Four successful clockwise rotations whose accepted kicks each offset
/// nothing return a piece to its starting location: the rotation contract
/// places each result at the kicked target, and four quarter turns cycle.
pub proof fn lemma_four_unkicked_cw_rotations_return(
    l0: PieceLocation,
    l1: PieceLocation,
    l2: PieceLocation,
    l3: PieceLocation,
    l4: PieceLocation,
)
    requires
        l1 == kicked(PieceLocation { rotation: l0.rotation.cw_spec(), ..l0 }, (0i8, 0i8)),
        l2 == kicked(PieceLocation { rotation: l1.rotation.cw_spec(), ..l1 }, (0i8, 0i8)),
        l3 == kicked(PieceLocation { rotation: l2.rotation.cw_spec(), ..l2 }, (0i8, 0i8)),
        l4 == kicked(PieceLocation { rotation: l3.rotation.cw_spec(), ..l3 }, (0i8, 0i8)),
    ensures
        l4 == l0,
{
    crate::data::lemma_cw_four_times_identity(l0.rotation);
}

/// Every placement the move generator returns may be played directly: it
/// meets the coordinate conditions of the game-state transition, whose own
/// contract then keeps the board invariant (rows forty and above stay empty)
/// and reports a perfect clear exactly when the resulting board is empty.
pub proof fn lemma_moves_playable(b: Board, piece: Piece, mv: Placement)
    requires
        valid_move(b, piece, mv),
    ensures
        mv.location.coords_in_range(),
        mv.location.cells_in_bounds(),
        !mv.location.obstructed_spec(b),
{
}

/// The canonical form of a canonical location is itself, and canonicalising
/// keeps the piece.
proof fn lemma_canonical_idempotent_for(loc: PieceLocation)
    ensures
        loc.canonical_spec().canonical_spec() == loc.canonical_spec(),
        loc.canonical_spec().piece == loc.piece,
{
    crate::data::lemma_canonical_idempotent(loc);
}

} // verus!
