//! Core data model: pieces, rotations, spins, piece locations, placements
//! and the game state with its transition.

use vstd::prelude::*;

use crate::board::and_below;
use crate::board::place_cols;
use crate::board::popcount;
use crate::board::squash_cols;
use crate::board::Board;

verus! {

/// One of the seven tetromino kinds.
#[derive(Clone, Copy, Debug, PartialEq, Eq, Structural, Hash)]
pub enum Piece {
    I,
    O,
    T,
    L,
    J,
    S,
    Z,
}

/// Orientation of a piece, as a quarter-turn count from the spawn orientation.
#[derive(Clone, Copy, Debug, PartialEq, Eq, Structural, Hash)]
pub enum Rotation {
    North,
    East,
    South,
    West,
}

/// Spin classification of a placement; set only for T pieces locked by a
/// kicked rotation.
#[derive(Clone, Copy, Debug, PartialEq, Eq, Structural, Hash)]
pub enum Spin {
    NoSpin,
    Mini,
    Full,
}

/// A piece at a concrete position and orientation on the board.
#[derive(Clone, Copy, Debug, PartialEq, Eq, Structural, Hash)]
pub struct PieceLocation {
    pub piece: Piece,
    pub rotation: Rotation,
    pub x: i8,
    pub y: i8,
}

/// A final move: a location together with its spin classification.
#[derive(Clone, Copy, Debug, PartialEq, Eq, Structural, Hash)]
pub struct Placement {
    pub location: PieceLocation,
    pub spin: Spin,
}

impl Piece {
    /// Position of this piece in the canonical `I, O, T, L, J, S, Z` order.
    pub open spec fn idx(self) -> int {
        match self {
            Piece::I => 0,
            Piece::O => 1,
            Piece::T => 2,
            Piece::L => 3,
            Piece::J => 4,
            Piece::S => 5,
            Piece::Z => 6,
        }
    }

    /// Executable counterpart of [`Piece::idx`].
    pub fn index(self) -> (i: usize)
        ensures
            i == self.idx(),
    {
        match self {
            Piece::I => 0,
            Piece::O => 1,
            Piece::T => 2,
            Piece::L => 3,
            Piece::J => 4,
            Piece::S => 5,
            Piece::Z => 6,
        }
    }

    /// The piece at position `i` of the canonical order.
    pub open spec fn of_idx(i: int) -> Piece {
        if i == 0 {
            Piece::I
        } else if i == 1 {
            Piece::O
        } else if i == 2 {
            Piece::T
        } else if i == 3 {
            Piece::L
        } else if i == 4 {
            Piece::J
        } else if i == 5 {
            Piece::S
        } else {
            Piece::Z
        }
    }

    /// The piece with the given index in canonical order.
    pub fn from_index(i: usize) -> (p: Piece)
        requires
            i < 7,
        ensures
            p.idx() == i,
            p == Piece::of_idx(i as int),
    {
        if i == 0 {
            Piece::I
        } else if i == 1 {
            Piece::O
        } else if i == 2 {
            Piece::T
        } else if i == 3 {
            Piece::L
        } else if i == 4 {
            Piece::J
        } else if i == 5 {
            Piece::S
        } else {
            Piece::Z
        }
    }

    /// The four cells of this piece in the North orientation, relative to its
    /// centre of rotation.
    pub open spec fn shape(self) -> Seq<(i8, i8)> {
        match self {
            Piece::I => seq![(-1i8, 0i8), (0i8, 0i8), (1i8, 0i8), (2i8, 0i8)],
            Piece::O => seq![(0i8, 0i8), (1i8, 0i8), (0i8, 1i8), (1i8, 1i8)],
            Piece::T => seq![(-1i8, 0i8), (0i8, 0i8), (1i8, 0i8), (0i8, 1i8)],
            Piece::L => seq![(-1i8, 0i8), (0i8, 0i8), (1i8, 0i8), (1i8, 1i8)],
            Piece::J => seq![(-1i8, 0i8), (0i8, 0i8), (1i8, 0i8), (-1i8, 1i8)],
            Piece::S => seq![(-1i8, 0i8), (0i8, 0i8), (0i8, 1i8), (1i8, 1i8)],
            Piece::Z => seq![(-1i8, 1i8), (0i8, 1i8), (0i8, 0i8), (1i8, 0i8)],
        }
    }

    /// The four cells of this piece in the North orientation.
    pub fn cells(self) -> (r: [(i8, i8); 4])
        ensures
            r@ == self.shape(),
    {
        let r: [(i8, i8); 4] = match self {
            Piece::I => [(-1, 0), (0, 0), (1, 0), (2, 0)],
            Piece::O => [(0, 0), (1, 0), (0, 1), (1, 1)],
            Piece::T => [(-1, 0), (0, 0), (1, 0), (0, 1)],
            Piece::L => [(-1, 0), (0, 0), (1, 0), (1, 1)],
            Piece::J => [(-1, 0), (0, 0), (1, 0), (-1, 1)],
            Piece::S => [(-1, 0), (0, 0), (0, 1), (1, 1)],
            Piece::Z => [(-1, 1), (0, 1), (0, 0), (1, 0)],
        };
        proof {
            assert(r@ =~= self.shape());
        }
        r
    }
}

impl Rotation {
    /// Mathematical image of a cell under this rotation.
    pub open spec fn rot_spec(self, c: (int, int)) -> (int, int) {
        match self {
            Rotation::North => (c.0, c.1),
            Rotation::East => (c.1, -c.0),
            Rotation::South => (-c.0, -c.1),
            Rotation::West => (-c.1, c.0),
        }
    }

    /// Rotate a single cell offset.
    pub fn rotate_cell(self, c: (i8, i8)) -> (r: (i8, i8))
        requires
            -127 <= c.0,
            -127 <= c.1,
        ensures
            (r.0 as int, r.1 as int) == self.rot_spec((c.0 as int, c.1 as int)),
    {
        match self {
            Rotation::North => (c.0, c.1),
            Rotation::East => (c.1, -c.0),
            Rotation::South => (-c.0, -c.1),
            Rotation::West => (-c.1, c.0),
        }
    }

    /// Rotate four cell offsets at once.
    pub fn rotate_cells(self, cells: [(i8, i8); 4]) -> (r: [(i8, i8); 4])
        requires
            forall|i: int| 0 <= i < 4 ==> -127 <= (#[trigger] cells@[i]).0 && -127 <= cells@[i].1,
        ensures
            forall|i: int|
                0 <= i < 4 ==> ((#[trigger] r@[i]).0 as int, r@[i].1 as int) == self.rot_spec(
                    (cells@[i].0 as int, cells@[i].1 as int),
                ),
    {
        [
            self.rotate_cell(cells[0]),
            self.rotate_cell(cells[1]),
            self.rotate_cell(cells[2]),
            self.rotate_cell(cells[3]),
        ]
    }

    /// The next rotation clockwise.
    pub open spec fn cw_spec(self) -> Rotation {
        match self {
            Rotation::North => Rotation::East,
            Rotation::East => Rotation::South,
            Rotation::South => Rotation::West,
            Rotation::West => Rotation::North,
        }
    }

    /// The next rotation counter-clockwise.
    pub open spec fn ccw_spec(self) -> Rotation {
        match self {
            Rotation::North => Rotation::West,
            Rotation::East => Rotation::North,
            Rotation::South => Rotation::East,
            Rotation::West => Rotation::South,
        }
    }

    /// The rotation a half-turn away.
    pub open spec fn flip_spec(self) -> Rotation {
        match self {
            Rotation::North => Rotation::South,
            Rotation::East => Rotation::West,
            Rotation::South => Rotation::North,
            Rotation::West => Rotation::East,
        }
    }

    /// Turn clockwise by a quarter turn.
    pub fn cw(self) -> (r: Rotation)
        ensures
            r == self.cw_spec(),
    {
        match self {
            Rotation::North => Rotation::East,
            Rotation::East => Rotation::South,
            Rotation::South => Rotation::West,
            Rotation::West => Rotation::North,
        }
    }

    /// Turn counter-clockwise by a quarter turn.
    pub fn ccw(self) -> (r: Rotation)
        ensures
            r == self.ccw_spec(),
    {
        match self {
            Rotation::North => Rotation::West,
            Rotation::East => Rotation::North,
            Rotation::South => Rotation::East,
            Rotation::West => Rotation::South,
        }
    }

    /// Turn by a half turn.
    pub fn flip(self) -> (r: Rotation)
        ensures
            r == self.flip_spec(),
    {
        match self {
            Rotation::North => Rotation::South,
            Rotation::East => Rotation::West,
            Rotation::South => Rotation::North,
            Rotation::West => Rotation::East,
        }
    }
}

/// Four clockwise quarter turns return any rotation to where it started, so a
/// sequence of four successful unkicked clockwise rotations restores the
/// starting orientation and position of a piece.
pub proof fn lemma_cw_four_times_identity(r: Rotation)
    ensures
        r.cw_spec().cw_spec().cw_spec().cw_spec() == r,
{
}

/// An unkicked rotation changes only the orientation of a location, so four
/// unkicked clockwise rotations in a row restore the starting location.
pub proof fn lemma_unkicked_cw_round_trip(loc: PieceLocation)
    ensures
        (PieceLocation {
            rotation: loc.rotation.cw_spec().cw_spec().cw_spec().cw_spec(),
            ..loc
        }) == loc,
{
}

impl PieceLocation {
    /// True when the coordinates are far enough from the `i8` limits that
    /// cell arithmetic cannot overflow.
    pub open spec fn coords_in_range(self) -> bool {
        &&& -126 <= self.x <= 125
        &&& -126 <= self.y <= 125
    }

    /// The `i`-th absolute cell of this location: the shape cell rotated by
    /// the orientation and translated to the position.
    pub open spec fn cell(self, i: int) -> (int, int) {
        let c = self.piece.shape()[i];
        let r = self.rotation.rot_spec((c.0 as int, c.1 as int));
        (r.0 + self.x, r.1 + self.y)
    }

    /// The four absolute cells covered by this location.
    pub fn cells(&self) -> (r: [(i8, i8); 4])
        requires
            self.coords_in_range(),
        ensures
            forall|i: int|
                0 <= i < 4 ==> (#[trigger] r@[i].0 as int, r@[i].1 as int) == self.cell(i),
    {
        let shape = self.piece.cells();
        let c0 = self.rotation.rotate_cell(shape[0]);
        let c1 = self.rotation.rotate_cell(shape[1]);
        let c2 = self.rotation.rotate_cell(shape[2]);
        let c3 = self.rotation.rotate_cell(shape[3]);
        let r: [(i8, i8); 4] = [
            (c0.0 + self.x, c0.1 + self.y),
            (c1.0 + self.x, c1.1 + self.y),
            (c2.0 + self.x, c2.1 + self.y),
            (c3.0 + self.x, c3.1 + self.y),
        ];
        r
    }

    /// The symmetry-collapsed representative of this location.
    ///
    /// O has a single canonical orientation; S, Z and I collapse half-turn
    /// pairs; T, L and J are asymmetric and stand for themselves.
    pub open spec fn canonical_spec(self) -> PieceLocation {
        match self.piece {
            Piece::T | Piece::J | Piece::L => self,
            Piece::O => match self.rotation {
                Rotation::North => self,
                Rotation::East => PieceLocation {
                    rotation: Rotation::North,
                    y: (self.y - 1) as i8,
                    ..self
                },
                Rotation::South => PieceLocation {
                    rotation: Rotation::North,
                    x: (self.x - 1) as i8,
                    y: (self.y - 1) as i8,
                    ..self
                },
                Rotation::West => PieceLocation {
                    rotation: Rotation::North,
                    x: (self.x - 1) as i8,
                    ..self
                },
            },
            Piece::S | Piece::Z => match self.rotation {
                Rotation::North | Rotation::East => self,
                Rotation::South => PieceLocation {
                    rotation: Rotation::North,
                    y: (self.y - 1) as i8,
                    ..self
                },
                Rotation::West => PieceLocation {
                    rotation: Rotation::East,
                    x: (self.x - 1) as i8,
                    ..self
                },
            },
            Piece::I => match self.rotation {
                Rotation::North | Rotation::East => self,
                Rotation::South => PieceLocation {
                    rotation: Rotation::North,
                    x: (self.x - 1) as i8,
                    ..self
                },
                Rotation::West => PieceLocation {
                    rotation: Rotation::East,
                    y: (self.y + 1) as i8,
                    ..self
                },
            },
        }
    }

    /// Compute the canonical form of this location.
    pub fn canonical_form(&self) -> (r: PieceLocation)
        requires
            self.coords_in_range(),
        ensures
            r == self.canonical_spec(),
    {
        match self.piece {
            Piece::T | Piece::J | Piece::L => *self,
            Piece::O => match self.rotation {
                Rotation::North => *self,
                Rotation::East => PieceLocation { rotation: Rotation::North, y: self.y - 1, ..*self },
                Rotation::South => PieceLocation {
                    rotation: Rotation::North,
                    x: self.x - 1,
                    y: self.y - 1,
                    ..*self
                },
                Rotation::West => PieceLocation { rotation: Rotation::North, x: self.x - 1, ..*self },
            },
            Piece::S | Piece::Z => match self.rotation {
                Rotation::North | Rotation::East => *self,
                Rotation::South => PieceLocation { rotation: Rotation::North, y: self.y - 1, ..*self },
                Rotation::West => PieceLocation { rotation: Rotation::East, x: self.x - 1, ..*self },
            },
            Piece::I => match self.rotation {
                Rotation::North | Rotation::East => *self,
                Rotation::South => PieceLocation { rotation: Rotation::North, x: self.x - 1, ..*self },
                Rotation::West => PieceLocation { rotation: Rotation::East, y: self.y + 1, ..*self },
            },
        }
    }
}

/// Taking the canonical form twice gives the same location as taking it once:
/// the canonical form is its own canonical form.
pub proof fn lemma_canonical_idempotent(loc: PieceLocation)
    ensures
        loc.canonical_spec().canonical_spec() == loc.canonical_spec(),
{
}

/// For each cell index of a canonical form, the index of the same absolute
/// cell in the location it collapses: the canonical form permutes the four
/// cells but moves none.
pub open spec fn canonical_perm(loc: PieceLocation) -> Seq<int> {
    match loc.piece {
        Piece::O => match loc.rotation {
            Rotation::North => seq![0int, 1int, 2int, 3int],
            Rotation::East => seq![1int, 3int, 0int, 2int],
            Rotation::South => seq![3int, 2int, 1int, 0int],
            Rotation::West => seq![2int, 0int, 3int, 1int],
        },
        Piece::S | Piece::Z | Piece::I => match loc.rotation {
            Rotation::North | Rotation::East => seq![0int, 1int, 2int, 3int],
            Rotation::South | Rotation::West => seq![3int, 2int, 1int, 0int],
        },
        Piece::T | Piece::L | Piece::J => seq![0int, 1int, 2int, 3int],
    }
}

/// The canonical form of a location covers exactly the cells the location
/// covers: collapsing a symmetric rotation permutes the cells, by
/// [`canonical_perm`], but moves none.
pub proof fn lemma_canonical_same_cells(loc: PieceLocation)
    requires
        loc.coords_in_range(),
    ensures
        forall|i: int| 0 <= i < 4 ==> 0 <= #[trigger] canonical_perm(loc)[i] < 4,
        forall|i: int|
            0 <= i < 4 ==> #[trigger] loc.canonical_spec().cell(i) == loc.cell(
                canonical_perm(loc)[i],
            ),
        canonical_perm(loc)[0] == 0 || canonical_perm(loc)[1] == 0 || canonical_perm(loc)[2] == 0
            || canonical_perm(loc)[3] == 0,
        canonical_perm(loc)[0] == 1 || canonical_perm(loc)[1] == 1 || canonical_perm(loc)[2] == 1
            || canonical_perm(loc)[3] == 1,
        canonical_perm(loc)[0] == 2 || canonical_perm(loc)[1] == 2 || canonical_perm(loc)[2] == 2
            || canonical_perm(loc)[3] == 2,
        canonical_perm(loc)[0] == 3 || canonical_perm(loc)[1] == 3 || canonical_perm(loc)[2] == 3
            || canonical_perm(loc)[3] == 3,
{
    assert forall|i: int| 0 <= i < 4 implies 0 <= #[trigger] canonical_perm(loc)[i] < 4 by {
        if i == 0 {
        } else if i == 1 {
        } else if i == 2 {
        } else {
            assert(i == 3);
        }
    }
    assert forall|i: int| 0 <= i < 4 implies #[trigger] loc.canonical_spec().cell(i) == loc.cell(
        canonical_perm(loc)[i],
    ) by {
        if i == 0 {
        } else if i == 1 {
        } else if i == 2 {
        } else {
            assert(i == 3);
        }
    }
}

/// A set of pieces, drained between refills by the seven-bag randomizer.
#[derive(Clone, Copy, Debug, PartialEq, Eq, Structural, Hash)]
pub struct PieceSet {
    pub bits: u8,
}

impl PieceSet {
    /// Only the low seven bits, one per piece, may be set.
    pub open spec fn wf(self) -> bool {
        self.bits < 128
    }

    /// Whether the set contains the piece.
    pub open spec fn has(self, p: Piece) -> bool {
        self.bits >> (p.idx() as u8) & 1 == 1
    }

    /// Number of pieces in the set.
    pub open spec fn count(self) -> int {
        Set::new(|p: Piece| self.has(p)).len() as int
    }

    /// The empty set.
    pub fn empty() -> (s: PieceSet)
        ensures
            s.wf(),
            forall|p: Piece| !s.has(p),
    {
        let s = PieceSet { bits: 0 };
        proof {
            assert forall|p: Piece| !s.has(p) by {
                let i = p.idx() as u8;
                assert(0u8 >> i & 1 == 0) by (bit_vector);
            }
        }
        s
    }

    /// The set of all seven pieces.
    pub fn all() -> (s: PieceSet)
        ensures
            s.wf(),
            forall|p: Piece| s.has(p),
    {
        let s = PieceSet { bits: 0x7f };
        proof {
            assert forall|p: Piece| s.has(p) by {
                let i = p.idx() as u8;
                assert(i < 7 ==> 0x7fu8 >> i & 1 == 1) by (bit_vector);
            }
        }
        s
    }

    /// Whether the set contains `p`.
    pub fn contains(&self, p: Piece) -> (r: bool)
        ensures
            r == self.has(p),
    {
        self.bits >> (p.index() as u8) & 1 == 1
    }

    /// The set with `p` added.
    pub fn insert(&self, p: Piece) -> (s: PieceSet)
        requires
            self.wf(),
        ensures
            s.wf(),
            s.has(p),
            forall|q: Piece| q != p ==> s.has(q) == self.has(q),
    {
        let i = p.index() as u8;
        let bits = self.bits | (1u8 << i);
        let s = PieceSet { bits };
        proof {
            let b = self.bits;
            assert(i < 7 && b < 128 ==> (b | (1u8 << i)) < 128 && (b | (1u8 << i)) >> i & 1 == 1)
                by (bit_vector);
            assert forall|q: Piece| q != p implies s.has(q) == self.has(q) by {
                let j = q.idx() as u8;
                assert(i < 7 && j < 7 && i != j ==> (b | (1u8 << i)) >> j & 1 == b >> j & 1)
                    by (bit_vector);
            }
        }
        s
    }

    /// The set with `p` removed.
    pub fn remove(&self, p: Piece) -> (s: PieceSet)
        requires
            self.wf(),
        ensures
            s.wf(),
            !s.has(p),
            forall|q: Piece| q != p ==> s.has(q) == self.has(q),
    {
        let i = p.index() as u8;
        let bits = self.bits & !(1u8 << i);
        let s = PieceSet { bits };
        proof {
            let b = self.bits;
            assert(i < 7 && b < 128 ==> (b & !(1u8 << i)) < 128 && (b & !(1u8 << i)) >> i & 1 == 0)
                by (bit_vector);
            assert forall|q: Piece| q != p implies s.has(q) == self.has(q) by {
                let j = q.idx() as u8;
                assert(i < 7 && j < 7 && i != j ==> (b & !(1u8 << i)) >> j & 1 == b >> j & 1)
                    by (bit_vector);
            }
        }
        s
    }

    /// Whether the set is empty.
    pub fn is_empty(&self) -> (r: bool)
        requires
            self.wf(),
        ensures
            r == (forall|p: Piece| !self.has(p)),
    {
        let r = self.bits == 0;
        proof {
            let b = self.bits;
            if b == 0 {
                assert forall|p: Piece| !self.has(p) by {
                    let i = p.idx() as u8;
                    assert(0u8 >> i & 1 == 0) by (bit_vector);
                }
            } else {
                assert(b < 128);
                let witness = if b >> 0 & 1 == 1 {
                    Piece::I
                } else if b >> 1 & 1 == 1 {
                    Piece::O
                } else if b >> 2 & 1 == 1 {
                    Piece::T
                } else if b >> 3 & 1 == 1 {
                    Piece::L
                } else if b >> 4 & 1 == 1 {
                    Piece::J
                } else if b >> 5 & 1 == 1 {
                    Piece::S
                } else {
                    Piece::Z
                };
                assert(b != 0 && b < 128 && b >> 0 & 1 != 1 && b >> 1 & 1 != 1 && b >> 2 & 1 != 1
                    && b >> 3 & 1 != 1 && b >> 4 & 1 != 1 && b >> 5 & 1 != 1 ==> b >> 6 & 1 == 1)
                    by (bit_vector);
                assert(self.has(witness));
            }
        }
        r
    }

    /// Number of pieces in the set, computed.
    pub fn size(&self) -> (r: usize)
        ensures
            r == self.count(),
            r <= 7,
    {
        let v = self.to_vec();
        proof {
            let s = Set::new(|p: Piece| self.has(p));
            assert(v@.no_duplicates()) by {
                assert(forall|a: int, b: int| 0 <= a < b < v@.len() ==> v@[a].idx() < v@[b].idx());
            }
            v@.unique_seq_to_set();
            assert(s =~= v@.to_set());
        }
        v.len()
    }

    /// The members of the set with index below `n`, in canonical order.
    pub open spec fn members_below(self, n: int) -> Seq<Piece>
        decreases n,
    {
        if n <= 0 {
            Seq::empty()
        } else {
            let s = self.members_below(n - 1);
            if self.has(Piece::of_idx(n - 1)) {
                s.push(Piece::of_idx(n - 1))
            } else {
                s
            }
        }
    }

    /// The members of the set, in canonical order.
    pub open spec fn members(self) -> Seq<Piece> {
        self.members_below(7)
    }

    /// The pieces of the set, in canonical order.
    pub fn to_vec(&self) -> (v: Vec<Piece>)
        ensures
            v@ == self.members(),
            forall|p: Piece| self.has(p) <==> v@.contains(p),
            forall|i: int, j: int| 0 <= i < j < v@.len() ==> v@[i].idx() < v@[j].idx(),
            v@.len() <= 7,
    {
        let mut v: Vec<Piece> = Vec::new();
        for i in 0..7usize
            invariant
                v@.len() <= i,
                v@ == self.members_below(i as int),
                forall|q: Piece| q.idx() < i ==> (self.has(q) <==> v@.contains(q)),
                forall|k: int| 0 <= k < v@.len() ==> (#[trigger] v@[k]).idx() < i && self.has(v@[k]),
                forall|a: int, b: int| 0 <= a < b < v@.len() ==> v@[a].idx() < v@[b].idx(),
        {
            let p = Piece::from_index(i);
            if self.contains(p) {
                let ghost pre = v@;
                v.push(p);
                proof {
                    assert forall|q: Piece| pre.contains(q) implies v@.contains(q) by {
                        let k = choose|k: int| 0 <= k < pre.len() && pre[k] == q;
                        assert(v@[k] == q);
                    }
                    assert(v@[v@.len() - 1] == p);
                    assert forall|q: Piece| q.idx() < i + 1 && self.has(q) implies v@.contains(q) by {
                        if q.idx() < i {
                            assert(pre.contains(q));
                        } else {
                            assert(q.idx() == i);
                            assert(q == p);
                        }
                    }
                }
            }
        }
        proof {
            assert forall|p: Piece| self.has(p) <==> v@.contains(p) by {
                assert(p.idx() < 7);
            }
        }
        v
    }
}

/// What a placement did to the game state: how many lines it cleared, the
/// combo count afterwards, whether it extended a back-to-back chain and
/// whether it emptied the board.
#[derive(Clone, Copy, Debug, PartialEq, Eq, Structural, Hash)]
pub struct PlacementInfo {
    pub placement: Placement,
    pub lines_cleared: u32,
    pub combo: u32,
    pub back_to_back: bool,
    pub perfect_clear: bool,
}

/// The full game state: the board, the pieces still owed by the seven-bag
/// randomizer, the held piece, the back-to-back flag and the combo counter.
#[derive(Clone, Copy, Debug, PartialEq, Eq, Hash)]
pub struct GameState {
    pub board: Board,
    pub bag: PieceSet,
    pub reserve: Piece,
    pub back_to_back: bool,
    pub combo: u8,
}

/// The one-step transition relation of the game: `s2` stands to `s1` as the
/// state after playing `mv` with queue piece `next` stands to the state
/// before — the same clauses the transition's contract ensures.
pub open spec fn advances_to(s1: GameState, next: Piece, mv: Placement, s2: GameState) -> bool {
    &&& s2.board.cols@ == cols_after(s1.board.cols@, mv.location)
    &&& s2.bag.wf()
    &&& (if (exists|q: Piece| q != next && s1.bag.has(q)) {
        forall|q: Piece| #[trigger] s2.bag.has(q) == (s1.bag.has(q) && q != next)
    } else {
        forall|q: Piece| #[trigger] s2.bag.has(q)
    })
    &&& s2.reserve == (if mv.location.piece != next {
        next
    } else {
        s1.reserve
    })
    &&& ({
        let mask = clear_mask(s1.board.cols@, mv.location);
        &&& s2.combo == (if mask != 0 {
            s1.combo.saturating_add(1)
        } else {
            0u8
        })
        &&& s2.back_to_back == (if mask != 0 {
            popcount(mask) == 4 || mv.spin != Spin::NoSpin
        } else {
            s1.back_to_back
        })
    })
}

/// Mask of the rows completed by placing `loc` on the columns `cols`.
pub open spec fn clear_mask(cols: Seq<u64>, loc: PieceLocation) -> u64 {
    and_below(place_cols(cols, loc), 10)
}

/// The columns after placing `loc` and removing the rows it completes.
pub open spec fn cols_after(cols: Seq<u64>, loc: PieceLocation) -> Seq<u64> {
    let placed = place_cols(cols, loc);
    let mask = and_below(placed, 10);
    if mask != 0 {
        squash_cols(placed, mask)
    } else {
        placed
    }
}

impl GameState {
    /// The board keeps rows 40 and above empty and the bag is a well-formed
    /// set. The bag may be empty: it refills to all seven pieces on the next
    /// draw.
    pub open spec fn wf(self) -> bool {
        &&& self.board.wf()
        &&& self.bag.wf()
    }

    /// Apply a placement of the queue piece `next`: draw `next` from the bag
    /// (refilling an emptied bag), hold when the placed piece is not `next`,
    /// fill the cells, clear full rows, and update combo and back-to-back.
    ///
    /// Lines are cleared exactly when the line mask of the placed board is
    /// non-zero; the combo counter then grows by one and otherwise resets;
    /// a clear is hard when it clears four lines or carries spin; the
    /// back-to-back flag of the result reports a hard clear that followed a
    /// hard clear. The board invariant is preserved, and the report marks a
    /// perfect clear exactly when the resulting board is empty.
    #[verifier::rlimit(60)]
    pub fn advance(&mut self, next: Piece, placement: Placement) -> (info: PlacementInfo)
        requires
            old(self).bag.wf(),
            placement.location.coords_in_range(),
            placement.location.cells_in_bounds(),
        ensures
            final(self).board.cols@ == cols_after(old(self).board.cols@, placement.location),
            final(self).board.cols@.len() == 10,
            old(self).board.wf() ==> final(self).board.wf(),
            final(self).bag.wf(),
            exists|p: Piece| final(self).bag.has(p),
            (if (exists|q: Piece| q != next && old(self).bag.has(q)) {
                forall|q: Piece|
                    #[trigger] final(self).bag.has(q) == (old(self).bag.has(q) && q != next)
            } else {
                forall|q: Piece| #[trigger] final(self).bag.has(q)
            }),
            final(self).reserve == (if placement.location.piece != next {
                next
            } else {
                old(self).reserve
            }),
            ({
                let mask = clear_mask(old(self).board.cols@, placement.location);
                final(self).combo == (if mask != 0 {
                    old(self).combo.saturating_add(1)
                } else {
                    0u8
                })
            }),
            ({
                let mask = clear_mask(old(self).board.cols@, placement.location);
                let hard = popcount(mask) == 4 || placement.spin != Spin::NoSpin;
                &&& final(self).back_to_back == (if mask != 0 {
                    hard
                } else {
                    old(self).back_to_back
                })
                &&& info.back_to_back == (mask != 0 && hard && old(self).back_to_back)
            }),
            info.placement == placement,
            info.lines_cleared == popcount(clear_mask(old(self).board.cols@, placement.location)),
            info.combo == final(self).combo,
            info.perfect_clear == (forall|x: int|
                0 <= x < 10 ==> final(self).board.cols@[x] == 0),
            advances_to(*old(self), next, placement, *final(self)),
    {
        let ghost mut witness: Piece = Piece::I;
        let bag1 = self.bag.remove(next);
        if bag1.is_empty() {
            self.bag = PieceSet::all();
        } else {
            self.bag = bag1;
            proof {
                witness = choose|p: Piece| bag1.has(p);
            }
        }
        let ghost bag_after = self.bag;
        proof {
            assert(bag_after.has(witness));
        }
        if placement.location.piece != next {
            self.reserve = next;
        }
        let ghost pre_place = self.board.cols@;
        self.board.place(placement.location);
        proof {
            assert(self.board.cols@ =~= place_cols(pre_place, placement.location));
        }
        let cleared_mask = self.board.line_clears();
        let cleared_count = Board::count_bits(cleared_mask);
        let mut back_to_back = false;
        if cleared_mask != 0 {
            let ghost placed = self.board.cols@;
            self.board.remove_lines(cleared_mask);
            proof {
                assert(self.board.cols@ =~= squash_cols(placed, cleared_mask));
            }
            let hard = cleared_count == 4 || !matches!(placement.spin, Spin::NoSpin);
            back_to_back = hard && self.back_to_back;
            self.back_to_back = hard;
            self.combo = self.combo.saturating_add(1);
        } else {
            self.combo = 0;
        }
        let mut perfect_clear = true;
        let mut x: usize = 0;
        while x < 10
            invariant
                x <= 10,
                self.board.cols@.len() == 10,
                perfect_clear == (forall|k: int| 0 <= k < x as int ==> self.board.cols@[k] == 0),
            decreases 10 - x,
        {
            if self.cols_at(x) != 0 {
                perfect_clear = false;
            }
            x = x + 1;
        }
        proof {
            assert(self.bag == bag_after);
            assert(self.bag.has(witness));
        }
        PlacementInfo {
            placement,
            lines_cleared: cleared_count,
            combo: self.combo as u32,
            back_to_back,
            perfect_clear,
        }
    }

    /// The bitmask of column `x` of the board.
    fn cols_at(&self, x: usize) -> (r: u64)
        requires
            x < 10,
        ensures
            r == self.board.cols@[x as int],
    {
        self.board.cols[x]
    }
}

} // verus!
