//! Board representation.

use vstd::prelude::*;

verus! {

/// A backgammon position, always seen from the perspective of the player on roll.
///
/// `points[i]` holds point `i + 1`, numbered relative to the player on roll, who moves
/// from index 23 toward index 0 and bears off past index 0. Positive counts are the
/// player on roll's checkers, negative counts the opponent's. A checker entering from the
/// bar with die `d` lands on index `24 - d`. Mirroring (index `i` to `23 - i`, signs
/// negated, `bar` and `off` slots swapped) switches perspective.
#[derive(Debug, Clone, Copy, PartialEq, Eq, Hash)]
pub struct Position {
    pub(crate) points: [i8; 24],
    /// Checkers on the bar: `[mine, opponent's]`.
    pub(crate) bar: [u8; 2],
    /// Checkers already borne off: `[mine, opponent's]`.
    pub(crate) off: [u8; 2],
}

/// A raw field combination passed to [`Position::from_raw`] that cannot represent any
/// real or partial backgammon state.
#[derive(Debug, Clone, Copy, PartialEq, Eq, Structural)]
pub enum PositionError {
    /// One side's checkers (points, bar, and off combined) sum to more than 15.
    /// `mine` says which side; `count` is the sum that was too high.
    TooManyCheckers { mine: bool, count: u32 },
}

/// The player on roll's checkers among the first `n` points.
pub open spec fn mine_on_points(points: Seq<i8>, n: int) -> int
    decreases n,
{
    if n <= 0 {
        0
    } else {
        mine_on_points(points, n - 1) + if points[n - 1] > 0 {
            points[n - 1] as int
        } else {
            0
        }
    }
}

/// The opponent's checkers among the first `n` points.
pub open spec fn theirs_on_points(points: Seq<i8>, n: int) -> int
    decreases n,
{
    if n <= 0 {
        0
    } else {
        theirs_on_points(points, n - 1) + if points[n - 1] < 0 {
            -(points[n - 1] as int)
        } else {
            0
        }
    }
}

/// All of the player on roll's checkers: on the points, on the bar, and borne off.
pub open spec fn mine_total(points: Seq<i8>, bar: Seq<u8>, off: Seq<u8>) -> int {
    mine_on_points(points, 24) + bar[0] + off[0]
}

/// All of the opponent's checkers: on the points, on the bar, and borne off.
pub open spec fn theirs_total(points: Seq<i8>, bar: Seq<u8>, off: Seq<u8>) -> int {
    theirs_on_points(points, 24) + bar[1] + off[1]
}

/// The standard starting position's points.
pub open spec fn starting_points() -> Seq<i8> {
    seq![
        -2i8, 0, 0, 0, 0, 5, 0, 3, 0, 0, 0, -5i8,
        5, 0, 0, 0, -3i8, 0, -5i8, 0, 0, 0, 0, 2,
    ]
}

/// The points of the mirror image of `points`.
pub open spec fn mirrored_points(points: Seq<i8>) -> Seq<i8> {
    Seq::new(24, |i: int| (-(points[23 - i] as int)) as i8)
}

/// No point holds 128 of the opponent's checkers, the one count whose mirror image an
/// `i8` cannot hold.
pub open spec fn mirrorable(points: Seq<i8>) -> bool {
    forall|i: int| 0 <= i < 24 ==> points[i] != i8::MIN
}

/// A position's contents as plain values: points, bar, off.
pub type Board = (Seq<i8>, Seq<u8>, Seq<u8>);

/// `m` is `p` seen from the other side of the board.
pub open spec fn is_mirror(p: Position, m: Position) -> bool {
    &&& m.points_seq() == mirrored_points(p.points_seq())
    &&& m.bar_seq() == seq![p.bar_seq()[1], p.bar_seq()[0]]
    &&& m.off_seq() == seq![p.off_seq()[1], p.off_seq()[0]]
}

impl Position {
    /// The 24 point counts.
    pub closed spec fn points_seq(self) -> Seq<i8> {
        self.points@
    }

    /// The bar: `[mine, opponent's]`.
    pub closed spec fn bar_seq(self) -> Seq<u8> {
        self.bar@
    }

    /// Borne off: `[mine, opponent's]`.
    pub closed spec fn off_seq(self) -> Seq<u8> {
        self.off@
    }

    /// Points, bar and off together.
    pub open spec fn board(self) -> Board {
        (self.points_seq(), self.bar_seq(), self.off_seq())
    }

    /// Whether two positions hold the same checkers everywhere.
    pub fn same_board(&self, other: &Position) -> (r: bool)
        ensures
            r == (self.board() == other.board()),
    {
        let mut i: usize = 0;
        while i < 24
            invariant
                i <= 24,
                forall|j: int| 0 <= j < i ==> self.points@[j] == other.points@[j],
            decreases 24 - i,
        {
            if self.points[i] != other.points[i] {
                return false;
            }
            i = i + 1;
        }
        assert(self.points@ =~= other.points@);
        if self.bar[0] != other.bar[0] || self.bar[1] != other.bar[1] {
            return false;
        }
        assert(self.bar@ =~= other.bar@);
        if self.off[0] != other.off[0] || self.off[1] != other.off[1] {
            return false;
        }
        assert(self.off@ =~= other.off@);
        true
    }

    /// The standard starting position, from the perspective of the player on roll.
    ///
    /// Mine: 2 on point 24, 5 on point 13, 3 on point 8, 5 on point 6.
    /// Opponent's (mirrored into this frame): 2 on point 1, 5 on point 12,
    /// 3 on point 17, 5 on point 19.
    pub fn starting() -> (p: Self)
        ensures
            p.points_seq() == starting_points(),
            p.bar_seq() == seq![0u8, 0u8],
            p.off_seq() == seq![0u8, 0u8],
    {
        let mut points = [0i8; 24];
        points[23] = 2;
        points[12] = 5;
        points[7] = 3;
        points[5] = 5;
        points[0] = -2;
        points[11] = -5;
        points[16] = -3;
        points[18] = -5;
        let p = Position { points, bar: [0, 0], off: [0, 0] };
        assert(p.points@ =~= starting_points());
        assert(p.bar@ =~= seq![0u8, 0u8]);
        assert(p.off@ =~= seq![0u8, 0u8]);
        p
    }

    /// Checker count at `points[index]` (index `0..=23` = points `1..=24`).
    /// Positive = player on roll, negative = opponent.
    pub fn point(&self, index: usize) -> (c: i8)
        requires
            index < 24,
        ensures
            c == self.points_seq()[index as int],
    {
        self.points[index]
    }

    /// Checkers on the bar: `[mine, opponent's]`.
    pub fn bar(&self) -> (b: [u8; 2])
        ensures
            b@ == self.bar_seq(),
    {
        self.bar
    }

    /// Checkers borne off: `[mine, opponent's]`.
    pub fn off(&self) -> (o: [u8; 2])
        ensures
            o@ == self.off_seq(),
    {
        self.off
    }

    /// Builds a position directly from raw fields, accepting partial positions: each side
    /// may have at most 15 checkers across points, bar, and off combined.
    pub fn from_raw(points: [i8; 24], bar: [u8; 2], off: [u8; 2]) -> (r: Result<
        Self,
        PositionError,
    >)
        ensures
            match r {
                Ok(p) => {
                    &&& mine_total(points@, bar@, off@) <= 15
                    &&& theirs_total(points@, bar@, off@) <= 15
                    &&& p.points_seq() == points@
                    &&& p.bar_seq() == bar@
                    &&& p.off_seq() == off@
                },
                Err(e) => if mine_total(points@, bar@, off@) > 15 {
                    e == PositionError::TooManyCheckers {
                        mine: true,
                        count: mine_total(points@, bar@, off@) as u32,
                    }
                } else {
                    &&& theirs_total(points@, bar@, off@) > 15
                    &&& e == PositionError::TooManyCheckers {
                        mine: false,
                        count: theirs_total(points@, bar@, off@) as u32,
                    }
                },
            },
    {
        let mut mine: u32 = 0;
        let mut theirs: u32 = 0;
        let mut i: usize = 0;
        while i < 24
            invariant
                i <= 24,
                mine == mine_on_points(points@, i as int),
                theirs == theirs_on_points(points@, i as int),
                mine <= 128 * i,
                theirs <= 128 * i,
            decreases 24 - i,
        {
            let c = points[i];
            if c > 0 {
                mine = mine + c as u32;
            } else if c < 0 {
                theirs = theirs + (0 - (c as i32)) as u32;
            }
            i = i + 1;
        }
        let mine = mine + bar[0] as u32 + off[0] as u32;
        if mine > 15 {
            return Err(PositionError::TooManyCheckers { mine: true, count: mine });
        }
        let theirs = theirs + bar[1] as u32 + off[1] as u32;
        if theirs > 15 {
            return Err(PositionError::TooManyCheckers { mine: false, count: theirs });
        }
        Ok(Position { points, bar, off })
    }

    /// Builds a position directly from raw fields, without validating the
    /// at-most-15-checkers-per-side invariant that [`from_raw`](Self::from_raw) checks.
    pub fn from_raw_unchecked(points: [i8; 24], bar: [u8; 2], off: [u8; 2]) -> (p: Self)
        ensures
            p.points_seq() == points@,
            p.bar_seq() == bar@,
            p.off_seq() == off@,
    {
        Position { points, bar, off }
    }

    /// Switches perspective: point `p` maps to point `25 - p`, signs negate, `bar`/`off`
    /// swap slots.
    pub fn mirror(&self) -> (m: Position)
        requires
            mirrorable(self.points_seq()),
        ensures
            is_mirror(*self, m),
    {
        let mut points = [0i8; 24];
        let mut i: usize = 0;
        while i < 24
            invariant
                i <= 24,
                mirrorable(self.points@),
                forall|j: int| 24 - i <= j < 24 ==> points@[j] == (-(self.points@[23 - j] as int)) as i8,
            decreases 24 - i,
        {
            let count = self.points[i];
            points[23 - i] = -count;
            i = i + 1;
        }
        let m = Position { points, bar: [self.bar[1], self.bar[0]], off: [self.off[1], self.off[0]] };
        assert(m.points@ =~= mirrored_points(self.points@));
        assert(m.bar@ =~= seq![self.bar@[1], self.bar@[0]]);
        assert(m.off@ =~= seq![self.off@[1], self.off@[0]]);
        m
    }
}


proof fn lemma_mirror_counts(points: Seq<i8>, n: int)
    requires
        points.len() == 24,
        mirrorable(points),
        0 <= n <= 24,
    ensures
        mine_on_points(mirrored_points(points), n) == theirs_on_points(points, 24)
            - theirs_on_points(points, 24 - n),
        theirs_on_points(mirrored_points(points), n) == mine_on_points(points, 24)
            - mine_on_points(points, 24 - n),
    decreases n,
{
    if n > 0 {
        lemma_mirror_counts(points, n - 1);
        assert(mirrored_points(points)[n - 1] == (-(points[24 - n] as int)) as i8);
    }
}

/// Mirroring twice gives back the same position.
pub proof fn lemma_mirror_involution(p: Position, m: Position, mm: Position)
    requires
        mirrorable(p.points_seq()),
        is_mirror(p, m),
        is_mirror(m, mm),
    ensures
        mm == p,
{
    broadcast use vstd::array::axiom_array_ext_equal, vstd::array::lemma_array_index;

    assert(mm.points@ =~= p.points@);
    assert(mm.bar@ =~= p.bar@);
    assert(mm.off@ =~= p.off@);
    assert(mm.points =~= p.points);
    assert(mm.bar =~= p.bar);
    assert(mm.off =~= p.off);
}

/// Mirroring swaps the two sides' checker totals, so a position `from_raw` accepts stays
/// acceptable when the turn passes.
pub proof fn lemma_mirror_swaps_totals(p: Position, m: Position)
    requires
        mirrorable(p.points_seq()),
        is_mirror(p, m),
    ensures
        mirrorable(m.points_seq()),
        mine_total(m.points_seq(), m.bar_seq(), m.off_seq()) == theirs_total(
            p.points_seq(),
            p.bar_seq(),
            p.off_seq(),
        ),
        theirs_total(m.points_seq(), m.bar_seq(), m.off_seq()) == mine_total(
            p.points_seq(),
            p.bar_seq(),
            p.off_seq(),
        ),
{
    lemma_mirror_counts(p.points@, 24);
}


/// Within the crate, a position's board is its fields.
pub(crate) broadcast proof fn lemma_board_is_fields(p: Position)
    ensures
        #[trigger] p.board() == (p.points@, p.bar@, p.off@),
{
}

} // verus!
