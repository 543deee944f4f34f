//! Dice, single-checker moves, full plies, and legal move generation.

use vstd::prelude::*;

use crate::position::{mine_on_points, mine_total, theirs_on_points, theirs_total, Board, Position};

verus! {

/// An index into `Position`'s points, `0..=23` (points `1..=24`).
#[derive(Debug, Clone, Copy, PartialEq, Eq, Structural)]
pub struct PointIndex(u8);

impl PointIndex {
    #[verifier::type_invariant]
    spec fn in_range(self) -> bool {
        self.0 < 24
    }

    /// The wrapped index.
    pub closed spec fn value(self) -> u8 {
        self.0
    }

    /// Wraps `index` as a point index.
    pub fn new(index: u8) -> (p: Self)
        requires
            index < 24,
        ensures
            p.value() == index,
    {
        PointIndex(index)
    }

    pub fn get(self) -> (v: u8)
        ensures
            v == self.value(),
            v < 24,
    {
        proof {
            use_type_invariant(&self);
        }
        self.0
    }
}

/// A single die value, `1..=6`.
#[derive(Debug, Clone, Copy, PartialEq, Eq, Structural)]
pub struct Die(u8);

impl Die {
    #[verifier::type_invariant]
    spec fn in_range(self) -> bool {
        1 <= self.0 <= 6
    }

    /// The face value.
    pub closed spec fn value(self) -> u8 {
        self.0
    }

    /// Wraps `value` as a die value.
    pub fn new(value: u8) -> (d: Self)
        requires
            1 <= value <= 6,
        ensures
            d.value() == value,
    {
        Die(value)
    }

    pub fn get(self) -> (v: u8)
        ensures
            v == self.value(),
            1 <= v <= 6,
    {
        proof {
            use_type_invariant(&self);
        }
        self.0
    }
}

/// Where a checker moves from: the bar, or a point.
#[derive(Debug, Clone, Copy, PartialEq, Eq, Structural)]
pub enum Origin {
    Bar,
    Point(PointIndex),
}

/// Where a checker moves to: a point, or off the board.
#[derive(Debug, Clone, Copy, PartialEq, Eq, Structural)]
pub enum Destination {
    Point(PointIndex),
    Off,
}

/// A single checker's move within a [`Ply`].
#[derive(Debug, Clone, Copy, PartialEq, Eq, Structural)]
pub struct CheckerMove {
    pub from: Origin,
    pub to: Destination,
}

/// The number of leading filled slots.
pub open spec fn filled_prefix(slots: Seq<Option<CheckerMove>>) -> nat {
    if slots[0] is None {
        0
    } else if slots[1] is None {
        1
    } else if slots[2] is None {
        2
    } else if slots[3] is None {
        3
    } else {
        4
    }
}

/// A full turn for one roll: up to 4 [`CheckerMove`]s (more than 2 only for doubles).
#[derive(Debug, Clone, Copy, PartialEq, Eq)]
pub struct Ply {
    moves: [Option<CheckerMove>; 4],
}

impl Ply {
    /// The filled slots come first.
    #[verifier::type_invariant]
    spec fn packed(self) -> bool {
        forall|i: int| 0 <= i < 4 ==> (self.moves@[i] is Some <==> i < filled_prefix(self.moves@))
    }

    /// The checker moves, in order.
    pub closed spec fn moves_seq(self) -> Seq<CheckerMove> {
        Seq::new(filled_prefix(self.moves@), |i: int| self.moves@[i]->Some_0)
    }

    /// The ply with no moves.
    pub fn empty() -> (p: Self)
        ensures
            p.moves_seq() == Seq::<CheckerMove>::empty(),
    {
        let p = Ply { moves: [None; 4] };
        assert(p.moves_seq() =~= Seq::<CheckerMove>::empty());
        p
    }

    /// Returns a copy of this ply with `checker_move` appended.
    pub fn pushed(self, checker_move: CheckerMove) -> (p: Self)
        requires
            self.moves_seq().len() < 4,
        ensures
            p.moves_seq() == self.moves_seq().push(checker_move),
    {
        proof {
            use_type_invariant(&self);
        }
        let mut moves = self.moves;
        let mut i: usize = 0;
        while i < 4
            invariant
                i <= 4,
                moves == self.moves,
                forall|j: int| 0 <= j < i ==> moves@[j] is Some,
                i <= filled_prefix(self.moves@),
                filled_prefix(self.moves@) < 4,
                forall|j: int| 0 <= j < 4 ==> (self.moves@[j] is Some <==> j < filled_prefix(self.moves@)),
            ensures
                i == filled_prefix(self.moves@),
            decreases 4 - i,
        {
            if moves[i].is_none() {
                break;
            }
            i = i + 1;
        }
        moves[i] = Some(checker_move);
        let p = Ply { moves };
        assert(p.moves_seq() =~= self.moves_seq().push(checker_move));
        p
    }

    pub fn len(&self) -> (n: usize)
        ensures
            n == self.moves_seq().len(),
    {
        proof {
            use_type_invariant(self);
        }
        let mut n: usize = 0;
        let mut i: usize = 0;
        while i < 4
            invariant
                i <= 4,
                n == if i <= filled_prefix(self.moves@) {
                    i as nat
                } else {
                    filled_prefix(self.moves@)
                },
                forall|j: int| 0 <= j < 4 ==> (self.moves@[j] is Some <==> j < filled_prefix(self.moves@)),
            decreases 4 - i,
        {
            if self.moves[i].is_some() {
                n = n + 1;
            }
            i = i + 1;
        }
        n
    }

    pub fn is_empty(&self) -> (b: bool)
        ensures
            b == (self.moves_seq().len() == 0),
    {
        self.len() == 0
    }

    /// The checker moves, in order.
    pub fn moves(&self) -> (v: Vec<CheckerMove>)
        ensures
            v@ == self.moves_seq(),
    {
        proof {
            use_type_invariant(self);
        }
        let mut v: Vec<CheckerMove> = Vec::new();
        let mut i: usize = 0;
        while i < 4
            invariant
                i <= 4,
                v@.len() == if i <= filled_prefix(self.moves@) {
                    i as nat
                } else {
                    filled_prefix(self.moves@)
                },
                forall|j: int| 0 <= j < v@.len() ==> v@[j] == self.moves@[j]->Some_0,
                forall|j: int| 0 <= j < 4 ==> (self.moves@[j] is Some <==> j < filled_prefix(self.moves@)),
            decreases 4 - i,
        {
            match self.moves[i] {
                Some(m) => v.push(m),
                None => {},
            }
            i = i + 1;
        }
        assert(v@ =~= self.moves_seq());
        v
    }
}


/// A dice roll. Dice are stored in canonical order (low die first), so a roll and its
/// mirror (e.g. `3-5` and `5-3`) compare equal.
#[derive(Debug, Clone, Copy, PartialEq, Eq)]
pub struct Roll {
    dice: (Die, Die),
}

/// The dice a roll lets its player use: four copies of a double, the two values
/// otherwise.
pub open spec fn roll_dice(roll: Roll) -> Seq<u8> {
    if roll.low() == roll.high() {
        seq![roll.low(), roll.low(), roll.low(), roll.low()]
    } else {
        seq![roll.low(), roll.high()]
    }
}

/// The values of a sequence of dice.
pub open spec fn die_values(dice: Seq<Die>) -> Seq<u8> {
    dice.map_values(|d: Die| d.value())
}

/// `dice` with the first die showing `value` taken out.
pub open spec fn remove_one_spec(dice: Seq<u8>, value: u8) -> Seq<u8>
    decreases dice.len(),
{
    if dice.len() == 0 {
        dice
    } else if dice[0] == value {
        dice.drop_first()
    } else {
        seq![dice[0]] + remove_one_spec(dice.drop_first(), value)
    }
}

pub proof fn lemma_remove_one_len(dice: Seq<u8>, value: u8)
    ensures
        dice.contains(value) ==> remove_one_spec(dice, value).len() == dice.len() - 1,
        !dice.contains(value) ==> remove_one_spec(dice, value) == dice,
        forall|x: u8| #[trigger] remove_one_spec(dice, value).contains(x) ==> dice.contains(x),
    decreases dice.len(),
{
    if dice.len() > 0 {
        let rest = dice.drop_first();
        lemma_remove_one_len(rest, value);
        if dice[0] != value {
            assert forall|x: u8| #[trigger] remove_one_spec(dice, value).contains(x) implies dice.contains(x) by {
                let r = remove_one_spec(dice, value);
                let i = choose|i: int| 0 <= i < r.len() && r[i] == x;
                if i > 0 {
                    assert(remove_one_spec(rest, value)[i - 1] == x);
                    assert(remove_one_spec(rest, value).contains(x));
                    let j = choose|j: int| 0 <= j < rest.len() && rest[j] == x;
                    assert(dice[j + 1] == x);
                } else {
                    assert(dice[0] == x);
                }
            }
            if !dice.contains(value) {
                assert(!rest.contains(value)) by {
                    if rest.contains(value) {
                        let j = choose|j: int| 0 <= j < rest.len() && rest[j] == value;
                        assert(dice[j + 1] == value);
                    }
                }
                assert(remove_one_spec(dice, value) =~= dice);
            } else {
                let j = choose|j: int| 0 <= j < dice.len() && dice[j] == value;
                assert(rest[j - 1] == value);
            }
        } else {
            assert forall|x: u8| #[trigger] remove_one_spec(dice, value).contains(x) implies dice.contains(x) by {
                let i = choose|i: int| 0 <= i < rest.len() && rest[i] == x;
                assert(dice[i + 1] == x);
            }
        }
    }
}

impl Roll {
    #[verifier::type_invariant]
    spec fn ordered(self) -> bool {
        self.dice.0.value() <= self.dice.1.value()
    }

    /// The lower die's value.
    pub closed spec fn low(self) -> u8 {
        self.dice.0.value()
    }

    /// The higher die's value.
    pub closed spec fn high(self) -> u8 {
        self.dice.1.value()
    }

    pub fn new(a: Die, b: Die) -> (r: Self)
        ensures
            r.low() == if a.value() <= b.value() {
                a.value()
            } else {
                b.value()
            },
            r.high() == if a.value() <= b.value() {
                b.value()
            } else {
                a.value()
            },
    {
        if a.get() <= b.get() {
            Roll { dice: (a, b) }
        } else {
            Roll { dice: (b, a) }
        }
    }

    pub fn is_double(&self) -> (d: bool)
        ensures
            d == (self.low() == self.high()),
    {
        self.dice.0 == self.dice.1
    }

    pub fn dice(&self) -> (d: (Die, Die))
        ensures
            d.0.value() == self.low(),
            d.1.value() == self.high(),
    {
        self.dice
    }

    /// The dice as they're consumed during move generation: 4 copies for a
    /// double, the 2 distinct values otherwise.
    fn as_multiset(&self) -> (v: Vec<Die>)
        ensures
            die_values(v@) == roll_dice(*self),
    {
        let v = if self.is_double() {
            vec![self.dice.0, self.dice.0, self.dice.0, self.dice.0]
        } else {
            vec![self.dice.0, self.dice.1]
        };
        assert(die_values(v@) =~= roll_dice(*self));
        v
    }
}

fn remove_one(dice: &Vec<Die>, value: u8) -> (result: Vec<Die>)
    ensures
        die_values(result@) == remove_one_spec(die_values(dice@), value),
{
    let ghost all = die_values(dice@);
    let mut result: Vec<Die> = Vec::new();
    let mut removed = false;
    let mut i: usize = 0;
    assert(die_values(dice@.subrange(0, dice@.len() as int)) =~= all);
    while i < dice.len()
        invariant
            i <= dice.len(),
            all == die_values(dice@),
            die_values(result@) + (if removed {
                die_values(dice@.subrange(i as int, dice@.len() as int))
            } else {
                remove_one_spec(die_values(dice@.subrange(i as int, dice@.len() as int)), value)
            }) == remove_one_spec(all, value),
        decreases dice.len() - i,
    {
        let ghost suffix = die_values(dice@.subrange(i as int, dice@.len() as int));
        let ghost rest = die_values(dice@.subrange(i + 1, dice@.len() as int));
        assert(suffix.drop_first() =~= rest);
        let die = dice[i];
        assert(suffix[0] == die.value());
        if !removed && die.get() == value {
            removed = true;
        } else {
            let ghost before = die_values(result@);
            result.push(die);
            assert(die_values(result@) =~= before.push(die.value()));
            assert(before + suffix =~= before.push(die.value()) + rest);
            assert(before + (seq![die.value()] + remove_one_spec(rest, value)) =~= before.push(
                die.value(),
            ) + remove_one_spec(rest, value));
        }
        i = i + 1;
    }
    assert(die_values(dice@.subrange(i as int, dice@.len() as int)) =~= Seq::<u8>::empty());
    assert(die_values(result@) + Seq::<u8>::empty() =~= die_values(result@));
    result
}


/// All of the player on roll's checkers are in the home board (points 1..=6).
pub open spec fn all_home(b: Board) -> bool {
    &&& b.1[0] == 0
    &&& forall|j: int| 6 <= j < 24 ==> b.0[j] <= 0
}

/// No checker of the player on roll stands on a home point above index `i`.
pub open spec fn none_above(b: Board, i: int) -> bool {
    forall|j: int| i < j < 6 ==> b.0[j] <= 0
}

/// Whether `m` is a legal single-checker move for a die showing `die`, ignoring the rest
/// of the roll. A checker on the bar must enter first, on index `24 - die`; a point with two
/// or more opposing checkers is blocked; bearing off needs every checker home, and a die
/// higher than the checker's point only bears off when no checker stands higher.
pub open spec fn legal_move(b: Board, die: u8, m: CheckerMove) -> bool {
    if b.1[0] > 0 {
        &&& m.from is Bar
        &&& m.to matches Destination::Point(t)
        &&& t.value() == 24 - die
        &&& b.0[24 - die] > -2
    } else {
        &&& m.from matches Origin::Point(f)
        &&& f.value() < 24
        &&& b.0[f.value() as int] > 0
        &&& match m.to {
            Destination::Point(t) => {
                &&& f.value() >= die
                &&& t.value() == f.value() - die
                &&& b.0[t.value() as int] > -2
            },
            Destination::Off => {
                &&& f.value() < die
                &&& all_home(b)
                &&& (f.value() + 1 == die || none_above(b, f.value() as int))
            },
        }
    }
}

/// Where a move starts, as a number: the point's index, or 24 for the bar.
pub open spec fn origin_index(o: Origin) -> int {
    match o {
        Origin::Bar => 24,
        Origin::Point(f) => f.value() as int,
    }
}

/// The board right after the origin checker is lifted.
pub open spec fn lift(b: Board, m: CheckerMove) -> Board {
    match m.from {
        Origin::Bar => (b.0, b.1.update(0, (b.1[0] - 1) as u8), b.2),
        Origin::Point(f) => (b.0.update(f.value() as int, (b.0[f.value() as int] - 1) as i8), b.1, b.2),
    }
}

/// The board after applying `m`: a lone opposing checker on the destination is hit and
/// sent to the opponent's bar.
pub open spec fn board_apply_move(b: Board, m: CheckerMove) -> Board {
    let l = lift(b, m);
    match m.to {
        Destination::Off => (l.0, l.1, l.2.update(0, (l.2[0] + 1) as u8)),
        Destination::Point(t) => if l.0[t.value() as int] == -1 {
            (l.0.update(t.value() as int, 1i8), l.1.update(1, (l.1[1] + 1) as u8), l.2)
        } else {
            (l.0.update(t.value() as int, (l.0[t.value() as int] + 1) as i8), l.1, l.2)
        },
    }
}

/// Applying `m` keeps every count within its type.
pub open spec fn move_fits(b: Board, m: CheckerMove) -> bool {
    let l = lift(b, m);
    &&& match m.from {
        Origin::Bar => b.1[0] >= 1,
        Origin::Point(f) => f.value() < 24 && b.0[f.value() as int] > i8::MIN,
    }
    &&& match m.to {
        Destination::Off => l.2[0] < u8::MAX,
        Destination::Point(t) => t.value() < 24 && if l.0[t.value() as int] == -1 {
            l.1[1] < u8::MAX
        } else {
            l.0[t.value() as int] < i8::MAX
        },
    }
}

/// The board after applying `ms` in order.
pub open spec fn board_apply_moves(b: Board, ms: Seq<CheckerMove>) -> Board
    decreases ms.len(),
{
    if ms.len() == 0 {
        b
    } else {
        board_apply_moves(board_apply_move(b, ms[0]), ms.drop_first())
    }
}

/// Applying `ms` in order keeps every count within its type.
pub open spec fn moves_fit(b: Board, ms: Seq<CheckerMove>) -> bool
    decreases ms.len(),
{
    if ms.len() == 0 {
        true
    } else {
        move_fits(b, ms[0]) && moves_fit(board_apply_move(b, ms[0]), ms.drop_first())
    }
}

impl Position {
    /// Applies `ply` to this position, returning the resulting position. Legality is not
    /// re-checked.
    pub fn apply(&self, ply: &Ply) -> (r: Position)
        requires
            moves_fit(self.board(), ply.moves_seq()),
        ensures
            r.board() == board_apply_moves(self.board(), ply.moves_seq()),
    {
        let moves = ply.moves();
        let ghost ms = moves@;
        let mut result = *self;
        let mut i: usize = 0;
        assert(ms.subrange(0, ms.len() as int) =~= ms);
        while i < moves.len()
            invariant
                i <= moves.len(),
                ms == moves@,
                ms == ply.moves_seq(),
                moves_fit(result.board(), ms.subrange(i as int, ms.len() as int)),
                board_apply_moves(result.board(), ms.subrange(i as int, ms.len() as int))
                    == board_apply_moves(self.board(), ms),
            decreases moves.len() - i,
        {
            let ghost suffix = ms.subrange(i as int, ms.len() as int);
            assert(suffix.drop_first() =~= ms.subrange(i + 1, ms.len() as int));
            result.apply_one(moves[i]);
            i = i + 1;
        }
        assert(ms.subrange(i as int, ms.len() as int) =~= Seq::<CheckerMove>::empty());
        result
    }

    fn apply_one(&mut self, checker_move: CheckerMove)
        requires
            move_fits(old(self).board(), checker_move),
        ensures
            final(self).board() == board_apply_move(old(self).board(), checker_move),
    {
        broadcast use crate::position::lemma_board_is_fields;

        let ghost b0 = self.board();
        match checker_move.from {
            Origin::Bar => self.bar[0] = self.bar[0] - 1,
            Origin::Point(p) => {
                let idx = p.get() as usize;
                self.points[idx] = self.points[idx] - 1;
            },
        }
        assert(self.board() =~~= lift(b0, checker_move));
        let ghost b1 = self.board();
        match checker_move.to {
            Destination::Off => self.off[0] = self.off[0] + 1,
            Destination::Point(p) => {
                let idx = p.get() as usize;
                if self.points[idx] == -1 {
                    self.points[idx] = 0;
                    self.bar[1] = self.bar[1] + 1;
                }
                self.points[idx] = self.points[idx] + 1;
            },
        }
        assert(self.board() =~~= board_apply_move(b0, checker_move));
    }

    fn all_checkers_home(&self) -> (r: bool)
        ensures
            r == all_home(self.board()),
    {
        broadcast use crate::position::lemma_board_is_fields;

        assert(self.board() == (self.points@, self.bar@, self.off@));
        assert(self.points@.len() == 24);
        if self.bar[0] != 0 {
            return false;
        }
        let mut j: usize = 6;
        while j < 24
            invariant
                6 <= j <= 24,
                self.board() == (self.points@, self.bar@, self.off@),
                forall|k: int| 6 <= k < j ==> self.points@[k] <= 0,
            decreases 24 - j,
        {
            if self.points[j] > 0 {
                assert(self.board().0[j as int] > 0);
                return false;
            }
            j = j + 1;
        }
        true
    }

    /// Whether some home point above index `i` holds a checker of the player on roll.
    fn checker_above(&self, i: usize) -> (r: bool)
        requires
            i < 6,
        ensures
            r == !none_above(self.board(), i as int),
    {
        broadcast use crate::position::lemma_board_is_fields;

        let mut j: usize = i + 1;
        while j < 6
            invariant
                i < j <= 6,
                self.board() == (self.points@, self.bar@, self.off@),
                forall|k: int| i < k < j ==> self.points@[k] <= 0,
            decreases 6 - j,
        {
            if self.points[j] > 0 {
                assert(self.board().0[j as int] > 0);
                return true;
            }
            j = j + 1;
        }
        false
    }

    /// Legal single-checker moves for `die`, ignoring the rest of the roll: one per origin
    /// that can move, in increasing order of origin (just the entering move while a checker
    /// is on the bar).
    fn legal_origins_for_die(&self, die: u8) -> (result: Vec<CheckerMove>)
        requires
            1 <= die <= 6,
        ensures
            forall|m: CheckerMove| #[trigger] result@.contains(m) <==> legal_move(self.board(), die, m),
            forall|k1: int, k2: int|
                0 <= k1 < k2 < result@.len() ==> origin_index((#[trigger] result@[k1]).from) < origin_index(
                    (#[trigger] result@[k2]).from,
                ),
    {
        broadcast use crate::position::lemma_board_is_fields;

        let ghost b = self.board();
        let mut result: Vec<CheckerMove> = Vec::new();
        if self.bar[0] > 0 {
            let entry_index = 24 - die;
            if self.points[entry_index as usize] > -2 {
                let m = CheckerMove { from: Origin::Bar, to: Destination::Point(PointIndex::new(entry_index)) };
                result.push(m);
                assert forall|m2: CheckerMove| #[trigger] result@.contains(m2) <==> legal_move(b, die, m2) by {
                    if legal_move(b, die, m2) {
                        assert(m2 == m);
                        assert(result@[0] == m);
                    }
                }
            } else {
                assert forall|m2: CheckerMove| #[trigger] result@.contains(m2) <==> legal_move(b, die, m2) by {
                }
            }
            return result;
        }
        let home = self.all_checkers_home();
        let mut i: usize = 0;
        while i < 24
            invariant
                i <= 24,
                b == self.board(),
                b == (self.points@, self.bar@, self.off@),
                self.bar@[0] == 0,
                home == all_home(b),
                1 <= die <= 6,
                forall|m: CheckerMove| #[trigger] result@.contains(m) <==> (legal_move(b, die, m) && (
                m.from matches Origin::Point(f) && f.value() < i)),
                forall|k: int| 0 <= k < result@.len() ==> origin_index((#[trigger] result@[k]).from) < i,
                forall|k1: int, k2: int|
                    0 <= k1 < k2 < result@.len() ==> origin_index((#[trigger] result@[k1]).from) < origin_index(
                        (#[trigger] result@[k2]).from,
                    ),
            decreases 24 - i,
        {
            let count = self.points[i];
            if count > 0 {
                if i >= die as usize {
                    let target_idx = i - die as usize;
                    if self.points[target_idx] > -2 {
                        let m = CheckerMove {
                            from: Origin::Point(PointIndex::new(i as u8)),
                            to: Destination::Point(PointIndex::new(target_idx as u8)),
                        };
                        let ghost before = result@;
                        result.push(m);
                        proof {
                            assert forall|m2: CheckerMove| #[trigger] result@.contains(m2) <==> (legal_move(b, die, m2) && (
                            m2.from matches Origin::Point(f) && f.value() < i + 1)) by {
                                if result@.contains(m2) {
                                    let k = choose|k: int| 0 <= k < result@.len() && result@[k] == m2;
                                    if k < before.len() {
                                        assert(before.contains(m2));
                                    }
                                }
                                if legal_move(b, die, m2) && (m2.from matches Origin::Point(f) && f.value() < i + 1) {
                                    if m2.from matches Origin::Point(f) && f.value() == i {
                                        assert(m2 == m);
                                        assert(result@[before.len() as int] == m);
                                    } else {
                                        assert(before.contains(m2));
                                        let k = choose|k: int| 0 <= k < before.len() && before[k] == m2;
                                        assert(result@[k] == m2);
                                    }
                                }
                            }
                        }
                    } else {
                        proof {
                            assert(b.0[target_idx as int] <= -2);
                            assert forall|m2: CheckerMove| #[trigger] result@.contains(m2) <==> (legal_move(b, die, m2) && (
                            m2.from matches Origin::Point(f) && f.value() < i + 1)) by {
                                if m2.from matches Origin::Point(f) && f.value() == i {
                                    assert(!legal_move(b, die, m2));
                                }
                            }
                        }
                    }
                } else if home {
                    let point_number = i + 1;
                    let exact = point_number == die as usize;
                    let overage = die as usize > point_number && !self.checker_above(i);
                    if exact || overage {
                        let m = CheckerMove { from: Origin::Point(PointIndex::new(i as u8)), to: Destination::Off };
                        let ghost before = result@;
                        result.push(m);
                        proof {
                            assert forall|m2: CheckerMove| #[trigger] result@.contains(m2) <==> (legal_move(b, die, m2) && (
                            m2.from matches Origin::Point(f) && f.value() < i + 1)) by {
                                if result@.contains(m2) {
                                    let k = choose|k: int| 0 <= k < result@.len() && result@[k] == m2;
                                    if k < before.len() {
                                        assert(before.contains(m2));
                                    }
                                }
                                if legal_move(b, die, m2) && (m2.from matches Origin::Point(f) && f.value() < i + 1) {
                                    if m2.from matches Origin::Point(f) && f.value() == i {
                                        assert(m2 == m);
                                        assert(result@[before.len() as int] == m);
                                    } else {
                                        assert(before.contains(m2));
                                        let k = choose|k: int| 0 <= k < before.len() && before[k] == m2;
                                        assert(result@[k] == m2);
                                    }
                                }
                            }
                        }
                    } else {
                        proof {
                            assert(i + 1 != die);
                            assert(!none_above(b, i as int));
                            assert forall|m2: CheckerMove| #[trigger] result@.contains(m2) <==> (legal_move(b, die, m2) && (
                            m2.from matches Origin::Point(f) && f.value() < i + 1)) by {
                                if m2.from matches Origin::Point(f) && f.value() == i {
                                    assert(!legal_move(b, die, m2));
                                }
                            }
                        }
                    }
                } else {
                    proof {
                        assert forall|m2: CheckerMove| #[trigger] result@.contains(m2) <==> (legal_move(b, die, m2) && (
                        m2.from matches Origin::Point(f) && f.value() < i + 1)) by {
                        }
                    }
                }
            } else {
                proof {
                    assert forall|m2: CheckerMove| #[trigger] result@.contains(m2) <==> (legal_move(b, die, m2) && (
                    m2.from matches Origin::Point(f) && f.value() < i + 1)) by {
                    }
                }
            }
            i = i + 1;
        }
        assert forall|m: CheckerMove| #[trigger] result@.contains(m) <==> legal_move(b, die, m) by {
        }
        result
    }
}


/// Every play of at most `depth` legal moves from `b`, using dice from `dice`, keeps
/// every count within its type.
pub open spec fn plays_fit(b: Board, dice: Seq<u8>, depth: nat) -> bool
    decreases depth,
{
    depth == 0 || forall|d: u8, m: CheckerMove|
        #![trigger legal_move(b, d, m)]
        dice.contains(d) && legal_move(b, d, m) ==> move_fits(b, m) && plays_fit(
            board_apply_move(b, m),
            remove_one_spec(dice, d),
            (depth - 1) as nat,
        )
}

/// No remaining die can move any checker.
pub open spec fn is_stuck(b: Board, dice: Seq<u8>) -> bool {
    forall|d: u8, m: CheckerMove| #![trigger legal_move(b, d, m)] dice.contains(d) ==> !legal_move(b, d, m)
}

/// `ms` is a sequence of legal moves from `b`, the `i`-th played with a die showing
/// `ds[i]` taken from `dice`, after which no remaining die can be played.
pub open spec fn is_complete_play(b: Board, dice: Seq<u8>, ds: Seq<u8>, ms: Seq<CheckerMove>) -> bool
    decreases ms.len(),
{
    &&& ds.len() == ms.len()
    &&& if ms.len() == 0 {
        is_stuck(b, dice)
    } else {
        &&& dice.contains(ds[0])
        &&& legal_move(b, ds[0], ms[0])
        &&& is_complete_play(
            board_apply_move(b, ms[0]),
            remove_one_spec(dice, ds[0]),
            ds.drop_first(),
            ms.drop_first(),
        )
    }
}

/// A recorded end of a play: the board it reached, the moves (after the prefix `pm`), and
/// the dice used (after the prefix `pd`) form a complete play from `b`.
spec fn leaf_extends(
    b: Board,
    dice: Seq<u8>,
    pm: Seq<CheckerMove>,
    pd: Seq<u8>,
    leaf: (Position, Ply, Vec<u8>),
) -> bool {
    let ms = leaf.1.moves_seq();
    let ds = leaf.2@;
    &&& pm.len() == pd.len()
    &&& pm.len() <= ms.len()
    &&& ds.len() == ms.len()
    &&& ms.subrange(0, pm.len() as int) == pm
    &&& ds.subrange(0, pd.len() as int) == pd
    &&& is_complete_play(
        b,
        dice,
        ds.subrange(pd.len() as int, ds.len() as int),
        ms.subrange(pm.len() as int, ms.len() as int),
    )
    &&& leaf.0.board() == board_apply_moves(b, ms.subrange(pm.len() as int, ms.len() as int))
}

/// Some leaf at or after `lo` recorded exactly these moves and dice.
#[verifier::opaque]
spec fn has_leaf(
    leaves: Seq<(Position, Ply, Vec<u8>)>,
    lo: int,
    ms: Seq<CheckerMove>,
    ds: Seq<u8>,
) -> bool {
    exists|k: int| 0 <= lo <= k < leaves.len() && #[trigger] leaves[k].1.moves_seq() == ms && leaves[k].2@ == ds
}

proof fn lemma_has_leaf_grows(
    leaves: Seq<(Position, Ply, Vec<u8>)>,
    more: Seq<(Position, Ply, Vec<u8>)>,
    lo: int,
    ms: Seq<CheckerMove>,
    ds: Seq<u8>,
)
    requires
        leaves.len() <= more.len(),
        more.subrange(0, leaves.len() as int) == leaves,
        has_leaf(leaves, lo, ms, ds),
    ensures
        has_leaf(more, lo, ms, ds),
{
    reveal(has_leaf);
    let k = choose|k: int| 0 <= lo <= k < leaves.len() && #[trigger] leaves[k].1.moves_seq() == ms && leaves[k].2@ == ds;
    assert(more[k] == more.subrange(0, leaves.len() as int)[k]);
}

proof fn lemma_leaf_lift(
    b: Board,
    dice: Seq<u8>,
    pm: Seq<CheckerMove>,
    pd: Seq<u8>,
    d: u8,
    m: CheckerMove,
    leaf: (Position, Ply, Vec<u8>),
)
    requires
        dice.contains(d),
        legal_move(b, d, m),
        pm.len() == pd.len(),
        leaf_extends(board_apply_move(b, m), remove_one_spec(dice, d), pm.push(m), pd.push(d), leaf),
    ensures
        leaf_extends(b, dice, pm, pd, leaf),
{
    let ms = leaf.1.moves_seq();
    let ds = leaf.2@;
    let n = pm.len() as int;
    assert(ms.subrange(0, n + 1)[n] == m);
    assert(ds.subrange(0, n + 1)[n] == d);
    assert(ms.subrange(0, n) =~= ms.subrange(0, n + 1).subrange(0, n));
    assert(ds.subrange(0, n) =~= ds.subrange(0, n + 1).subrange(0, n));
    assert(pm.push(m).subrange(0, n) =~= pm);
    assert(pd.push(d).subrange(0, n) =~= pd);
    let tail_m = ms.subrange(n, ms.len() as int);
    let tail_d = ds.subrange(n, ds.len() as int);
    assert(tail_m.drop_first() =~= ms.subrange(n + 1, ms.len() as int));
    assert(tail_d.drop_first() =~= ds.subrange(n + 1, ds.len() as int));
    assert(tail_m[0] == m);
    assert(tail_d[0] == d);
    assert(tail_m.len() > 0);
    assert(is_complete_play(b, dice, tail_d, tail_m));
    assert(board_apply_moves(b, tail_m) == board_apply_moves(board_apply_move(b, m), tail_m.drop_first()));
}

/// Every value is a die face.
pub open spec fn faces(dice: Seq<u8>) -> bool {
    forall|i: int| 0 <= i < dice.len() ==> 1 <= #[trigger] dice[i] <= 6
}

fn distinct_values(dice: &Vec<Die>) -> (values: Vec<u8>)
    requires
        faces(die_values(dice@)),
    ensures
        forall|v: u8| #[trigger] values@.contains(v) <==> die_values(dice@).contains(v),
        forall|i: int, j: int| 0 <= i < j < values@.len() ==> values@[i] < values@[j],
        forall|i: int| 0 <= i < values@.len() ==> 1 <= #[trigger] values@[i] <= 6,
{
    let mut values: Vec<u8> = Vec::new();
    let mut v: u8 = 1;
    while v <= 6
        invariant
            1 <= v <= 7,
            faces(die_values(dice@)),
            forall|x: u8| #[trigger] values@.contains(x) <==> (x < v && die_values(dice@).contains(x)),
            forall|i: int, j: int| 0 <= i < j < values@.len() ==> values@[i] < values@[j],
            forall|i: int| 0 <= i < values@.len() ==> 1 <= #[trigger] values@[i] < v,
        decreases 7 - v,
    {
        let mut found = false;
        let mut i: usize = 0;
        while i < dice.len()
            invariant
                i <= dice.len(),
                found <==> die_values(dice@.subrange(0, i as int)).contains(v),
            decreases dice.len() - i,
        {
            let ghost before = die_values(dice@.subrange(0, i as int));
            assert(die_values(dice@.subrange(0, i + 1)) =~= before.push(dice@[i as int].value()));
            let dv = dice[i].get();
            proof {
                if dv == v {
                    assert(die_values(dice@.subrange(0, i + 1))[i as int] == v);
                } else if found {
                    let k = choose|k: int| 0 <= k < before.len() && before[k] == v;
                    assert(die_values(dice@.subrange(0, i + 1))[k] == v);
                } else {
                    let next = die_values(dice@.subrange(0, i + 1));
                    if next.contains(v) {
                        let k = choose|k: int| 0 <= k < next.len() && next[k] == v;
                        if k < i {
                            assert(next[k] == before[k]);
                            assert(before.contains(v));
                        }
                    }
                }
            }
            if dv == v {
                found = true;
            }
            i = i + 1;
        }
        assert(dice@.subrange(0, dice@.len() as int) =~= dice@);
        let ghost before = values@;
        if found {
            values.push(v);
        }
        proof {
            assert forall|x: u8| #[trigger] values@.contains(x) <==> (x < v + 1 && die_values(dice@).contains(x)) by {
                if values@.contains(x) {
                    let k = choose|k: int| 0 <= k < values@.len() && values@[k] == x;
                    if k < before.len() {
                        assert(before[k] == x);
                        assert(before.contains(x));
                    }
                }
                if x < v && die_values(dice@).contains(x) {
                    assert(before.contains(x));
                    let k = choose|k: int| 0 <= k < before.len() && before[k] == x;
                    assert(values@[k] == x);
                }
                if x == v && die_values(dice@).contains(x) {
                    assert(found);
                    assert(values@[before.len() as int] == v);
                }
            }
        }
        v = v + 1;
    }
    values
}


pub proof fn lemma_remove_one_faces(dice: Seq<u8>, value: u8)
    requires
        faces(dice),
    ensures
        faces(remove_one_spec(dice, value)),
{
    lemma_remove_one_len(dice, value);
    let r = remove_one_spec(dice, value);
    assert forall|i: int| 0 <= i < r.len() implies 1 <= #[trigger] r[i] <= 6 by {
        assert(r.contains(r[i]));
        assert(dice.contains(r[i]));
        let j = choose|j: int| 0 <= j < dice.len() && dice[j] == r[i];
    }
}

proof fn lemma_step_keeps_leaves(
    b: Board,
    dice: Seq<u8>,
    pm: Seq<CheckerMove>,
    pd: Seq<u8>,
    value: u8,
    m: CheckerMove,
    start: int,
    before: Seq<(Position, Ply, Vec<u8>)>,
    after: Seq<(Position, Ply, Vec<u8>)>,
)
    requires
        dice.contains(value),
        legal_move(b, value, m),
        pm.len() == pd.len(),
        0 <= start <= before.len(),
        forall|k: int| start <= k < before.len() ==> leaf_extends(b, dice, pm, pd, #[trigger] before[k]),
        after.len() >= before.len(),
        after.subrange(0, before.len() as int) == before,
        forall|k: int|
            before.len() <= k < after.len() ==> leaf_extends(
                board_apply_move(b, m),
                remove_one_spec(dice, value),
                pm.push(m),
                pd.push(value),
                #[trigger] after[k],
            ),
    ensures
        forall|k: int| start <= k < after.len() ==> leaf_extends(b, dice, pm, pd, #[trigger] after[k]),
        after.subrange(0, start) == before.subrange(0, start),
{
    assert forall|k: int| start <= k < after.len() implies leaf_extends(b, dice, pm, pd, #[trigger] after[k]) by {
        if k < before.len() {
            assert(after[k] == after.subrange(0, before.len() as int)[k]);
        } else {
            lemma_leaf_lift(b, dice, pm, pd, value, m, after[k]);
        }
    }
    assert(after.subrange(0, start) =~= before.subrange(0, start)) by {
        assert forall|k: int| 0 <= k < start implies after.subrange(0, start)[k] == before.subrange(0, start)[k] by {
            assert(after[k] == after.subrange(0, before.len() as int)[k]);
        }
    }
}

proof fn lemma_step_keeps_plays(
    b: Board,
    dice: Seq<u8>,
    pm: Seq<CheckerMove>,
    pd: Seq<u8>,
    value: u8,
    m: CheckerMove,
    start: int,
    before: Seq<(Position, Ply, Vec<u8>)>,
    after: Seq<(Position, Ply, Vec<u8>)>,
    done_values: Seq<u8>,
    done_moves: Seq<CheckerMove>,
)
    requires
        0 <= start <= before.len(),
        after.len() >= before.len(),
        after.subrange(0, before.len() as int) == before,
        forall|ds: Seq<u8>, ms: Seq<CheckerMove>|
            #[trigger] is_complete_play(b, dice, ds, ms) && ms.len() > 0 && (done_values.contains(ds[0]) || (
            ds[0] == value && done_moves.contains(ms[0]))) ==> has_leaf(before, start, pm + ms, pd + ds),
        forall|ds: Seq<u8>, ms: Seq<CheckerMove>|
            #[trigger] is_complete_play(board_apply_move(b, m), remove_one_spec(dice, value), ds, ms) ==> has_leaf(
                after,
                before.len() as int,
                pm.push(m) + ms,
                pd.push(value) + ds,
            ),
    ensures
        forall|ds: Seq<u8>, ms: Seq<CheckerMove>|
            #[trigger] is_complete_play(b, dice, ds, ms) && ms.len() > 0 && (done_values.contains(ds[0]) || (
            ds[0] == value && done_moves.push(m).contains(ms[0]))) ==> has_leaf(after, start, pm + ms, pd + ds),
{
    reveal(has_leaf);
    let nb = board_apply_move(b, m);
    let nd = remove_one_spec(dice, value);
    let mv2 = done_moves.push(m);
    assert forall|ds: Seq<u8>, ms: Seq<CheckerMove>|
        #[trigger] is_complete_play(b, dice, ds, ms) && ms.len() > 0 && (done_values.contains(ds[0]) || (
        ds[0] == value && mv2.contains(ms[0])))
        implies has_leaf(after, start, pm + ms, pd + ds) by {
        if done_values.contains(ds[0]) || (ds[0] == value && done_moves.contains(ms[0])) {
            lemma_has_leaf_grows(before, after, start, pm + ms, pd + ds);
        } else {
            let k = choose|k: int| 0 <= k < mv2.len() && mv2[k] == ms[0];
            if k < done_moves.len() {
                assert(done_moves[k] == ms[0]);
            }
            assert(ms[0] == m);
            assert(is_complete_play(nb, nd, ds.drop_first(), ms.drop_first()));
            assert(pm.push(m) + ms.drop_first() =~= pm + ms);
            assert(pd.push(value) + ds.drop_first() =~= pd + ds);
            assert(has_leaf(after, before.len() as int, pm + ms, pd + ds));
            let w = choose|w: int|
                0 <= before.len() <= w < after.len() && #[trigger] after[w].1.moves_seq() == pm + ms && after[w].2@ == pd + ds;
            assert(start <= w);
        }
    }
}

proof fn lemma_leaf_root(b: Board, dice: Seq<u8>, leaf: (Position, Ply, Vec<u8>))
    requires
        leaf_extends(b, dice, Seq::empty(), Seq::empty(), leaf),
    ensures
        is_complete_play(b, dice, leaf.2@, leaf.1.moves_seq()),
        leaf.0.board() == board_apply_moves(b, leaf.1.moves_seq()),
{
    let ms = leaf.1.moves_seq();
    let ds = leaf.2@;
    assert(ms.subrange(0, ms.len() as int) =~= ms);
    assert(ds.subrange(0, ds.len() as int) =~= ds);
}

/// A complete play from a board all of whose plays fit applies without overflow.
pub proof fn lemma_complete_play_fits(b: Board, dice: Seq<u8>, ds: Seq<u8>, ms: Seq<CheckerMove>)
    requires
        is_complete_play(b, dice, ds, ms),
        plays_fit(b, dice, dice.len() as nat),
    ensures
        moves_fit(b, ms),
    decreases ms.len(),
{
    if ms.len() > 0 {
        lemma_remove_one_len(dice, ds[0]);
        lemma_complete_play_fits(
            board_apply_move(b, ms[0]),
            remove_one_spec(dice, ds[0]),
            ds.drop_first(),
            ms.drop_first(),
        );
    }
}

/// `ms`, played with dice `ds`, is a complete play that uses as many dice as any.
pub open spec fn is_longest_play(b: Board, dice: Seq<u8>, ds: Seq<u8>, ms: Seq<CheckerMove>) -> bool {
    &&& is_complete_play(b, dice, ds, ms)
    &&& forall|ds2: Seq<u8>, ms2: Seq<CheckerMove>|
        #[trigger] is_complete_play(b, dice, ds2, ms2) ==> ms2.len() <= ms.len()
}

/// The higher die alone makes a complete play.
pub open spec fn higher_die_playable(b: Board, roll: Roll) -> bool {
    exists|ds: Seq<u8>, ms: Seq<CheckerMove>|
        #[trigger] is_complete_play(b, roll_dice(roll), ds, ms) && ms.len() == 1 && ds[0] == roll.high()
}

/// A play the rules allow for `roll`: it moves at least one checker, uses as many dice as
/// possible, and when only one die of a non-double can be played, it is the higher one if
/// the higher one can be.
pub open spec fn is_chosen_play(b: Board, roll: Roll, ds: Seq<u8>, ms: Seq<CheckerMove>) -> bool {
    &&& is_longest_play(b, roll_dice(roll), ds, ms)
    &&& ms.len() > 0
    &&& (roll.low() != roll.high() && ms.len() == 1 && higher_die_playable(b, roll)) ==> ds[0]
        == roll.high()
}

/// Some dice make `ply` a play the rules allow for `roll`.
pub open spec fn ply_is_chosen(b: Board, roll: Roll, ply: Ply) -> bool {
    exists|ds: Seq<u8>| is_chosen_play(b, roll, ds, ply.moves_seq())
}

/// Some selected leaf, among the first `count` that `src` names, reached board `bd`.
#[verifier::opaque]
spec fn board_among(leaves: Seq<(Position, Ply, Vec<u8>)>, src: Seq<int>, count: int, bd: Board) -> bool {
    exists|r: int| 0 <= r < count && (#[trigger] leaves[src[r]]).0.board() == bd
}

/// The leaf survives the length filter and the higher-die rule.
spec fn leaf_selected(leaf: (Position, Ply, Vec<u8>), max_len: nat, restrict: bool, higher: u8) -> bool {
    &&& leaf.1.moves_seq().len() == max_len
    &&& restrict ==> leaf.2@[0] == higher
}

proof fn lemma_root_leaves(b: Board, dice: Seq<u8>, leaves: Seq<(Position, Ply, Vec<u8>)>)
    requires
        forall|k: int| 0 <= k < leaves.len() ==> leaf_extends(b, dice, Seq::empty(), Seq::empty(), #[trigger] leaves[k]),
        forall|ds: Seq<u8>, ms: Seq<CheckerMove>|
            #[trigger] is_complete_play(b, dice, ds, ms) ==> has_leaf(
                leaves,
                0,
                Seq::<CheckerMove>::empty() + ms,
                Seq::<u8>::empty() + ds,
            ),
    ensures
        forall|k: int| 0 <= k < leaves.len() ==> is_complete_play(b, dice, leaves[k].2@, #[trigger] leaves[k].1.moves_seq()),
        forall|k: int| 0 <= k < leaves.len() ==> (#[trigger] leaves[k]).0.board() == board_apply_moves(b, leaves[k].1.moves_seq()),
        forall|k: int| 0 <= k < leaves.len() ==> (#[trigger] leaves[k]).2@.len() == leaves[k].1.moves_seq().len(),
        forall|ds: Seq<u8>, ms: Seq<CheckerMove>| #[trigger] is_complete_play(b, dice, ds, ms) ==> has_leaf(leaves, 0, ms, ds),
{
    assert forall|k: int| 0 <= k < leaves.len() implies is_complete_play(b, dice, leaves[k].2@, #[trigger] leaves[k].1.moves_seq())
        && leaves[k].0.board() == board_apply_moves(b, leaves[k].1.moves_seq()) by {
        lemma_leaf_root(b, dice, leaves[k]);
    }
    assert forall|ds: Seq<u8>, ms: Seq<CheckerMove>| #[trigger] is_complete_play(b, dice, ds, ms)
        implies has_leaf(leaves, 0, ms, ds) by {
        assert(Seq::<CheckerMove>::empty() + ms =~= ms);
        assert(Seq::<u8>::empty() + ds =~= ds);
    }
}

proof fn lemma_longest_bounds_plays(b: Board, dice: Seq<u8>, leaves: Seq<(Position, Ply, Vec<u8>)>, max_len: nat)
    requires
        forall|i: int| 0 <= i < leaves.len() ==> (#[trigger] leaves[i]).1.moves_seq().len() <= max_len,
        forall|ds: Seq<u8>, ms: Seq<CheckerMove>| #[trigger] is_complete_play(b, dice, ds, ms) ==> has_leaf(leaves, 0, ms, ds),
    ensures
        forall|ds: Seq<u8>, ms: Seq<CheckerMove>| #[trigger] is_complete_play(b, dice, ds, ms) ==> ms.len() <= max_len,
{
    reveal(has_leaf);
    assert forall|ds: Seq<u8>, ms: Seq<CheckerMove>| #[trigger] is_complete_play(b, dice, ds, ms) implies ms.len() <= max_len by {
        let i = choose|i: int| 0 <= 0 <= i < leaves.len() && #[trigger] leaves[i].1.moves_seq() == ms && leaves[i].2@ == ds;
        assert(leaves[i].1.moves_seq().len() <= max_len);
    }
}

proof fn lemma_single_die_leaf_playable(b: Board, roll: Roll, leaves: Seq<(Position, Ply, Vec<u8>)>)
    requires
        forall|k: int| 0 <= k < leaves.len() ==> is_complete_play(b, roll_dice(roll), leaves[k].2@, #[trigger] leaves[k].1.moves_seq()),
        forall|ds: Seq<u8>, ms: Seq<CheckerMove>| #[trigger] is_complete_play(b, roll_dice(roll), ds, ms) ==> has_leaf(leaves, 0, ms, ds),
    ensures
        higher_die_playable(b, roll) <==> exists|j: int|
            0 <= j < leaves.len() && (#[trigger] leaves[j]).1.moves_seq().len() == 1 && leaves[j].2@[0] == roll.high(),
{
    reveal(has_leaf);
    let rd = roll_dice(roll);
    if higher_die_playable(b, roll) {
        let (ds, ms) = choose|ds: Seq<u8>, ms: Seq<CheckerMove>|
            #[trigger] is_complete_play(b, rd, ds, ms) && ms.len() == 1 && ds[0] == roll.high();
        let j = choose|j: int| 0 <= 0 <= j < leaves.len() && #[trigger] leaves[j].1.moves_seq() == ms && leaves[j].2@ == ds;
        assert(leaves[j].2@[0] == roll.high());
    }
    if exists|j: int| 0 <= j < leaves.len() && (#[trigger] leaves[j]).1.moves_seq().len() == 1 && leaves[j].2@[0] == roll.high() {
        let j = choose|j: int| 0 <= j < leaves.len() && (#[trigger] leaves[j]).1.moves_seq().len() == 1 && leaves[j].2@[0] == roll.high();
        assert(is_complete_play(b, rd, leaves[j].2@, leaves[j].1.moves_seq()));
    }
}

/// The most moves any leaf holds.
fn longest_leaf(leaves: &Vec<(Position, Ply, Vec<u8>)>) -> (max_len: usize)
    ensures
        forall|i: int| 0 <= i < leaves@.len() ==> (#[trigger] leaves@[i]).1.moves_seq().len() <= max_len,
        max_len > 0 ==> exists|i: int| 0 <= i < leaves@.len() && (#[trigger] leaves@[i]).1.moves_seq().len() == max_len,
{
    let mut max_len: usize = 0;
    let mut k: usize = 0;
    while k < leaves.len()
        invariant
            k <= leaves@.len(),
            forall|i: int| 0 <= i < k ==> (#[trigger] leaves@[i]).1.moves_seq().len() <= max_len,
            max_len > 0 ==> exists|i: int| 0 <= i < k && (#[trigger] leaves@[i]).1.moves_seq().len() == max_len,
        decreases leaves@.len() - k,
    {
        let n = leaves[k].1.len();
        if n > max_len {
            max_len = n;
        }
        k = k + 1;
    }
    max_len
}

/// Whether some leaf is a single move played with a die showing `value`.
fn single_die_leaf(leaves: &Vec<(Position, Ply, Vec<u8>)>, value: u8) -> (found: bool)
    requires
        forall|j: int| 0 <= j < leaves@.len() ==> (#[trigger] leaves@[j]).2@.len() == leaves@[j].1.moves_seq().len(),
    ensures
        found <==> exists|j: int| 0 <= j < leaves@.len() && (#[trigger] leaves@[j]).1.moves_seq().len() == 1 && leaves@[j].2@[0] == value,
{
    let mut found = false;
    let mut i: usize = 0;
    while i < leaves.len()
        invariant
            i <= leaves@.len(),
            forall|j: int| 0 <= j < leaves@.len() ==> (#[trigger] leaves@[j]).2@.len() == leaves@[j].1.moves_seq().len(),
            found <==> exists|j: int| 0 <= j < i && (#[trigger] leaves@[j]).1.moves_seq().len() == 1 && leaves@[j].2@[0] == value,
        decreases leaves@.len() - i,
    {
        assert(leaves@[i as int].2@.len() == leaves@[i as int].1.moves_seq().len());
        if leaves[i].1.len() == 1 && leaves[i].2[0] == value {
            found = true;
        }
        i = i + 1;
    }
    found
}

/// The plies of the selected leaves, one per distinct resulting board, in order of first
/// appearance; `src` tells which leaf each came from.
/// One step of [`points_key`]: folds a point's count into the digest so far.
#[verifier::opaque]
spec fn mix(key: u64, count: i8) -> u64 {
    key.wrapping_mul(1_000_003).wrapping_add((count as int + 128) as u64)
}

fn mix_exec(key: u64, count: i8) -> (r: u64)
    ensures
        r == mix(key, count),
{
    reveal(mix);
    key.wrapping_mul(1_000_003).wrapping_add((count as i16 + 128) as u64)
}

/// A digest of the first `n` points, so that most distinct positions can be told apart
/// without comparing them point by point.
spec fn points_key(points: Seq<i8>, n: int) -> u64
    decreases n,
{
    if n <= 0 {
        0
    } else {
        mix(points_key(points, n - 1), points[n - 1])
    }
}

fn position_key(p: &Position) -> (key: u64)
    ensures
        key == points_key(p.board().0, 24),
{
    let mut key: u64 = 0;
    let mut i: usize = 0;
    while i < 24
        invariant
            i <= 24,
            key == points_key(p.points@, i as int),
        decreases 24 - i,
    {
        key = mix_exec(key, p.points[i]);
        i = i + 1;
    }
    proof {
        broadcast use crate::position::lemma_board_is_fields;
        assert(p.board().0 == p.points@);
    }
    key
}

fn select_distinct(
    leaves: &Vec<(Position, Ply, Vec<u8>)>,
    max_len: usize,
    restrict: bool,
    higher: u8,
) -> (res: (Vec<Ply>, Ghost<Seq<int>>))
    requires
        max_len > 0,
        forall|j: int| 0 <= j < leaves@.len() ==> (#[trigger] leaves@[j]).2@.len() == leaves@[j].1.moves_seq().len(),
    ensures
        res.1@.len() == res.0@.len(),
        forall|r: int| 0 <= r < res.0@.len() ==> 0 <= #[trigger] res.1@[r] < leaves@.len(),
        forall|r: int| 0 <= r < res.0@.len() ==> leaf_selected(leaves@[#[trigger] res.1@[r]], max_len as nat, restrict, higher),
        forall|r: int| 0 <= r < res.0@.len() ==> #[trigger] res.0@[r] == leaves@[res.1@[r]].1,
        forall|r1: int, r2: int| 0 <= r1 < r2 < res.0@.len() ==> leaves@[#[trigger] res.1@[r1]].0.board() != leaves@[#[trigger] res.1@[r2]].0.board(),
        forall|j: int| 0 <= j < leaves@.len() && leaf_selected(#[trigger] leaves@[j], max_len as nat, restrict, higher)
            ==> board_among(leaves@, res.1@, res.0@.len() as int, leaves@[j].0.board()),
{
    let mut plies: Vec<Ply> = Vec::new();
    let mut kept: Vec<Position> = Vec::new();
    let mut kept_keys: Vec<u64> = Vec::new();
    let ghost mut src: Seq<int> = Seq::empty();
    let mut k: usize = 0;
    while k < leaves.len()
        invariant
            k <= leaves@.len(),
            max_len > 0,
            forall|j: int| 0 <= j < leaves@.len() ==> (#[trigger] leaves@[j]).2@.len() == leaves@[j].1.moves_seq().len(),
            plies@.len() == kept@.len(),
            kept_keys@.len() == kept@.len(),
            forall|r: int| 0 <= r < kept@.len() ==> #[trigger] kept_keys@[r] == points_key(kept@[r].board().0, 24),
            src.len() == plies@.len(),
            forall|r: int| 0 <= r < plies@.len() ==> 0 <= #[trigger] src[r] < k,
            forall|r: int| 0 <= r < plies@.len() ==> leaf_selected(leaves@[#[trigger] src[r]], max_len as nat, restrict, higher),
            forall|r: int| 0 <= r < plies@.len() ==> #[trigger] plies@[r] == leaves@[src[r]].1,
            forall|r: int| 0 <= r < plies@.len() ==> #[trigger] kept@[r] == leaves@[src[r]].0,
            forall|r1: int, r2: int| 0 <= r1 < r2 < kept@.len() ==> (#[trigger] kept@[r1]).board() != (#[trigger] kept@[r2]).board(),
            forall|j: int| 0 <= j < k && leaf_selected(#[trigger] leaves@[j], max_len as nat, restrict, higher)
                ==> exists|r: int| 0 <= r < kept@.len() && (#[trigger] kept@[r]).board() == leaves@[j].0.board(),
        decreases leaves@.len() - k,
    {
        assert(leaves@[k as int].2@.len() == leaves@[k as int].1.moves_seq().len());
        let n = leaves[k].1.len();
        if n == max_len && (!restrict || leaves[k].2[0] == higher) {
            let key = position_key(&leaves[k].0);
            let mut dup = false;
            let mut r: usize = 0;
            while r < kept.len() && !dup
                invariant
                    r <= kept@.len(),
                    kept_keys@.len() == kept@.len(),
                    forall|q: int| 0 <= q < kept@.len() ==> #[trigger] kept_keys@[q] == points_key(kept@[q].board().0, 24),
                    key == points_key(leaves@[k as int].0.board().0, 24),
                    k < leaves@.len(),
                    dup ==> exists|q: int| 0 <= q < kept@.len() && (#[trigger] kept@[q]).board() == leaves@[k as int].0.board(),
                    !dup ==> forall|q: int| 0 <= q < r ==> (#[trigger] kept@[q]).board() != leaves@[k as int].0.board(),
                decreases kept@.len() - r,
            {
                if kept_keys[r] == key && kept[r].same_board(&leaves[k].0) {
                    dup = true;
                }
                r = r + 1;
            }
            let ghost old_kept = kept@;
            if !dup {
                proof {
                    src = src.push(k as int);
                }
                kept.push(leaves[k].0);
                kept_keys.push(key);
                plies.push(leaves[k].1);
                proof {
                    assert forall|j: int| 0 <= j < k + 1 && leaf_selected(#[trigger] leaves@[j], max_len as nat, restrict, higher)
                        implies exists|r: int| 0 <= r < kept@.len() && (#[trigger] kept@[r]).board() == leaves@[j].0.board() by {
                        if j == k {
                            assert(kept@[kept@.len() - 1].board() == leaves@[j].0.board());
                        } else {
                            let r = choose|r: int| 0 <= r < old_kept.len() && (#[trigger] old_kept[r]).board() == leaves@[j].0.board();
                            assert(kept@[r] == old_kept[r]);
                        }
                    }
                }
            }
        }
        k = k + 1;
    }
    proof {
        assert forall|r1: int, r2: int| 0 <= r1 < r2 < plies@.len() implies leaves@[#[trigger] src[r1]].0.board()
            != leaves@[#[trigger] src[r2]].0.board() by {
            assert(kept@[r1].board() != kept@[r2].board());
        }
        assert forall|j: int| 0 <= j < leaves@.len() && leaf_selected(#[trigger] leaves@[j], max_len as nat, restrict, higher)
            implies board_among(leaves@, src, plies@.len() as int, leaves@[j].0.board()) by {
            reveal(board_among);
            let r = choose|r: int| 0 <= r < kept@.len() && (#[trigger] kept@[r]).board() == leaves@[j].0.board();
            assert(kept@[r] == leaves@[src[r]].0);
        }
    }
    (plies, Ghost(src))
}

proof fn lemma_selected_plies_chosen(
    b: Board,
    roll: Roll,
    leaves: Seq<(Position, Ply, Vec<u8>)>,
    max_len: nat,
    restrict: bool,
    higher: u8,
    top: int,
    plies: Seq<Ply>,
    src: Seq<int>,
)
    requires
        max_len > 0,
        0 <= top < leaves.len(),
        leaves[top].1.moves_seq().len() == max_len,
        higher == roll.high(),
        restrict <==> (roll.low() != roll.high() && max_len == 1 && higher_die_playable(b, roll)),
        forall|ds: Seq<u8>, ms: Seq<CheckerMove>| #[trigger] is_complete_play(b, roll_dice(roll), ds, ms) ==> ms.len() <= max_len,
        forall|j: int| 0 <= j < leaves.len() ==> is_complete_play(b, roll_dice(roll), leaves[j].2@, #[trigger] leaves[j].1.moves_seq())
            && leaves[j].0.board() == board_apply_moves(b, leaves[j].1.moves_seq()),
        src.len() == plies.len(),
        forall|r: int| 0 <= r < plies.len() ==> 0 <= #[trigger] src[r] < leaves.len(),
        forall|r: int| 0 <= r < plies.len() ==> leaf_selected(leaves[#[trigger] src[r]], max_len, restrict, higher),
        forall|r: int| 0 <= r < plies.len() ==> #[trigger] plies[r] == leaves[src[r]].1,
        plays_fit(b, roll_dice(roll), roll_dice(roll).len() as nat),
    ensures
        forall|k: int| 0 <= k < plies.len() ==> ply_is_chosen(b, roll, #[trigger] plies[k]),
        forall|k: int| 0 <= k < plies.len() ==> moves_fit(b, #[trigger] plies[k].moves_seq()),
{
    let rd = roll_dice(roll);
    assert(is_complete_play(b, rd, leaves[top].2@, leaves[top].1.moves_seq()));
    assert forall|k: int| 0 <= k < plies.len() implies ply_is_chosen(b, roll, #[trigger] plies[k]) by {
        let j = src[k];
        assert(is_complete_play(b, rd, leaves[j].2@, leaves[j].1.moves_seq()));
        assert(is_chosen_play(b, roll, leaves[j].2@, plies[k].moves_seq()));
    }
    assert forall|k: int| 0 <= k < plies.len() implies moves_fit(b, #[trigger] plies[k].moves_seq()) by {
        let j = src[k];
        assert(is_complete_play(b, rd, leaves[j].2@, leaves[j].1.moves_seq()));
        lemma_complete_play_fits(b, rd, leaves[j].2@, plies[k].moves_seq());
    }
}

proof fn lemma_selected_plies_cover(
    b: Board,
    roll: Roll,
    leaves: Seq<(Position, Ply, Vec<u8>)>,
    max_len: nat,
    restrict: bool,
    higher: u8,
    top: int,
    plies: Seq<Ply>,
    src: Seq<int>,
)
    requires
        0 <= top < leaves.len(),
        leaves[top].1.moves_seq().len() == max_len,
        is_complete_play(b, roll_dice(roll), leaves[top].2@, leaves[top].1.moves_seq()),
        higher == roll.high(),
        restrict <==> (roll.low() != roll.high() && max_len == 1 && higher_die_playable(b, roll)),
        forall|ds: Seq<u8>, ms: Seq<CheckerMove>| #[trigger] is_complete_play(b, roll_dice(roll), ds, ms) ==> ms.len() <= max_len,
        forall|ds: Seq<u8>, ms: Seq<CheckerMove>| #[trigger] is_complete_play(b, roll_dice(roll), ds, ms) ==> has_leaf(leaves, 0, ms, ds),
        forall|j: int| 0 <= j < leaves.len() ==> (#[trigger] leaves[j]).0.board() == board_apply_moves(b, leaves[j].1.moves_seq()),
        src.len() == plies.len(),
        forall|r: int| 0 <= r < plies.len() ==> 0 <= #[trigger] src[r] < leaves.len(),
        forall|r: int| 0 <= r < plies.len() ==> #[trigger] plies[r] == leaves[src[r]].1,
        forall|j: int| 0 <= j < leaves.len() && leaf_selected(#[trigger] leaves[j], max_len, restrict, higher)
            ==> board_among(leaves, src, plies.len() as int, leaves[j].0.board()),
    ensures
        forall|ds: Seq<u8>, ms: Seq<CheckerMove>| #[trigger] is_chosen_play(b, roll, ds, ms) ==> exists|k: int|
            0 <= k < plies.len() && board_apply_moves(b, #[trigger] plies[k].moves_seq()) == board_apply_moves(b, ms),
{
    assert forall|ds: Seq<u8>, ms: Seq<CheckerMove>| #[trigger] is_chosen_play(b, roll, ds, ms) implies exists|k: int|
        0 <= k < plies.len() && board_apply_moves(b, #[trigger] plies[k].moves_seq()) == board_apply_moves(b, ms) by {
        lemma_chosen_play_found(b, roll, leaves, max_len, restrict, higher, top, plies, src, ds, ms);
    }
}

proof fn lemma_chosen_play_found(
    b: Board,
    roll: Roll,
    leaves: Seq<(Position, Ply, Vec<u8>)>,
    max_len: nat,
    restrict: bool,
    higher: u8,
    top: int,
    plies: Seq<Ply>,
    src: Seq<int>,
    ds: Seq<u8>,
    ms: Seq<CheckerMove>,
)
    requires
        is_chosen_play(b, roll, ds, ms),
        0 <= top < leaves.len(),
        leaves[top].1.moves_seq().len() == max_len,
        is_complete_play(b, roll_dice(roll), leaves[top].2@, leaves[top].1.moves_seq()),
        higher == roll.high(),
        restrict <==> (roll.low() != roll.high() && max_len == 1 && higher_die_playable(b, roll)),
        is_complete_play(b, roll_dice(roll), ds, ms) ==> ms.len() <= max_len,
        is_complete_play(b, roll_dice(roll), ds, ms) ==> has_leaf(leaves, 0, ms, ds),
        forall|j: int| 0 <= j < leaves.len() ==> (#[trigger] leaves[j]).0.board() == board_apply_moves(b, leaves[j].1.moves_seq()),
        src.len() == plies.len(),
        forall|r: int| 0 <= r < plies.len() ==> 0 <= #[trigger] src[r] < leaves.len(),
        forall|r: int| 0 <= r < plies.len() ==> #[trigger] plies[r] == leaves[src[r]].1,
        forall|j: int| 0 <= j < leaves.len() && leaf_selected(#[trigger] leaves[j], max_len, restrict, higher)
            ==> board_among(leaves, src, plies.len() as int, leaves[j].0.board()),
    ensures
        exists|k: int| 0 <= k < plies.len() && board_apply_moves(b, #[trigger] plies[k].moves_seq()) == board_apply_moves(b, ms),
{
    reveal(has_leaf);
    let j = choose|j: int| 0 <= 0 <= j < leaves.len() && #[trigger] leaves[j].1.moves_seq() == ms && leaves[j].2@ == ds;
    assert(leaves[top].1.moves_seq().len() <= ms.len());
    assert(leaf_selected(leaves[j], max_len, restrict, higher));
    reveal(board_among);
    let r = choose|r: int| 0 <= r < plies.len() && (#[trigger] leaves[src[r]]).0.board() == leaves[j].0.board();
    assert(leaves[src[r]].0.board() == board_apply_moves(b, leaves[src[r]].1.moves_seq()));
    assert(board_apply_moves(b, plies[r].moves_seq()) == board_apply_moves(b, ms));
}

proof fn lemma_selected_plies_distinct(
    b: Board,
    roll: Roll,
    leaves: Seq<(Position, Ply, Vec<u8>)>,
    max_len: nat,
    restrict: bool,
    higher: u8,
    top: int,
    plies: Seq<Ply>,
    src: Seq<int>,
)
    requires
        max_len > 0,
        0 <= top < leaves.len(),
        leaves[top].1.moves_seq().len() == max_len,
        higher == roll.high(),
        restrict <==> (roll.low() != roll.high() && max_len == 1 && higher_die_playable(b, roll)),
        forall|ds: Seq<u8>, ms: Seq<CheckerMove>| #[trigger] is_complete_play(b, roll_dice(roll), ds, ms) ==> ms.len() <= max_len,
        forall|j: int| 0 <= j < leaves.len() ==> is_complete_play(b, roll_dice(roll), leaves[j].2@, #[trigger] leaves[j].1.moves_seq())
            && leaves[j].0.board() == board_apply_moves(b, leaves[j].1.moves_seq()),
        src.len() == plies.len(),
        forall|r: int| 0 <= r < plies.len() ==> 0 <= #[trigger] src[r] < leaves.len(),
        forall|r: int| 0 <= r < plies.len() ==> leaf_selected(leaves[#[trigger] src[r]], max_len, restrict, higher),
        forall|r: int| 0 <= r < plies.len() ==> #[trigger] plies[r] == leaves[src[r]].1,
        forall|r1: int, r2: int| 0 <= r1 < r2 < plies.len() ==> leaves[#[trigger] src[r1]].0.board() != leaves[#[trigger] src[r2]].0.board(),
    ensures
        forall|k1: int, k2: int| 0 <= k1 < k2 < plies.len() ==> board_apply_moves(b, #[trigger] plies[k1].moves_seq())
            != board_apply_moves(b, #[trigger] plies[k2].moves_seq()),
{
    let rd = roll_dice(roll);
    assert forall|k1: int, k2: int| 0 <= k1 < k2 < plies.len() implies board_apply_moves(b, #[trigger] plies[k1].moves_seq())
        != board_apply_moves(b, #[trigger] plies[k2].moves_seq()) by {
        let j1 = src[k1];
        let j2 = src[k2];
        assert(is_complete_play(b, rd, leaves[j1].2@, leaves[j1].1.moves_seq()));
        assert(is_complete_play(b, rd, leaves[j2].2@, leaves[j2].1.moves_seq()));
    }
}

proof fn lemma_no_chosen_play(b: Board, roll: Roll)
    requires
        forall|ds: Seq<u8>, ms: Seq<CheckerMove>| #[trigger] is_complete_play(b, roll_dice(roll), ds, ms) ==> ms.len() <= 0,
    ensures
        forall|ds: Seq<u8>, ms: Seq<CheckerMove>| !(#[trigger] is_chosen_play(b, roll, ds, ms)),
{
}

/// From every complete play's leaf, the plies the rules allow, one per resulting board.
#[verifier::spinoff_prover]
fn select_plies(Ghost(b): Ghost<Board>, roll: Roll, leaves: &Vec<(Position, Ply, Vec<u8>)>) -> (plies: Vec<Ply>)
    requires
        plays_fit(b, roll_dice(roll), roll_dice(roll).len() as nat),
        forall|k: int| 0 <= k < leaves@.len() ==> is_complete_play(b, roll_dice(roll), leaves@[k].2@, #[trigger] leaves@[k].1.moves_seq()),
        forall|k: int| 0 <= k < leaves@.len() ==> (#[trigger] leaves@[k]).0.board() == board_apply_moves(b, leaves@[k].1.moves_seq()),
        forall|k: int| 0 <= k < leaves@.len() ==> (#[trigger] leaves@[k]).2@.len() == leaves@[k].1.moves_seq().len(),
        forall|ds: Seq<u8>, ms: Seq<CheckerMove>| #[trigger] is_complete_play(b, roll_dice(roll), ds, ms) ==> has_leaf(leaves@, 0, ms, ds),
    ensures
        forall|k: int| 0 <= k < plies@.len() ==> ply_is_chosen(b, roll, #[trigger] plies@[k]),
        forall|k: int| 0 <= k < plies@.len() ==> moves_fit(b, #[trigger] plies@[k].moves_seq()),
        forall|ds: Seq<u8>, ms: Seq<CheckerMove>|
            #[trigger] is_chosen_play(b, roll, ds, ms) ==> exists|k: int|
                0 <= k < plies@.len() && board_apply_moves(b, #[trigger] plies@[k].moves_seq())
                    == board_apply_moves(b, ms),
        forall|k1: int, k2: int|
            0 <= k1 < k2 < plies@.len() ==> board_apply_moves(b, #[trigger] plies@[k1].moves_seq())
                != board_apply_moves(b, #[trigger] plies@[k2].moves_seq()),
{
    let ghost rd = roll_dice(roll);
    let max_len = longest_leaf(leaves);
    proof {
        lemma_longest_bounds_plays(b, rd, leaves@, max_len as nat);
    }
    if max_len == 0 {
        proof {
            lemma_no_chosen_play(b, roll);
        }
        return Vec::new();
    }
    let ghost top = choose|i: int| 0 <= i < leaves@.len() && (#[trigger] leaves@[i]).1.moves_seq().len() == max_len;
    proof {
        use_type_invariant(&roll);
    }
    let higher = roll.dice().1.get();
    let mut restrict = false;
    if !roll.is_double() && max_len == 1 {
        restrict = single_die_leaf(leaves, higher);
        proof {
            lemma_single_die_leaf_playable(b, roll, leaves@);
        }
    }
    let (plies, Ghost(src)) = select_distinct(leaves, max_len, restrict, higher);
    proof {
        lemma_selected_plies_chosen(b, roll, leaves@, max_len as nat, restrict, higher, top, plies@, src);
        lemma_selected_plies_cover(b, roll, leaves@, max_len as nat, restrict, higher, top, plies@, src);
        lemma_selected_plies_distinct(b, roll, leaves@, max_len as nat, restrict, higher, top, plies@, src);
    }
    plies
}

impl Position {
    /// Generates all legal plies for `roll`, one per distinct resulting position.
    ///
    /// Enforces, in order: use as many dice as legally possible; for a non-double where
    /// only one die can be played at all, prefer the higher die if it is playable.
    pub fn generate_moves(&self, roll: Roll) -> (plies: Vec<Ply>)
        requires
            plays_fit(self.board(), roll_dice(roll), roll_dice(roll).len() as nat),
        ensures
            forall|k: int| 0 <= k < plies@.len() ==> ply_is_chosen(self.board(), roll, #[trigger] plies@[k]),
            forall|k: int| 0 <= k < plies@.len() ==> moves_fit(self.board(), #[trigger] plies@[k].moves_seq()),
            forall|ds: Seq<u8>, ms: Seq<CheckerMove>|
                #[trigger] is_chosen_play(self.board(), roll, ds, ms) ==> exists|k: int|
                    0 <= k < plies@.len() && board_apply_moves(self.board(), #[trigger] plies@[k].moves_seq())
                        == board_apply_moves(self.board(), ms),
            forall|k1: int, k2: int|
                0 <= k1 < k2 < plies@.len() ==> board_apply_moves(self.board(), #[trigger] plies@[k1].moves_seq())
                    != board_apply_moves(self.board(), #[trigger] plies@[k2].moves_seq()),
    {
        let ghost b = self.board();
        let ghost rd = roll_dice(roll);
        proof {
            use_type_invariant(&roll);
            use_type_invariant(&roll.dice.0);
            use_type_invariant(&roll.dice.1);
        }
        let dice = roll.as_multiset();
        let mut leaves: Vec<(Position, Ply, Vec<u8>)> = Vec::new();
        let empty = Ply::empty();
        let used: Vec<u8> = Vec::new();
        self.collect_plies(&dice, empty, used, &mut leaves);
        proof {
            lemma_root_leaves(b, rd, leaves@);
        }
        select_plies(Ghost(b), roll, &leaves)
    }

    /// Depth-first search over die-value choices, recording every terminal
    /// (no-more-legal-moves) state reached, however many dice it used.
    fn collect_plies(
        &self,
        dice_remaining: &Vec<Die>,
        ply_so_far: Ply,
        dice_used: Vec<u8>,
        leaves: &mut Vec<(Position, Ply, Vec<u8>)>,
    )
        requires
            ply_so_far.moves_seq().len() + dice_remaining@.len() <= 4,
            dice_used@.len() == ply_so_far.moves_seq().len(),
            faces(die_values(dice_remaining@)),
            plays_fit(self.board(), die_values(dice_remaining@), dice_remaining@.len() as nat),
        ensures
            final(leaves)@.len() >= old(leaves)@.len(),
            final(leaves)@.subrange(0, old(leaves)@.len() as int) == old(leaves)@,
            forall|k: int|
                old(leaves)@.len() <= k < final(leaves)@.len() ==> leaf_extends(
                    self.board(),
                    die_values(dice_remaining@),
                    ply_so_far.moves_seq(),
                    dice_used@,
                    #[trigger] final(leaves)@[k],
                ),
            forall|ds: Seq<u8>, ms: Seq<CheckerMove>|
                #[trigger] is_complete_play(self.board(), die_values(dice_remaining@), ds, ms) ==> has_leaf(
                    final(leaves)@,
                    old(leaves)@.len() as int,
                    ply_so_far.moves_seq() + ms,
                    dice_used@ + ds,
                ),
        decreases dice_remaining@.len(),
    {
        reveal(has_leaf);
        let ghost b = self.board();
        let ghost dice = die_values(dice_remaining@);
        let ghost pm = ply_so_far.moves_seq();
        let ghost pd = dice_used@;
        let ghost start = leaves@.len() as int;
        let ghost init = leaves@;
        let distinct = distinct_values(dice_remaining);
        let mut extended = false;
        let mut a: usize = 0;
        while a < distinct.len()
            invariant
                a <= distinct@.len(),
                b == self.board(),
                dice == die_values(dice_remaining@),
                pm == ply_so_far.moves_seq(),
                pd == dice_used@,
                pm.len() + dice.len() <= 4,
                pd.len() == pm.len(),
                faces(dice),
                plays_fit(b, dice, dice.len() as nat),
                dice.len() == dice_remaining@.len(),
                forall|v: u8| #[trigger] distinct@.contains(v) <==> dice.contains(v),
                forall|i: int| 0 <= i < distinct@.len() ==> 1 <= #[trigger] distinct@[i] <= 6,
                start == init.len(),
                leaves@.len() >= start,
                leaves@.subrange(0, start) == init,
                forall|k: int| start <= k < leaves@.len() ==> leaf_extends(b, dice, pm, pd, #[trigger] leaves@[k]),
                extended ==> exists|d: u8, m: CheckerMove| dice.contains(d) && legal_move(b, d, m),
                !extended ==> forall|d: u8, m: CheckerMove|
                    #![trigger legal_move(b, d, m)]
                    distinct@.subrange(0, a as int).contains(d) ==> !legal_move(b, d, m),
                forall|ds: Seq<u8>, ms: Seq<CheckerMove>|
                    #[trigger] is_complete_play(b, dice, ds, ms) && ms.len() > 0 && distinct@.subrange(0, a as int).contains(ds[0])
                        ==> has_leaf(leaves@, start, pm + ms, pd + ds),
            decreases distinct@.len() - a,
        {
            let value = distinct[a];
            assert(distinct@.contains(value));
            let moves = self.legal_origins_for_die(value);
            let ghost a_before = distinct@.subrange(0, a as int);
            let ghost a_after = distinct@.subrange(0, a + 1);
            assert forall|x: u8| #[trigger] a_after.contains(x) <==> (a_before.contains(x) || x == value) by {
                if a_after.contains(x) {
                    let k = choose|k: int| 0 <= k < a_after.len() && a_after[k] == x;
                    if k < a {
                        assert(a_before[k] == x);
                    }
                }
                if a_before.contains(x) {
                    let k = choose|k: int| 0 <= k < a_before.len() && a_before[k] == x;
                    assert(a_after[k] == x);
                }
                if x == value {
                    assert(a_after[a as int] == x);
                }
            }
            let mut j: usize = 0;
            while j < moves.len()
                invariant
                    j <= moves@.len(),
                    a < distinct@.len(),
                    value == distinct@[a as int],
                    dice.contains(value),
                    1 <= value <= 6,
                    forall|m: CheckerMove| #[trigger] moves@.contains(m) <==> legal_move(b, value, m),
                    b == self.board(),
                    dice == die_values(dice_remaining@),
                    pm == ply_so_far.moves_seq(),
                    pd == dice_used@,
                    pm.len() + dice.len() <= 4,
                    pd.len() == pm.len(),
                    faces(dice),
                    plays_fit(b, dice, dice.len() as nat),
                    dice.len() == dice_remaining@.len(),
                    start == init.len(),
                    leaves@.len() >= start,
                    leaves@.subrange(0, start) == init,
                    forall|k: int| start <= k < leaves@.len() ==> leaf_extends(b, dice, pm, pd, #[trigger] leaves@[k]),
                    extended ==> exists|d: u8, m: CheckerMove| dice.contains(d) && legal_move(b, d, m),
                    !extended ==> j == 0,
                    !extended ==> forall|d: u8, m: CheckerMove|
                        #![trigger legal_move(b, d, m)]
                        a_before.contains(d) ==> !legal_move(b, d, m),
                    forall|ds: Seq<u8>, ms: Seq<CheckerMove>|
                        #[trigger] is_complete_play(b, dice, ds, ms) && ms.len() > 0 && (a_before.contains(ds[0]) || (
                        ds[0] == value && moves@.subrange(0, j as int).contains(ms[0])))
                            ==> has_leaf(leaves@, start, pm + ms, pd + ds),
                decreases moves@.len() - j,
            {
                let m = moves[j];
                assert(moves@.contains(m));
                assert(legal_move(b, value, m));
                extended = true;
                proof {
                    lemma_remove_one_len(dice, value);
                    lemma_remove_one_faces(dice, value);
                }
                let mut next_position = *self;
                next_position.apply_one(m);
                let next_ply = ply_so_far.pushed(m);
                let mut next_used = dice_used.clone();
                assert(next_used@ =~= dice_used@);
                next_used.push(value);
                let next_remaining = remove_one(dice_remaining, value);
                let ghost nb = board_apply_move(b, m);
                let ghost nd = remove_one_spec(dice, value);
                let ghost before = leaves@;
                next_position.collect_plies(&next_remaining, next_ply, next_used, leaves);
                proof {
                    lemma_step_keeps_leaves(b, dice, pm, pd, value, m, start, before, leaves@);
                    assert(moves@.subrange(0, j + 1) =~= moves@.subrange(0, j as int).push(m));
                    lemma_step_keeps_plays(
                        b,
                        dice,
                        pm,
                        pd,
                        value,
                        m,
                        start,
                        before,
                        leaves@,
                        a_before,
                        moves@.subrange(0, j as int),
                    );
                }
                j = j + 1;
            }
            proof {
                assert(moves@.subrange(0, moves@.len() as int) =~= moves@);
                if !extended {
                    assert forall|d: u8, m: CheckerMove| #![trigger legal_move(b, d, m)] a_after.contains(d) implies !legal_move(b, d, m) by {
                        if d == value && legal_move(b, d, m) {
                            assert(moves@.contains(m));
                        }
                    }
                }
            }
            a = a + 1;
        }
        proof {
            assert(distinct@.subrange(0, distinct@.len() as int) =~= distinct@);
        }
        if !extended {
            let ghost before = leaves@;
            leaves.push((*self, ply_so_far, dice_used));
            proof {
                assert forall|k: int| start <= k < leaves@.len() implies leaf_extends(b, dice, pm, pd, #[trigger] leaves@[k]) by {
                    if k == before.len() {
                        assert(pm.subrange(pm.len() as int, pm.len() as int) =~= Seq::<CheckerMove>::empty());
                        assert(pd.subrange(pd.len() as int, pd.len() as int) =~= Seq::<u8>::empty());
                        assert(pm.subrange(0, pm.len() as int) =~= pm);
                        assert(pd.subrange(0, pd.len() as int) =~= pd);
                        assert forall|d: u8, m: CheckerMove| #![trigger legal_move(b, d, m)] dice.contains(d) implies !legal_move(b, d, m) by {
                            assert(distinct@.contains(d));
                        }
                        assert(is_stuck(b, dice));
                    } else {
                        assert(leaves@[k] == before[k]);
                    }
                }
                assert(leaves@.subrange(0, start) =~= before.subrange(0, start));
                assert forall|ds: Seq<u8>, ms: Seq<CheckerMove>|
                    #[trigger] is_complete_play(b, dice, ds, ms) implies has_leaf(leaves@, start, pm + ms, pd + ds) by {
                    if ms.len() > 0 {
                        assert(distinct@.contains(ds[0]));
                        lemma_has_leaf_grows(before, leaves@, start, pm + ms, pd + ds);
                    } else {
                        assert(pm + ms =~= pm);
                        assert(pd + ds =~= pd);
                        assert(leaves@[before.len() as int].1.moves_seq() == pm + ms);
                    }
                }
            }
        } else {
            proof {
                assert forall|ds: Seq<u8>, ms: Seq<CheckerMove>|
                    #[trigger] is_complete_play(b, dice, ds, ms) implies has_leaf(leaves@, start, pm + ms, pd + ds) by {
                    if ms.len() == 0 {
                        let (d, m) = choose|d: u8, m: CheckerMove| dice.contains(d) && legal_move(b, d, m);
                        assert(!legal_move(b, d, m));
                    } else {
                        assert(distinct@.contains(ds[0]));
                    }
                }
            }
        }
    }
}


/// Each side has at most 15 checkers, as [`Position::from_raw`] demands.
pub open spec fn within_limits(b: Board) -> bool {
    &&& b.0.len() == 24
    &&& b.1.len() == 2
    &&& b.2.len() == 2
    &&& 0 <= mine_total(b.0, b.1, b.2) <= 15
    &&& 0 <= theirs_total(b.0, b.1, b.2) <= 15
}

spec fn positive_part(c: i8) -> int {
    if c > 0 {
        c as int
    } else {
        0
    }
}

spec fn negative_part(c: i8) -> int {
    if c < 0 {
        -(c as int)
    } else {
        0
    }
}

proof fn lemma_point_sums_nonnegative(pts: Seq<i8>, n: int)
    ensures
        mine_on_points(pts, n) >= 0,
        theirs_on_points(pts, n) >= 0,
    decreases n,
{
    if n > 0 {
        lemma_point_sums_nonnegative(pts, n - 1);
    }
}

proof fn lemma_point_sums_bound_each(pts: Seq<i8>, n: int, i: int)
    requires
        0 <= i < n,
    ensures
        positive_part(pts[i]) <= mine_on_points(pts, n),
        negative_part(pts[i]) <= theirs_on_points(pts, n),
    decreases n,
{
    lemma_point_sums_nonnegative(pts, n - 1);
    if i < n - 1 {
        lemma_point_sums_bound_each(pts, n - 1, i);
    }
}

proof fn lemma_point_sums_update(pts: Seq<i8>, n: int, i: int, v: i8)
    requires
        0 <= i < n <= pts.len(),
    ensures
        mine_on_points(pts.update(i, v), n) == mine_on_points(pts, n) - positive_part(pts[i]) + positive_part(v),
        theirs_on_points(pts.update(i, v), n) == theirs_on_points(pts, n) - negative_part(pts[i]) + negative_part(v),
    decreases n,
{
    if i < n - 1 {
        lemma_point_sums_update(pts, n - 1, i, v);
    } else {
        assert forall|k: int| 0 <= k < n - 1 implies pts.update(i, v)[k] == pts[k] by {}
        lemma_point_sums_same_prefix(pts.update(i, v), pts, n - 1);
    }
}

proof fn lemma_point_sums_same_prefix(a: Seq<i8>, b: Seq<i8>, n: int)
    requires
        forall|k: int| 0 <= k < n ==> a[k] == b[k],
    ensures
        mine_on_points(a, n) == mine_on_points(b, n),
        theirs_on_points(a, n) == theirs_on_points(b, n),
    decreases n,
{
    if n > 0 {
        lemma_point_sums_same_prefix(a, b, n - 1);
    }
}

/// A legal move keeps both sides' checker totals: a checker of the player on roll changes
/// place, and a hit opposing checker goes to the bar. So it never overflows a count on a
/// board within the limits, and the board stays within them.
pub proof fn lemma_legal_move_conserves_checkers(b: Board, die: u8, m: CheckerMove)
    requires
        within_limits(b),
        1 <= die <= 6,
        legal_move(b, die, m),
    ensures
        move_fits(b, m),
        within_limits(board_apply_move(b, m)),
        mine_total(board_apply_move(b, m).0, board_apply_move(b, m).1, board_apply_move(b, m).2)
            == mine_total(b.0, b.1, b.2),
        theirs_total(board_apply_move(b, m).0, board_apply_move(b, m).1, board_apply_move(b, m).2)
            == theirs_total(b.0, b.1, b.2),
{
    let l = lift(b, m);
    lemma_point_sums_nonnegative(b.0, 24);
    match m.from {
        Origin::Bar => {},
        Origin::Point(f) => {
            let i = f.value() as int;
            lemma_point_sums_update(b.0, 24, i, (b.0[i] - 1) as i8);
        },
    }
    lemma_point_sums_nonnegative(l.0, 24);
    match m.to {
        Destination::Off => {},
        Destination::Point(t) => {
            let i = t.value() as int;
            lemma_point_sums_bound_each(l.0, 24, i);
            if l.0[i] == -1 {
                lemma_point_sums_update(l.0, 24, i, 1i8);
            } else {
                lemma_point_sums_update(l.0, 24, i, (l.0[i] + 1) as i8);
            }
        },
    }
    lemma_point_sums_nonnegative(board_apply_move(b, m).0, 24);
}

/// Every board within the limits can be played from with any dice without overflowing a
/// count, so [`Position::generate_moves`] accepts every position [`Position::from_raw`]
/// accepts.
pub proof fn lemma_within_limits_plays_fit(b: Board, dice: Seq<u8>, depth: nat)
    requires
        within_limits(b),
        faces(dice),
    ensures
        plays_fit(b, dice, depth),
    decreases depth,
{
    if depth > 0 {
        assert forall|d: u8, m: CheckerMove| #![trigger legal_move(b, d, m)] dice.contains(d) && legal_move(b, d, m)
            implies move_fits(b, m) && plays_fit(board_apply_move(b, m), remove_one_spec(dice, d), (depth - 1) as nat) by {
            let k = choose|k: int| 0 <= k < dice.len() && dice[k] == d;
            assert(1 <= dice[k] <= 6);
            lemma_legal_move_conserves_checkers(b, d, m);
            lemma_remove_one_faces(dice, d);
            lemma_within_limits_plays_fit(board_apply_move(b, m), remove_one_spec(dice, d), (depth - 1) as nat);
        }
    }
}


/// A complete play from a board within the limits keeps both sides' checker totals.
pub proof fn lemma_complete_play_conserves_checkers(b: Board, dice: Seq<u8>, ds: Seq<u8>, ms: Seq<CheckerMove>)
    requires
        within_limits(b),
        faces(dice),
        is_complete_play(b, dice, ds, ms),
    ensures
        within_limits(board_apply_moves(b, ms)),
        mine_total(board_apply_moves(b, ms).0, board_apply_moves(b, ms).1, board_apply_moves(b, ms).2)
            == mine_total(b.0, b.1, b.2),
        theirs_total(board_apply_moves(b, ms).0, board_apply_moves(b, ms).1, board_apply_moves(b, ms).2)
            == theirs_total(b.0, b.1, b.2),
    decreases ms.len(),
{
    if ms.len() > 0 {
        let k = choose|k: int| 0 <= k < dice.len() && dice[k] == ds[0];
        assert(1 <= dice[k] <= 6);
        lemma_legal_move_conserves_checkers(b, ds[0], ms[0]);
        lemma_remove_one_faces(dice, ds[0]);
        lemma_complete_play_conserves_checkers(
            board_apply_move(b, ms[0]),
            remove_one_spec(dice, ds[0]),
            ds.drop_first(),
            ms.drop_first(),
        );
    }
}

/// The number of moves in `ms` that bear a checker off.
pub open spec fn bear_offs(ms: Seq<CheckerMove>) -> nat
    decreases ms.len(),
{
    if ms.len() == 0 {
        0
    } else {
        (if ms[0].to is Off {
            1nat
        } else {
            0nat
        }) + bear_offs(ms.drop_first())
    }
}

/// The number of moves in `ms` that enter a checker from the bar.
pub open spec fn entries(ms: Seq<CheckerMove>) -> nat
    decreases ms.len(),
{
    if ms.len() == 0 {
        0
    } else {
        (if ms[0].from is Bar {
            1nat
        } else {
            0nat
        }) + entries(ms.drop_first())
    }
}

/// The number of moves in `ms`, played in order from `b`, that land on a lone opposing
/// checker and hit it.
pub open spec fn hits(b: Board, ms: Seq<CheckerMove>) -> nat
    decreases ms.len(),
{
    if ms.len() == 0 {
        0
    } else {
        (if ms[0].to matches Destination::Point(t) && lift(b, ms[0]).0[t.value() as int] == -1 {
            1nat
        } else {
            0nat
        }) + hits(board_apply_move(b, ms[0]), ms.drop_first())
    }
}

/// Applying moves changes the bar and the borne-off counts only by what the moves do: the
/// player on roll's bar loses one checker per entering move and the borne-off count gains
/// one per bear-off, the opponent's bar gains one checker per hit, and the opponent's
/// borne-off count stays.
pub proof fn lemma_apply_counts(b: Board, ms: Seq<CheckerMove>)
    requires
        b.1.len() == 2,
        b.2.len() == 2,
        moves_fit(b, ms),
    ensures
        board_apply_moves(b, ms).1.len() == 2,
        board_apply_moves(b, ms).2.len() == 2,
        board_apply_moves(b, ms).1[0] == b.1[0] - entries(ms),
        board_apply_moves(b, ms).1[1] == b.1[1] + hits(b, ms),
        board_apply_moves(b, ms).2[0] == b.2[0] + bear_offs(ms),
        board_apply_moves(b, ms).2[1] == b.2[1],
    decreases ms.len(),
{
    if ms.len() > 0 {
        let m = ms[0];
        let nb = board_apply_move(b, m);
        assert(nb.1.len() == 2 && nb.2.len() == 2);
        assert(nb.1[0] == b.1[0] - (if m.from is Bar { 1int } else { 0int }));
        lemma_apply_counts(nb, ms.drop_first());
    }
}

} // verus!
