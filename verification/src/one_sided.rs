//! The one-sided bearoff database's shape: 15 checkers on the 6 home-board points, and the
//! positions its entries describe.

use vstd::prelude::*;

use crate::combinatorial::{
    count, count_spec, lemma_bearoff_counts, lemma_placement_sum_prefix_bound, lemma_placement_of_rank, lemma_placement_sum_push,
    lemma_rank_below_count, lemma_rank_then_placement,
    placement_of_rank, placement_sum, rank, rank_from, unrank,
};
use crate::moves::{
    board_apply_move, board_apply_moves, faces, is_chosen_play, is_complete_play, legal_move,
    lemma_complete_play_conserves_checkers, lemma_legal_move_conserves_checkers, lemma_within_limits_plays_fit,
    moves_fit, ply_is_chosen, roll_dice,
    lemma_remove_one_faces, remove_one_spec, within_limits, CheckerMove, Destination, Die, Origin, Roll,
};
use crate::position::{mine_on_points, theirs_on_points, Board, Position};

verus! {

/// Home-board points this database covers.
pub const POINTS: usize = 6;

/// Checkers per side.
pub const MAX_CHECKERS: u8 = 15;

/// Total pips of a home-board placement: a checker on point `i + 1` needs `i + 1` pips.
pub open spec fn pips(checkers: Seq<u8>) -> nat
    decreases checkers.len(),
{
    if checkers.len() == 0 {
        0
    } else {
        pips(checkers.drop_last()) + checkers.len() as nat * checkers.last() as nat
    }
}

/// The points of the one-sided position for a home-board placement.
pub open spec fn home_points(checkers: Seq<u8>) -> Seq<i8> {
    Seq::new(24, |i: int| if i < 6 { checkers[i] as i8 } else { 0i8 })
}

/// Total pips of a home-board placement.
pub fn pip_sum(checkers: &[u8; POINTS]) -> (p: u32)
    ensures
        p == pips(checkers@),
{
    let mut total: u32 = 0;
    let mut i: usize = 0;
    while i < POINTS
        invariant
            i <= POINTS,
            total == pips(checkers@.subrange(0, i as int)),
            total as int <= 1530 * (i as int),
        decreases POINTS - i,
    {
        assert(checkers@.subrange(0, i + 1).drop_last() =~= checkers@.subrange(0, i as int));
        let c = checkers[i] as u32;
        let weight = i as u32 + 1;
        assert(weight * c <= 6 * 255) by (nonlinear_arith)
            requires
                weight <= 6,
                c <= 255,
        ;
        total = total + weight * c;
        i = i + 1;
    }
    assert(checkers@.subrange(0, 6) =~= checkers@);
    total
}

proof fn lemma_small_counts(checkers: Seq<u8>)
    requires
        checkers.len() == 6,
        placement_sum(checkers) <= 15,
    ensures
        forall|i: int| 0 <= i < 6 ==> checkers[i] <= 15,
{
    assert forall|i: int| 0 <= i < 6 implies checkers[i] <= 15 by {
        lemma_placement_sum_prefix_bound(checkers, i);
    }
}

proof fn lemma_home_points_counts(checkers: Seq<u8>, n: int)
    requires
        checkers.len() == 6,
        forall|i: int| 0 <= i < 6 ==> checkers[i] <= 127,
        0 <= n <= 24,
    ensures
        mine_on_points(home_points(checkers), n) == placement_sum(checkers.take(if n < 6 { n } else { 6 })),
        theirs_on_points(home_points(checkers), n) == 0,
    decreases n,
{
    let pts = home_points(checkers);
    if n > 0 {
        lemma_home_points_counts(checkers, n - 1);
        if n <= 6 {
            lemma_placement_sum_push(checkers.take(n - 1), checkers[n - 1]);
            assert(checkers.take(n - 1).push(checkers[n - 1]) =~= checkers.take(n));
            assert(pts[n - 1] == checkers[n - 1] as i8);
        }
    } else {
        assert(checkers.take(0) =~= Seq::<u8>::empty());
    }
}

/// The position for a home-board placement: `checkers` on points 1..=6, the rest of the
/// player's 15 checkers borne off, and no opponent anywhere.
pub fn position_for(checkers: [u8; POINTS]) -> (p: Position)
    requires
        placement_sum(checkers@) <= MAX_CHECKERS,
    ensures
        p.points_seq() == home_points(checkers@),
        p.bar_seq() == seq![0u8, 0u8],
        p.off_seq() == seq![(MAX_CHECKERS - placement_sum(checkers@)) as u8, 0u8],
        within_limits(p.board()),
{
    let mut total: u32 = 0;
    let mut points = [0i8; 24];
    let mut i: usize = 0;
    proof {
        assert(checkers@.take(0) =~= Seq::<u8>::empty());
    }
    while i < POINTS
        invariant
            i <= POINTS,
            placement_sum(checkers@) <= 15,
            total == placement_sum(checkers@.take(i as int)),
            forall|j: int| 0 <= j < i ==> points@[j] == checkers@[j] as i8,
            forall|j: int| i <= j < 24 ==> points@[j] == 0,
        decreases POINTS - i,
    {
        proof {
            lemma_placement_sum_prefix_bound(checkers@, i as int);
            lemma_placement_sum_push(checkers@.take(i as int), checkers@[i as int]);
            assert(checkers@.take(i as int).push(checkers@[i as int]) =~= checkers@.take(i + 1));
        }
        total = total + checkers[i] as u32;
        points[i] = checkers[i] as i8;
        i = i + 1;
    }
    assert(points@ =~= home_points(checkers@));
    assert(checkers@.take(6) =~= checkers@);
    proof {
        lemma_small_counts(checkers@);
        lemma_home_points_counts(checkers@, 24);
    }
    let off = (MAX_CHECKERS as u32 - total) as u8;
    match Position::from_raw(points, [0, 0], [off, 0]) {
        Ok(p) => p,
        Err(_) => {
            assert(false);
            Position::from_raw_unchecked(points, [0, 0], [off, 0])
        },
    }
}

/// The distinct rolls whose lower die shows `low`, as (lower die, higher die): `(low, low)`
/// up to `(low, 6)`.
pub open spec fn rolls_with_low(low: int) -> Seq<(u8, u8)> {
    Seq::new((7 - low) as nat, |j: int| (low as u8, (low + j) as u8))
}

/// The distinct rolls whose lower die shows less than `low`, by lower die and then by
/// higher die.
pub open spec fn rolls_below(low: int) -> Seq<(u8, u8)>
    decreases low,
{
    if low <= 1 {
        Seq::empty()
    } else {
        rolls_below(low - 1) + rolls_with_low(low - 1)
    }
}

/// The 21 distinct rolls, as (lower die, higher die), in the order the database visits
/// them.
pub open spec fn distinct_rolls() -> Seq<(u8, u8)> {
    rolls_below(7)
}

/// A roll's weight in 36ths: how many of the 36 equally likely throws of two dice show it.
pub open spec fn roll_weight(low: u8, high: u8) -> u8 {
    if low == high {
        1
    } else {
        2
    }
}

/// The dice of each roll in `rolls`, as (lower die, higher die).
pub open spec fn roll_pairs(rolls: Seq<(Roll, u8)>) -> Seq<(u8, u8)> {
    rolls.map_values(|r: (Roll, u8)| (r.0.low(), r.0.high()))
}

/// Total weight of a sequence of rolls.
pub open spec fn total_weight(pairs: Seq<(u8, u8)>) -> nat
    decreases pairs.len(),
{
    if pairs.len() == 0 {
        0
    } else {
        total_weight(pairs.drop_last()) + roll_weight(pairs.last().0, pairs.last().1) as nat
    }
}

/// All 21 distinct rolls, each with its weight in 36ths (2 for a non-double, 1 for a
/// double).
pub fn all_rolls_with_weights() -> (rolls: Vec<(Roll, u8)>)
    ensures
        roll_pairs(rolls@) == distinct_rolls(),
        forall|k: int|
            0 <= k < rolls@.len() ==> (#[trigger] rolls@[k]).1 == roll_weight(rolls@[k].0.low(), rolls@[k].0.high()),
{
    let mut rolls: Vec<(Roll, u8)> = Vec::new();
    let mut d1: u8 = 1;
    assert(roll_pairs(rolls@) =~= rolls_below(1));
    while d1 <= 6
        invariant
            1 <= d1 <= 7,
            roll_pairs(rolls@) == rolls_below(d1 as int),
            forall|k: int|
                0 <= k < rolls@.len() ==> (#[trigger] rolls@[k]).1 == roll_weight(rolls@[k].0.low(), rolls@[k].0.high()),
        decreases 7 - d1,
    {
        let mut d2: u8 = d1;
        assert(roll_pairs(rolls@) =~= rolls_below(d1 as int) + rolls_with_low(d1 as int).take(0));
        while d2 <= 6
            invariant
                1 <= d1 <= 6,
                d1 <= d2 <= 7,
                roll_pairs(rolls@) == rolls_below(d1 as int) + rolls_with_low(d1 as int).take(d2 - d1),
                forall|k: int|
                    0 <= k < rolls@.len() ==> (#[trigger] rolls@[k]).1 == roll_weight(rolls@[k].0.low(), rolls@[k].0.high()),
            decreases 7 - d2,
        {
            let weight: u8 = if d1 == d2 {
                1
            } else {
                2
            };
            let roll = Roll::new(Die::new(d1), Die::new(d2));
            let ghost before = rolls@;
            rolls.push((roll, weight));
            assert(roll_pairs(rolls@) =~= roll_pairs(before).push((d1, d2)));
            assert(rolls_with_low(d1 as int).take(d2 - d1 + 1) =~= rolls_with_low(d1 as int).take(d2 - d1).push(
                (d1, d2),
            ));
            d2 = d2 + 1;
        }
        assert(rolls_with_low(d1 as int).take(7 - d1) =~= rolls_with_low(d1 as int));
        d1 = d1 + 1;
    }
    rolls
}

proof fn lemma_total_weight_concat(a: Seq<(u8, u8)>, b: Seq<(u8, u8)>)
    ensures
        total_weight(a + b) == total_weight(a) + total_weight(b),
    decreases b.len(),
{
    if b.len() > 0 {
        assert((a + b).drop_last() =~= a + b.drop_last());
        lemma_total_weight_concat(a, b.drop_last());
    } else {
        assert(a + b =~= a);
    }
}

proof fn lemma_row_weight(low: int, n: int)
    requires
        1 <= low <= 6,
        0 <= n <= 7 - low,
    ensures
        total_weight(rolls_with_low(low).take(n)) == if n == 0 {
            0
        } else {
            2 * n - 1
        },
    decreases n,
{
    if n > 0 {
        assert(rolls_with_low(low).take(n).drop_last() =~= rolls_with_low(low).take(n - 1));
        lemma_row_weight(low, n - 1);
    }
}

proof fn lemma_rolls_below_shape(low: int)
    requires
        1 <= low <= 7,
    ensures
        forall|k: int| 0 <= k < rolls_below(low).len() ==> 1 <= (#[trigger] rolls_below(low)[k]).0 < low
            && rolls_below(low)[k].0 <= rolls_below(low)[k].1 <= 6,
        forall|k1: int, k2: int|
            0 <= k1 < k2 < rolls_below(low).len() ==> (#[trigger] rolls_below(low)[k1]).0 < (
            #[trigger] rolls_below(low)[k2]).0 || (rolls_below(low)[k1].0 == rolls_below(low)[k2].0
                && rolls_below(low)[k1].1 < rolls_below(low)[k2].1),
        forall|a: u8, b: u8| 1 <= a < low && a <= b <= 6 ==> #[trigger] rolls_below(low).contains((a, b)),
    decreases low,
{
    if low > 1 {
        lemma_rolls_below_shape(low - 1);
        let prev = rolls_below(low - 1);
        let row = rolls_with_low(low - 1);
        assert(rolls_below(low) == prev + row);
        assert forall|a: u8, b: u8| 1 <= a < low && a <= b <= 6 implies #[trigger] rolls_below(low).contains((a, b)) by {
            if a < low - 1 {
                assert(prev.contains((a, b)));
                let k = choose|k: int| 0 <= k < prev.len() && prev[k] == (a, b);
                assert(rolls_below(low)[k] == (a, b));
            } else {
                let j = b - a;
                assert(row[j] == (a, b));
                assert(rolls_below(low)[prev.len() + j] == (a, b));
            }
        }
    }
}

/// The weighted rolls describe two fair dice: 21 distinct rolls, each once, every pair of
/// faces among them, and weights that add up to all 36 throws.
pub proof fn lemma_distinct_rolls()
    ensures
        distinct_rolls().len() == 21,
        total_weight(distinct_rolls()) == 36,
        forall|k: int| 0 <= k < 21 ==> 1 <= (#[trigger] distinct_rolls()[k]).0 <= distinct_rolls()[k].1 <= 6,
        forall|k1: int, k2: int|
            0 <= k1 < k2 < 21 ==> #[trigger] distinct_rolls()[k1] != #[trigger] distinct_rolls()[k2],
        forall|a: u8, b: u8| 1 <= a <= b <= 6 ==> #[trigger] distinct_rolls().contains((a, b)),
{
    reveal_with_fuel(rolls_below, 8);
    lemma_rolls_below_shape(7);
    lemma_rolls_below_weight(7);
}

proof fn lemma_rolls_below_weight(low: int)
    requires
        1 <= low <= 7,
    ensures
        total_weight(rolls_below(low)) == (low - 1) * (13 - low),
    decreases low,
{
    if low > 1 {
        let d = low - 1;
        lemma_rolls_below_weight(d);
        assert(rolls_with_low(d).take(7 - d) =~= rolls_with_low(d));
        lemma_row_weight(d, 7 - d);
        lemma_total_weight_concat(rolls_below(d), rolls_with_low(d));
        assert(d * (12 - d) == (d - 1) * (13 - d) + 13 - 2 * d) by (nonlinear_arith);
    } else {
        assert(total_weight(Seq::<(u8, u8)>::empty()) == 0);
    }
}

/// Pips of the player on roll on the first `n` points: a checker on index `i` needs
/// `i + 1`.
pub open spec fn board_pips(points: Seq<i8>, n: int) -> int
    decreases n,
{
    if n <= 0 {
        0
    } else {
        board_pips(points, n - 1) + n * points[n - 1]
    }
}

/// A board as the one-sided database sees it: within the limits, nothing on the bar for
/// the player on roll, no opposing checker on any point, and every checker on the board
/// in the home board.
pub open spec fn one_sided(b: Board) -> bool {
    &&& within_limits(b)
    &&& b.1[0] == 0
    &&& forall|i: int| 0 <= i < 24 ==> b.0[i] >= 0
    &&& forall|i: int| 6 <= i < 24 ==> b.0[i] == 0
}

/// The board of [`position_for`]`(checkers)`.
pub open spec fn bearoff_board(checkers: Seq<u8>) -> Board {
    (home_points(checkers), seq![0u8, 0u8], seq![(MAX_CHECKERS - placement_sum(checkers)) as u8, 0u8])
}

proof fn lemma_board_pips_update(points: Seq<i8>, n: int, i: int, v: i8)
    requires
        0 <= i < n <= points.len(),
    ensures
        board_pips(points.update(i, v), n) == board_pips(points, n) - (i + 1) * points[i] + (i + 1) * v,
    decreases n,
{
    if i < n - 1 {
        lemma_board_pips_update(points, n - 1, i, v);
    } else {
        lemma_board_pips_same_prefix(points.update(i, v), points, n - 1);
    }
}

proof fn lemma_board_pips_same_prefix(a: Seq<i8>, b: Seq<i8>, n: int)
    requires
        n <= a.len(),
        n <= b.len(),
        forall|k: int| 0 <= k < n ==> a[k] == b[k],
    ensures
        board_pips(a, n) == board_pips(b, n),
    decreases n,
{
    if n > 0 {
        lemma_board_pips_same_prefix(a, b, n - 1);
    }
}

/// A legal move on a one-sided board keeps it one-sided and takes pips off it: the die's
/// value when a checker moves, the checker's own point when it bears off.
pub proof fn lemma_one_sided_move_loses_pips(b: Board, die: u8, m: CheckerMove)
    requires
        one_sided(b),
        1 <= die <= 6,
        legal_move(b, die, m),
    ensures
        one_sided(board_apply_move(b, m)),
        board_pips(board_apply_move(b, m).0, 24) < board_pips(b.0, 24),
{
    lemma_legal_move_conserves_checkers(b, die, m);
    let nb = board_apply_move(b, m);
    if let Origin::Point(f) = m.from {
        let fi = f.value() as int;
        assert(fi < 6);
        let x = b.0[fi] as int;
        let lifted = b.0.update(fi, (x - 1) as i8);
        lemma_board_pips_update(b.0, 24, fi, (x - 1) as i8);
        assert((fi + 1) * (x - 1) == (fi + 1) * x - (fi + 1)) by (nonlinear_arith);
        match m.to {
            Destination::Off => {
                assert(nb.0 == lifted);
            },
            Destination::Point(t) => {
                let ti = t.value() as int;
                let y = lifted[ti] as int;
                assert(y >= 0);
                assert(nb.0 == lifted.update(ti, (y + 1) as i8));
                lemma_board_pips_update(lifted, 24, ti, (y + 1) as i8);
                assert((ti + 1) * (y + 1) == (ti + 1) * y + (ti + 1)) by (nonlinear_arith);
            },
        }
    }
}

/// Every play from a one-sided board stays one-sided and loses at least one pip per move.
pub proof fn lemma_one_sided_play_loses_pips(b: Board, dice: Seq<u8>, ds: Seq<u8>, ms: Seq<CheckerMove>)
    requires
        one_sided(b),
        faces(dice),
        is_complete_play(b, dice, ds, ms),
    ensures
        one_sided(board_apply_moves(b, ms)),
        board_pips(board_apply_moves(b, ms).0, 24) + ms.len() <= board_pips(b.0, 24),
    decreases ms.len(),
{
    if ms.len() > 0 {
        let k = choose|k: int| 0 <= k < dice.len() && dice[k] == ds[0];
        assert(1 <= dice[k] <= 6);
        lemma_one_sided_move_loses_pips(b, ds[0], ms[0]);
        lemma_remove_one_faces(dice, ds[0]);
        lemma_one_sided_play_loses_pips(
            board_apply_move(b, ms[0]),
            remove_one_spec(dice, ds[0]),
            ds.drop_first(),
            ms.drop_first(),
        );
    }
}

proof fn lemma_home_pips(checkers: Seq<u8>, n: int)
    requires
        checkers.len() == 6,
        forall|i: int| 0 <= i < 6 ==> checkers[i] <= 127,
        0 <= n <= 24,
    ensures
        board_pips(home_points(checkers), n) == pips(checkers.take(if n < 6 { n } else { 6 })),
    decreases n,
{
    if n > 0 {
        lemma_home_pips(checkers, n - 1);
        let pts = home_points(checkers);
        if n <= 6 {
            assert(checkers.take(n).drop_last() =~= checkers.take(n - 1));
            assert(pts[n - 1] == checkers[n - 1] as int);
            assert(checkers.take(n).last() == checkers[n - 1]);
        } else {
            assert(pts[n - 1] == 0);
            assert(n * pts[n - 1] == 0) by (nonlinear_arith)
                requires
                    pts[n - 1] == 0,
            ;
        }
    } else {
        assert(checkers.take(0) =~= Seq::<u8>::empty());
    }
}

/// Every play in the one-sided bearoff database moves at least one checker and reaches a
/// position with strictly fewer pips, whose placement is the home-board counts it leaves:
/// so building the database in increasing pip order computes every position after all
/// the positions its plays reach.
pub proof fn lemma_bearoff_plays_lose_pips(checkers: Seq<u8>, dice: Seq<u8>, ds: Seq<u8>, ms: Seq<CheckerMove>)
    requires
        checkers.len() == POINTS,
        placement_sum(checkers) <= MAX_CHECKERS,
        faces(dice),
        is_complete_play(bearoff_board(checkers), dice, ds, ms),
        ms.len() > 0,
    ensures
        ({
            let after = board_apply_moves(bearoff_board(checkers), ms);
            let next = Seq::new(POINTS as nat, |i: int| after.0[i] as u8);
            &&& after == bearoff_board(next)
            &&& placement_sum(next) <= MAX_CHECKERS
            &&& pips(next) < pips(checkers)
        }),
{
    let b = bearoff_board(checkers);
    lemma_small_counts(checkers);
    lemma_home_points_counts(checkers, 24);
    assert(checkers.take(6) =~= checkers);
    assert(one_sided(b));
    lemma_one_sided_play_loses_pips(b, dice, ds, ms);
    let after = board_apply_moves(b, ms);
    let next = Seq::new(POINTS as nat, |i: int| after.0[i] as u8);
    assert(after.0 =~= home_points(next));
    lemma_home_pips(checkers, 24);
    lemma_home_pips(next, 24);
    assert(checkers.take(6) =~= checkers);
    assert(next.take(6) =~= next);
    lemma_home_points_counts(next, 24);
    lemma_complete_play_conserves_checkers(b, dice, ds, ms);
    assert(after.1 =~= seq![0u8, 0u8]);
    assert(after.2 =~= seq![(MAX_CHECKERS - placement_sum(next)) as u8, 0u8]);
}

/// Checkers on the board in a home-board placement.
pub fn checkers_on_board(checkers: &[u8; POINTS]) -> (n: u32)
    ensures
        n == placement_sum(checkers@),
{
    let mut total: u32 = 0;
    let mut i: usize = 0;
    assert(checkers@.take(0) =~= Seq::<u8>::empty());
    while i < POINTS
        invariant
            i <= POINTS,
            total == placement_sum(checkers@.take(i as int)),
            total <= 255 * i,
        decreases POINTS - i,
    {
        proof {
            lemma_placement_sum_push(checkers@.take(i as int), checkers@[i as int]);
            assert(checkers@.take(i as int).push(checkers@[i as int]) =~= checkers@.take(i + 1));
        }
        total = total + checkers[i] as u32;
        i = i + 1;
    }
    assert(checkers@.take(6) =~= checkers@);
    total
}

/// `next` is the home-board placement that some play the rules allow for `roll` reaches
/// from `checkers`.
pub open spec fn is_child(checkers: Seq<u8>, roll: Roll, next: Seq<u8>) -> bool {
    exists|ds: Seq<u8>, ms: Seq<CheckerMove>|
        #[trigger] is_chosen_play(bearoff_board(checkers), roll, ds, ms) && board_apply_moves(
            bearoff_board(checkers),
            ms,
        ) == bearoff_board(next)
}

/// Where one roll can take a home-board placement: for each distinct position that a play
/// the rules allow for `roll` reaches, its placement, that placement's index, and whether
/// the play bore a checker off. Every such placement has fewer pips than `checkers`.
pub fn bearoff_children(checkers: [u8; POINTS], roll: Roll) -> (children: Vec<([u8; POINTS], usize, bool)>)
    requires
        placement_sum(checkers@) <= MAX_CHECKERS,
    ensures
        forall|k: int|
            0 <= k < children@.len() ==> {
                let c = #[trigger] children@[k];
                &&& is_child(checkers@, roll, c.0@)
                &&& placement_sum(c.0@) <= MAX_CHECKERS
                &&& pips(c.0@) < pips(checkers@)
                &&& c.1 == rank_from(MAX_CHECKERS as nat, c.0@)
                &&& c.2 == (placement_sum(c.0@) < placement_sum(checkers@))
            },
        forall|ds: Seq<u8>, ms: Seq<CheckerMove>|
            #[trigger] is_chosen_play(bearoff_board(checkers@), roll, ds, ms) ==> exists|k: int|
                0 <= k < children@.len() && bearoff_board((#[trigger] children@[k]).0@) == board_apply_moves(
                    bearoff_board(checkers@),
                    ms,
                ),
        forall|k1: int, k2: int|
            0 <= k1 < k2 < children@.len() ==> (#[trigger] children@[k1]).0@ != (#[trigger] children@[k2]).0@,
{
    let position = position_for(checkers);
    let ghost b = bearoff_board(checkers@);
    assert(position.board() =~= b);
    // Both dice show faces 1..=6.
    let (low, high) = roll.dice();
    let (_, _) = (low.get(), high.get());
    let ghost rd = roll_dice(roll);
    proof {
        assert(faces(rd));
        lemma_within_limits_plays_fit(b, rd, rd.len() as nat);
        lemma_bearoff_counts();
    }
    let plies = position.generate_moves(roll);
    let total = checkers_on_board(&checkers);
    let mut children: Vec<([u8; POINTS], usize, bool)> = Vec::new();
    let mut k: usize = 0;
    while k < plies.len()
        invariant
            k <= plies@.len(),
            children@.len() == k,
            position.board() == b,
            b == bearoff_board(checkers@),
            faces(rd),
            rd == roll_dice(roll),
            placement_sum(checkers@) <= MAX_CHECKERS,
            total == placement_sum(checkers@),
            count_spec(6, 15) == 54264,
            forall|j: int| 0 <= j < plies@.len() ==> ply_is_chosen(b, roll, #[trigger] plies@[j]),
            forall|j: int| 0 <= j < plies@.len() ==> moves_fit(b, #[trigger] plies@[j].moves_seq()),
            forall|j: int|
                0 <= j < k ==> {
                    let c = #[trigger] children@[j];
                    &&& is_child(checkers@, roll, c.0@)
                    &&& bearoff_board(c.0@) == board_apply_moves(b, plies@[j].moves_seq())
                    &&& placement_sum(c.0@) <= MAX_CHECKERS
                    &&& pips(c.0@) < pips(checkers@)
                    &&& c.1 == rank_from(MAX_CHECKERS as nat, c.0@)
                    &&& c.2 == (placement_sum(c.0@) < placement_sum(checkers@))
                },
        decreases plies@.len() - k,
    {
        let ply = &plies[k];
        let after = position.apply(ply);
        let ghost ms = ply.moves_seq();
        let ghost ds = choose|ds: Seq<u8>| is_chosen_play(b, roll, ds, ms);
        let ghost next = Seq::new(POINTS as nat, |i: int| after.board().0[i] as u8);
        proof {
            assert(ply_is_chosen(b, roll, plies@[k as int]));
            lemma_bearoff_plays_lose_pips(checkers@, rd, ds, ms);
            lemma_small_counts(next);
        }
        let mut placement = [0u8; POINTS];
        let mut i: usize = 0;
        while i < POINTS
            invariant
                i <= POINTS,
                after.board() == bearoff_board(next),
                next.len() == POINTS,
                forall|j: int| 0 <= j < POINTS ==> next[j] <= 15,
                forall|j: int| 0 <= j < i ==> placement@[j] == next[j],
            decreases POINTS - i,
        {
            placement[i] = after.point(i) as u8;
            i = i + 1;
        }
        assert(placement@ =~= next);
        proof {
            lemma_rank_below_count(MAX_CHECKERS as nat, next);
            assert(is_chosen_play(b, roll, ds, ms));
        }
        let index = rank(MAX_CHECKERS, placement);
        let bore_off = checkers_on_board(&placement) < total;
        children.push((placement, index, bore_off));
        k = k + 1;
    }
    assert forall|ds: Seq<u8>, ms: Seq<CheckerMove>| #[trigger] is_chosen_play(b, roll, ds, ms) implies exists|j: int|
        0 <= j < children@.len() && bearoff_board((#[trigger] children@[j]).0@) == board_apply_moves(b, ms) by {
        let j = choose|j: int|
            0 <= j < plies@.len() && board_apply_moves(b, #[trigger] plies@[j].moves_seq()) == board_apply_moves(b, ms);
        assert(bearoff_board(children@[j].0@) == board_apply_moves(b, ms));
    }
    children
}

/// Pips of the placement with index `index`.
pub open spec fn pips_at(index: nat) -> nat {
    pips(placement_of_rank(POINTS as nat, MAX_CHECKERS as nat, index))
}

/// Placement `a` comes before placement `b` by pip count, and by index among equal
/// pip counts.
pub open spec fn pip_order_before(a: nat, b: nat) -> bool {
    pips_at(a) < pips_at(b) || (pips_at(a) == pips_at(b) && a < b)
}

/// Every placement index of the database, in increasing order of pips and of index among
/// equal pips: the order in which the database is built, since every play reaches a
/// placement with fewer pips.
pub fn positions_in_pip_order() -> (order: Vec<usize>)
    ensures
        forall|k: int| 0 <= k < order@.len() ==> (#[trigger] order@[k]) < count_spec(POINTS as nat, MAX_CHECKERS as nat),
        forall|i: usize| i < count_spec(POINTS as nat, MAX_CHECKERS as nat) ==> #[trigger] order@.contains(i),
        forall|k1: int, k2: int|
            0 <= k1 < k2 < order@.len() ==> pip_order_before(
                (#[trigger] order@[k1]) as nat,
                (#[trigger] order@[k2]) as nat,
            ),
{
    proof {
        lemma_bearoff_counts();
    }
    let total = count(POINTS, MAX_CHECKERS);
    let mut pip_counts: Vec<u32> = Vec::new();
    let mut highest: u32 = 0;
    let mut index: usize = 0;
    while index < total
        invariant
            total == count_spec(POINTS as nat, MAX_CHECKERS as nat),
            total <= usize::MAX,
            index <= total,
            pip_counts@.len() == index,
            forall|i: int| 0 <= i < index ==> #[trigger] pip_counts@[i] == pips_at(i as nat),
            forall|i: int| 0 <= i < index ==> #[trigger] pip_counts@[i] <= highest,
        decreases total - index,
    {
        let checkers: [u8; POINTS] = unrank(MAX_CHECKERS, index);
        let p = pip_sum(&checkers);
        pip_counts.push(p);
        if p > highest {
            highest = p;
        }
        index = index + 1;
    }
    let mut order: Vec<usize> = Vec::new();
    let mut p: u64 = 0;
    while p <= highest as u64
        invariant
            total == count_spec(POINTS as nat, MAX_CHECKERS as nat),
            pip_counts@.len() == total,
            forall|i: int| 0 <= i < total ==> #[trigger] pip_counts@[i] == pips_at(i as nat),
            forall|i: int| 0 <= i < total ==> #[trigger] pip_counts@[i] <= highest,
            p <= highest as u64 + 1,
            forall|k: int| 0 <= k < order@.len() ==> (#[trigger] order@[k]) < total,
            forall|k: int| 0 <= k < order@.len() ==> pips_at((#[trigger] order@[k]) as nat) < p,
            forall|i: usize| i < total && pips_at(i as nat) < p ==> #[trigger] order@.contains(i),
            forall|k1: int, k2: int|
                0 <= k1 < k2 < order@.len() ==> pip_order_before(
                    (#[trigger] order@[k1]) as nat,
                    (#[trigger] order@[k2]) as nat,
                ),
        decreases highest as u64 + 1 - p,
    {
        let mut j: usize = 0;
        while j < total
            invariant
                total == count_spec(POINTS as nat, MAX_CHECKERS as nat),
                pip_counts@.len() == total,
                forall|i: int| 0 <= i < total ==> #[trigger] pip_counts@[i] == pips_at(i as nat),
                p <= highest as u64,
                j <= total,
                forall|k: int| 0 <= k < order@.len() ==> (#[trigger] order@[k]) < total,
                forall|k: int|
                    0 <= k < order@.len() ==> pips_at((#[trigger] order@[k]) as nat) < p || (pips_at(
                        order@[k] as nat,
                    ) == p && order@[k] < j),
                forall|i: usize|
                    i < total && (pips_at(i as nat) < p || (pips_at(i as nat) == p && i < j))
                        ==> #[trigger] order@.contains(i),
                forall|k1: int, k2: int|
                    0 <= k1 < k2 < order@.len() ==> pip_order_before(
                        (#[trigger] order@[k1]) as nat,
                        (#[trigger] order@[k2]) as nat,
                    ),
            decreases total - j,
        {
            if pip_counts[j] as u64 == p {
                let ghost before = order@;
                order.push(j);
                proof {
                    assert forall|i: usize|
                        i < total && (pips_at(i as nat) < p || (pips_at(i as nat) == p && i < j + 1))
                            implies #[trigger] order@.contains(i) by {
                        if i == j {
                            assert(order@[before.len() as int] == i);
                        } else {
                            assert(before.contains(i));
                            let k = choose|k: int| 0 <= k < before.len() && before[k] == i;
                            assert(order@[k] == i);
                        }
                    }
                }
            }
            j = j + 1;
        }
        p = p + 1;
    }
    assert forall|i: usize| i < count_spec(POINTS as nat, MAX_CHECKERS as nat) implies #[trigger] order@.contains(i) by {
        assert(pip_counts@[i as int] <= highest);
    }
    order
}

/// Every placement a roll can lead to has fewer pips than the one it leaves, so
/// [`positions_in_pip_order`] lists it earlier: building the database in that order finds
/// every placement's children already computed.
pub proof fn lemma_children_come_first(parent: nat, roll: Roll, next: Seq<u8>)
    requires
        parent < count_spec(POINTS as nat, MAX_CHECKERS as nat),
        faces(roll_dice(roll)),
        next.len() == POINTS,
        is_child(placement_of_rank(POINTS as nat, MAX_CHECKERS as nat, parent), roll, next),
    ensures
        rank_from(MAX_CHECKERS as nat, next) < count_spec(POINTS as nat, MAX_CHECKERS as nat),
        placement_of_rank(POINTS as nat, MAX_CHECKERS as nat, rank_from(MAX_CHECKERS as nat, next)) == next,
        pip_order_before(rank_from(MAX_CHECKERS as nat, next), parent),
{
    let checkers = placement_of_rank(POINTS as nat, MAX_CHECKERS as nat, parent);
    lemma_placement_of_rank(POINTS as nat, MAX_CHECKERS as nat, parent);
    let b = bearoff_board(checkers);
    let (ds, ms) = choose|ds: Seq<u8>, ms: Seq<CheckerMove>|
        #[trigger] is_chosen_play(b, roll, ds, ms) && board_apply_moves(b, ms) == bearoff_board(next);
    lemma_bearoff_plays_lose_pips(checkers, roll_dice(roll), ds, ms);
    let after = board_apply_moves(b, ms);
    let reached = Seq::new(POINTS as nat, |i: int| after.0[i] as u8);
    lemma_small_counts(reached);
    assert forall|i: int| 0 <= i < POINTS implies next[i] == reached[i] by {
        let x = next[i];
        assert(home_points(next)[i] == home_points(reached)[i]);
        assert((x as i8) >= 0 ==> x <= 127) by (bit_vector);
    }
    assert(next =~= reached);
    lemma_rank_below_count(MAX_CHECKERS as nat, next);
    lemma_rank_then_placement(MAX_CHECKERS as nat, next);
}

} // verus!
