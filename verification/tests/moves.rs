use opengammon::{CheckerMove, Destination, Die, Origin, Ply, PointIndex, Position, Roll};

#[test]
fn apply_moves_a_checker_between_points() {
    let position = Position::starting();
    let ply = Ply::empty().pushed(CheckerMove {
        from: Origin::Point(PointIndex::new(23)),
        to: Destination::Point(PointIndex::new(17)),
    });

    let result = position.apply(&ply);

    assert_eq!(result.point(23), 1);
    assert_eq!(result.point(17), 1);
    assert_eq!(result.bar(), [0, 0]);
}

#[test]
fn apply_hits_a_blot_sending_it_to_the_bar() {
    let mut points = [0i8; 24];
    points[10] = 1; // mine
    points[5] = -1; // opponent's lone blot
    let position = Position::from_raw_unchecked(points, [0, 0], [0, 0]);

    let ply = Ply::empty().pushed(CheckerMove {
        from: Origin::Point(PointIndex::new(10)),
        to: Destination::Point(PointIndex::new(5)),
    });
    let result = position.apply(&ply);

    assert_eq!(result.point(5), 1, "my checker now occupies the point");
    assert_eq!(
        result.bar(),
        [0, 1],
        "the hit blot goes to the opponent's bar"
    );
}

#[test]
fn apply_enters_from_the_bar() {
    let position = Position::from_raw_unchecked([0i8; 24], [1, 0], [0, 0]);

    let ply = Ply::empty().pushed(CheckerMove {
        from: Origin::Bar,
        to: Destination::Point(PointIndex::new(21)),
    });
    let result = position.apply(&ply);

    assert_eq!(result.bar(), [0, 0]);
    assert_eq!(result.point(21), 1);
}

#[test]
fn apply_bears_off() {
    let mut points = [0i8; 24];
    points[2] = 1;
    let position = Position::from_raw_unchecked(points, [0, 0], [0, 0]);

    let ply = Ply::empty().pushed(CheckerMove {
        from: Origin::Point(PointIndex::new(2)),
        to: Destination::Off,
    });
    let result = position.apply(&ply);

    assert_eq!(result.point(2), 0);
    assert_eq!(result.off(), [1, 0]);
}

#[test]
fn entry_from_bar() {
    // One checker on the bar; the point one step past its entry point is
    // blocked, so exactly one die is usable: the entry itself.
    let mut points = [0i8; 24];
    points[18] = -2; // blocks continuing past the entry point
    let position = Position::from_raw_unchecked(points, [1, 0], [0, 0]);

    let roll = Roll::new(Die::new(3), Die::new(3));
    let moves = position.generate_moves(roll);

    assert_eq!(moves.len(), 1);
    let ply = &moves[0];
    assert_eq!(ply.len(), 1);
    let checker_move = ply.moves()[0];
    assert_eq!(checker_move.from, Origin::Bar);
    assert_eq!(checker_move.to, Destination::Point(PointIndex::new(21)));

    let result = position.apply(ply);
    assert_eq!(result.bar()[0], 0);
    assert_eq!(result.point(21), 1);
}

#[test]
fn entry_from_bar_blocked() {
    // One checker on the bar; every entry point is doubly covered, and an
    // otherwise-movable checker elsewhere must NOT move instead.
    let mut points = [0i8; 24];
    points[18..24].fill(-2);
    points[12] = 1; // would be movable if the bar didn't take precedence
    let position = Position::from_raw_unchecked(points, [1, 0], [0, 0]);

    let roll = Roll::new(Die::new(2), Die::new(5));
    assert!(position.generate_moves(roll).is_empty());
}

#[test]
fn forced_higher_die_when_only_one_playable() {
    // A single checker can play the 3 alone or the 6 alone, but never both. Must play
    // the 6.
    let mut points = [0i8; 24];
    points[12] = 1; // point 13
    points[3] = -2; // point 4, blocks the point both orderings need next
    let position = Position::from_raw_unchecked(points, [0, 0], [0, 0]);

    let roll = Roll::new(Die::new(3), Die::new(6));
    let moves = position.generate_moves(roll);

    assert_eq!(moves.len(), 1);
    let ply = &moves[0];
    assert_eq!(ply.len(), 1);
    let checker_move = ply.moves()[0];
    assert_eq!(checker_move.from, Origin::Point(PointIndex::new(12)));
    assert_eq!(checker_move.to, Destination::Point(PointIndex::new(6)));
}

#[test]
fn doubles_with_fewer_than_four_moves() {
    // Double 4s: a single checker can run two 4s (13 -> 9 -> 5) before the
    // third is blocked, so only 2 of the 4 dice are usable.
    let mut points = [0i8; 24];
    points[12] = 1; // point 13
    points[0] = -2; // point 1, blocks the third 4
    let position = Position::from_raw_unchecked(points, [0, 0], [0, 0]);

    let roll = Roll::new(Die::new(4), Die::new(4));
    let moves = position.generate_moves(roll);

    assert_eq!(moves.len(), 1);
    let ply = &moves[0];
    assert_eq!(ply.len(), 2);

    let result = position.apply(ply);
    assert_eq!(result.point(12), 0);
    assert_eq!(result.point(4), 1);
}

#[test]
fn bearoff_requires_all_checkers_home() {
    // One checker already home (point 6), one still outside (point 13).
    // Double 6s: the only legal sequence brings the outside checker home
    // first, then bears off both.
    let mut points = [0i8; 24];
    points[5] = 1; // point 6, home
    points[12] = 1; // point 13, not home
    let position = Position::from_raw_unchecked(points, [0, 0], [0, 0]);

    let roll = Roll::new(Die::new(6), Die::new(6));
    let moves = position.generate_moves(roll);

    assert_eq!(moves.len(), 1);
    let ply = &moves[0];
    assert_eq!(ply.len(), 4, "all 4 sixes: 13->7->1, then both borne off");

    let result = position.apply(ply);
    assert_eq!(result.point(5), 0);
    assert_eq!(result.point(12), 0);
    assert_eq!(result.off()[0], 2);
}

#[test]
fn bearoff_from_higher_die() {
    // Only checker at point 3, home. No checker on any higher home point,
    // so a 6 (bigger than the point number) can still bear it off.
    let mut points = [0i8; 24];
    points[2] = 1; // point 3
    let position = Position::from_raw_unchecked(points, [0, 0], [0, 0]);

    let roll = Roll::new(Die::new(6), Die::new(6));
    let moves = position.generate_moves(roll);

    assert_eq!(moves.len(), 1);
    let ply = &moves[0];
    assert_eq!(
        ply.len(),
        1,
        "only 1 checker to bear off, the other 3 sixes are unusable"
    );
    let checker_move = ply.moves()[0];
    assert_eq!(checker_move.from, Origin::Point(PointIndex::new(2)));
    assert_eq!(checker_move.to, Destination::Off);
}

#[test]
fn no_legal_moves() {
    // A single checker whose only two possible destinations (for either
    // die) are both blocked.
    let mut points = [0i8; 24];
    points[12] = 1; // point 13
    points[10] = -2; // blocks the 2
    points[9] = -2; // blocks the 3
    let position = Position::from_raw_unchecked(points, [0, 0], [0, 0]);

    let roll = Roll::new(Die::new(2), Die::new(3));
    assert!(position.generate_moves(roll).is_empty());
}

fn all_rolls() -> Vec<Roll> {
    let mut rolls = Vec::new();
    for a in 1..=6u8 {
        for b in a..=6u8 {
            rolls.push(Roll::new(Die::new(a), Die::new(b)));
        }
    }
    rolls
}

fn side_totals(p: &Position) -> (i32, i32) {
    let mut mine = p.bar()[0] as i32 + p.off()[0] as i32;
    let mut theirs = p.bar()[1] as i32 + p.off()[1] as i32;
    for i in 0..24 {
        let c = p.point(i) as i32;
        if c > 0 {
            mine += c;
        } else {
            theirs -= c;
        }
    }
    (mine, theirs)
}

#[test]
fn starting_position_plays_keep_every_checker_and_reach_distinct_boards() {
    let start = Position::starting();
    for roll in all_rolls() {
        let plies = start.generate_moves(roll);
        assert!(!plies.is_empty(), "{roll:?} has a play from the start");
        let want = if roll.is_double() { 4 } else { 2 };
        let mut boards = Vec::new();
        for ply in &plies {
            assert_eq!(ply.len(), want, "{roll:?} uses every die from the start");
            let next = start.apply(ply);
            assert_eq!(side_totals(&next), (15, 15));
            assert!(!boards.contains(&next), "{roll:?} repeats a board");
            boards.push(next);
        }
    }
}

#[test]
fn roll_orders_its_dice() {
    let roll = Roll::new(Die::new(5), Die::new(3));
    assert_eq!(roll.dice().0.get(), 3);
    assert_eq!(roll.dice().1.get(), 5);
    assert_eq!(roll, Roll::new(Die::new(3), Die::new(5)));
    assert!(!roll.is_double());
    assert!(Roll::new(Die::new(2), Die::new(2)).is_double());
}

#[test]
fn ply_records_moves_in_order() {
    let a = CheckerMove {
        from: Origin::Point(PointIndex::new(7)),
        to: Destination::Point(PointIndex::new(4)),
    };
    let b = CheckerMove { from: Origin::Point(PointIndex::new(4)), to: Destination::Off };
    let empty = Ply::empty();
    assert!(empty.is_empty());
    assert_eq!(empty.len(), 0);
    let ply = empty.pushed(a).pushed(b);
    assert!(!ply.is_empty());
    assert_eq!(ply.len(), 2);
    assert_eq!(ply.moves(), vec![a, b]);
    assert_eq!(PointIndex::new(7).get(), 7);
}

#[test]
fn lower_die_is_played_when_the_higher_cannot_be() {
    // A lone checker on point 8 with 6-2: the 6 is blocked (point 2 closed), so the 2
    // goes first; from point 6 every checker is home and the 6 bears it off.
    let mut points = [0i8; 24];
    points[7] = 1; // point 8
    points[1] = -2; // point 2
    let position = Position::from_raw_unchecked(points, [0, 0], [0, 0]);
    let plies = position.generate_moves(Roll::new(Die::new(6), Die::new(2)));
    assert_eq!(plies.len(), 1);
    assert_eq!(plies[0].len(), 2);
    let result = position.apply(&plies[0]);
    assert_eq!(result.off()[0], 1);
}

#[test]
fn bearoff_needs_no_checker_on_a_higher_point() {
    // Checkers on points 2 and 5 with 6-6: the 6 cannot bear off the checker on
    // point 2 while one stands on point 5, so the point-5 checker goes first.
    let mut points = [0i8; 24];
    points[1] = 1; // point 2
    points[4] = 1; // point 5
    let position = Position::from_raw_unchecked(points, [0, 0], [0, 0]);
    let plies = position.generate_moves(Roll::new(Die::new(6), Die::new(6)));
    assert_eq!(plies.len(), 1);
    assert_eq!(plies[0].len(), 2);
    let first = plies[0].moves()[0];
    assert_eq!(first.from, Origin::Point(PointIndex::new(4)));
    assert_eq!(first.to, Destination::Off);
    assert_eq!(position.apply(&plies[0]).off()[0], 2);
}

#[test]
fn apply_counts_entries_hits_and_bear_offs() {
    // Mine: one on the bar, one on point 3, one on point 2; the opponent: blots on points
    // 21 and 1, two off already.
    let mut points = [0i8; 24];
    points[2] = 1;
    points[1] = 1;
    points[20] = -1;
    points[0] = -1;
    let position = Position::from_raw(points, [1, 0], [5, 2]).unwrap();
    let ply = Ply::empty()
        .pushed(CheckerMove { from: Origin::Bar, to: Destination::Point(PointIndex::new(20)) })
        .pushed(CheckerMove { from: Origin::Point(PointIndex::new(1)), to: Destination::Point(PointIndex::new(0)) })
        .pushed(CheckerMove { from: Origin::Point(PointIndex::new(2)), to: Destination::Off });
    let result = position.apply(&ply);
    assert_eq!(result.bar(), [0, 2], "one entry, two hits");
    assert_eq!(result.off(), [6, 2], "one bear-off; the opponent's off count stays");
    assert_eq!(result.point(20), 1);
    assert_eq!(result.point(0), 1);
    assert_eq!(result.point(2), 0);
    assert!(Position::from_raw(
        core::array::from_fn(|i| result.point(i)),
        result.bar(),
        result.off()
    )
    .is_ok());
}
