use opengammon::position::{Position, PositionError};

#[test]
fn starting_position_is_standard() {
    let pos = Position::starting();

    // Mine.
    assert_eq!(pos.point(23), 2, "point 24");
    assert_eq!(pos.point(12), 5, "point 13");
    assert_eq!(pos.point(7), 3, "point 8");
    assert_eq!(pos.point(5), 5, "point 6");

    // Opponent's.
    assert_eq!(pos.point(0), -2, "point 1");
    assert_eq!(pos.point(11), -5, "point 12");
    assert_eq!(pos.point(16), -3, "point 17");
    assert_eq!(pos.point(18), -5, "point 19");

    assert_eq!(pos.bar(), [0, 0]);
    assert_eq!(pos.off(), [0, 0]);

    // Every checker accounted for, no point double-occupied.
    let mine: i32 = (0..24)
        .map(|i| pos.point(i))
        .filter(|&c| c > 0)
        .map(|c| c as i32)
        .sum();
    let theirs: i32 = (0..24)
        .map(|i| pos.point(i))
        .filter(|&c| c < 0)
        .map(|c| -c as i32)
        .sum();
    assert_eq!(mine, 15);
    assert_eq!(theirs, 15);
}

#[test]
fn from_raw_accepts_a_full_legal_position() {
    let mut points = [0i8; 24];
    points[23] = 2;
    points[0] = -2;
    assert!(Position::from_raw(points, [0, 0], [13, 13]).is_ok());
}

#[test]
fn from_raw_accepts_a_one_sided_partial_position() {
    let mut points = [0i8; 24];
    points[5] = 15; // all 15 on point 6, nothing else on the board
    assert!(Position::from_raw(points, [0, 0], [0, 0]).is_ok());
}

#[test]
fn from_raw_accepts_exactly_15_on_one_side() {
    let mut points = [0i8; 24];
    points[5] = 10;
    assert!(Position::from_raw(points, [2, 0], [3, 0]).is_ok());
}

#[test]
fn from_raw_rejects_too_many_mine() {
    let mut points = [0i8; 24];
    points[5] = 10;
    let err = Position::from_raw(points, [3, 0], [3, 0]).unwrap_err();
    assert_eq!(
        err,
        PositionError::TooManyCheckers {
            mine: true,
            count: 16
        }
    );
}

#[test]
fn from_raw_rejects_too_many_theirs() {
    let mut points = [0i8; 24];
    points[18] = -10;
    let err = Position::from_raw(points, [0, 3], [0, 3]).unwrap_err();
    assert_eq!(
        err,
        PositionError::TooManyCheckers {
            mine: false,
            count: 16
        }
    );
}

#[test]
fn mirror_of_starting_position_is_itself() {
    assert_eq!(Position::starting().mirror(), Position::starting());
}

#[test]
fn mirror_flips_points_bar_and_off() {
    let mut points = [0i8; 24];
    points[0] = 2; // mine, point 1
    points[23] = -3; // theirs, point 24
    let position = Position::from_raw_unchecked(points, [1, 2], [4, 5]);

    let mirrored = position.mirror();

    assert_eq!(
        mirrored.point(23),
        -2,
        "my point 1 checkers are now theirs at point 24"
    );
    assert_eq!(
        mirrored.point(0),
        3,
        "their point 24 checkers are now mine at point 1"
    );
    assert_eq!(mirrored.bar(), [2, 1], "bar slots swap");
    assert_eq!(mirrored.off(), [5, 4], "off slots swap");
}

#[test]
fn mirror_is_its_own_inverse() {
    let mut points = [0i8; 24];
    points[4] = 1;
    points[9] = -2;
    let position = Position::from_raw_unchecked(points, [1, 0], [3, 2]);

    assert_eq!(position.mirror().mirror(), position);
}

#[test]
fn from_raw_reports_mine_first_when_both_sides_overflow() {
    let mut points = [0i8; 24];
    points[5] = 16;
    points[18] = -16;
    assert_eq!(
        Position::from_raw(points, [0, 0], [0, 0]).unwrap_err(),
        PositionError::TooManyCheckers {
            mine: true,
            count: 16
        }
    );
}

#[test]
fn from_raw_keeps_the_fields() {
    let mut points = [0i8; 24];
    points[3] = 4;
    points[20] = -7;
    let p = Position::from_raw(points, [1, 2], [3, 4]).unwrap();
    assert_eq!(p.point(3), 4);
    assert_eq!(p.point(20), -7);
    assert_eq!(p.bar(), [1, 2]);
    assert_eq!(p.off(), [3, 4]);
}

#[test]
fn mirror_swaps_the_side_totals() {
    let mut points = [0i8; 24];
    points[2] = 3;
    points[10] = -4;
    let p = Position::from_raw(points, [1, 2], [5, 6]).unwrap();
    let m = p.mirror();
    assert_eq!(m.point(21), -3);
    assert_eq!(m.point(13), 4);
    assert!(Position::from_raw(
        std::array::from_fn(|i| m.point(i)),
        m.bar(),
        m.off()
    )
    .is_ok());
}
