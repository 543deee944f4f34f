use opengammon::combinatorial::{count, rank, unrank};

#[test]
fn count_matches_stars_and_bars_for_one_sided_bearoff() {
    // 15 checkers, 6 home-board points: C(21, 6).
    assert_eq!(count(6, 15), 54_264);
}

#[test]
fn count_with_zero_points_is_one() {
    // No points to place on: the only configuration is "everything off".
    assert_eq!(count(0, 15), 1);
}

#[test]
fn rank_of_all_off_is_zero() {
    assert_eq!(rank::<6>(15, [0; 6]), 0);
}

#[test]
fn rank_is_monotonic_for_a_single_point() {
    // points = 1, max = 2: only checkers[0] varies, 0..=2.
    assert_eq!(rank::<1>(2, [0]), 0);
    assert_eq!(rank::<1>(2, [1]), 1);
    assert_eq!(rank::<1>(2, [2]), 2);
}

/// Exhaustively checks `rank(unrank(i)) == i` for every `i` in `0..count(P, max_checkers)`.
fn assert_round_trip_exhaustive<const P: usize>(max_checkers: u8) {
    let total = count(P, max_checkers);
    let mut seen = vec![false; total];
    for (index, seen_at_index) in seen.iter_mut().enumerate() {
        let checkers: [u8; P] = unrank(max_checkers, index);
        let sum: u32 = checkers.iter().map(|&c| c as u32).sum();
        assert!(sum <= max_checkers as u32);
        let back = rank(max_checkers, checkers);
        assert_eq!(back, index, "round trip failed for {checkers:?}");
        *seen_at_index = true;
    }
    assert!(
        seen.into_iter().all(|s| s),
        "not all indices reached for P={P}, max_checkers={max_checkers}"
    );
}

#[test]
fn rank_and_unrank_round_trip_exhaustively_for_small_cases() {
    for max_checkers in 0..=6u8 {
        assert_round_trip_exhaustive::<0>(max_checkers);
        assert_round_trip_exhaustive::<1>(max_checkers);
        assert_round_trip_exhaustive::<2>(max_checkers);
        assert_round_trip_exhaustive::<3>(max_checkers);
        assert_round_trip_exhaustive::<4>(max_checkers);
    }
}

#[test]
fn rank_and_unrank_round_trip_exhaustively_for_one_sided_bearoff_shape() {
    let total = count(6, 15);
    for index in 0..total {
        let checkers: [u8; 6] = unrank(15, index);
        let sum: u32 = checkers.iter().map(|&c| c as u32).sum();
        assert!(sum <= 15);
        assert_eq!(
            rank(15, checkers),
            index,
            "round trip failed for {checkers:?}"
        );
    }
}

#[test]
fn count_small_values() {
    assert_eq!(count(5, 15), 15_504);
    assert_eq!(count(1, 2), 3);
    assert_eq!(count(2, 2), 6);
    assert_eq!(count(3, 0), 1);
    assert_eq!(count(0, 0), 1);
    assert_eq!(count(2, 1), 3);
}

#[test]
fn unrank_of_the_last_index_holds_every_checker_on_the_first_point() {
    assert_eq!(unrank::<6>(15, 54_263), [15, 0, 0, 0, 0, 0]);
    assert_eq!(rank::<6>(15, [15, 0, 0, 0, 0, 0]), 54_263);
}

#[test]
fn rank_of_distinct_placements_differs() {
    let a = rank::<3>(4, [1, 0, 2]);
    let b = rank::<3>(4, [0, 1, 2]);
    let c = rank::<3>(4, [2, 1, 0]);
    assert_ne!(a, b);
    assert_ne!(a, c);
    assert_ne!(b, c);
    assert!(a < count(3, 4) && b < count(3, 4) && c < count(3, 4));
}

#[test]
fn rank_exact_values() {
    // Two points, at most two checkers: placements ranked [0,0] [0,1] [0,2] [1,0] [1,1] [2,0].
    assert_eq!(rank::<2>(2, [0, 0]), 0);
    assert_eq!(rank::<2>(2, [0, 1]), 1);
    assert_eq!(rank::<2>(2, [0, 2]), 2);
    assert_eq!(rank::<2>(2, [1, 0]), 3);
    assert_eq!(rank::<2>(2, [1, 1]), 4);
    assert_eq!(rank::<2>(2, [2, 0]), 5);
    assert_eq!(unrank::<2>(2, 4), [1, 1]);
}

#[test]
fn one_more_checker_on_any_point_raises_the_index() {
    let placements: [[u8; 6]; 4] = [[0; 6], [1, 0, 0, 0, 0, 0], [2, 2, 2, 2, 2, 2], [0, 0, 0, 0, 0, 14]];
    for checkers in placements {
        for i in 0..6 {
            if checkers.iter().map(|&c| c as u32).sum::<u32>() < 15 {
                let mut more = checkers;
                more[i] += 1;
                assert!(rank(15, more) > rank(15, checkers), "{checkers:?} + point {i}");
            }
        }
    }
}

#[test]
fn rank_counts_the_placements_before_it_in_lexicographic_order() {
    let mut all: Vec<[u8; 3]> = Vec::new();
    for a in 0..=4u8 {
        for b in 0..=4u8 {
            for c in 0..=4u8 {
                if a + b + c <= 4 {
                    all.push([a, b, c]);
                }
            }
        }
    }
    all.sort();
    assert_eq!(all.len(), count(3, 4));
    for (position, placement) in all.iter().enumerate() {
        assert_eq!(rank(4, *placement), position, "{placement:?}");
    }
}
