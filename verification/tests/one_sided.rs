//! The one-sided database's shape: rolls, children of a placement, and build order.

use opengammon::combinatorial::{count, rank, unrank};
use opengammon::one_sided::{
    all_rolls_with_weights, bearoff_children, checkers_on_board, pip_sum, position_for, positions_in_pip_order,
    MAX_CHECKERS, POINTS,
};
use opengammon::{Die, Roll};

fn roll(a: u8, b: u8) -> Roll {
    Roll::new(Die::new(a), Die::new(b))
}

#[test]
fn there_are_21_rolls_whose_weights_cover_all_36_throws() {
    let rolls = all_rolls_with_weights();
    assert_eq!(rolls.len(), 21);
    let total: u32 = rolls.iter().map(|&(_, w)| w as u32).sum();
    assert_eq!(total, 36);
    let (first, w) = rolls[0];
    assert_eq!((first.dice().0.get(), first.dice().1.get(), w), (1, 1, 1));
    let (second, w) = rolls[1];
    assert_eq!((second.dice().0.get(), second.dice().1.get(), w), (1, 2, 2));
    let (last, w) = rolls[20];
    assert_eq!((last.dice().0.get(), last.dice().1.get(), w), (6, 6, 1));
    for a in 1..=6u8 {
        for b in a..=6u8 {
            let hits = rolls.iter().filter(|(r, _)| *r == roll(a, b)).count();
            assert_eq!(hits, 1, "{a}-{b}");
        }
    }
}

#[test]
fn pip_sum_weighs_each_checker_by_its_point() {
    assert_eq!(pip_sum(&[0; POINTS]), 0);
    assert_eq!(pip_sum(&[1, 0, 0, 0, 0, 0]), 1);
    assert_eq!(pip_sum(&[0, 0, 0, 0, 0, 15]), 90);
    assert_eq!(pip_sum(&[2, 2, 2, 2, 2, 5]), 2 + 4 + 6 + 8 + 10 + 30);
}

#[test]
fn checkers_on_board_counts_every_point() {
    assert_eq!(checkers_on_board(&[0; POINTS]), 0);
    assert_eq!(checkers_on_board(&[2, 2, 2, 2, 2, 5]), 15);
}

#[test]
fn position_for_puts_the_rest_of_the_checkers_off() {
    let p = position_for([3, 0, 0, 0, 0, 2]);
    assert_eq!(p.point(0), 3);
    assert_eq!(p.point(5), 2);
    for i in 6..24 {
        assert_eq!(p.point(i), 0);
    }
    assert_eq!(p.bar(), [0, 0]);
    assert_eq!(p.off(), [10, 0]);
}

#[test]
fn a_lone_checker_on_the_ace_point_bears_off_with_any_roll() {
    for (r, _) in all_rolls_with_weights() {
        let children = bearoff_children([1, 0, 0, 0, 0, 0], r);
        assert_eq!(children, vec![([0; POINTS], 0, true)]);
    }
}

#[test]
fn children_of_two_checkers_on_the_six_point() {
    // 6-5: one checker off with the 6 and the other to point 1 with the 5, or the 5 first
    // (6 -> 1) and then the 6 bearing off the checker still on point 6: both reach the same
    // placement; or 6 -> 1 and 6 -> 1 is impossible (only one 5).
    let children = bearoff_children([0, 0, 0, 0, 0, 2], roll(5, 6));
    let placements: Vec<[u8; POINTS]> = children.iter().map(|c| c.0).collect();
    assert!(placements.contains(&[1, 0, 0, 0, 0, 0]));
    for (checkers, index, bore_off) in &children {
        assert_eq!(*index, rank(MAX_CHECKERS, *checkers));
        assert_eq!(*bore_off, checkers_on_board(checkers) < 2);
        assert!(pip_sum(checkers) < pip_sum(&[0, 0, 0, 0, 0, 2]));
    }
    for i in 0..placements.len() {
        for j in i + 1..placements.len() {
            assert_ne!(placements[i], placements[j]);
        }
    }
}

#[test]
fn a_double_moves_four_checkers() {
    let children = bearoff_children([0, 0, 0, 0, 0, 15], roll(1, 1));
    for (checkers, _, bore_off) in &children {
        assert!(!bore_off);
        assert_eq!(checkers_on_board(checkers), 15);
        assert_eq!(pip_sum(checkers), 90 - 4);
    }
    assert!(children.iter().any(|c| c.0 == [0, 0, 0, 0, 4, 11]));
    assert!(children.iter().any(|c| c.0 == [0, 1, 0, 0, 0, 14]));
}

#[test]
fn the_build_order_lists_every_placement_once_by_pips() {
    let order = positions_in_pip_order();
    let total = count(POINTS, MAX_CHECKERS);
    assert_eq!(order.len(), total);
    let mut seen = vec![false; total];
    for &index in &order {
        assert!(!seen[index]);
        seen[index] = true;
    }
    assert_eq!(order[0], 0);
    let pips: Vec<u32> = order.iter().map(|&i| pip_sum(&unrank::<POINTS>(MAX_CHECKERS, i))).collect();
    for k in 1..order.len() {
        assert!(pips[k - 1] < pips[k] || (pips[k - 1] == pips[k] && order[k - 1] < order[k]));
    }
    assert_eq!(pips[total - 1], 90);
}

#[test]
fn every_child_comes_earlier_in_the_build_order() {
    let order = positions_in_pip_order();
    let mut position_of = vec![0usize; order.len()];
    for (k, &index) in order.iter().enumerate() {
        position_of[index] = k;
    }
    for index in (0..order.len()).step_by(97) {
        let checkers: [u8; POINTS] = unrank(MAX_CHECKERS, index);
        for (r, _) in all_rolls_with_weights() {
            for (_, child, _) in bearoff_children(checkers, r) {
                assert!(position_of[child] < position_of[index]);
            }
        }
    }
}
