//! The one-sided database's statistics, built from the library's children, build order and
//! weighted rolls, with the floating-point dynamic programming done here; and quantizing
//! distributions through the library.

use opengammon::combinatorial::{count, rank, unrank};
use opengammon::one_sided::{
    all_rolls_with_weights, bearoff_children, pip_sum, positions_in_pip_order, MAX_CHECKERS, POINTS,
};
use opengammon::quantize::{quantize_rounded, SCALE};
use opengammon::Roll;

#[derive(Debug, Clone, PartialEq)]
struct Entry {
    finish: Vec<f64>,
    first_off: Vec<f64>,
}

type Child = ([u8; POINTS], usize, bool);

fn on_board(checkers: &[u8; POINTS]) -> u32 {
    checkers.iter().map(|&c| c as u32).sum()
}

fn mean(distribution: &[f64]) -> f64 {
    distribution.iter().enumerate().map(|(r, &p)| r as f64 * p).sum()
}

fn choose_best(children: &[Child], score: impl Fn(usize, bool) -> f64) -> (usize, bool) {
    let mut best: Option<(usize, bool, f64)> = None;
    for &(_, index, bore_off) in children {
        let value = score(index, bore_off);
        let better = match best {
            None => true,
            Some((best_index, _, best_value)) => value < best_value || (value == best_value && index < best_index),
        };
        if better {
            best = Some((index, bore_off, value));
        }
    }
    let (index, bore_off, _) = best.unwrap();
    (index, bore_off)
}

fn finish_score(entries: &[Option<Entry>], index: usize) -> f64 {
    mean(&entries[index].as_ref().unwrap().finish)
}

fn first_off_score(entries: &[Option<Entry>], index: usize, bore_off: bool) -> f64 {
    if bore_off {
        1.0
    } else {
        1.0 + mean(&entries[index].as_ref().unwrap().first_off)
    }
}

fn compute_entry(checkers: [u8; POINTS], rolls: &[(Roll, f64)], entries: &[Option<Entry>]) -> Entry {
    let total = on_board(&checkers);
    if total == 0 {
        return Entry { finish: vec![1.0], first_off: Vec::new() };
    }
    let needs_first_off = total == MAX_CHECKERS as u32;
    let mut finish_chosen = Vec::new();
    let mut first_off_chosen = Vec::new();
    for &(roll, _) in rolls {
        let children = bearoff_children(checkers, roll);
        assert!(!children.is_empty());
        finish_chosen.push(choose_best(&children, |index, _| finish_score(entries, index)).0);
        if needs_first_off {
            first_off_chosen.push(choose_best(&children, |index, bore_off| first_off_score(entries, index, bore_off)));
        }
    }
    let mut finish_len = 1;
    for &child in &finish_chosen {
        finish_len = finish_len.max(entries[child].as_ref().unwrap().finish.len() + 1);
    }
    let mut finish = vec![0.0f64; finish_len];
    for (&(_, weight), &child) in rolls.iter().zip(finish_chosen.iter()) {
        for (r, &p) in entries[child].as_ref().unwrap().finish.iter().enumerate() {
            finish[r + 1] += weight * p;
        }
    }
    let mut first_off = Vec::new();
    if needs_first_off {
        let mut len = 0;
        for &(child, bore_off) in &first_off_chosen {
            len = len.max(if bore_off { 1 } else { entries[child].as_ref().unwrap().first_off.len() + 1 });
        }
        first_off = vec![0.0f64; len];
        for (&(_, weight), &(child, bore_off)) in rolls.iter().zip(first_off_chosen.iter()) {
            if bore_off {
                first_off[0] += weight;
            } else {
                for (r, &p) in entries[child].as_ref().unwrap().first_off.iter().enumerate() {
                    first_off[r + 1] += weight * p;
                }
            }
        }
    }
    Entry { finish, first_off }
}

fn weighted_rolls() -> Vec<(Roll, f64)> {
    all_rolls_with_weights().into_iter().map(|(r, w)| (r, w as f64 / 36.0)).collect()
}

/// The entries of every placement with at most `max_pips` pips, built in the library's
/// order; the others stay `None`.
fn table_up_to(max_pips: u32) -> Vec<Option<Entry>> {
    let rolls = weighted_rolls();
    let mut entries: Vec<Option<Entry>> = vec![None; count(POINTS, MAX_CHECKERS)];
    for index in positions_in_pip_order() {
        let checkers: [u8; POINTS] = unrank(MAX_CHECKERS, index);
        if pip_sum(&checkers) > max_pips {
            break;
        }
        entries[index] = Some(compute_entry(checkers, &rolls, &entries));
    }
    entries
}

/// The `first_off` distributions of the placements with every checker on the board, built in
/// the library's order: the gammon-saving policy only ever looks at such placements.
fn first_off_table() -> Vec<Option<Vec<f64>>> {
    let rolls = weighted_rolls();
    let mut first_off: Vec<Option<Vec<f64>>> = vec![None; count(POINTS, MAX_CHECKERS)];
    for index in positions_in_pip_order() {
        let checkers: [u8; POINTS] = unrank(MAX_CHECKERS, index);
        if on_board(&checkers) != MAX_CHECKERS as u32 {
            continue;
        }
        let mut chosen = Vec::new();
        for &(roll, weight) in &rolls {
            let children = bearoff_children(checkers, roll);
            let score = |child: usize, bore_off: bool| {
                if bore_off {
                    1.0
                } else {
                    1.0 + mean(first_off[child].as_ref().unwrap())
                }
            };
            chosen.push((choose_best(&children, score), weight));
        }
        let mut len = 0;
        for &((child, bore_off), _) in &chosen {
            len = len.max(if bore_off { 1 } else { first_off[child].as_ref().unwrap().len() + 1 });
        }
        let mut distribution = vec![0.0f64; len];
        for &((child, bore_off), weight) in &chosen {
            if bore_off {
                distribution[0] += weight;
            } else {
                for (r, &p) in first_off[child].as_ref().unwrap().iter().enumerate() {
                    distribution[r + 1] += weight * p;
                }
            }
        }
        first_off[index] = Some(distribution);
    }
    first_off
}

fn lookup(table: &[Option<Entry>], checkers: [u8; POINTS]) -> &Entry {
    table[rank(MAX_CHECKERS, checkers)].as_ref().unwrap()
}

fn checkers(points: &[(usize, u8)]) -> [u8; POINTS] {
    let mut c = [0u8; POINTS];
    for &(point, count) in points {
        c[point - 1] = count;
    }
    c
}

fn quantize(distribution: &[f64]) -> Vec<u16> {
    let (_, prefix) = distribution.split_last().unwrap();
    let rounded: Vec<u32> = prefix.iter().map(|&p| (p * SCALE as f64).round() as u32).collect();
    quantize_rounded(&rounded)
}

fn dequantize(quantized: &[u16]) -> Vec<f64> {
    quantized.iter().map(|&v| v as f64 / SCALE as f64).collect()
}

fn assert_close(actual: f64, expected: f64, msg: &str) {
    assert!((actual - expected).abs() < 1e-9, "{msg}: {actual} != {expected}");
}

fn assert_close_vec(actual: &[f64], expected: &[f64], msg: &str) {
    assert_eq!(actual.len(), expected.len(), "{msg}: length {} != {}", actual.len(), expected.len());
    for (i, (&a, &e)) in actual.iter().zip(expected).enumerate() {
        assert_close(a, e, &format!("{msg}[{i}]"));
    }
}

#[test]
fn terminal_position_has_point_mass_at_zero_rolls() {
    let entries = vec![Some(Entry { finish: vec![1.0], first_off: Vec::new() })];
    let entry = compute_entry([0; POINTS], &[], &entries);
    assert_eq!(entry.finish, vec![1.0]);
    assert!(entry.first_off.is_empty());
}

#[test]
fn single_checker_on_point_one_bears_off_in_exactly_one_roll() {
    let table = table_up_to(1);
    let entry = lookup(&table, checkers(&[(1, 1)]));
    assert_close_vec(&entry.finish, &[0.0, 1.0], "finish");
    assert!(entry.first_off.is_empty());
}

#[test]
fn two_checkers_on_point_one_both_bear_off_in_exactly_one_roll() {
    let table = table_up_to(2);
    let entry = lookup(&table, checkers(&[(1, 2)]));
    assert_close_vec(&entry.finish, &[0.0, 1.0], "finish");
    assert!(entry.first_off.is_empty());
}

#[test]
fn worst_position_first_off_matches_gnubg() {
    let table = first_off_table();
    let first_off = table[rank(MAX_CHECKERS, checkers(&[(6, 15)]))].as_ref().unwrap();
    let expected = [0.472222, 0.449846, 0.068651, 0.008223, 0.000974, 0.000081, 0.000003, 0.0];
    assert_eq!(first_off.len(), expected.len());
    for (i, (&actual, &expected)) in first_off.iter().zip(&expected).enumerate() {
        assert!((actual - expected).abs() < 1e-5, "first_off[{i}]: {actual} != {expected}");
    }
}

#[test]
fn finish_sums_to_one_for_every_position_of_at_most_twenty_pips() {
    let table = table_up_to(20);
    let mut built = 0;
    for (index, entry) in table.iter().enumerate() {
        if let Some(entry) = entry {
            built += 1;
            let sum: f64 = entry.finish.iter().sum();
            assert_close(sum, 1.0, &format!("finish distribution at index {index}"));
            assert!(entry.first_off.is_empty() || entry.first_off.iter().sum::<f64>() > 0.0);
        }
    }
    assert!(built > 1000);
}

#[test]
fn a_checker_on_the_six_point_needs_one_or_two_rolls() {
    // It comes off at once with a 6 (11 throws), any 5 (5-1 to 5-5: 9 throws), 4-2, 4-3,
    // 4-4 (5 throws), 3-3 or 2-2: 27 of the 36 throws. Otherwise it ends on point 2 to 5,
    // and every roll bears it off from there.
    let table = table_up_to(6);
    let entry = lookup(&table, checkers(&[(6, 1)]));
    assert_eq!(entry.finish.len(), 3);
    assert_close(entry.finish[0], 0.0, "no rolls");
    assert_close(entry.finish[1], 27.0 / 36.0, "one roll");
    assert_close(entry.finish[2], 9.0 / 36.0, "two rolls");
}

#[test]
fn quantize_of_a_single_value_distribution_is_exact() {
    assert_eq!(quantize(&[1.0]), vec![u16::MAX]);
}

#[test]
fn quantize_then_dequantize_sums_to_exactly_one() {
    let q = quantize(&[0.1, 0.2, 0.3, 0.4]);
    let sum: u32 = q.iter().map(|&v| v as u32).sum();
    assert_eq!(sum, SCALE);
    let d_sum: f64 = dequantize(&q).iter().sum();
    assert_eq!(d_sum, 1.0);
}

#[test]
fn dequantize_is_close_to_the_original_distribution() {
    let distribution = [0.1, 0.2, 0.3, 0.4];
    let d = dequantize(&quantize(&distribution));
    for (i, (&original, &recovered)) in distribution.iter().zip(&d).enumerate() {
        assert!((original - recovered).abs() < 1e-4, "index {i}: {original} vs {recovered}");
    }
}
