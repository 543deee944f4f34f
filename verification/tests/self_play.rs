//! Random-but-reachable positions: play random legal games from the start.

use opengammon::{Die, Position, Roll};
use rand::rngs::StdRng;
use rand::seq::IndexedRandom;
use rand::{Rng, RngExt, SeedableRng};

fn random_roll(rng: &mut impl Rng) -> Roll {
    let a = Die::new(rng.random_range(1..=6));
    let b = Die::new(rng.random_range(1..=6));
    Roll::new(a, b)
}

fn random_reachable_position(rng: &mut impl Rng, turns: u32) -> Position {
    loop {
        let mut position = Position::starting();
        let mut finished = false;

        for _ in 0..turns {
            let roll = random_roll(rng);
            if let Some(ply) = position.generate_moves(roll).choose(rng) {
                position = position.apply(ply);
            }
            position = position.mirror();

            if position.off()[0] == 15 || position.off()[1] == 15 {
                finished = true;
                break;
            }
        }

        if !finished {
            return position;
        }
    }
}

fn checkers_are_conserved(position: &Position) {
    let on_board = |sign: fn(i8) -> bool| -> i32 {
        (0..24)
            .map(|i| position.point(i))
            .filter(|&c| sign(c))
            .map(|c| c.unsigned_abs() as i32)
            .sum()
    };
    let mine = on_board(|c| c > 0) + position.bar()[0] as i32 + position.off()[0] as i32;
    let theirs = on_board(|c| c < 0) + position.bar()[1] as i32 + position.off()[1] as i32;
    assert_eq!(mine, 15, "{position:?}");
    assert_eq!(theirs, 15, "{position:?}");
}

#[test]
fn zero_turns_returns_the_starting_position() {
    let mut rng = StdRng::seed_from_u64(1);
    assert_eq!(random_reachable_position(&mut rng, 0), Position::starting());
}

#[test]
fn generated_positions_never_have_a_finished_game() {
    let mut rng = StdRng::seed_from_u64(42);
    for _ in 0..500 {
        let position = random_reachable_position(&mut rng, 60);
        assert_ne!(
            position.off()[0],
            15,
            "returned a finished game: {position:?}"
        );
        assert_ne!(
            position.off()[1],
            15,
            "returned a finished game: {position:?}"
        );
    }
}

#[test]
fn generated_positions_always_conserve_all_30_checkers() {
    let mut rng = StdRng::seed_from_u64(7);
    for turns in [0, 1, 2, 5, 20, 60, 120] {
        for _ in 0..200 {
            checkers_are_conserved(&random_reachable_position(&mut rng, turns));
        }
    }
}

#[test]
fn play_actually_advances_the_game() {
    let mut rng = StdRng::seed_from_u64(99);
    let moved = (0..200)
        .map(|_| random_reachable_position(&mut rng, 5))
        .filter(|&p| p != Position::starting())
        .count();
    assert!(
        moved > 190,
        "expected nearly all 5-turn games to have moved, got {moved}/200"
    );
}

#[test]
fn some_generated_positions_still_have_all_30_checkers_on_the_board_or_bar() {
    let mut rng = StdRng::seed_from_u64(123);
    let dense = (0..200)
        .map(|_| random_reachable_position(&mut rng, 8))
        .filter(|p| p.off() == [0, 0])
        .count();
    assert!(
        dense > 150,
        "expected most 8-turn games to still have all checkers in play, got {dense}/200"
    );
}
