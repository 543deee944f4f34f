use opengammon::quantize::{quantize_rounded, SCALE};

#[test]
fn a_single_value_distribution_gets_the_whole_scale() {
    assert_eq!(quantize_rounded(&vec![]), vec![u16::MAX]);
}

#[test]
fn the_last_value_takes_the_remainder() {
    // 0.1, 0.2, 0.3 of 65535, rounded: 6554, 13107, 19661; the last gets the rest.
    let q = quantize_rounded(&vec![6554, 13107, 19661]);
    assert_eq!(q, vec![6554, 13107, 19661, 26213]);
    let sum: u32 = q.iter().map(|&v| v as u32).sum();
    assert_eq!(sum, SCALE);
}

#[test]
fn an_overshoot_comes_off_the_largest_values() {
    // Sum 65537: two units too many, both taken from the largest value.
    let q = quantize_rounded(&vec![100, 65_000, 437]);
    assert_eq!(q, vec![100, 64_998, 437, 0]);
}

#[test]
fn among_equal_largest_values_the_last_gives_first() {
    // Sum 65536: one unit too many; 32768 appears twice, the later one gives.
    let q = quantize_rounded(&vec![32_768, 32_768]);
    assert_eq!(q, vec![32_768, 32_767, 0]);
    // Three too many: the units alternate between the two as they stay the largest.
    let q = quantize_rounded(&vec![32_769, 32_769]);
    assert_eq!(q, vec![32_768, 32_767, 0]);
}

#[test]
fn values_that_fit_are_kept() {
    let q = quantize_rounded(&vec![1, 2, 3]);
    assert_eq!(q, vec![1, 2, 3, 65_529]);
}
