//! Fixed-point quantization of bearoff probability distributions for compact storage:
//! each probability becomes a `u16`, and a distribution's values sum to exactly `SCALE`.

use vstd::prelude::*;

verus! {

/// Quantization scale: `u16::MAX`.
pub const SCALE: u32 = 65535;

/// Sum of a sequence of `u32`s.
pub open spec fn sum_u32(s: Seq<u32>) -> nat
    decreases s.len(),
{
    if s.len() == 0 {
        0
    } else {
        sum_u32(s.drop_last()) + s.last() as nat
    }
}

/// Sum of a sequence of `u16`s.
pub open spec fn sum_u16(s: Seq<u16>) -> nat
    decreases s.len(),
{
    if s.len() == 0 {
        0
    } else {
        sum_u16(s.drop_last()) + s.last() as nat
    }
}

/// `j` holds the largest value of `s`, and nothing after it is as large: the element
/// `Iterator::max_by_key` picks.
pub open spec fn is_last_max(s: Seq<u32>, j: int) -> bool {
    &&& 0 <= j < s.len()
    &&& forall|k: int| 0 <= k < s.len() ==> s[k] <= s[j]
    &&& forall|k: int| j < k < s.len() ==> s[k] < s[j]
}

/// The index of the last largest value of `s`.
pub open spec fn last_max_index(s: Seq<u32>) -> int {
    choose|j: int| is_last_max(s, j)
}

/// `s` after `k` rounds of taking one unit from its last largest value.
pub open spec fn shave(s: Seq<u32>, k: nat) -> Seq<u32>
    decreases k,
{
    if k == 0 {
        s
    } else {
        let t = shave(s, (k - 1) as nat);
        let j = last_max_index(t);
        t.update(j, (t[j] - 1) as u32)
    }
}

/// How far the rounded values overshoot `SCALE`.
pub open spec fn overshoot(s: Seq<u32>) -> nat {
    if sum_u32(s) > SCALE {
        (sum_u32(s) - SCALE) as nat
    } else {
        0
    }
}

proof fn lemma_last_max_unique(s: Seq<u32>, j: int)
    requires
        is_last_max(s, j),
    ensures
        last_max_index(s) == j,
{
    let j2 = last_max_index(s);
    assert(is_last_max(s, j2));
    if j2 < j {
        assert(s[j] < s[j2]);
    } else if j < j2 {
        assert(s[j2] < s[j]);
    }
}

proof fn lemma_sum_update(s: Seq<u32>, j: int, v: u32)
    requires
        0 <= j < s.len(),
    ensures
        sum_u32(s.update(j, v)) + s[j] == sum_u32(s) + v,
    decreases s.len(),
{
    let t = s.update(j, v);
    if j == s.len() - 1 {
        assert(t.drop_last() =~= s.drop_last());
    } else {
        lemma_sum_update(s.drop_last(), j, v);
        assert(t.drop_last() =~= s.drop_last().update(j, v));
    }
}

proof fn lemma_element_at_most_sum(s: Seq<u32>, j: int)
    requires
        0 <= j < s.len(),
    ensures
        s[j] <= sum_u32(s),
    decreases s.len(),
{
    if j < s.len() - 1 {
        lemma_element_at_most_sum(s.drop_last(), j);
    }
}

proof fn lemma_shave_shrinks(s: Seq<u32>, k: nat)
    requires
        forall|m: nat| m < k ==> sum_u32(#[trigger] shave(s, m)) > 0,
    ensures
        shave(s, k).len() == s.len(),
        forall|i: int| 0 <= i < s.len() ==> #[trigger] shave(s, k)[i] <= s[i],
        sum_u32(shave(s, k)) + k == sum_u32(s),
    decreases k,
{
    if k > 0 {
        lemma_shave_shrinks(s, (k - 1) as nat);
        let t = shave(s, (k - 1) as nat);
        assert(sum_u32(t) > 0);
        let j = lemma_last_max_exists(t);
        lemma_last_max_unique(t, j);
        lemma_positive_max(t, j);
        lemma_sum_update(t, j, (t[j] - 1) as u32);
    }
}

proof fn lemma_last_max_exists(s: Seq<u32>) -> (j: int)
    requires
        s.len() > 0,
    ensures
        is_last_max(s, j),
    decreases s.len(),
{
    if s.len() == 1 {
        0
    } else {
        let j0 = lemma_last_max_exists(s.drop_last());
        assert forall|k: int| 0 <= k < s.len() - 1 implies s.drop_last()[k] == s[k] by {}
        if s.last() >= s[j0] {
            (s.len() - 1) as int
        } else {
            j0
        }
    }
}

proof fn lemma_positive_max(s: Seq<u32>, j: int)
    requires
        is_last_max(s, j),
        sum_u32(s) > 0,
    ensures
        s[j] > 0,
    decreases s.len(),
{
    if s[j] == 0 {
        lemma_all_zero(s);
    }
}

proof fn lemma_all_zero(s: Seq<u32>)
    requires
        forall|k: int| 0 <= k < s.len() ==> s[k] == 0,
    ensures
        sum_u32(s) == 0,
    decreases s.len(),
{
    if s.len() > 0 {
        lemma_all_zero(s.drop_last());
    }
}

proof fn lemma_sum_u16_matches(r: Seq<u16>, q: Seq<u32>)
    requires
        r.len() == q.len(),
        forall|i: int| 0 <= i < q.len() ==> r[i] == q[i],
    ensures
        sum_u16(r) == sum_u32(q),
    decreases q.len(),
{
    if q.len() > 0 {
        lemma_sum_u16_matches(r.drop_last(), q.drop_last());
    }
}

/// Quantizes a distribution from its independently rounded values: `rounded` holds
/// `round(p * SCALE)` for every probability but the last. Their sum is brought down to at
/// most `SCALE`, one unit at a time from the largest value (the last one among equals), and
/// the last value is whatever remains of `SCALE`.
pub fn quantize_rounded(rounded: &Vec<u32>) -> (quantized: Vec<u16>)
    requires
        sum_u32(rounded@) <= u32::MAX,
    ensures
        quantized@.len() == rounded@.len() + 1,
        forall|i: int|
            0 <= i < rounded@.len() ==> quantized@[i] == shave(rounded@, overshoot(rounded@))[i],
        quantized@[rounded@.len() as int] == SCALE - sum_u32(shave(rounded@, overshoot(rounded@))),
        sum_u16(quantized@) == SCALE,
        forall|i: int| 0 <= i < rounded@.len() ==> quantized@[i] <= rounded@[i],
        sum_u32(rounded@) <= SCALE ==> forall|i: int| 0 <= i < rounded@.len() ==> quantized@[i] == rounded@[i],
{
    let ghost input = rounded@;
    let mut values: Vec<u32> = rounded.clone();
    assert(values@ =~= input);
    let mut prefix_sum: u32 = 0;
    let mut i: usize = 0;
    while i < values.len()
        invariant
            i <= values@.len(),
            values@ == input,
            sum_u32(input) <= u32::MAX,
            prefix_sum == sum_u32(values@.subrange(0, i as int)),
        decreases values@.len() - i,
    {
        assert(values@.subrange(0, i + 1).drop_last() =~= values@.subrange(0, i as int));
        proof {
            lemma_prefix_sum_bound(values@, i + 1);
        }
        prefix_sum = prefix_sum + values[i];
        i = i + 1;
    }
    assert(values@.subrange(0, values@.len() as int) =~= values@);
    let ghost mut steps: nat = 0;
    while prefix_sum > SCALE
        invariant
            values@ == shave(input, steps),
            prefix_sum == sum_u32(values@),
            sum_u32(input) == prefix_sum + steps,
            steps > 0 ==> prefix_sum >= SCALE,
            forall|m: nat| m < steps ==> sum_u32(#[trigger] shave(input, m)) > SCALE,
        decreases prefix_sum,
    {
        proof {
            lemma_shave_shrinks(input, steps);
        }
        let mut best: usize = 0;
        let mut k: usize = 1;
        assert(values@.len() > 0) by {
            if values@.len() == 0 {
                assert(sum_u32(values@) == 0);
            }
        }
        while k < values.len()
            invariant
                1 <= k <= values@.len(),
                best < k,
                forall|x: int| 0 <= x < k ==> values@[x] <= values@[best as int],
                forall|x: int| best < x < k ==> values@[x] < values@[best as int],
            decreases values@.len() - k,
        {
            if values[k] >= values[best] {
                best = k;
            }
            k = k + 1;
        }
        proof {
            lemma_last_max_unique(values@, best as int);
            lemma_positive_max(values@, best as int);
            lemma_sum_update(values@, best as int, (values@[best as int] - 1) as u32);
        }
        let v = values[best];
        values.set(best, v - 1);
        prefix_sum = prefix_sum - 1;
        proof {
            assert forall|m: nat| m < steps + 1 implies sum_u32(#[trigger] shave(input, m)) > SCALE by {
                if m == steps {
                }
            }
            steps = steps + 1;
        }
    }
    proof {
        lemma_shave_shrinks(input, steps);
        assert(steps == overshoot(input));
    }
    let mut quantized: Vec<u16> = Vec::new();
    let mut i: usize = 0;
    while i < values.len()
        invariant
            i <= values@.len(),
            prefix_sum == sum_u32(values@),
            prefix_sum <= SCALE,
            quantized@.len() == i,
            forall|x: int| 0 <= x < i ==> quantized@[x] == values@[x],
        decreases values@.len() - i,
    {
        proof {
            lemma_element_at_most_sum(values@, i as int);
        }
        quantized.push(values[i] as u16);
        i = i + 1;
    }
    proof {
        lemma_sum_u16_matches(quantized@, values@);
    }
    let ghost head = quantized@;
    quantized.push((SCALE - prefix_sum) as u16);
    assert(quantized@.drop_last() =~= head);
    quantized
}

proof fn lemma_prefix_sum_bound(s: Seq<u32>, n: int)
    requires
        0 <= n <= s.len(),
    ensures
        sum_u32(s.subrange(0, n)) <= sum_u32(s),
    decreases s.len() - n,
{
    if n < s.len() {
        lemma_prefix_sum_bound(s, n + 1);
        assert(s.subrange(0, n + 1).drop_last() =~= s.subrange(0, n));
    } else {
        assert(s.subrange(0, n) =~= s);
    }
}

} // verus!
