//! A bijection between "at most `max_checkers` indistinguishable checkers placed on `P`
//! distinguishable points" and a dense index range `0..count(P, max_checkers)`.

use vstd::prelude::*;

verus! {

/// `n` choose `k`, by Pascal's rule.
pub open spec fn binom(n: nat, k: nat) -> nat
    decreases n,
{
    if k == 0 {
        1
    } else if n == 0 {
        0
    } else {
        binom((n - 1) as nat, (k - 1) as nat) + binom((n - 1) as nat, k)
    }
}

/// Number of ways to place at most `max` indistinguishable checkers on `points` points.
pub open spec fn count_spec(points: nat, max: nat) -> nat {
    binom(max + points, points)
}

pub proof fn lemma_binom_above(n: nat, k: nat)
    requires
        k > n,
    ensures
        binom(n, k) == 0,
    decreases n,
{
    if n > 0 {
        lemma_binom_above((n - 1) as nat, (k - 1) as nat);
        lemma_binom_above((n - 1) as nat, k);
    }
}

pub proof fn lemma_binom_diag(n: nat)
    ensures
        binom(n, n) == 1,
    decreases n,
{
    if n > 0 {
        lemma_binom_diag((n - 1) as nat);
        lemma_binom_above((n - 1) as nat, n);
    }
}


pub proof fn lemma_binom_one(n: nat)
    ensures
        binom(n, 1) == n,
    decreases n,
{
    if n > 0 {
        lemma_binom_one((n - 1) as nat);
        assert(binom((n - 1) as nat, 0) == 1);
    }
}

/// `(k + 1) * C(n, k + 1) == (n - k) * C(n, k)`: the step the multiplicative
/// evaluation of a binomial coefficient relies on.
pub proof fn lemma_binom_step(n: nat, k: nat)
    requires
        k < n,
    ensures
        (k + 1) * binom(n, k + 1) == (n - k) * binom(n, k),
    decreases n,
{
    if k == 0 {
        lemma_binom_one(n);
        let b1 = binom(n, 1);
        let b0 = binom(n, 0);
        assert(b0 == 1);
        assert((k + 1) * b1 == (n - k) * b0) by (nonlinear_arith)
            requires
                b1 == n,
                b0 == 1,
                k == 0,
        ;
    } else {
        let a = binom((n - 1) as nat, (k - 1) as nat);
        let b = binom((n - 1) as nat, k);
        let c = binom((n - 1) as nat, k + 1);
        assert(binom(n, k + 1) == b + c);
        assert(binom(n, k) == a + b);
        if k < n - 1 {
            lemma_binom_step((n - 1) as nat, k);
            assert((k + 1) * c == (n - 1 - k) * b);
        } else {
            lemma_binom_above((n - 1) as nat, k + 1);
            assert((k + 1) * c == (n - 1 - k) * b) by (nonlinear_arith)
                requires
                    c == 0,
                    n - 1 - k == 0,
            ;
        }
        lemma_binom_step((n - 1) as nat, (k - 1) as nat);
        assert(k * b == (n - k) * a);
        assert((k + 1) * (b + c) == (n - k) * (a + b)) by (nonlinear_arith)
            requires
                (k + 1) * c == (n - 1 - k) * b,
                k * b == (n - k) * a,
        ;
    }
}

pub proof fn lemma_binom_symmetric(n: nat, k: nat)
    requires
        k <= n,
    ensures
        binom(n, k) == binom(n, (n - k) as nat),
    decreases n,
{
    if k == 0 {
        lemma_binom_diag(n);
    } else if k == n {
        lemma_binom_diag(n);
    } else {
        lemma_binom_symmetric((n - 1) as nat, (k - 1) as nat);
        lemma_binom_symmetric((n - 1) as nat, k);
        assert(binom(n, (n - k) as nat) == binom((n - 1) as nat, (n - k - 1) as nat) + binom(
            (n - 1) as nat,
            (n - k) as nat,
        ));
    }
}

/// Binomial coefficients grow up to the middle of a row.
pub proof fn lemma_binom_grows(n: nat, i: nat, k: nat)
    requires
        i <= k,
        2 * k <= n,
    ensures
        binom(n, i) <= binom(n, k),
    decreases k - i,
{
    if i < k {
        lemma_binom_grows(n, i + 1, k);
        lemma_binom_step(n, i);
        let x = binom(n, i);
        let y = binom(n, i + 1);
        assert(x <= y) by (nonlinear_arith)
            requires
                (i + 1) * y == (n - i) * x,
                2 * (i + 1) <= n,
        ;
    }
}

/// The smaller of `k` and `n - k`: the number of steps [`binomial`] takes.
pub open spec fn binomial_steps(n: nat, k: nat) -> nat {
    if n - k < k {
        (n - k) as nat
    } else {
        k
    }
}

/// Every product [`binomial`] forms before dividing, `C(n, i) * (n - i)` for each step `i`,
/// fits in a `u128`.
pub open spec fn binomial_fits(n: nat, k: nat) -> bool {
    forall|i: nat| i < binomial_steps(n, k) ==> #[trigger] binom(n, i) * (n - i) <= u128::MAX
}

/// `n` choose `k`, evaluated multiplicatively: every intermediate value is itself an exact
/// binomial coefficient, so the division never truncates.
fn binomial(n: u64, k: u64) -> (result: u128)
    requires
        k <= n,
        binomial_fits(n as nat, k as nat),
    ensures
        result == binom(n as nat, k as nat),
{
    let rest = n - k;
    let ghost steps = binomial_steps(n as nat, k as nat);
    proof {
        lemma_binom_symmetric(n as nat, k as nat);
    }
    let k = if rest < k {
        rest
    } else {
        k
    };
    assert(k == steps);
    let mut result: u128 = 1;
    let mut i: u64 = 0;
    while i < k
        invariant
            i <= k,
            k <= n,
            k == steps,
            binomial_fits(n as nat, (n - rest) as nat),
            steps == binomial_steps(n as nat, (n - rest) as nat),
            result == binom(n as nat, i as nat),
        decreases k - i,
    {
        proof {
            lemma_binom_step(n as nat, i as nat);
        }
        let ghost next = binom(n as nat, (i + 1) as nat);
        assert(binom(n as nat, i as nat) * (n - i) <= u128::MAX);
        let product: u128 = result * ((n - i) as u128);
        assert(product == (i + 1) * next) by (nonlinear_arith)
            requires
                (i + 1) * next == (n - i) * result,
                product == result * (n - i),
        ;
        assert(product / ((i + 1) as u128) == next) by (nonlinear_arith)
            requires
                product == (i + 1) * next,
                i + 1 > 0,
        ;
        result = product / ((i + 1) as u128);
        i = i + 1;
    }
    result
}

/// A coefficient that fits in a `u64` leaves room in a `u128` for every product
/// [`binomial`] forms on the way to it.
proof fn lemma_binomial_fits(n: nat, k: nat)
    requires
        k <= n <= u64::MAX,
        binom(n, k) <= u64::MAX,
    ensures
        binomial_fits(n, k),
{
    let r = binomial_steps(n, k);
    lemma_binom_symmetric(n, k);
    assert forall|i: nat| i < r implies #[trigger] binom(n, i) * (n - i) <= u128::MAX by {
        lemma_binom_step(n, i);
        lemma_binom_grows(n, i + 1, r);
        let y = binom(n, i + 1);
        assert(binom(n, i) * (n - i) == (i + 1) * y) by (nonlinear_arith)
            requires
                (i + 1) * y == (n - i) * binom(n, i),
        ;
        assert((i + 1) * y <= u64::MAX * u64::MAX) by (nonlinear_arith)
            requires
                i + 1 <= u64::MAX,
                y <= u64::MAX,
        ;
    }
}

/// Every coefficient strictly inside row `n` is at least `n`.
pub proof fn lemma_binom_inner_at_least_row(n: nat, k: nat)
    requires
        1 <= k < n,
    ensures
        binom(n, k) >= n,
{
    lemma_binom_one(n);
    if 2 * k <= n {
        lemma_binom_grows(n, 1, k);
    } else {
        lemma_binom_symmetric(n, k);
        lemma_binom_grows(n, 1, (n - k) as nat);
    }
}

pub proof fn lemma_count_no_points(m: nat)
    ensures
        count_spec(0, m) == 1,
{
}

pub proof fn lemma_count_no_checkers(q: nat)
    ensures
        count_spec(q, 0) == 1,
{
    lemma_binom_diag(q);
}

/// Pascal's rule for placements: the first of `q + 1` points is either empty, or holds
/// at least one checker.
pub proof fn lemma_count_pascal(q: nat, m: nat)
    ensures
        count_spec(q + 1, m + 1) == count_spec(q, m + 1) + count_spec(q + 1, m),
{
    assert(m + 1 + (q + 1) == (m + q + 1) + 1);
    assert(binom(m + 1 + (q + 1), q + 1) == binom(m + q + 1, q) + binom(m + q + 1, q + 1));
}

pub proof fn lemma_count_grows_in_checkers(q: nat, m: nat, m2: nat)
    requires
        m <= m2,
    ensures
        count_spec(q, m) <= count_spec(q, m2),
    decreases m2 - m,
{
    if m < m2 {
        lemma_count_grows_in_checkers(q, m, (m2 - 1) as nat);
        if q > 0 {
            lemma_count_pascal((q - 1) as nat, (m2 - 1) as nat);
        }
    }
}

pub proof fn lemma_count_grows_in_points(q: nat, q2: nat, m: nat)
    requires
        q <= q2,
    ensures
        count_spec(q, m) <= count_spec(q2, m),
    decreases q2 - q,
{
    if q < q2 {
        lemma_count_grows_in_points(q, (q2 - 1) as nat, m);
        if m == 0 {
            lemma_count_no_checkers((q2 - 1) as nat);
            lemma_count_no_checkers(q2);
        } else {
            lemma_count_pascal((q2 - 1) as nat, (m - 1) as nat);
        }
    }
}

pub proof fn lemma_count_grows(q: nat, q2: nat, m: nat, m2: nat)
    requires
        q <= q2,
        m <= m2,
    ensures
        count_spec(q, m) <= count_spec(q2, m2),
{
    lemma_count_grows_in_points(q, q2, m);
    lemma_count_grows_in_checkers(q2, m, m2);
}

/// Number of distinct ways to place at most `max_checkers` indistinguishable checkers on
/// `points` distinguishable points (the remainder are implicitly off).
pub fn count(points: usize, max_checkers: u8) -> (c: usize)
    requires
        count_spec(points as nat, max_checkers as nat) <= usize::MAX,
    ensures
        c == count_spec(points as nat, max_checkers as nat),
{
    proof {
        let n = max_checkers + points;
        if points > 0 && max_checkers > 0 {
            lemma_binom_inner_at_least_row(n as nat, points as nat);
        }
    }
    let n: u64 = max_checkers as u64 + points as u64;
    proof {
        lemma_binomial_fits(n as nat, points as nat);
    }
    let r = binomial(n, points as u64);
    r as usize
}

/// Number of placements ranked below those whose next point holds `c` checkers, when
/// `m` checkers remain for that point and `q` points after it: the placements whose next
/// point holds `0..c` checkers.
pub open spec fn block(q: nat, m: nat, c: nat) -> nat
    decreases c,
{
    if c == 0 {
        0
    } else {
        block(q, m, (c - 1) as nat) + count_spec(q, (m - (c - 1)) as nat)
    }
}

/// Total checkers in a placement.
pub open spec fn placement_sum(s: Seq<u8>) -> nat
    decreases s.len(),
{
    if s.len() == 0 {
        0
    } else {
        s[0] as nat + placement_sum(s.drop_first())
    }
}

/// The dense index of placement `s` when at most `m` checkers may be placed.
pub open spec fn rank_from(m: nat, s: Seq<u8>) -> nat
    decreases s.len(),
{
    if s.len() == 0 {
        0
    } else {
        block((s.len() - 1) as nat, m, s[0] as nat) + rank_from((m - s[0]) as nat, s.drop_first())
    }
}

pub proof fn lemma_block_grows(q: nat, m: nat, a: nat, b: nat)
    requires
        a <= b,
    ensures
        block(q, m, a) <= block(q, m, b),
    decreases b - a,
{
    if a < b {
        lemma_block_grows(q, m, a, (b - 1) as nat);
    }
}

/// The placements whose next point holds fewer than `c` checkers, plus those holding
/// exactly `c` or more, are all the placements.
pub proof fn lemma_block_closed_form(q: nat, m: nat, c: nat)
    requires
        c <= m,
    ensures
        block(q, m, c) + count_spec(q + 1, (m - c) as nat) == count_spec(q + 1, m),
    decreases c,
{
    if c > 0 {
        lemma_block_closed_form(q, m, (c - 1) as nat);
        lemma_count_pascal(q, (m - c) as nat);
        assert((m - c) as nat + 1 == (m - (c - 1)) as nat);
    }
}

pub proof fn lemma_block_all(q: nat, m: nat)
    ensures
        block(q, m, m + 1) == count_spec(q + 1, m),
{
    lemma_block_closed_form(q, m, m);
    lemma_count_no_checkers(q);
    lemma_count_no_checkers(q + 1);
}

/// A placement ranks below the number of placements of its shape.
pub proof fn lemma_rank_below_count(m: nat, s: Seq<u8>)
    requires
        placement_sum(s) <= m,
    ensures
        rank_from(m, s) < count_spec(s.len(), m),
    decreases s.len(),
{
    if s.len() == 0 {
        lemma_count_no_points(m);
    } else {
        let q = (s.len() - 1) as nat;
        let c = s[0] as nat;
        lemma_rank_below_count((m - c) as nat, s.drop_first());
        lemma_count_grows_in_points(q, q + 1, (m - c) as nat);
        lemma_block_closed_form(q, m, c);
    }
}


/// The checker count, starting the search at `v`, that the next point of the placement
/// with index `idx` holds: the first `v` whose block of placements reaches past `idx`.
pub open spec fn next_count(q: nat, m: nat, idx: nat, v: nat) -> nat
    decreases m - v,
{
    if v >= m || idx < block(q, m, v + 1) {
        v
    } else {
        next_count(q, m, idx, v + 1)
    }
}

/// The placement of `len` points with at most `m` checkers whose index is `idx`.
pub open spec fn placement_of_rank(len: nat, m: nat, idx: nat) -> Seq<u8>
    decreases len,
{
    if len == 0 {
        seq![]
    } else {
        let v = next_count((len - 1) as nat, m, idx, 0);
        seq![v as u8] + placement_of_rank(
            (len - 1) as nat,
            (m - v) as nat,
            (idx - block((len - 1) as nat, m, v)) as nat,
        )
    }
}

proof fn lemma_next_count_found(q: nat, m: nat, idx: nat, v: nat)
    requires
        idx < count_spec(q + 1, m),
        block(q, m, v) <= idx,
        v <= m,
    ensures
        v <= next_count(q, m, idx, v) <= m,
        block(q, m, next_count(q, m, idx, v)) <= idx < block(q, m, next_count(q, m, idx, v) + 1),
    decreases m - v,
{
    if v == m {
        lemma_block_all(q, m);
    } else if !(idx < block(q, m, v + 1)) {
        lemma_next_count_found(q, m, idx, v + 1);
    }
}

proof fn lemma_next_count_unique(q: nat, m: nat, idx: nat, c: nat, v: nat)
    requires
        block(q, m, c) <= idx < block(q, m, c + 1),
        c <= m,
        v <= c,
    ensures
        next_count(q, m, idx, v) == c,
    decreases c - v,
{
    if v < c {
        lemma_block_grows(q, m, v + 1, c);
        lemma_next_count_unique(q, m, idx, c, v + 1);
    }
}

/// Every index below the number of placements names a placement of that shape, and that
/// placement ranks back to the index.
pub proof fn lemma_placement_of_rank(len: nat, m: nat, idx: nat)
    requires
        idx < count_spec(len, m),
        m <= u8::MAX,
    ensures
        placement_of_rank(len, m, idx).len() == len,
        placement_sum(placement_of_rank(len, m, idx)) <= m,
        rank_from(m, placement_of_rank(len, m, idx)) == idx,
    decreases len,
{
    if len > 0 {
        let q = (len - 1) as nat;
        lemma_next_count_found(q, m, idx, 0);
        let v = next_count(q, m, idx, 0);
        let rest_idx = (idx - block(q, m, v)) as nat;
        lemma_placement_of_rank(q, (m - v) as nat, rest_idx);
        let rest = placement_of_rank(q, (m - v) as nat, rest_idx);
        let s = placement_of_rank(len, m, idx);
        assert(s =~= seq![v as u8] + rest);
        assert(s.drop_first() =~= rest);
    }
}

/// Ranking then recovering the placement gives the placement back.
pub proof fn lemma_rank_then_placement(m: nat, s: Seq<u8>)
    requires
        placement_sum(s) <= m,
        m <= u8::MAX,
    ensures
        placement_of_rank(s.len(), m, rank_from(m, s)) == s,
    decreases s.len(),
{
    if s.len() > 0 {
        let q = (s.len() - 1) as nat;
        let c = s[0] as nat;
        let rest = s.drop_first();
        let r = rank_from(m, s);
        lemma_rank_below_count((m - c) as nat, rest);
        lemma_next_count_unique(q, m, r, c, 0);
        lemma_rank_then_placement((m - c) as nat, rest);
        assert(placement_of_rank(s.len(), m, r) =~= seq![c as u8] + rest);
        assert(s =~= seq![s[0]] + rest);
    }
}

/// Distinct placements of the same shape have distinct indices.
pub proof fn lemma_rank_injective(m: nat, s: Seq<u8>, t: Seq<u8>)
    requires
        s.len() == t.len(),
        placement_sum(s) <= m,
        placement_sum(t) <= m,
        m <= u8::MAX,
        rank_from(m, s) == rank_from(m, t),
    ensures
        s == t,
{
    lemma_rank_then_placement(m, s);
    lemma_rank_then_placement(m, t);
}

/// Ranks a checker placement into a dense index in `0..count(P, max_checkers)`.
///
/// `checkers[i]` is the number of checkers on point `i`; those not on a point are off.
pub fn rank<const P: usize>(max_checkers: u8, checkers: [u8; P]) -> (index: usize)
    requires
        placement_sum(checkers@) <= max_checkers,
        rank_from(max_checkers as nat, checkers@) <= usize::MAX,
    ensures
        index == rank_from(max_checkers as nat, checkers@),
{
    let ghost s = checkers@;
    let ghost total = rank_from(max_checkers as nat, s);
    let mut index: usize = 0;
    let mut remaining: u8 = max_checkers;
    let mut i: usize = 0;
    assert(s.subrange(0, P as int) =~= s);
    while i < P
        invariant
            s == checkers@,
            s.len() == P,
            i <= P,
            total == rank_from(max_checkers as nat, s),
            total <= usize::MAX,
            placement_sum(s.subrange(i as int, P as int)) <= remaining,
            index + rank_from(remaining as nat, s.subrange(i as int, P as int)) == total,
        decreases P - i,
    {
        let ghost t = s.subrange(i as int, P as int);
        let ghost q = (P - i - 1) as nat;
        assert(t.drop_first() =~= s.subrange(i + 1, P as int));
        let c = checkers[i];
        assert(t[0] == c);
        let remaining_points = P - i - 1;
        let ghost start = index;
        let mut v: u8 = 0;
        while v < c
            invariant
                v <= c,
                c <= remaining,
                remaining_points == q,
                index == start + block(q, remaining as nat, v as nat),
                start + block(q, remaining as nat, c as nat) <= total,
                total <= usize::MAX,
            decreases c - v,
        {
            proof {
                lemma_block_grows(q, remaining as nat, (v + 1) as nat, c as nat);
            }
            index = index + count(remaining_points, remaining - v);
            v = v + 1;
        }
        remaining = remaining - c;
        i = i + 1;
    }
    index
}

/// Inverse of [`rank`]: recovers the checker placement from a dense index.
pub fn unrank<const P: usize>(max_checkers: u8, index: usize) -> (checkers: [u8; P])
    requires
        count_spec(P as nat, max_checkers as nat) <= usize::MAX,
        index < count_spec(P as nat, max_checkers as nat),
    ensures
        checkers@ == placement_of_rank(P as nat, max_checkers as nat, index as nat),
        placement_sum(checkers@) <= max_checkers,
        rank_from(max_checkers as nat, checkers@) == index,
{
    let ghost goal = placement_of_rank(P as nat, max_checkers as nat, index as nat);
    proof {
        lemma_placement_of_rank(P as nat, max_checkers as nat, index as nat);
    }
    let mut checkers = [0u8; P];
    let mut remaining: u8 = max_checkers;
    let mut idx: usize = index;
    let mut i: usize = 0;
    while i < P
        invariant
            i <= P,
            checkers@.len() == P,
            remaining <= max_checkers,
            count_spec(P as nat, max_checkers as nat) <= usize::MAX,
            idx < count_spec((P - i) as nat, remaining as nat),
            goal == placement_of_rank(P as nat, max_checkers as nat, index as nat),
            goal =~= checkers@.subrange(0, i as int) + placement_of_rank(
                (P - i) as nat,
                remaining as nat,
                idx as nat,
            ),
        decreases P - i,
    {
        let remaining_points = P - i - 1;
        let ghost q = remaining_points as nat;
        let ghost idx0 = idx as nat;
        proof {
            lemma_next_count_found(q, remaining as nat, idx0, 0);
        }
        let mut v: u8 = 0;
        loop
            invariant
                v <= remaining,
                remaining_points == q,
                remaining <= max_checkers,
                count_spec(P as nat, max_checkers as nat) <= usize::MAX,
                q + 1 <= P,
                idx0 < count_spec(q + 1, remaining as nat),
                block(q, remaining as nat, v as nat) <= idx0,
                idx == idx0 - block(q, remaining as nat, v as nat),
                next_count(q, remaining as nat, idx0, 0) == next_count(
                    q,
                    remaining as nat,
                    idx0,
                    v as nat,
                ),
            ensures
                v <= remaining,
                idx == idx0 - block(q, remaining as nat, v as nat),
                idx < count_spec(q, (remaining - v) as nat),
                next_count(q, remaining as nat, idx0, 0) == v,
            decreases remaining - v,
        {
            proof {
                lemma_count_grows(q, P as nat, (remaining - v) as nat, max_checkers as nat);
            }
            let c = count(remaining_points, remaining - v);
            if idx < c {
                assert(idx0 < block(q, remaining as nat, (v + 1) as nat));
                break;
            }
            proof {
                if v == remaining {
                    lemma_block_all(q, remaining as nat);
                }
            }
            idx = idx - c;
            v = v + 1;
        }
        let ghost rest = placement_of_rank(q, (remaining - v) as nat, idx as nat);
        assert((P - i) as nat == q + 1);
        assert(placement_of_rank(q + 1, remaining as nat, idx0) =~= seq![v] + rest);
        checkers[i] = v;
        remaining = remaining - v;
        i = i + 1;
    }
    assert(checkers@.subrange(0, P as int) =~= checkers@);
    checkers
}


/// Adding a point at the end adds its checkers to the total.
pub proof fn lemma_placement_sum_push(s: Seq<u8>, x: u8)
    ensures
        placement_sum(s.push(x)) == placement_sum(s) + x,
    decreases s.len(),
{
    if s.len() > 0 {
        lemma_placement_sum_push(s.drop_first(), x);
        assert(s.push(x).drop_first() =~= s.drop_first().push(x));
        assert(s.push(x)[0] == s[0]);
    } else {
        assert(s.push(x).drop_first() =~= Seq::<u8>::empty());
        assert(placement_sum(Seq::<u8>::empty()) == 0);
        assert(s.push(x)[0] == x);
    }
}

/// A prefix of a placement holds no more checkers than the whole.
pub proof fn lemma_placement_sum_prefix_bound(s: Seq<u8>, n: int)
    requires
        0 <= n <= s.len(),
    ensures
        placement_sum(s.take(n)) <= placement_sum(s),
        n < s.len() ==> placement_sum(s.take(n)) + s[n] <= placement_sum(s),
    decreases s.len() - n,
{
    if n < s.len() {
        lemma_placement_sum_prefix_bound(s, n + 1);
        lemma_placement_sum_push(s.take(n), s[n]);
        assert(s.take(n).push(s[n]) =~= s.take(n + 1));
    } else {
        assert(s.take(n) =~= s);
    }
}

/// The placement with every checker off ranks first.
pub proof fn lemma_rank_all_off(m: nat, s: Seq<u8>)
    requires
        forall|i: int| 0 <= i < s.len() ==> s[i] == 0,
    ensures
        rank_from(m, s) == 0,
    decreases s.len(),
{
    if s.len() > 0 {
        lemma_rank_all_off(m, s.drop_first());
    }
}

/// One more checker on any point, taken from those borne off, gives a larger index: the
/// index grows as more checkers remain on the board.
pub proof fn lemma_rank_grows_with_checkers(m: nat, s: Seq<u8>, i: int)
    requires
        placement_sum(s) < m,
        0 <= i < s.len(),
        s[i] < u8::MAX,
    ensures
        rank_from(m, s.update(i, (s[i] + 1) as u8)) > rank_from(m, s),
    decreases s.len(),
{
    let t = s.update(i, (s[i] + 1) as u8);
    let c = s[0] as nat;
    let rest = s.drop_first();
    if i == 0 {
        assert(t.drop_first() =~= rest);
        lemma_rank_below_count((m - c) as nat, rest);
    } else {
        assert(t.drop_first() =~= rest.update(i - 1, (rest[i - 1] + 1) as u8));
        lemma_rank_grows_with_checkers((m - c) as nat, rest, i - 1);
    }
}

/// `x` comes before `y` in lexicographic order, the first point the most significant.
pub open spec fn lex_less(x: Seq<u8>, y: Seq<u8>) -> bool
    decreases x.len(),
{
    x.len() > 0 && y.len() > 0 && (x[0] < y[0] || (x[0] == y[0] && lex_less(x.drop_first(), y.drop_first())))
}

/// The placements of at most `m` checkers on `len` points.
pub open spec fn placements(len: nat, m: nat) -> Set<Seq<u8>> {
    Set::new(|y: Seq<u8>| y.len() == len && placement_sum(y) <= m)
}

/// The placements of the shape of `s` that come before it in lexicographic order.
pub open spec fn placements_before(m: nat, s: Seq<u8>) -> Set<Seq<u8>> {
    placements(s.len(), m).filter(|y: Seq<u8>| lex_less(y, s))
}

/// Of two distinct placements of the same length, one comes first.
pub proof fn lemma_lex_total(x: Seq<u8>, y: Seq<u8>)
    requires
        x.len() == y.len(),
        x != y,
    ensures
        lex_less(x, y) || lex_less(y, x),
    decreases x.len(),
{
    if x.len() == 0 {
        assert(x =~= y);
    } else if x[0] == y[0] {
        if x.drop_first() == y.drop_first() {
            assert(x =~= seq![x[0]] + x.drop_first());
            assert(y =~= seq![y[0]] + y.drop_first());
        }
        lemma_lex_total(x.drop_first(), y.drop_first());
    }
}

/// The index follows lexicographic order: a placement that comes first has a smaller
/// index.
pub proof fn lemma_rank_follows_lex_order(m: nat, x: Seq<u8>, y: Seq<u8>)
    requires
        x.len() == y.len(),
        placement_sum(x) <= m,
        placement_sum(y) <= m,
        lex_less(x, y),
    ensures
        rank_from(m, x) < rank_from(m, y),
    decreases x.len(),
{
    let q = (x.len() - 1) as nat;
    let a = x[0] as nat;
    let c = y[0] as nat;
    if a < c {
        lemma_rank_below_count((m - a) as nat, x.drop_first());
        lemma_block_grows(q, m, a + 1, c);
    } else {
        lemma_rank_follows_lex_order((m - a) as nat, x.drop_first(), y.drop_first());
    }
}

/// Adding checkers to any points, taken from those borne off, gives a larger index.
pub proof fn lemma_rank_grows_pointwise(m: nat, x: Seq<u8>, y: Seq<u8>)
    requires
        x.len() == y.len(),
        forall|i: int| 0 <= i < x.len() ==> x[i] <= y[i],
        x != y,
        placement_sum(y) <= m,
    ensures
        rank_from(m, x) < rank_from(m, y),
    decreases x.len(),
{
    if x.len() == 0 {
        assert(x =~= y);
    } else if x[0] < y[0] {
        lemma_placement_sum_pointwise(x, y);
        lemma_rank_follows_lex_order(m, x, y);
    } else {
        if x.drop_first() == y.drop_first() {
            assert(x =~= seq![x[0]] + x.drop_first());
            assert(y =~= seq![y[0]] + y.drop_first());
        }
        lemma_rank_grows_pointwise((m - x[0]) as nat, x.drop_first(), y.drop_first());
    }
}

proof fn lemma_placement_sum_pointwise(x: Seq<u8>, y: Seq<u8>)
    requires
        x.len() == y.len(),
        forall|i: int| 0 <= i < x.len() ==> x[i] <= y[i],
    ensures
        placement_sum(x) <= placement_sum(y),
    decreases x.len(),
{
    if x.len() > 0 {
        lemma_placement_sum_pointwise(x.drop_first(), y.drop_first());
    }
}

/// The index of a placement is the number of placements of its shape that come before it
/// in lexicographic order.
pub proof fn lemma_rank_counts_placements_before(m: nat, s: Seq<u8>)
    requires
        placement_sum(s) <= m,
        m <= u8::MAX,
    ensures
        placements_before(m, s).finite(),
        placements_before(m, s).len() == rank_from(m, s),
{
    let len = s.len();
    let r = rank_from(m, s) as int;
    let f = |i: int| placement_of_rank(len, m, i as nat);
    let range = vstd::set_lib::set_int_range(0, r);
    lemma_rank_below_count(m, s);
    lemma_rank_then_placement(m, s);
    assert forall|y: Seq<u8>| #[trigger] placements_before(m, s).contains(y) <==> range.map(f).contains(y) by {
        if placements_before(m, s).contains(y) {
            lemma_rank_follows_lex_order(m, y, s);
            lemma_rank_then_placement(m, y);
            let i = rank_from(m, y) as int;
            assert(range.contains(i) && y == f(i));
        }
        if range.map(f).contains(y) {
            let i = choose|i: int| range.contains(i) && y == f(i);
            lemma_placement_of_rank(len, m, i as nat);
            if !lex_less(y, s) {
                if y == s {
                } else {
                    lemma_lex_total(y, s);
                    lemma_rank_follows_lex_order(m, s, y);
                }
            }
        }
    }
    assert(placements_before(m, s) =~= range.map(f));
    vstd::set_lib::lemma_int_range(0, r);
    assert forall|i1: int, i2: int| range.contains(i1) && range.contains(i2) && #[trigger] f(i1) == #[trigger] f(i2)
        implies i1 == i2 by {
        lemma_placement_of_rank(len, m, i1 as nat);
        lemma_placement_of_rank(len, m, i2 as nat);
    }
    vstd::set_lib::lemma_map_size(range, placements_before(m, s), f);
}

proof fn lemma_binom_next(n: nat, k: nat, prev: nat, next: nat)
    requires
        k < n,
        binom(n, k) == prev,
        (k + 1) * next == (n - k) * prev,
    ensures
        binom(n, k + 1) == next,
{
    lemma_binom_step(n, k);
    let b = binom(n, k + 1);
    assert(b == next) by (nonlinear_arith)
        requires
            (k + 1) * b == (n - k) * prev,
            (k + 1) * next == (n - k) * prev,
            k + 1 > 0,
    ;
}

/// The sizes of the one-sided bearoff index spaces: placements of at most 15 checkers on
/// 6 points, and on 5.
pub proof fn lemma_bearoff_counts()
    ensures
        count_spec(6, 15) == 54264,
        count_spec(5, 15) == 15504,
{
    lemma_binom_next(20, 0, 1, 20);
    lemma_binom_next(20, 1, 20, 190);
    lemma_binom_next(20, 2, 190, 1140);
    lemma_binom_next(20, 3, 1140, 4845);
    lemma_binom_next(20, 4, 4845, 15504);
    lemma_binom_next(21, 0, 1, 21);
    lemma_binom_next(21, 1, 21, 210);
    lemma_binom_next(21, 2, 210, 1330);
    lemma_binom_next(21, 3, 1330, 5985);
    lemma_binom_next(21, 4, 5985, 20349);
    lemma_binom_next(21, 5, 20349, 54264);
}

} // verus!
