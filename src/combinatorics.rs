use vstd::prelude::*;

use crate::counter::{reachable, reachable_sum, unreachable_count, unreachable_count_sum, variations};

verus! {

/// Number of sequences of exactly `d` words whose lengths add up to at most `x`, where
/// `n(k)` words have length `k`.
pub open spec fn within(n: spec_fn(int) -> nat, x: nat, d: nat) -> int
    decreases d, 1nat, x,
{
    if d == 0 {
        1
    } else {
        within_sum(n, x, d, x)
    }
}

/// `n(1) * within(x - 1, d - 1) + ... + n(m) * within(x - m, d - 1)`.
pub open spec fn within_sum(n: spec_fn(int) -> nat, x: nat, d: nat, m: nat) -> int
    decreases d, 0nat, m,
{
    if d == 0 || m == 0 || m > x {
        0
    } else {
        within_sum(n, x, d, (m - 1) as nat) + n(m as int) * within(n, (x - m) as nat, (d - 1) as nat)
    }
}

/// Number of sequences of fewer than `d` words whose lengths add up to exactly `x`.
pub open spec fn fewer(n: spec_fn(int) -> nat, x: nat, d: nat) -> int
    decreases d, 1nat, x,
{
    if d == 0 {
        0
    } else {
        (if x == 0 {
            1int
        } else {
            0int
        }) + fewer_sum(n, x, d, x)
    }
}

/// `n(1) * fewer(x - 1, d - 1) + ... + n(m) * fewer(x - m, d - 1)`.
pub open spec fn fewer_sum(n: spec_fn(int) -> nat, x: nat, d: nat, m: nat) -> int
    decreases d, 0nat, m,
{
    if d == 0 || m == 0 || m > x {
        0
    } else {
        fewer_sum(n, x, d, (m - 1) as nat) + n(m as int) * fewer(n, (x - m) as nat, (d - 1) as nat)
    }
}

/// Up to `m` words, every sequence of at most `m` bytes is counted once by `within` or
/// `fewer`: `reachable(x) == within(x, m) + fewer(x, m)` for `x <= m`.
proof fn lemma_short_totals(n: spec_fn(int) -> nat, x: nat, m: nat)
    requires
        x <= m,
    ensures
        reachable(n, x) == within(n, x, m) + fewer(n, x, m),
    decreases m, x + 1,
{
    if m > 0 && x > 0 {
        lemma_short_totals_sum(n, x, m, x);
    }
}

proof fn lemma_short_totals_sum(n: spec_fn(int) -> nat, x: nat, m: nat, j: nat)
    requires
        1 <= m,
        x <= m,
        j <= x,
    ensures
        reachable_sum(n, x, j) == within_sum(n, x, m, j) + fewer_sum(n, x, m, j),
    decreases m, j,
{
    if j > 0 {
        lemma_short_totals_sum(n, x, m, (j - 1) as nat);
        lemma_short_totals(n, (x - j) as nat, (m - 1) as nat);
        let k = n(j as int);
        let r = reachable(n, (x - j) as nat);
        let w = within(n, (x - j) as nat, (m - 1) as nat);
        let f = fewer(n, (x - j) as nat, (m - 1) as nat);
        assert(k * r == k * w + k * f) by (nonlinear_arith)
            requires
                r == w + f,
        ;
    }
}

/// The correction term in closed form:
/// `unreachable_count(y, d) == reachable(y + d) - within(y + d, d) - fewer(y + d, d)`.
proof fn lemma_unreachable_closed(n: spec_fn(int) -> nat, y: nat, d: nat)
    ensures
        unreachable_count(n, y, d) == reachable(n, y + d) - within(n, y + d, d) - fewer(n, y + d, d),
    decreases d, 1nat, 0nat,
{
    if d > 0 {
        lemma_unreachable_closed_sum(n, y, d, y);
        lemma_vanishing_terms(n, y, d, y + d);
    }
}

proof fn lemma_unreachable_closed_sum(n: spec_fn(int) -> nat, y: nat, d: nat, j: nat)
    requires
        d > 0,
        j <= y,
    ensures
        unreachable_count_sum(n, y, d, j) == reachable_sum(n, y + d, j) - within_sum(n, y + d, d, j)
            - fewer_sum(n, y + d, d, j),
    decreases d, 0nat, j,
{
    if j > 0 {
        lemma_unreachable_closed_sum(n, y, d, (j - 1) as nat);
        lemma_unreachable_closed(n, (y - j + 1) as nat, (d - 1) as nat);
        assert((y - j + 1) + (d - 1) == y + d - j);
        let k = n(j as int);
        let u = unreachable_count(n, (y - j + 1) as nat, (d - 1) as nat);
        let r = reachable(n, (y + d - j) as nat);
        let w = within(n, (y + d - j) as nat, (d - 1) as nat);
        let f = fewer(n, (y + d - j) as nat, (d - 1) as nat);
        assert(k * u == k * r - k * w - k * f) by (nonlinear_arith)
            requires
                u == r - w - f,
        ;
    }
}

/// The terms for first words longer than `y` add nothing.
proof fn lemma_vanishing_terms(n: spec_fn(int) -> nat, y: nat, d: nat, j: nat)
    requires
        d > 0,
        y <= j <= y + d,
    ensures
        reachable_sum(n, y + d, j) - within_sum(n, y + d, d, j) - fewer_sum(n, y + d, d, j)
            == reachable_sum(n, y + d, y) - within_sum(n, y + d, d, y) - fewer_sum(n, y + d, d, y),
    decreases j,
{
    if j > y {
        lemma_vanishing_terms(n, y, d, (j - 1) as nat);
        lemma_short_totals(n, (y + d - j) as nat, (d - 1) as nat);
        let k = n(j as int);
        let r = reachable(n, (y + d - j) as nat);
        let w = within(n, (y + d - j) as nat, (d - 1) as nat);
        let f = fewer(n, (y + d - j) as nat, (d - 1) as nat);
        assert(k * r - k * w - k * f == 0) by (nonlinear_arith)
            requires
                r == w + f,
        ;
    }
}

proof fn lemma_within_too_short(n: spec_fn(int) -> nat, x: nat, d: nat)
    requires
        x < d,
    ensures
        within(n, x, d) == 0,
    decreases d, 1nat, 0nat,
{
    lemma_within_too_short_sum(n, x, d, x);
}

proof fn lemma_within_too_short_sum(n: spec_fn(int) -> nat, x: nat, d: nat, j: nat)
    requires
        x < d,
        j <= x,
    ensures
        within_sum(n, x, d, j) == 0,
    decreases d, 0nat, j,
{
    if j > 0 {
        lemma_within_too_short_sum(n, x, d, (j - 1) as nat);
        lemma_within_too_short(n, (x - j) as nat, (d - 1) as nat);
    }
}

proof fn lemma_fewer_all(n: spec_fn(int) -> nat, x: nat, d: nat)
    requires
        x < d,
    ensures
        fewer(n, x, d) == reachable(n, x),
    decreases d, 1nat, 0nat,
{
    lemma_fewer_all_sum(n, x, d, x);
}

proof fn lemma_fewer_all_sum(n: spec_fn(int) -> nat, x: nat, d: nat, j: nat)
    requires
        x < d,
        j <= x,
    ensures
        fewer_sum(n, x, d, j) == reachable_sum(n, x, j),
    decreases d, 0nat, j,
{
    if j > 0 {
        lemma_fewer_all_sum(n, x, d, (j - 1) as nat);
        lemma_fewer_all(n, (x - j) as nat, (d - 1) as nat);
    }
}

/// The variation count splits exactly into the `depth`-word sequences within
/// `max_length` bytes and the sequences of fewer words that fill `max_length` exactly.
pub proof fn lemma_variations_decomposition(n: spec_fn(int) -> nat, max_length: nat, depth: nat)
    ensures
        variations(n, max_length, depth) == within(n, max_length, depth) + fewer(
            n,
            max_length,
            depth,
        ),
{
    if max_length >= depth {
        lemma_unreachable_closed(n, (max_length - depth) as nat, depth);
    } else {
        lemma_within_too_short(n, max_length, depth);
        lemma_fewer_all(n, max_length, depth);
    }
}

/// No count of sequences is negative.
pub proof fn lemma_within_nonnegative(n: spec_fn(int) -> nat, x: nat, d: nat)
    ensures
        within(n, x, d) >= 0,
    decreases d, 1nat, 0nat,
{
    if d > 0 {
        lemma_within_nonnegative_sum(n, x, d, x);
    }
}

proof fn lemma_within_nonnegative_sum(n: spec_fn(int) -> nat, x: nat, d: nat, j: nat)
    requires
        d > 0,
        j <= x,
    ensures
        within_sum(n, x, d, j) >= 0,
    decreases d, 0nat, j,
{
    if j > 0 {
        lemma_within_nonnegative_sum(n, x, d, (j - 1) as nat);
        lemma_within_nonnegative(n, (x - j) as nat, (d - 1) as nat);
        let k = n(j as int);
        let w = within(n, (x - j) as nat, (d - 1) as nat);
        assert(k * w >= 0) by (nonlinear_arith)
            requires
                k >= 0,
                w >= 0,
        ;
    }
}

proof fn lemma_fewer_nonnegative(n: spec_fn(int) -> nat, x: nat, d: nat)
    ensures
        fewer(n, x, d) >= 0,
    decreases d, 1nat, 0nat,
{
    if d > 0 {
        lemma_fewer_nonnegative_sum(n, x, d, x);
    }
}

proof fn lemma_fewer_nonnegative_sum(n: spec_fn(int) -> nat, x: nat, d: nat, j: nat)
    requires
        d > 0,
        j <= x,
    ensures
        fewer_sum(n, x, d, j) >= 0,
    decreases d, 0nat, j,
{
    if j > 0 {
        lemma_fewer_nonnegative_sum(n, x, d, (j - 1) as nat);
        lemma_fewer_nonnegative(n, (x - j) as nat, (d - 1) as nat);
        let k = n(j as int);
        let f = fewer(n, (x - j) as nat, (d - 1) as nat);
        assert(k * f >= 0) by (nonlinear_arith)
            requires
                k >= 0,
                f >= 0,
        ;
    }
}

/// One more byte of room never loses a sequence.
proof fn lemma_within_step(n: spec_fn(int) -> nat, x: nat, d: nat)
    ensures
        within(n, x, d) <= within(n, x + 1, d),
    decreases d, 1nat, 0nat,
{
    if d > 0 {
        lemma_within_step_sum(n, x, d, x);
        lemma_within_nonnegative(n, 0, (d - 1) as nat);
        let k = n(x + 1int);
        let w = within(n, 0, (d - 1) as nat);
        assert(k * w >= 0) by (nonlinear_arith)
            requires
                k >= 0,
                w >= 0,
        ;
    }
}

proof fn lemma_within_step_sum(n: spec_fn(int) -> nat, x: nat, d: nat, j: nat)
    requires
        d > 0,
        j <= x,
    ensures
        within_sum(n, x, d, j) <= within_sum(n, x + 1, d, j),
    decreases d, 0nat, j,
{
    if j > 0 {
        lemma_within_step_sum(n, x, d, (j - 1) as nat);
        lemma_within_step(n, (x - j) as nat, (d - 1) as nat);
        assert((x - j) + 1 == (x + 1 - j));
        let k = n(j as int);
        let a = within(n, (x - j) as nat, (d - 1) as nat);
        let b = within(n, (x + 1 - j) as nat, (d - 1) as nat);
        assert(k * a <= k * b) by (nonlinear_arith)
            requires
                k >= 0,
                a <= b,
        ;
    }
}

proof fn lemma_within_monotonic(n: spec_fn(int) -> nat, x: nat, x2: nat, d: nat)
    requires
        x <= x2,
    ensures
        within(n, x, d) <= within(n, x2, d),
    decreases x2 - x,
{
    if x < x2 {
        lemma_within_monotonic(n, x, (x2 - 1) as nat, d);
        lemma_within_step(n, (x2 - 1) as nat, d);
    }
}

/// With no word at all there is exactly one sequence of total length 0, the empty one.
pub proof fn lemma_reachable_empty(n: spec_fn(int) -> nat)
    ensures
        reachable(n, 0) == 1,
{
}

/// There is exactly one way to choose no words, whatever the length bound.
pub proof fn lemma_variations_no_words(n: spec_fn(int) -> nat, max_length: nat)
    ensures
        variations(n, max_length, 0) == 1,
{
}

/// The variation count is never negative.
pub proof fn lemma_variations_nonnegative(n: spec_fn(int) -> nat, max_length: nat, depth: nat)
    ensures
        variations(n, max_length, depth) >= 0,
{
    lemma_variations_decomposition(n, max_length, depth);
    lemma_within_nonnegative(n, max_length, depth);
    lemma_fewer_nonnegative(n, max_length, depth);
}

/// The variation count equals the number of `depth`-word sequences within `max_length`
/// bytes exactly when no sequence of fewer words fills `max_length` bytes exactly.
pub proof fn lemma_variations_count_sequences(n: spec_fn(int) -> nat, max_length: nat, depth: nat)
    ensures
        (variations(n, max_length, depth) == within(n, max_length, depth)) <==> (fewer(
            n,
            max_length,
            depth,
        ) == 0),
{
    lemma_variations_decomposition(n, max_length, depth);
}

/// Raising the length bound does not lower the variation count, from a bound that no
/// sequence of fewer than `depth` words fills exactly.
pub proof fn lemma_variations_monotonic(
    n: spec_fn(int) -> nat,
    max_length: nat,
    larger: nat,
    depth: nat,
)
    requires
        max_length <= larger,
        fewer(n, max_length, depth) == 0,
    ensures
        variations(n, max_length, depth) <= variations(n, larger, depth),
{
    lemma_variations_decomposition(n, max_length, depth);
    lemma_variations_decomposition(n, larger, depth);
    lemma_within_monotonic(n, max_length, larger, depth);
    lemma_fewer_nonnegative(n, larger, depth);
}

proof fn lemma_reachable_nonnegative(n: spec_fn(int) -> nat, x: nat)
    ensures
        reachable(n, x) >= 0,
    decreases x, x + 1,
{
    if x > 0 {
        lemma_reachable_nonnegative_sum(n, x, x);
    }
}

proof fn lemma_reachable_nonnegative_sum(n: spec_fn(int) -> nat, x: nat, j: nat)
    requires
        j <= x,
    ensures
        reachable_sum(n, x, j) >= 0,
    decreases x, j,
{
    if j > 0 {
        lemma_reachable_nonnegative_sum(n, x, (j - 1) as nat);
        lemma_reachable_nonnegative(n, (x - j) as nat);
        let k = n(j as int);
        let r = reachable(n, (x - j) as nat);
        assert(k * r >= 0) by (nonlinear_arith)
            requires
                k >= 0,
                r >= 0,
        ;
    }
}

/// A sum of non-negative terms is at least its first term.
proof fn lemma_reachable_sum_first(n: spec_fn(int) -> nat, x: nat, j: nat)
    requires
        1 <= j <= x,
    ensures
        reachable_sum(n, x, j) >= n(1) * reachable(n, (x - 1) as nat),
    decreases j,
{
    if j == 1 {
        assert(reachable_sum(n, x, 0) == 0);
    } else {
        lemma_reachable_sum_first(n, x, (j - 1) as nat);
        lemma_reachable_nonnegative(n, (x - j) as nat);
        let k = n(j as int);
        let r = reachable(n, (x - j) as nat);
        assert(k * r >= 0) by (nonlinear_arith)
            requires
                k >= 0,
                r >= 0,
        ;
    }
}

proof fn lemma_reachable_positive(n: spec_fn(int) -> nat, x: nat)
    requires
        n(1) > 0,
    ensures
        reachable(n, x) > 0,
    decreases x,
{
    if x > 0 {
        lemma_reachable_positive(n, (x - 1) as nat);
        lemma_reachable_sum_first(n, x, x);
        let k = n(1);
        let r = reachable(n, (x - 1) as nat);
        assert(k * r > 0) by (nonlinear_arith)
            requires
                k > 0,
                r > 0,
        ;
    }
}

proof fn lemma_within_sum_first(n: spec_fn(int) -> nat, x: nat, d: nat, j: nat)
    requires
        d > 0,
        1 <= j <= x,
    ensures
        within_sum(n, x, d, j) >= n(1) * within(n, (x - 1) as nat, (d - 1) as nat),
    decreases j,
{
    if j == 1 {
        assert(within_sum(n, x, d, 0) == 0);
    } else {
        lemma_within_sum_first(n, x, d, (j - 1) as nat);
        lemma_within_nonnegative(n, (x - j) as nat, (d - 1) as nat);
        let k = n(j as int);
        let w = within(n, (x - j) as nat, (d - 1) as nat);
        assert(k * w >= 0) by (nonlinear_arith)
            requires
                k >= 0,
                w >= 0,
        ;
    }
}

proof fn lemma_within_positive(n: spec_fn(int) -> nat, x: nat, d: nat)
    requires
        n(1) > 0,
        d <= x,
    ensures
        within(n, x, d) > 0,
    decreases d,
{
    if d > 0 {
        lemma_within_positive(n, (x - 1) as nat, (d - 1) as nat);
        lemma_within_sum_first(n, x, d, x);
        let k = n(1);
        let w = within(n, (x - 1) as nat, (d - 1) as nat);
        assert(k * w > 0) by (nonlinear_arith)
            requires
                k > 0,
                w > 0,
        ;
    }
}

/// With a word of one byte, every length bound admits a positive number of variations
/// for every number of words.
pub proof fn lemma_variations_positive(n: spec_fn(int) -> nat, max_length: nat, depth: nat)
    requires
        n(1) > 0,
    ensures
        variations(n, max_length, depth) > 0,
{
    lemma_variations_decomposition(n, max_length, depth);
    if depth <= max_length {
        lemma_within_positive(n, max_length, depth);
        lemma_fewer_nonnegative(n, max_length, depth);
    } else {
        lemma_within_too_short(n, max_length, depth);
        lemma_fewer_all(n, max_length, depth);
        lemma_reachable_positive(n, max_length);
    }
}

/// A sum of non-negative terms is at least any one of its terms.
proof fn lemma_within_sum_term(n: spec_fn(int) -> nat, x: nat, d: nat, j: nat, t: nat)
    requires
        d > 0,
        1 <= t <= j <= x,
    ensures
        within_sum(n, x, d, j) >= n(t as int) * within(n, (x - t) as nat, (d - 1) as nat),
    decreases j,
{
    lemma_within_nonnegative_sum(n, x, d, (j - 1) as nat);
    if j > t {
        lemma_within_sum_term(n, x, d, (j - 1) as nat, t);
        lemma_within_nonnegative(n, (x - j) as nat, (d - 1) as nat);
        let k = n(j as int);
        let w = within(n, (x - j) as nat, (d - 1) as nat);
        assert(k * w >= 0) by (nonlinear_arith)
            requires
                k >= 0,
                w >= 0,
        ;
    }
}

/// When words of `s` bytes exist, `d` words fit in every bound of at least `d * s` bytes.
pub proof fn lemma_within_positive_from(n: spec_fn(int) -> nat, s: nat, x: nat, d: nat)
    requires
        s >= 1,
        n(s as int) > 0,
        x >= d * s,
    ensures
        within(n, x, d) > 0,
    decreases d,
{
    if d > 0 {
        assert(d * s == (d - 1) * s + s) by (nonlinear_arith);
        assert(s <= x) by (nonlinear_arith)
            requires
                x >= d * s,
                d >= 1,
        ;
        lemma_within_positive_from(n, s, (x - s) as nat, (d - 1) as nat);
        lemma_within_sum_term(n, x, d, x, s);
        let k = n(s as int);
        let w = within(n, (x - s) as nat, (d - 1) as nat);
        assert(k * w > 0) by (nonlinear_arith)
            requires
                k > 0,
                w > 0,
        ;
    }
}

} // verus!
