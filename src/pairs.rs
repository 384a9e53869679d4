//! The triangular index: a closed-form slot for each unordered pair `(i, j)`,
//! `i < j < n`, laid out row by row.
use vstd::prelude::*;

verus! {

/// Number of unordered pairs of `n` items.
pub open spec fn pair_count(n: int) -> int {
    n * (n - 1) / 2
}

/// Slot of the pair `(i, j)`, `i < j < n`.
pub open spec fn slot_of(n: int, i: int, j: int) -> int {
    i * (n - 1) - i * (i + 1) / 2 + j - 1
}

/// First slot of row `i`: the slot of `(i, i + 1)`.
pub open spec fn row_start(n: int, i: int) -> int {
    slot_of(n, i, i + 1)
}

/// Some pair of `n` items has slot `s`.
pub open spec fn slot_is_taken(n: int, s: int) -> bool {
    exists|i: int, j: int| is_pair(n, i, j) && #[trigger] slot_of(n, i, j) == s
}

/// A valid pair of `n` items.
pub open spec fn is_pair(n: int, i: int, j: int) -> bool {
    0 <= i < j < n
}

proof fn lemma_half_product(i: int)
    requires
        i >= 0,
    ensures
        (i + 1) * (i + 2) / 2 == i * (i + 1) / 2 + i + 1,
        i * (i + 1) / 2 >= 0,
{
    assert((i + 1) * (i + 2) == i * (i + 1) + 2 * (i + 1)) by (nonlinear_arith);
    assert(i * (i + 1) >= 0) by (nonlinear_arith)
        requires
            i >= 0,
    ;
}

/// `i * (i + 1)` is even, so halving it is exact.
proof fn lemma_half_exact(i: int)
    requires
        i >= 0,
    ensures
        2 * (i * (i + 1) / 2) == i * (i + 1),
    decreases i,
{
    if i > 0 {
        lemma_half_exact(i - 1);
        lemma_half_product(i - 1);
        assert(i * (i + 1) == (i - 1) * i + 2 * i) by (nonlinear_arith);
    }
}

/// Row `i + 1` starts where row `i`, of `n - 1 - i` slots, ends.
pub proof fn lemma_row_step(n: int, i: int)
    requires
        0 <= i,
    ensures
        row_start(n, i + 1) == row_start(n, i) + (n - 1 - i),
        slot_of(n, i, i + 1) == row_start(n, i),
{
    lemma_half_product(i);
    assert((i + 1) * (n - 1) == i * (n - 1) + (n - 1)) by (nonlinear_arith);
}

/// Rows start at 0, and the row after the last starts at the pair count.
pub proof fn lemma_row_bounds(n: int, i: int)
    requires
        0 <= i < n,
    ensures
        row_start(n, 0) == 0,
        0 <= row_start(n, i),
        row_start(n, i) + (n - 1 - i) <= pair_count(n),
        row_start(n, n - 1) == pair_count(n),
    decreases n - i,
{
    lemma_row_start_nonneg(n, i);
    if i + 1 < n {
        lemma_row_bounds(n, i + 1);
        lemma_row_step(n, i);
    } else {
        assert(i == n - 1);
        lemma_row_start_last(n);
        lemma_row_start_nonneg(n, i);
    }
}

proof fn lemma_row_start_last(n: int)
    requires
        n >= 1,
    ensures
        row_start(n, n - 1) == pair_count(n),
        row_start(n, 0) == 0,
{
    let m = n - 1;
    lemma_half_exact(m);
    let h = m * (m + 1) / 2;
    assert(n * (n - 1) == m * (m + 1)) by (nonlinear_arith)
        requires
            m == n - 1,
    ;
    assert(m * (n - 1) - h + m == h) by (nonlinear_arith)
        requires
            m == n - 1,
            2 * h == m * (m + 1),
    ;
    assert(0 * (n - 1) - 0 * (0 + 1) / 2 + 0 == 0);
}

proof fn lemma_row_start_nonneg(n: int, i: int)
    requires
        0 <= i < n,
    ensures
        0 <= row_start(n, i),
    decreases i,
{
    if i > 0 {
        lemma_row_start_nonneg(n, i - 1);
        lemma_row_step(n, i - 1);
    } else {
        lemma_row_start_last(n);
    }
}

/// Rows are ordered: a later row starts no earlier than an earlier one ends.
proof fn lemma_rows_ordered(n: int, i: int, k: int)
    requires
        0 <= i < k < n,
    ensures
        row_start(n, i) + (n - 1 - i) <= row_start(n, k),
    decreases k - i,
{
    lemma_row_step(n, i);
    if i + 1 < k {
        lemma_rows_ordered(n, i + 1, k);
        lemma_row_step(n, i + 1);
    }
}

/// The slot of a pair lies in its row.
pub proof fn lemma_slot_in_row(n: int, i: int, j: int)
    requires
        is_pair(n, i, j),
    ensures
        row_start(n, i) <= slot_of(n, i, j) < row_start(n, i) + (n - 1 - i),
        slot_of(n, i, j) == row_start(n, i) + (j - i - 1),
{
    lemma_row_step(n, i);
}

/// Slots of pairs of `n` items, for any `n`: every pair `i < j < n` has a
/// slot in `[0, n(n-1)/2)`, no two pairs share one, and every slot in that
/// range belongs to a pair.
pub proof fn lemma_slot_bijection(n: int)
    requires
        n >= 2,
    ensures
        forall|i: int, j: int|
            is_pair(n, i, j) ==> 0 <= #[trigger] slot_of(n, i, j) < pair_count(n),
        forall|i: int, j: int, k: int, l: int|
            is_pair(n, i, j) && is_pair(n, k, l) && #[trigger] slot_of(n, i, j) == #[trigger] slot_of(
                n,
                k,
                l,
            ) ==> i == k && j == l,
        forall|s: int| 0 <= s < pair_count(n) ==> #[trigger] slot_is_taken(n, s),
{
    assert forall|i: int, j: int| is_pair(n, i, j) implies 0 <= #[trigger] slot_of(n, i, j)
        < pair_count(n) by {
        lemma_slot_in_row(n, i, j);
        lemma_row_bounds(n, i);
    }
    assert forall|i: int, j: int, k: int, l: int|
        is_pair(n, i, j) && is_pair(n, k, l) && #[trigger] slot_of(n, i, j) == #[trigger] slot_of(
            n,
            k,
            l,
        ) implies i == k && j == l by {
        lemma_slot_in_row(n, i, j);
        lemma_slot_in_row(n, k, l);
        if i < k {
            lemma_rows_ordered(n, i, k);
        } else if k < i {
            lemma_rows_ordered(n, k, i);
        }
    }
    assert forall|s: int| 0 <= s < pair_count(n) implies #[trigger] slot_is_taken(n, s) by {
        lemma_row_bounds(n, 0);
        let (i, j) = lemma_slot_has_pair(n, s, 0);
        assert(is_pair(n, i, j) && slot_of(n, i, j) == s);
    }
}

/// A slot at or after the start of row `i` belongs to a pair of row `i` or
/// of a later one.
proof fn lemma_slot_has_pair(n: int, s: int, i: int) -> (r: (int, int))
    requires
        n >= 2,
        0 <= i < n,
        row_start(n, i) <= s < pair_count(n),
    ensures
        is_pair(n, r.0, r.1),
        slot_of(n, r.0, r.1) == s,
    decreases n - i,
{
    lemma_row_bounds(n, i);
    lemma_row_step(n, i);
    if s < row_start(n, i) + (n - 1 - i) {
        let j = s - row_start(n, i) + i + 1;
        lemma_slot_in_row(n, i, j);
        (i, j)
    } else {
        if i + 1 >= n {
            lemma_row_bounds(n, n - 1);
        }
        lemma_slot_has_pair(n, s, i + 1)
    }
}

/// Slot of the pair `(i, j)` of `n` items.
pub fn pair_slot(n: usize, i: usize, j: usize) -> (r: usize)
    requires
        i < j < n,
        pair_count(n as int) <= usize::MAX,
    ensures
        r == slot_of(n as int, i as int, j as int),
{
    let ghost h = i * (i + 1) / 2;
    proof {
        lemma_slot_in_row(n as int, i as int, j as int);
        lemma_row_bounds(n as int, i as int);
        lemma_half_exact(i as int);
        lemma_half_product(i as int);
        assert(i * (n - 1 - i) + h == row_start(n as int, i as int)) by (nonlinear_arith)
            requires
                2 * h == i * (i + 1),
                row_start(n as int, i as int) == i * (n - 1) - h + i,
        ;
        assert(i * (n - 1 - i) >= 0) by (nonlinear_arith)
            requires
                i < n,
        ;
    }
    let half: usize = if i % 2 == 0 {
        proof {
            assert((i / 2) * (i + 1) == h) by (nonlinear_arith)
                requires
                    i % 2 == 0,
                    2 * h == i * (i + 1),
            ;
        }
        (i / 2) * (i + 1)
    } else {
        proof {
            assert(i * ((i + 1) / 2) == h) by (nonlinear_arith)
                requires
                    i % 2 == 1,
                    2 * h == i * (i + 1),
            ;
        }
        i * ((i + 1) / 2)
    };
    i * (n - 1 - i) + half + (j - i - 1)
}

/// The pair whose slot is `slot`, found by walking the rows.
pub fn slot_pair(n: usize, slot: usize) -> (r: (usize, usize))
    requires
        n >= 2,
        slot < pair_count(n as int),
    ensures
        r.0 < r.1 < n,
        slot_of(n as int, r.0 as int, r.1 as int) == slot,
{
    let mut i: usize = 0;
    let mut rest: usize = slot;
    proof {
        lemma_row_bounds(n as int, 0);
    }
    while rest >= n - 1 - i
        invariant
            n >= 2,
            i < n - 1,
            slot < pair_count(n as int),
            rest == slot - row_start(n as int, i as int),
            row_start(n as int, i as int) <= slot,
        decreases n - i,
    {
        proof {
            lemma_row_step(n as int, i as int);
            if i + 2 >= n {
                lemma_row_bounds(n as int, n - 1);
            }
        }
        rest = rest - (n - 1 - i);
        i = i + 1;
        proof {
            if i >= n - 1 {
                lemma_row_bounds(n as int, n - 1);
            }
        }
    }
    proof {
        lemma_slot_in_row(n as int, i as int, (i + 1 + rest) as int);
    }
    (i, i + 1 + rest)
}

/// Number of unordered pairs of `n` items, or `None` when it does not fit
/// in a `usize`.
pub fn pair_total(n: usize) -> (r: Option<usize>)
    ensures
        r matches Some(t) ==> t == pair_count(n as int),
        r is None <==> pair_count(n as int) > usize::MAX,
{
    if n < 2 {
        proof {
            assert(pair_count(n as int) == 0) by (nonlinear_arith)
                requires
                    n == 0 || n == 1,
            ;
        }
        return Some(0);
    }
    let (a, b) = if n % 2 == 0 {
        (n / 2, n - 1)
    } else {
        (n, (n - 1) / 2)
    };
    proof {
        assert(a * b == pair_count(n as int)) by (nonlinear_arith)
            requires
                n % 2 == 0 ==> a == n / 2 && b == n - 1,
                n % 2 == 1 ==> a == n && b == (n - 1) / 2,
                n >= 2,
        ;
    }
    a.checked_mul(b)
}

} // verus!
