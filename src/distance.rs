use vstd::prelude::*;

use crate::error::MemegaError;
use crate::lawful::{lawful_eq, lawful_lt, spec_lt};

verus! {

/// Number of positions below `n` at which `a` and `b` hold different values.
pub open spec fn mismatches_below<T>(a: Seq<T>, b: Seq<T>, n: int) -> nat
    decreases n,
{
    if n <= 0 {
        0
    } else {
        mismatches_below(a, b, n - 1) + if a[n - 1] == b[n - 1] { 0nat } else { 1nat }
    }
}

/// Positions at which the two sequences differ, where every position that only
/// the longer sequence has counts as a difference.
pub open spec fn spec_count_different<T>(a: Seq<T>, b: Seq<T>) -> nat {
    let min = if a.len() <= b.len() { a.len() } else { b.len() };
    let max = if a.len() <= b.len() { b.len() } else { a.len() };
    mismatches_below(a, b, min as int) + (max - min) as nat
}

proof fn lemma_mismatches_bounded<T>(a: Seq<T>, b: Seq<T>, n: int)
    requires
        0 <= n,
    ensures
        mismatches_below(a, b, n) <= n,
    decreases n,
{
    if n > 0 {
        lemma_mismatches_bounded(a, b, n - 1);
    }
}

/// Number of different pairs of elements.
pub fn count_different<T: PartialEq>(s1: &[T], s2: &[T]) -> (r: usize)
    requires
        lawful_eq::<T>(),
    ensures
        r == spec_count_different(s1@, s2@),
{
    let min = if s1.len() <= s2.len() { s1.len() } else { s2.len() };
    let max = if s1.len() <= s2.len() { s2.len() } else { s1.len() };
    let mut count: usize = 0;
    let mut i: usize = 0;
    while i < min
        invariant
            lawful_eq::<T>(),
            i <= min,
            min <= s1@.len(),
            min <= s2@.len(),
            count == mismatches_below(s1@, s2@, i as int),
        decreases min - i,
    {
        proof {
            lemma_mismatches_bounded(s1@, s2@, i as int);
        }
        if s1[i] != s2[i] {
            count = count + 1;
        }
        i = i + 1;
    }
    proof {
        lemma_mismatches_bounded(s1@, s2@, min as int);
    }
    count + (max - min)
}

/// Whether the pair `(i, j)` is ordered differently by the two sequences.
pub open spec fn discordant<T: PartialOrd>(a: Seq<T>, b: Seq<T>, i: int, j: int) -> bool {
    spec_lt(a[i], a[j]) != spec_lt(b[i], b[j])
}

/// Discordant pairs `(i, k)` with `i < k < j`.
pub open spec fn discordant_in_row<T: PartialOrd>(a: Seq<T>, b: Seq<T>, i: int, j: int) -> nat
    decreases j - i,
{
    if j <= i + 1 {
        0
    } else {
        discordant_in_row(a, b, i, j - 1) + if discordant(a, b, i, j - 1) { 1nat } else { 0nat }
    }
}

/// Discordant pairs `(i, k)` with `i < rows` and `i < k < a.len()`.
pub open spec fn discordant_pairs<T: PartialOrd>(a: Seq<T>, b: Seq<T>, rows: int) -> nat
    decreases rows,
{
    if rows <= 0 {
        0
    } else {
        discordant_pairs(a, b, rows - 1) + discordant_in_row(a, b, rows - 1, a.len() as int)
    }
}

/// The Kendall tau distance: the number of pairs that the two sequences order
/// differently.
pub open spec fn spec_kendall_tau<T: PartialOrd>(a: Seq<T>, b: Seq<T>) -> nat {
    discordant_pairs(a, b, a.len() as int)
}

/// The number of pairs `(r, k)` with `r < rows` and `r < k < n`.
pub open spec fn pairs_upto(n: int, rows: int) -> int
    decreases rows,
{
    if rows <= 0 {
        0
    } else {
        pairs_upto(n, rows - 1) + (n - rows)
    }
}

proof fn lemma_pairs_upto(n: int, rows: int)
    requires
        0 <= rows <= n,
    ensures
        2 * pairs_upto(n, rows) == rows * (2 * n - rows - 1),
        pairs_upto(n, rows) <= pairs_upto(n, n),
    decreases n - rows,
{
    lemma_pairs_upto_closed(n, rows);
    if rows < n {
        lemma_pairs_upto(n, rows + 1);
    }
}

proof fn lemma_pairs_upto_closed(n: int, rows: int)
    requires
        0 <= rows,
    ensures
        2 * pairs_upto(n, rows) == rows * (2 * n - rows - 1),
    decreases rows,
{
    if rows > 0 {
        lemma_pairs_upto_closed(n, rows - 1);
        let prev = pairs_upto(n, rows - 1);
        assert(pairs_upto(n, rows) == prev + (n - rows));
        assert(2 * prev + 2 * (n - rows) == rows * (2 * n - rows - 1)) by (nonlinear_arith)
            requires
                2 * prev == (rows - 1) * (2 * n - (rows - 1) - 1),
        ;
    } else {
        assert(rows * (2 * n - rows - 1) == 0) by (nonlinear_arith)
            requires
                rows == 0,
        ;
    }
}

proof fn lemma_row_bounded<T: PartialOrd>(a: Seq<T>, b: Seq<T>, i: int, j: int)
    ensures
        discordant_in_row(a, b, i, j) <= if j > i { j - i - 1 } else { 0 },
    decreases j - i,
{
    if j > i + 1 {
        lemma_row_bounded(a, b, i, j - 1);
    }
}

proof fn lemma_pairs_bounded<T: PartialOrd>(a: Seq<T>, b: Seq<T>, rows: int)
    requires
        0 <= rows <= a.len(),
    ensures
        discordant_pairs(a, b, rows) <= pairs_upto(a.len() as int, rows),
    decreases rows,
{
    if rows > 0 {
        lemma_pairs_bounded(a, b, rows - 1);
        lemma_row_bounded(a, b, rows - 1, a.len() as int);
    }
}

/// Kendall tau distance between two sequences of the same length.
pub fn kendall_tau<T: PartialOrd>(s1: &[T], s2: &[T]) -> (r: Result<usize, MemegaError>)
    requires
        lawful_lt::<T>(),
        s1@.len() * (s1@.len() - 1) / 2 <= usize::MAX,
    ensures
        s1@.len() != s2@.len() <==> r is Err,
        r matches Err(e) ==> e == MemegaError::LengthMismatch,
        r matches Ok(n) ==> n == spec_kendall_tau(s1@, s2@),
{
    if s1.len() != s2.len() {
        return Err(MemegaError::LengthMismatch);
    }
    let n = s1.len();
    proof {
        lemma_pairs_upto(n as int, n as int);
        assert(pairs_upto(n as int, n as int) == n * (n - 1) / 2) by (nonlinear_arith)
            requires
                2 * pairs_upto(n as int, n as int) == n * (2 * n - n - 1),
        ;
    }
    let mut count: usize = 0;
    let mut i: usize = 0;
    while i < n
        invariant
            lawful_lt::<T>(),
            n == s1@.len(),
            n == s2@.len(),
            pairs_upto(n as int, n as int) <= usize::MAX,
            i <= n,
            count == discordant_pairs(s1@, s2@, i as int),
        decreases n - i,
    {
        let mut j: usize = i + 1;
        while j < n
            invariant
                lawful_lt::<T>(),
                n == s1@.len(),
                n == s2@.len(),
                pairs_upto(n as int, n as int) <= usize::MAX,
                i < n,
                i + 1 <= j <= n,
                count == discordant_pairs(s1@, s2@, i as int) + discordant_in_row(
                    s1@,
                    s2@,
                    i as int,
                    j as int,
                ),
            decreases n - j,
        {
            proof {
                lemma_pairs_bounded(s1@, s2@, i as int);
                lemma_row_bounded(s1@, s2@, i as int, j as int);
                lemma_pairs_upto(n as int, i + 1);
            }
            let a = s1[i] < s1[j];
            let b = s2[i] < s2[j];
            if a != b {
                count = count + 1;
            }
            j = j + 1;
        }
        i = i + 1;
    }
    Ok(count)
}

} // verus!
