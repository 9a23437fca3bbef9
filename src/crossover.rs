use vstd::prelude::*;

use crate::lawful::lawful_eq;
use crate::rng::{choose_below, random_below, random_flag};

verus! {

// Permutation crossover operators.

/// The segment `[st, en]` is a valid inclusive range of a sequence of length `n`.
pub open spec fn valid_segment(n: int, st: int, en: int) -> bool {
    n == 0 || (0 <= st <= en < n)
}

/// The value that PMX maps `x` to: `s2[j]` for the first `j` in `[lo, hi)`
/// with `s1[j] == x`.
pub open spec fn pmx_lookup<T>(s1: Seq<T>, s2: Seq<T>, lo: int, hi: int, x: T) -> Option<T>
    decreases hi - lo,
{
    if lo >= hi {
        None
    } else if s1[lo] == x {
        Some(s2[lo])
    } else {
        pmx_lookup(s1, s2, lo + 1, hi, x)
    }
}

/// Follows the PMX mapping from `x` until a value without a mapping is
/// reached, taking at most `fuel` steps; `None` when the fuel runs out first.
pub open spec fn pmx_chase<T>(s1: Seq<T>, s2: Seq<T>, st: int, en: int, x: T, fuel: nat) -> Option<
    T,
>
    decreases fuel,
{
    match pmx_lookup(s1, s2, st, en + 1, x) {
        None => Some(x),
        Some(next) => if fuel == 0 {
            None
        } else {
            pmx_chase(s1, s2, st, en, next, (fuel - 1) as nat)
        },
    }
}

/// The PMX child: the segment `[st, en]` of `s1`, and elsewhere the value of
/// `s2` displaced along the mapping (or kept, when the mapping cycles).
pub open spec fn spec_pmx_child<T>(s1: Seq<T>, s2: Seq<T>, st: int, en: int) -> Seq<T> {
    Seq::new(
        s1.len(),
        |i: int|
            if st <= i <= en {
                s1[i]
            } else {
                match pmx_chase(s1, s2, st, en, s2[i], s1.len()) {
                    Some(y) => y,
                    None => s2[i],
                }
            },
    )
}

fn pmx_lookup_exec<T: Copy + PartialEq>(s1: &[T], s2: &[T], st: usize, en: usize, x: T) -> (r:
    Option<T>)
    requires
        lawful_eq::<T>(),
        s1@.len() == s2@.len(),
        st <= en < s1@.len(),
    ensures
        r == pmx_lookup(s1@, s2@, st as int, en + 1, x),
{
    let mut j = st;
    while j <= en
        invariant
            lawful_eq::<T>(),
            s1@.len() == s2@.len(),
            st <= j <= en + 1,
            en < s1@.len(),
            pmx_lookup(s1@, s2@, st as int, en + 1, x) == pmx_lookup(s1@, s2@, j as int, en + 1, x),
        decreases en + 1 - j,
    {
        if s1[j] == x {
            return Some(s2[j]);
        }
        j = j + 1;
    }
    None
}

fn pmx_chase_exec<T: Copy + PartialEq>(s1: &[T], s2: &[T], st: usize, en: usize, x: T) -> (r: T)
    requires
        lawful_eq::<T>(),
        s1@.len() == s2@.len(),
        st <= en < s1@.len(),
    ensures
        r == match pmx_chase(s1@, s2@, st as int, en as int, x, s1@.len()) {
            Some(y) => y,
            None => x,
        },
{
    let n = s1.len();
    let mut ins = x;
    let mut count: usize = 0;
    loop
        invariant
            lawful_eq::<T>(),
            n == s1@.len(),
            s1@.len() == s2@.len(),
            st <= en < n,
            count <= n,
            pmx_chase(s1@, s2@, st as int, en as int, x, n as nat) == pmx_chase(
                s1@,
                s2@,
                st as int,
                en as int,
                ins,
                (n - count) as nat,
            ),
        decreases n - count,
    {
        match pmx_lookup_exec(s1, s2, st, en, ins) {
            None => {
                return ins;
            },
            Some(next) => {
                if count == n {
                    return x;
                }
                ins = next;
                count = count + 1;
            },
        }
    }
}

/// Partially mapped crossover of `s1` and `s2` over the inclusive segment
/// `[st, en]`: the child keeps the segment of `s1`, and places each other value
/// of `s2` by following the mapping that the segment defines.
pub fn crossover_pmx_single<T: Copy + PartialEq>(s1: &[T], s2: &[T], st: usize, en: usize) -> (r:
    Vec<T>)
    requires
        lawful_eq::<T>(),
        s1@.len() == s2@.len(),
        valid_segment(s1@.len() as int, st as int, en as int),
    ensures
        r@ == spec_pmx_child(s1@, s2@, st as int, en as int),
{
    let n = s1.len();
    let mut c1: Vec<T> = Vec::new();
    let mut i: usize = 0;
    while i < n
        invariant
            lawful_eq::<T>(),
            n == s1@.len(),
            s1@.len() == s2@.len(),
            valid_segment(n as int, st as int, en as int),
            i <= n,
            c1@.len() == i,
            forall|k: int| 0 <= k < i ==> c1@[k] == spec_pmx_child(s1@, s2@, st as int, en as int)[k],
        decreases n - i,
    {
        if st <= i && i <= en {
            c1.push(s1[i]);
        } else {
            let v = pmx_chase_exec(s1, s2, st, en, s2[i]);
            c1.push(v);
        }
        i = i + 1;
    }
    assert(c1@ =~= spec_pmx_child(s1@, s2@, st as int, en as int));
    c1
}

/// Draws an inclusive segment of a sequence of length `n > 0`.
fn random_segment(n: usize) -> (r: (usize, usize))
    requires
        n > 0,
    ensures
        r.0 <= r.1 < n,
{
    let a = random_below(n);
    let b = random_below(n);
    if a <= b {
        (a, b)
    } else {
        (b, a)
    }
}

/// Copies `src` over `dst`, which has the same length.
fn copy_into<T: Copy>(dst: &mut [T], src: &Vec<T>)
    requires
        old(dst)@.len() == src@.len(),
    ensures
        final(dst)@ == src@,
{
    let mut i: usize = 0;
    while i < src.len()
        invariant
            dst@.len() == src@.len(),
            i <= src@.len(),
            forall|k: int| 0 <= k < i ==> dst@[k] == src@[k],
        decreases src@.len() - i,
    {
        dst[i] = src[i];
        i = i + 1;
    }
    assert(dst@ =~= src@);
}

/// Partially mapped crossover over a random segment: each parent is replaced
/// by its child.
pub fn crossover_pmx<T: Copy + PartialEq>(s1: &mut [T], s2: &mut [T])
    requires
        lawful_eq::<T>(),
        old(s1)@.len() == old(s2)@.len(),
    ensures
        final(s1)@.len() == old(s1)@.len(),
        old(s1)@.len() == 0 ==> final(s1)@ == old(s1)@ && final(s2)@ == old(s2)@,
        old(s1)@.len() > 0 ==> exists|st: int, en: int|
            0 <= st <= en < old(s1)@.len() && final(s1)@ == spec_pmx_child(
                old(s1)@,
                old(s2)@,
                st,
                en,
            ) && final(s2)@ == spec_pmx_child(old(s2)@, old(s1)@, st, en),
{
    if s1.len() == 0 {
        return;
    }
    let (st, en) = random_segment(s1.len());
    let c1 = crossover_pmx_single(s1, s2, st, en);
    let c2 = crossover_pmx_single(s2, s1, st, en);
    copy_into(s1, &c1);
    copy_into(s2, &c2);
}

/// The position that the `k`-th value after the segment goes to: counting on
/// from `en + 1`, wrapping around the end.
pub open spec fn order_pos(n: int, en: int, k: int) -> int {
    if en + 1 + k < n {
        en + 1 + k
    } else {
        en + 1 + k - n
    }
}

/// Inverse of `order_pos` on the positions outside the segment.
pub open spec fn order_rank(n: int, en: int, i: int) -> int {
    if i > en {
        i - en - 1
    } else {
        i + n - en - 1
    }
}

/// Whether `v` occurs in the segment `[st, en]` of `s1`.
pub open spec fn in_segment<T>(s1: Seq<T>, st: int, en: int, v: T) -> bool {
    exists|k: int| st <= k <= en && s1[k] == v
}

/// The values of `s2` taken from position `en + 1` on (wrapping around), for
/// the first `i` positions, without those that the segment of `s1` holds.
pub open spec fn order_kept<T>(s1: Seq<T>, s2: Seq<T>, st: int, en: int, i: int) -> Seq<T>
    decreases i,
{
    if i <= 0 {
        Seq::empty()
    } else {
        let v = s2[order_pos(s1.len() as int, en, i - 1)];
        let prev = order_kept(s1, s2, st, en, i - 1);
        if in_segment(s1, st, en, v) {
            prev
        } else {
            prev.push(v)
        }
    }
}

/// The order crossover child: the segment `[st, en]` of `s1`; then, from
/// `en + 1` on and wrapping around, the values of `s2` in their order from
/// `en + 1` on that the segment does not hold; and where those run out, the
/// value of `s2` at that position.
pub open spec fn spec_order_child<T>(s1: Seq<T>, s2: Seq<T>, st: int, en: int) -> Seq<T> {
    let n = s1.len() as int;
    let kept = order_kept(s1, s2, st, en, n);
    Seq::new(
        s1.len(),
        |i: int|
            if st <= i <= en {
                s1[i]
            } else if order_rank(n, en, i) < kept.len() {
                kept[order_rank(n, en, i)]
            } else {
                s2[i]
            },
    )
}

proof fn lemma_order_kept_prefix<T>(s1: Seq<T>, s2: Seq<T>, st: int, en: int, i: int, j: int)
    requires
        0 <= i <= j,
    ensures
        order_kept(s1, s2, st, en, i).len() <= order_kept(s1, s2, st, en, j).len(),
        forall|k: int|
            0 <= k < order_kept(s1, s2, st, en, i).len() ==> order_kept(s1, s2, st, en, i)[k]
                == order_kept(s1, s2, st, en, j)[k],
    decreases j - i,
{
    if i < j {
        lemma_order_kept_prefix(s1, s2, st, en, i, j - 1);
    }
}

proof fn lemma_order_kept_len<T>(s1: Seq<T>, s2: Seq<T>, st: int, en: int, i: int)
    requires
        0 <= i,
    ensures
        order_kept(s1, s2, st, en, i).len() <= i,
    decreases i,
{
    if i > 0 {
        lemma_order_kept_len(s1, s2, st, en, i - 1);
    }
}

fn in_segment_exec<T: Copy + PartialEq>(s1: &[T], st: usize, en: usize, v: T) -> (r: bool)
    requires
        lawful_eq::<T>(),
        st <= en < s1@.len(),
    ensures
        r == in_segment(s1@, st as int, en as int, v),
{
    let mut k = st;
    while k <= en
        invariant
            lawful_eq::<T>(),
            st <= k <= en + 1,
            en < s1@.len(),
            forall|m: int| st <= m < k ==> s1@[m] != v,
        decreases en + 1 - k,
    {
        if s1[k] == v {
            return true;
        }
        k = k + 1;
    }
    false
}

/// Order crossover over the inclusive segment `[st, en]`: the child keeps the
/// segment of `s1` and fills the other places, from `en + 1` on and wrapping
/// around, with the values of `s2` that the segment does not hold, in the
/// order in which `s2` has them from `en + 1` on.
pub fn crossover_order_single<T: Copy + PartialEq>(s1: &[T], s2: &[T], st: usize, en: usize) -> (r:
    Vec<T>)
    requires
        lawful_eq::<T>(),
        s1@.len() == s2@.len(),
        valid_segment(s1@.len() as int, st as int, en as int),
    ensures
        r@ == spec_order_child(s1@, s2@, st as int, en as int),
{
    let n = s1.len();
    if n == 0 {
        return Vec::new();
    }
    let ghost gs1 = s1@;
    let ghost gs2 = s2@;
    let mut c1: Vec<T> = Vec::new();
    let mut i: usize = 0;
    while i < n
        invariant
            n == s1@.len(),
            c1@.len() == i,
            i <= n,
            forall|k: int| 0 <= k < i ==> c1@[k] == s1@[k],
        decreases n - i,
    {
        c1.push(s1[i]);
        i = i + 1;
    }
    // Number of places outside the segment.
    let free = n - (en - st + 1);
    let mut cnt: usize = 0;
    let mut i: usize = 0;
    while i < n && cnt < free
        invariant
            lawful_eq::<T>(),
            n == s1@.len(),
            n == s2@.len(),
            st <= en < n,
            free == n - (en - st + 1),
            c1@.len() == n,
            i <= n,
            cnt <= free,
            cnt == order_kept(s1@, s2@, st as int, en as int, i as int).len(),
            forall|k: int| st <= k <= en ==> c1@[k] == s1@[k],
            forall|k: int|
                0 <= k < cnt ==> c1@[order_pos(n as int, en as int, k)] == order_kept(
                    s1@,
                    s2@,
                    st as int,
                    en as int,
                    i as int,
                )[k],
        decreases n - i,
    {
        let src = if i < n - en - 1 {
            en + 1 + i
        } else {
            i - (n - en - 1)
        };
        let v = s2[src];
        if !in_segment_exec(s1, st, en, v) {
            let cur = if cnt < n - en - 1 {
                en + 1 + cnt
            } else {
                cnt - (n - en - 1)
            };
            c1.set(cur, v);
            cnt = cnt + 1;
        }
        i = i + 1;
    }
    let ghost i_end = i as int;
    let ghost placed = cnt as int;
    proof {
        lemma_order_kept_prefix(s1@, s2@, st as int, en as int, i as int, n as int);
    }
    // Fewer values of s2 than free places: keep the value of s2 at each place left.
    while cnt < free
        invariant
            n == s1@.len(),
            n == s2@.len(),
            st <= en < n,
            free == n - (en - st + 1),
            c1@.len() == n,
            placed <= cnt <= free,
            placed == order_kept(s1@, s2@, st as int, en as int, i_end).len(),
            forall|k: int| st <= k <= en ==> c1@[k] == s1@[k],
            forall|k: int|
                0 <= k < placed ==> c1@[order_pos(n as int, en as int, k)] == order_kept(
                    s1@,
                    s2@,
                    st as int,
                    en as int,
                    i_end,
                )[k],
            forall|k: int|
                placed <= k < cnt ==> c1@[order_pos(n as int, en as int, k)] == s2@[order_pos(
                    n as int,
                    en as int,
                    k,
                )],
        decreases free - cnt,
    {
        let cur = if cnt < n - en - 1 {
            en + 1 + cnt
        } else {
            cnt - (n - en - 1)
        };
        c1.set(cur, s2[cur]);
        cnt = cnt + 1;
    }
    proof {
        let kept = order_kept(s1@, s2@, st as int, en as int, n as int);
        lemma_order_kept_prefix(s1@, s2@, st as int, en as int, i_end, n as int);
        lemma_order_kept_len(s1@, s2@, st as int, en as int, n as int);
        // Either every value was looked at, or the free places filled up first.
        assert(i_end == n || placed == free);
        assert forall|p: int| 0 <= p < n implies c1@[p] == spec_order_child(
            s1@,
            s2@,
            st as int,
            en as int,
        )[p] by {
            if !(st <= p <= en) {
                let k = order_rank(n as int, en as int, p);
                assert(order_pos(n as int, en as int, k) == p);
                assert(0 <= k < free);
                if i_end == n as int {
                    assert(kept =~= order_kept(s1@, s2@, st as int, en as int, i_end));
                }
            }
        }
        assert(c1@ =~= spec_order_child(s1@, s2@, st as int, en as int));
    }
    c1
}

/// Order crossover over a random segment: each parent is replaced by its child.
pub fn crossover_order<T: Copy + PartialEq>(s1: &mut [T], s2: &mut [T])
    requires
        lawful_eq::<T>(),
        old(s1)@.len() == old(s2)@.len(),
    ensures
        final(s1)@.len() == old(s1)@.len(),
        old(s1)@.len() == 0 ==> final(s1)@ == old(s1)@ && final(s2)@ == old(s2)@,
        old(s1)@.len() > 0 ==> exists|st: int, en: int|
            0 <= st <= en < old(s1)@.len() && final(s1)@ == spec_order_child(
                old(s1)@,
                old(s2)@,
                st,
                en,
            ) && final(s2)@ == spec_order_child(old(s2)@, old(s1)@, st, en),
{
    if s1.len() == 0 {
        return;
    }
    let (st, en) = random_segment(s1.len());
    let c1 = crossover_order_single(s1, s2, st, en);
    let c2 = crossover_order_single(s2, s1, st, en);
    copy_into(s1, &c1);
    copy_into(s2, &c2);
}

/// The first position `j` with `s1[j] == v`, or `None`.
pub open spec fn first_index_of<T>(s1: Seq<T>, v: T, lo: int) -> Option<int>
    decreases s1.len() - lo,
{
    if lo >= s1.len() {
        None
    } else if s1[lo] == v {
        Some(lo)
    } else {
        first_index_of(s1, v, lo + 1)
    }
}

/// Where the cycle through position `p` goes next: the first position of `s1`
/// holding `s2[p]`, or `p` itself when `s1` does not hold it.
pub open spec fn cycle_link<T>(s1: Seq<T>, s2: Seq<T>, p: int) -> int {
    match first_index_of(s1, s2[p], 0) {
        Some(j) => j,
        None => p,
    }
}

/// At each position the two children hold the parents' values, either in the
/// parents' order (`kept[p]`) or swapped.
pub open spec fn keeps_or_swaps<T>(
    a: Seq<T>,
    b: Seq<T>,
    new_a: Seq<T>,
    new_b: Seq<T>,
    kept: Seq<bool>,
) -> bool {
    &&& new_a.len() == a.len()
    &&& new_b.len() == b.len()
    &&& kept.len() == a.len()
    &&& forall|p: int|
        0 <= p < a.len() ==> if kept[p] {
            new_a[p] == a[p] && new_b[p] == b[p]
        } else {
            new_a[p] == b[p] && new_b[p] == a[p]
        }
}

fn first_index_exec<T: Copy + PartialEq>(s1: &[T], v: T) -> (r: Option<usize>)
    requires
        lawful_eq::<T>(),
    ensures
        r matches Some(j) ==> first_index_of(s1@, v, 0) == Some(j as int),
        r is None ==> first_index_of(s1@, v, 0) is None,
{
    let mut j: usize = 0;
    while j < s1.len()
        invariant
            lawful_eq::<T>(),
            j <= s1@.len(),
            first_index_of(s1@, v, 0) == first_index_of(s1@, v, j as int),
        decreases s1@.len() - j,
    {
        if s1[j] == v {
            return Some(j);
        }
        j = j + 1;
    }
    None
}

/// Positions not yet visited by any cycle (marked zero).
pub open spec fn unvisited(marks: Seq<usize>) -> nat {
    marks.filter(|m: usize| m == 0).len()
}

/// Marking an unvisited position leaves fewer unvisited.
pub proof fn lemma_unvisited_decreases(marks: Seq<usize>, idx: int, tag: usize)
    requires
        0 <= idx < marks.len(),
        marks[idx] == 0,
        tag != 0,
    ensures
        unvisited(marks.update(idx, tag)) < unvisited(marks),
    decreases marks.len(),
{
    let f = |m: usize| m == 0;
    let m2 = marks.update(idx, tag);
    assert(marks =~= marks.drop_last().push(marks.last()));
    assert(m2 =~= m2.drop_last().push(m2.last()));
    marks.drop_last().lemma_filter_push(marks.last(), f);
    m2.drop_last().lemma_filter_push(m2.last(), f);
    if idx == marks.len() - 1 {
        assert(marks.drop_last() =~= m2.drop_last());
    } else {
        lemma_unvisited_decreases(marks.drop_last(), idx, tag);
        assert(marks.drop_last().update(idx, tag) =~= m2.drop_last());
    }
}

/// Follows the cycle from `idx`, marking each position it newly reaches with
/// `tag`, until it reaches a position already marked.
pub open spec fn cycle_walk<T>(s1: Seq<T>, s2: Seq<T>, marks: Seq<usize>, idx: int, tag: usize) -> Seq<
    usize,
>
    decreases unvisited(marks),
{
    if 0 <= idx < marks.len() && marks[idx] == 0 && tag != 0 {
        proof {
            lemma_unvisited_decreases(marks, idx, tag);
        }
        cycle_walk(s1, s2, marks.update(idx, tag), cycle_link(s1, s2, idx), tag)
    } else {
        marks
    }
}

/// The cycle marks and the number of cycles once the positions below `i`
/// have been taken as starts in turn: each start not yet marked begins the
/// next cycle.
pub open spec fn cycle_marks<T>(s1: Seq<T>, s2: Seq<T>, i: int) -> (Seq<usize>, usize)
    decreases i,
{
    if i <= 0 {
        (Seq::new(s1.len(), |p: int| 0usize), 0usize)
    } else {
        let (m, c) = cycle_marks(s1, s2, i - 1);
        if i - 1 < m.len() && m[i - 1] == 0 {
            (cycle_walk(s1, s2, m, i - 1, (c + 1) as usize), (c + 1) as usize)
        } else {
            (m, c)
        }
    }
}

/// Position `p` keeps the parents' order in the children: its cycle's
/// number counts an odd number back from the last cycle.
pub open spec fn cycle_keeps<T>(s1: Seq<T>, s2: Seq<T>, p: int) -> bool {
    let (m, c) = cycle_marks(s1, s2, s1.len() as int);
    (c - m[p] + 1) % 2 == 1
}

/// The children of cycle crossover: the cycles are handed alternately to the
/// two children, the last cycle's values staying in place.
pub open spec fn spec_cycle_children<T>(s1: Seq<T>, s2: Seq<T>) -> (Seq<T>, Seq<T>) {
    (
        Seq::new(s1.len(), |p: int| if cycle_keeps(s1, s2, p) { s1[p] } else { s2[p] }),
        Seq::new(s1.len(), |p: int| if cycle_keeps(s1, s2, p) { s2[p] } else { s1[p] }),
    )
}

proof fn lemma_cycle_walk_len<T>(s1: Seq<T>, s2: Seq<T>, marks: Seq<usize>, idx: int, tag: usize)
    ensures
        cycle_walk(s1, s2, marks, idx, tag).len() == marks.len(),
        forall|p: int|
            0 <= p < marks.len() && marks[p] != 0 ==> cycle_walk(s1, s2, marks, idx, tag)[p]
                == marks[p],
        forall|p: int|
            0 <= p < marks.len() ==> cycle_walk(s1, s2, marks, idx, tag)[p] == marks[p]
                || cycle_walk(s1, s2, marks, idx, tag)[p] == tag,
    decreases unvisited(marks),
{
    if 0 <= idx < marks.len() && marks[idx] == 0 && tag != 0 {
        let next = marks.update(idx, tag);
        lemma_unvisited_decreases(marks, idx, tag);
        assert(cycle_walk(s1, s2, marks, idx, tag) == cycle_walk(
            s1,
            s2,
            next,
            cycle_link(s1, s2, idx),
            tag,
        ));
        lemma_cycle_walk_len(s1, s2, next, cycle_link(s1, s2, idx), tag);
        assert forall|p: int| 0 <= p < marks.len() && marks[p] != 0 implies cycle_walk(
            s1,
            s2,
            marks,
            idx,
            tag,
        )[p] == marks[p] by {
            assert(next[p] == marks[p]);
        }
        assert forall|p: int| 0 <= p < marks.len() implies cycle_walk(s1, s2, marks, idx, tag)[p]
            == marks[p] || cycle_walk(s1, s2, marks, idx, tag)[p] == tag by {
            assert(next[p] == marks[p] || next[p] == tag);
        }
    }
}

proof fn lemma_cycle_marks<T>(s1: Seq<T>, s2: Seq<T>, i: int)
    requires
        0 <= i <= s1.len(),
        s1.len() <= usize::MAX,
    ensures
        cycle_marks(s1, s2, i).0.len() == s1.len(),
        cycle_marks(s1, s2, i).1 <= i,
        forall|p: int| 0 <= p < i ==> cycle_marks(s1, s2, i).0[p] != 0,
        forall|p: int|
            0 <= p < s1.len() ==> cycle_marks(s1, s2, i).0[p] <= cycle_marks(s1, s2, i).1,
    decreases i,
{
    if i > 0 {
        lemma_cycle_marks(s1, s2, i - 1);
        let (m, c) = cycle_marks(s1, s2, i - 1);
        if m[i - 1] == 0 {
            let tag = (c + 1) as usize;
            lemma_cycle_walk_len(s1, s2, m, i - 1, tag);
            lemma_cycle_walk_first(s1, s2, m, i - 1, tag);
            let w = cycle_walk(s1, s2, m, i - 1, tag);
            assert(cycle_marks(s1, s2, i) == (w, tag));
            assert forall|p: int| 0 <= p < i implies w[p] != 0 by {
                if p < i - 1 {
                    assert(m[p] != 0);
                }
            }
            assert forall|p: int| 0 <= p < s1.len() implies w[p] <= tag by {
                assert(w[p] == m[p] || w[p] == tag);
                assert(m[p] <= c);
            }
        }
    }
}

proof fn lemma_cycle_walk_first<T>(s1: Seq<T>, s2: Seq<T>, marks: Seq<usize>, idx: int, tag: usize)
    requires
        0 <= idx < marks.len(),
        marks[idx] == 0,
        tag != 0,
    ensures
        cycle_walk(s1, s2, marks, idx, tag)[idx] == tag,
{
    let next = marks.update(idx, tag);
    lemma_unvisited_decreases(marks, idx, tag);
    assert(cycle_walk(s1, s2, marks, idx, tag) == cycle_walk(
        s1,
        s2,
        next,
        cycle_link(s1, s2, idx),
        tag,
    ));
    lemma_cycle_walk_len(s1, s2, next, cycle_link(s1, s2, idx), tag);
    assert(next[idx] == tag);
}

/// Cycle crossover: the cycles that link each position `p` to the position of
/// `s1` holding `s2[p]` are handed alternately to the two children.
pub fn crossover_cycle<T: Copy + PartialEq>(s1: &mut [T], s2: &mut [T])
    requires
        lawful_eq::<T>(),
        old(s1)@.len() == old(s2)@.len(),
    ensures
        (final(s1)@, final(s2)@) == spec_cycle_children(old(s1)@, old(s2)@),
        exists|kept: Seq<bool>| keeps_or_swaps(old(s1)@, old(s2)@, final(s1)@, final(s2)@, kept),
{
    let n = s1.len();
    let ghost g1 = s1@;
    let ghost g2 = s2@;
    // The number of the cycle through each position, plus one; zero while
    // no cycle has reached it.
    let mut marks: Vec<usize> = Vec::new();
    let mut i: usize = 0;
    while i < n
        invariant
            i <= n,
            marks@.len() == i,
            forall|k: int| 0 <= k < i ==> marks@[k] == 0,
        decreases n - i,
    {
        marks.push(0);
        i = i + 1;
    }
    assert(marks@ =~= cycle_marks(g1, g2, 0).0);
    let mut cycles: usize = 0;
    let mut i: usize = 0;
    while i < n
        invariant
            lawful_eq::<T>(),
            n == g1.len(),
            n == g2.len(),
            s1@ == g1,
            s2@ == g2,
            i <= n,
            (marks@, cycles) == cycle_marks(g1, g2, i as int),
        decreases n - i,
    {
        proof {
            lemma_cycle_marks(g1, g2, i as int);
        }
        if marks[i] == 0 {
            let tag = cycles + 1;
            let ghost start = marks@;
            let mut idx = i;
            while marks[idx] == 0
                invariant
                    lawful_eq::<T>(),
                    n == g1.len(),
                    n == g2.len(),
                    s1@ == g1,
                    s2@ == g2,
                    marks@.len() == n,
                    idx < n,
                    tag != 0,
                    cycle_walk(g1, g2, start, i as int, tag) == cycle_walk(
                        g1,
                        g2,
                        marks@,
                        idx as int,
                        tag,
                    ),
                decreases unvisited(marks@),
            {
                proof {
                    lemma_unvisited_decreases(marks@, idx as int, tag);
                }
                marks.set(idx, tag);
                match first_index_exec(s1, s2[idx]) {
                    Some(next) => {
                        proof {
                            lemma_first_index_in_range(g1, g2[idx as int], 0);
                        }
                        idx = next;
                    },
                    None => {},
                }
            }
            cycles = tag;
        }
        i = i + 1;
    }
    proof {
        lemma_cycle_marks(g1, g2, n as int);
    }
    assert(forall|q: int| 0 <= q < n ==> marks@[q] != 0 && marks@[q] <= cycles);
    let ghost kept = Seq::new(n as nat, |p: int| cycle_keeps(g1, g2, p));
    let mut p: usize = 0;
    while p < n
        invariant
            n == g1.len(),
            n == g2.len(),
            s1@.len() == n,
            s2@.len() == n,
            marks@.len() == n,
            (marks@, cycles) == cycle_marks(g1, g2, n as int),
            forall|q: int| 0 <= q < n ==> marks@[q] != 0 && marks@[q] <= cycles,
            p <= n,
            kept.len() == n,
            forall|q: int| 0 <= q < n ==> kept[q] == cycle_keeps(g1, g2, q),
            forall|q: int| p <= q < n ==> s1@[q] == g1[q] && s2@[q] == g2[q],
            forall|q: int|
                0 <= q < p ==> if kept[q] {
                    s1@[q] == g1[q] && s2@[q] == g2[q]
                } else {
                    s1@[q] == g2[q] && s2@[q] == g1[q]
                },
        decreases n - p,
    {
        let keep = (cycles - marks[p] + 1) % 2 == 1;
        proof {
            assert(keep == kept[p as int]);
        }
        if !keep {
            let a = s1[p];
            s1[p] = s2[p];
            s2[p] = a;
        }
        p = p + 1;
    }
    assert(keeps_or_swaps(g1, g2, s1@, s2@, kept));
    assert(s1@ =~= spec_cycle_children(g1, g2).0);
    assert(s2@ =~= spec_cycle_children(g1, g2).1);
}

proof fn lemma_first_index_in_range<T>(s1: Seq<T>, v: T, lo: int)
    requires
        0 <= lo,
    ensures
        first_index_of(s1, v, lo) matches Some(j) ==> lo <= j < s1.len() && s1[j] == v,
    decreases s1.len() - lo,
{
    if lo < s1.len() && s1[lo] != v {
        lemma_first_index_in_range(s1, v, lo + 1);
    }
}

// Discrete crossover operators.

/// How many of the crossover points are at most `i`.
pub open spec fn points_at_most(xs: Seq<usize>, i: int) -> nat
    decreases xs.len(),
{
    if xs.len() == 0 {
        0
    } else {
        points_at_most(xs.drop_last(), i) + if xs.last() <= i { 1nat } else { 0nat }
    }
}

/// K-point crossover swaps position `i` (below both lengths) when an odd number
/// of the crossover points are at most `i`.
pub open spec fn kpx_swaps(xs: Seq<usize>, min: int, i: int) -> bool {
    i < min && points_at_most(xs, i) % 2 == 1
}

/// The children of a k-point crossover at the points `xs`.
pub open spec fn kpx_children<T>(a: Seq<T>, b: Seq<T>, xs: Seq<usize>, new_a: Seq<T>, new_b: Seq<
    T,
>) -> bool {
    let min = if a.len() <= b.len() { a.len() as int } else { b.len() as int };
    &&& new_a.len() == a.len()
    &&& new_b.len() == b.len()
    &&& forall|i: int|
        0 <= i < a.len() ==> new_a[i] == if kpx_swaps(xs, min, i) { b[i] } else { a[i] }
    &&& forall|i: int|
        0 <= i < b.len() ==> new_b[i] == if kpx_swaps(xs, min, i) { a[i] } else { b[i] }
}

fn count_points_at_most(xs: &[usize], i: usize) -> (r: usize)
    ensures
        r == points_at_most(xs@, i as int),
{
    let mut c: usize = 0;
    let mut j: usize = 0;
    while j < xs.len()
        invariant
            j <= xs@.len(),
            c <= j,
            c == points_at_most(xs@.subrange(0, j as int), i as int),
        decreases xs@.len() - j,
    {
        proof {
            assert(xs@.subrange(0, j as int + 1).drop_last() =~= xs@.subrange(0, j as int));
        }
        if xs[j] <= i {
            c = c + 1;
        }
        j = j + 1;
    }
    proof {
        assert(xs@.subrange(0, j as int) =~= xs@);
    }
    c
}

/// K-point crossover at the given points: between the points, taken in
/// ascending order and in pairs, the two sequences trade their values.
pub fn crossover_kpx_pts<T: Copy>(s1: &mut [T], s2: &mut [T], xpoints: &[usize])
    ensures
        kpx_children(old(s1)@, old(s2)@, xpoints@, final(s1)@, final(s2)@),
{
    let min = if s1.len() <= s2.len() { s1.len() } else { s2.len() };
    let mut i: usize = 0;
    while i < min
        invariant
            min == if old(s1)@.len() <= old(s2)@.len() { old(s1)@.len() } else { old(s2)@.len() },
            s1@.len() == old(s1)@.len(),
            s2@.len() == old(s2)@.len(),
            i <= min,
            forall|k: int| i <= k < s1@.len() ==> s1@[k] == old(s1)@[k],
            forall|k: int| i <= k < s2@.len() ==> s2@[k] == old(s2)@[k],
            forall|k: int|
                0 <= k < i ==> s1@[k] == if kpx_swaps(xpoints@, min as int, k) {
                    old(s2)@[k]
                } else {
                    old(s1)@[k]
                },
            forall|k: int|
                0 <= k < i ==> s2@[k] == if kpx_swaps(xpoints@, min as int, k) {
                    old(s1)@[k]
                } else {
                    old(s2)@[k]
                },
        decreases min - i,
    {
        if count_points_at_most(xpoints, i) % 2 == 1 {
            let a = s1[i];
            s1[i] = s2[i];
            s2[i] = a;
        }
        i = i + 1;
    }
}

/// `xs` holds `min(k, len)` distinct crossover points below `len`.
pub open spec fn distinct_points(xs: Seq<usize>, k: usize, len: nat) -> bool {
    &&& xs.len() == (if k <= len { k as int } else { len as int })
    &&& forall|j: int| 0 <= j < xs.len() ==> xs[j] < len
    &&& forall|a: int, b: int| 0 <= a < b < xs.len() ==> xs[a] != xs[b]
}

/// K-point crossover at `k` random points of the first sequence.
pub fn crossover_kpx<T: Copy>(s1: &mut [T], s2: &mut [T], k: usize)
    ensures
        exists|xs: Seq<usize>|
            #[trigger] distinct_points(xs, k, old(s1)@.len()) && kpx_children(
                old(s1)@,
                old(s2)@,
                xs,
                final(s1)@,
                final(s2)@,
            ),
{
    let xs = choose_below(s1.len(), k);
    crossover_kpx_pts(s1, s2, xs.as_slice());
    assert(distinct_points(xs@, k, old(s1)@.len()));
}

/// The children of a uniform crossover: position `i`, below both lengths,
/// trades its values when `flips[i]` holds.
pub open spec fn ux_children<T>(a: Seq<T>, b: Seq<T>, flips: Seq<bool>, new_a: Seq<T>, new_b: Seq<
    T,
>) -> bool {
    &&& new_a.len() == a.len()
    &&& new_b.len() == b.len()
    &&& forall|i: int|
        0 <= i < a.len() ==> new_a[i] == if i < b.len() && flips[i] { b[i] } else { a[i] }
    &&& forall|i: int|
        0 <= i < b.len() ==> new_b[i] == if i < a.len() && flips[i] { a[i] } else { b[i] }
}

/// Uniform crossover driven by the given coin flips.
pub fn crossover_ux_rng<T: Copy>(s1: &mut [T], s2: &mut [T], flips: &[bool])
    requires
        old(s1)@.len() <= flips@.len() || old(s2)@.len() <= flips@.len(),
    ensures
        ux_children(old(s1)@, old(s2)@, flips@, final(s1)@, final(s2)@),
{
    let min = if s1.len() <= s2.len() { s1.len() } else { s2.len() };
    let mut i: usize = 0;
    while i < min
        invariant
            min == if old(s1)@.len() <= old(s2)@.len() { old(s1)@.len() } else { old(s2)@.len() },
            min <= flips@.len(),
            s1@.len() == old(s1)@.len(),
            s2@.len() == old(s2)@.len(),
            i <= min,
            forall|k: int| i <= k < s1@.len() ==> s1@[k] == old(s1)@[k],
            forall|k: int| i <= k < s2@.len() ==> s2@[k] == old(s2)@[k],
            forall|k: int| 0 <= k < i ==> s1@[k] == if flips@[k] { old(s2)@[k] } else { old(s1)@[k] },
            forall|k: int| 0 <= k < i ==> s2@[k] == if flips@[k] { old(s1)@[k] } else { old(s2)@[k] },
        decreases min - i,
    {
        if flips[i] {
            let a = s1[i];
            s1[i] = s2[i];
            s2[i] = a;
        }
        i = i + 1;
    }
}

/// Uniform crossover: each position below both lengths trades its values on a
/// fair coin flip.
pub fn crossover_ux<T: Copy>(s1: &mut [T], s2: &mut [T])
    ensures
        exists|flips: Seq<bool>|
            flips.len() == old(s1)@.len() && ux_children(
                old(s1)@,
                old(s2)@,
                flips,
                final(s1)@,
                final(s2)@,
            ),
{
    let mut flips: Vec<bool> = Vec::new();
    while flips.len() < s1.len()
        invariant
            s1@ == old(s1)@,
            s2@ == old(s2)@,
            flips@.len() <= s1@.len(),
        decreases s1@.len() - flips@.len(),
    {
        flips.push(random_flag());
    }
    crossover_ux_rng(s1, s2, flips.as_slice());
}

} // verus!
