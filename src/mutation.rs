use vstd::prelude::*;

use crate::rng::{random_below, shuffle_vec};

verus! {

// Permutation mutation operators.

/// `new` is `old` with the values at `i` and `j` exchanged.
pub open spec fn swapped<T>(old: Seq<T>, new: Seq<T>, i: int, j: int) -> bool {
    0 <= i < old.len() && 0 <= j < old.len() && new == old.update(i, old[j]).update(j, old[i])
}

/// Exchanges the values at two random positions of a non-empty sequence.
pub fn mutate_swap<T: Copy>(s: &mut [T])
    requires
        old(s)@.len() > 0,
    ensures
        exists|i: int, j: int| swapped(old(s)@, final(s)@, i, j),
{
    let i = random_below(s.len());
    let j = random_below(s.len());
    let a = s[i];
    let b = s[j];
    s[i] = b;
    s[j] = a;
    assert(swapped(old(s)@, s@, i as int, j as int));
}

/// `new` is `old` with the value at `st` moved to `en`, the values in between
/// moving one place towards the front.
pub open spec fn moved_to<T>(old: Seq<T>, new: Seq<T>, st: int, en: int) -> bool {
    &&& 0 <= st <= en < old.len()
    &&& new == old.subrange(0, st) + old.subrange(st + 1, en + 1) + seq![old[st]] + old.subrange(
        en + 1,
        old.len() as int,
    )
}

/// Brings two random elements next to each other: the first moves up to the
/// place just before the second, shifting the values in between one place
/// down, e.g. `AbcdEfg` becomes `bcdAEfg`.
pub fn mutate_insert<T: Copy>(s: &mut [T])
    requires
        old(s)@.len() > 0,
    ensures
        exists|st: int, en: int| moved_to(old(s)@, final(s)@, st, en),
{
    let n = s.len();
    let st = random_below(n);
    let en = st + random_below(n - st);
    let mut i = st;
    while i < en
        invariant
            n == s@.len(),
            n == old(s)@.len(),
            st <= i <= en < n,
            s@ == old(s)@.subrange(0, st as int) + old(s)@.subrange(st + 1, i + 1) + seq![
                old(s)@[st as int],
            ] + old(s)@.subrange(i + 1, n as int),
        decreases en - i,
    {
        let a = s[i];
        let b = s[i + 1];
        s[i] = b;
        s[i + 1] = a;
        i = i + 1;
        proof {
            assert(s@ =~= old(s)@.subrange(0, st as int) + old(s)@.subrange(st + 1, i + 1) + seq![
                old(s)@[st as int],
            ] + old(s)@.subrange(i + 1, n as int));
        }
    }
    proof {
        assert(moved_to(old(s)@, s@, st as int, en as int));
    }
}

/// `new` is `old` with the segment `[st, en]` rearranged.
pub open spec fn scrambled<T>(old: Seq<T>, new: Seq<T>, st: int, en: int) -> bool {
    &&& 0 <= st <= en < old.len()
    &&& new.len() == old.len()
    &&& new.subrange(0, st) == old.subrange(0, st)
    &&& new.subrange(en + 1, new.len() as int) == old.subrange(en + 1, old.len() as int)
    &&& new.subrange(st, en + 1).to_multiset() == old.subrange(st, en + 1).to_multiset()
}

/// Shuffles a random segment, e.g. `aBCDefg` becomes `aCDBefg`.
pub fn mutate_scramble<T: Copy>(s: &mut [T])
    requires
        old(s)@.len() > 0,
    ensures
        exists|st: int, en: int| scrambled(old(s)@, final(s)@, st, en),
{
    let n = s.len();
    let st = random_below(n);
    let en = st + random_below(n - st);
    let mut part: Vec<T> = Vec::new();
    let mut i = st;
    while i <= en
        invariant
            n == s@.len(),
            s@ == old(s)@,
            st <= i <= en + 1,
            en < n,
            part@ == old(s)@.subrange(st as int, i as int),
        decreases en + 1 - i,
    {
        part.push(s[i]);
        i = i + 1;
        proof {
            assert(part@ =~= old(s)@.subrange(st as int, i as int));
        }
    }
    let ghost before = part@;
    shuffle_vec(&mut part);
    proof {
        before.to_multiset_ensures();
        part@.to_multiset_ensures();
    }
    let mut i = st;
    while i <= en
        invariant
            n == s@.len(),
            n == old(s)@.len(),
            st <= i <= en + 1,
            en < n,
            part@.len() == en + 1 - st,
            forall|k: int| 0 <= k < st ==> s@[k] == old(s)@[k],
            forall|k: int| i <= k < n ==> s@[k] == old(s)@[k],
            forall|k: int| st <= k < i ==> s@[k] == part@[k - st],
        decreases en + 1 - i,
    {
        s[i] = part[i - st];
        i = i + 1;
    }
    proof {
        assert(s@.subrange(st as int, en + 1) =~= part@);
        assert(s@.subrange(0, st as int) =~= old(s)@.subrange(0, st as int));
        assert(s@.subrange(en + 1, n as int) =~= old(s)@.subrange(en + 1, n as int));
        assert(scrambled(old(s)@, s@, st as int, en as int));
    }
}

/// `new` is `old` with the segment `[st, en]` reversed.
pub open spec fn reversed_segment<T>(old: Seq<T>, new: Seq<T>, st: int, en: int) -> bool {
    &&& 0 <= st <= en < old.len()
    &&& new.len() == old.len()
    &&& forall|k: int|
        0 <= k < old.len() ==> new[k] == if st <= k <= en { old[st + en - k] } else { old[k] }
}

/// Reverses a random segment, e.g. `aBCDefg` becomes `aDCBefg`.
pub fn mutate_inversion<T: Copy>(s: &mut [T])
    requires
        old(s)@.len() > 0,
    ensures
        exists|st: int, en: int| reversed_segment(old(s)@, final(s)@, st, en),
{
    let n = s.len();
    let st = random_below(n);
    let en = st + random_below(n - st);
    let mut lo = st;
    let mut hi = en;
    while lo < hi
        invariant
            n == s@.len(),
            n == old(s)@.len(),
            st <= lo,
            hi <= en,
            en < n,
            lo + hi == st + en,
            lo <= hi + 1,
            forall|k: int|
                0 <= k < n ==> s@[k] == if (st <= k < lo) || (hi < k <= en) {
                    old(s)@[st + en - k]
                } else {
                    old(s)@[k]
                },
        decreases hi + 1 - lo,
    {
        let a = s[lo];
        let b = s[hi];
        s[lo] = b;
        s[hi] = a;
        lo = lo + 1;
        hi = hi - 1;
    }
    assert(reversed_segment(old(s)@, s@, st as int, en as int));
}

// Discrete mutation operators.

/// Replaces the value at a random position with `v`; an empty sequence stays
/// empty.
pub fn mutate_reset<T: Copy>(s: &mut [T], v: T)
    ensures
        old(s)@.len() == 0 ==> final(s)@ == old(s)@,
        old(s)@.len() > 0 ==> exists|i: int|
            0 <= i < old(s)@.len() && final(s)@ == old(s)@.update(i, v),
{
    if s.len() > 0 {
        let i = random_below(s.len());
        s[i] = v;
        assert(s@ == old(s)@.update(i as int, v));
    }
}

} // verus!
