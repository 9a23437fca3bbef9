use vstd::prelude::*;

use crate::species::SpeciesId;
use vstd::std_specs::cmp::PartialEqSpec;

verus! {

/// How parents are selected.
#[derive(Debug, Clone, Copy, PartialEq, Eq, Structural)]
pub enum Selection {
    /// Stochastic universal sampling.
    Sus,
    /// Independent roulette draws.
    Roulette,
}

/// Whether and how members are grouped into species.
#[derive(Debug, Clone, Copy, PartialEq, Eq, Structural)]
pub enum Species {
    /// No speciation.
    Disabled,
    /// Target number of species.
    TargetNumber(SpeciesId),
}

/// When a run counts as stagnant.
#[derive(Debug, Clone, Copy, PartialEq, Eq, Structural)]
pub enum Stagnation {
    /// Never stagnant.
    Disabled,
    /// After N generations of the same best fitness, stagnant once.
    OneShotAfter(usize),
    /// Stagnant for as long as the best fitness has stayed the same for N
    /// generations or more.
    ContinuousAfter(usize),
}

/// Whether equal states may live in one population.
#[derive(Debug, Clone, Copy, PartialEq, Eq, Structural)]
pub enum Duplicates {
    /// Drop members whose state equals another's.
    DisallowDuplicates,
    AllowDuplicates,
}

/// How fitnesses over several inputs are combined into one.
#[derive(Debug, Clone, Copy, PartialEq, Eq, Structural)]
pub enum FitnessReduction {
    ArithmeticMean,
    GeometricMean,
}

/// The stagnation counter after one more generation: one more when the best
/// fitness stayed the same, else zero.
pub open spec fn next_stagnation_count(count: usize, same_best: bool) -> usize {
    if !same_best {
        0
    } else if count < usize::MAX {
        (count + 1) as usize
    } else {
        count
    }
}

/// The counter and whether the run is stagnant, after a generation whose best
/// fitness stayed the same (`same_best`) or not.
pub open spec fn spec_stagnation_step(policy: Stagnation, count: usize, same_best: bool) -> (
    usize,
    bool,
) {
    let c = next_stagnation_count(count, same_best);
    match policy {
        Stagnation::Disabled => (c, false),
        Stagnation::OneShotAfter(n) => if c >= n {
            (0, true)
        } else {
            (c, false)
        },
        Stagnation::ContinuousAfter(n) => (c, c >= n),
    }
}

/// Advances the stagnation counter by one generation and says whether the run
/// is stagnant under `policy`. A one-shot policy resets the counter when it
/// fires.
pub fn stagnation_step(policy: Stagnation, count: usize, same_best: bool) -> (r: (usize, bool))
    ensures
        r == spec_stagnation_step(policy, count, same_best),
{
    let c = if !same_best {
        0
    } else if count < usize::MAX {
        count + 1
    } else {
        count
    };
    match policy {
        Stagnation::Disabled => (c, false),
        Stagnation::OneShotAfter(n) => {
            if c >= n {
                (0, true)
            } else {
                (c, false)
            }
        },
        Stagnation::ContinuousAfter(n) => (c, c >= n),
    }
}

/// A continuous policy stays stagnant for as long as the best fitness stays
/// the same, once it has become stagnant.
pub proof fn lemma_continuous_stays_stagnant(n: usize, count: usize)
    requires
        spec_stagnation_step(Stagnation::ContinuousAfter(n), count, true).1,
    ensures
        spec_stagnation_step(
            Stagnation::ContinuousAfter(n),
            spec_stagnation_step(Stagnation::ContinuousAfter(n), count, true).0,
            true,
        ).1,
{
}

/// A one-shot policy is not stagnant in the generation right after it fired,
/// unless it fires after zero generations.
pub proof fn lemma_one_shot_fires_once(n: usize, count: usize, same_best: bool)
    requires
        n > 1,
        spec_stagnation_step(Stagnation::OneShotAfter(n), count, same_best).1,
    ensures
        !spec_stagnation_step(
            Stagnation::OneShotAfter(n),
            spec_stagnation_step(Stagnation::OneShotAfter(n), count, same_best).0,
            true,
        ).1,
{
}

/// The state at `m` is kept, or equals a kept state before it.
pub open spec fn covered<S: PartialEq>(states: Seq<S>, kept: Seq<usize>, m: int) -> bool {
    exists|a: int|
        0 <= a < kept.len() && #[trigger] kept[a] <= m && (kept[a] == m || states[kept[a] as int].eq_spec(
            &states[m],
        ))
}

/// The positions in `kept` hold pairwise unequal states, and every state
/// equals one at a kept position at or before it.
pub open spec fn is_distinct_selection<S: PartialEq>(states: Seq<S>, kept: Seq<usize>) -> bool {
    &&& forall|a: int, b: int| 0 <= a < b < kept.len() ==> kept[a] < kept[b]
    &&& forall|a: int| 0 <= a < kept.len() ==> kept[a] < states.len()
    &&& forall|a: int, b: int|
        0 <= a < kept.len() && 0 <= b < kept.len() && a != b ==> !states[#[trigger] kept[a] as int].eq_spec(
            &states[#[trigger] kept[b] as int],
        )
    &&& forall|k: int| 0 <= k < states.len() ==> #[trigger] covered(states, kept, k)
}

/// The positions of the states to keep when duplicates are disallowed: each
/// state whose equal does not come before it. The equality is `==` on the
/// states, which must be symmetric.
pub fn distinct_states<S: PartialEq>(states: &[S]) -> (r: Vec<usize>)
    requires
        S::obeys_eq_spec(),
        forall|x: S, y: S| #[trigger] x.eq_spec(&y) ==> y.eq_spec(&x),
    ensures
        is_distinct_selection(states@, r@),
{
    let mut kept: Vec<usize> = Vec::new();
    let mut k: usize = 0;
    while k < states.len()
        invariant
            S::obeys_eq_spec(),
            forall|x: S, y: S| #[trigger] x.eq_spec(&y) ==> y.eq_spec(&x),
            k <= states@.len(),
            forall|a: int, b: int| 0 <= a < b < kept@.len() ==> kept@[a] < kept@[b],
            forall|a: int| 0 <= a < kept@.len() ==> kept@[a] < k,
            forall|a: int, b: int|
                0 <= a < kept@.len() && 0 <= b < kept@.len() && a != b ==> !states@[kept@[a] as int].eq_spec(
                    &states@[kept@[b] as int],
                ),
            forall|m: int| 0 <= m < k ==> #[trigger] covered(states@, kept@, m),
        decreases states@.len() - k,
    {
        let mut j: usize = 0;
        let mut dup = false;
        while j < kept.len()
            invariant
                S::obeys_eq_spec(),
                k < states@.len(),
                j <= kept@.len(),
                forall|a: int| 0 <= a < kept@.len() ==> kept@[a] < k,
                !dup ==> forall|a: int|
                    0 <= a < j ==> !states@[kept@[a] as int].eq_spec(&states@[k as int]),
                dup ==> exists|a: int|
                    0 <= a < kept@.len() && states@[#[trigger] kept@[a] as int].eq_spec(
                        &states@[k as int],
                    ),
            decreases kept@.len() - j,
        {
            if states[kept[j]] == states[k] {
                dup = true;
            }
            j = j + 1;
        }
        if !dup {
            let ghost old_kept = kept@;
            kept.push(k);
            proof {
                assert forall|m: int| 0 <= m < k + 1 implies #[trigger] covered(
                    states@,
                    kept@,
                    m,
                ) by {
                    if m < k {
                        assert(covered(states@, old_kept, m));
                        let a = choose|a: int|
                            0 <= a < old_kept.len() && #[trigger] old_kept[a] <= m && (old_kept[a]
                                == m || states@[old_kept[a] as int].eq_spec(&states@[m]));
                        assert(kept@[a] == old_kept[a]);
                    } else {
                        assert(kept@[old_kept.len() as int] == m);
                        assert(covered(states@, kept@, m));
                    }
                }
            }
        } else {
            proof {
                let a = choose|a: int|
                    0 <= a < kept@.len() && states@[#[trigger] kept@[a] as int].eq_spec(
                        &states@[k as int],
                    );
                assert(kept@[a] <= k);
                assert(covered(states@, kept@, k as int));
            }
        }
        k = k + 1;
    }
    kept
}

/// The number of members whose state equals that of an earlier member.
pub fn num_dup<S: PartialEq>(states: &[S]) -> (r: usize)
    requires
        S::obeys_eq_spec(),
        forall|x: S, y: S| #[trigger] x.eq_spec(&y) ==> y.eq_spec(&x),
    ensures
        exists|kept: Seq<usize>|
            #[trigger] is_distinct_selection(states@, kept) && r == states@.len() - kept.len(),
{
    let kept = distinct_states(states);
    proof {
        lemma_selection_len(states@, kept@);
    }
    states.len() - kept.len()
}

proof fn lemma_selection_len<S: PartialEq>(states: Seq<S>, kept: Seq<usize>)
    requires
        is_distinct_selection(states, kept),
    ensures
        kept.len() <= states.len(),
{
    // The kept positions are strictly increasing and below the length.
    if kept.len() > states.len() {
        lemma_increasing_bound(kept, kept.len() - 1);
        assert(kept[kept.len() - 1] < states.len());
    }
}

proof fn lemma_increasing_bound(kept: Seq<usize>, j: int)
    requires
        0 <= j < kept.len(),
        forall|a: int, b: int| 0 <= a < b < kept.len() ==> kept[a] < kept[b],
    ensures
        kept[j] >= j,
    decreases j,
{
    if j > 0 {
        lemma_increasing_bound(kept, j - 1);
    }
}

/// Member `a` is younger than member `b`, or as old and earlier.
pub open spec fn younger(ages: Seq<usize>, a: int, b: int) -> bool {
    ages[a] < ages[b] || (ages[a] == ages[b] && a < b)
}

/// Member `i` is taken in `r`, or comes after every member taken.
pub open spec fn placed(ages: Seq<usize>, r: Seq<usize>, i: int) -> bool {
    r.contains(i as usize) || forall|j: int| 0 <= j < r.len() ==> younger(ages, #[trigger] r[j] as int, i)
}

/// Positions of the youngest `n` members (all, when fewer), youngest first;
/// members of equal age keep their order.
pub fn youngest(ages: &[usize], n: usize) -> (r: Vec<usize>)
    ensures
        r@.len() == if n <= ages@.len() { n as int } else { ages@.len() as int },
        forall|j: int| 0 <= j < r@.len() ==> r@[j] < ages@.len(),
        forall|j: int, k: int|
            0 <= j < k < r@.len() ==> younger(ages@, r@[j] as int, r@[k] as int),
        forall|i: int| 0 <= i < ages@.len() ==> #[trigger] placed(ages@, r@, i),
{
    let len = ages.len();
    let k = if n <= len { n } else { len };
    let mut r: Vec<usize> = Vec::new();
    while r.len() < k
        invariant
            k <= len,
            len == ages@.len(),
            r@.len() <= k,
            forall|j: int| 0 <= j < r@.len() ==> r@[j] < len,
            forall|j: int, m: int|
                0 <= j < m < r@.len() ==> younger(ages@, r@[j] as int, r@[m] as int),
            forall|i: int| 0 <= i < len ==> #[trigger] placed(ages@, r@, i),
        decreases k - r@.len(),
    {
        // The youngest member after the last one taken.
        let mut best: usize = len;
        let mut i: usize = 0;
        while i < len
            invariant
                len == ages@.len(),
                i <= len,
                forall|j: int| 0 <= j < r@.len() ==> r@[j] < len,
                forall|j: int, m: int|
                    0 <= j < m < r@.len() ==> younger(ages@, r@[j] as int, r@[m] as int),
                best == len || best < i,
                best < len ==> !r@.contains(best),
                best < len ==> forall|j: int|
                    0 <= j < r@.len() ==> younger(ages@, r@[j] as int, best as int),
                forall|c: int|
                    0 <= c < i && !(#[trigger] r@.contains(c as usize)) ==> best < len && (c == best
                        || younger(ages@, best as int, c)),
                r@.len() < k,
                k <= len,
                forall|c: int| 0 <= c < len ==> #[trigger] placed(ages@, r@, c),
            decreases len - i,
        {
            let taken = r.len() > 0 && {
                let last = r[r.len() - 1];
                !(ages[last] < ages[i] || (ages[last] == ages[i] && last < i))
            };
            proof {
                assert(placed(ages@, r@, i as int));
                if r@.len() > 0 {
                    let last = r@[r@.len() - 1];
                    if r@.contains(i as usize) {
                        let j = choose|j: int| 0 <= j < r@.len() && r@[j] == i;
                        if j < r@.len() - 1 {
                            assert(younger(ages@, r@[j] as int, last as int));
                        }
                        assert(taken);
                    } else {
                        assert(younger(ages@, last as int, i as int));
                        assert(!taken);
                    }
                }
                assert(taken == r@.contains(i as usize));
            }
            let ghost old_best = best;
            if !taken && (best == len || ages[i] < ages[best]) {
                best = i;
            }
            proof {
                assert forall|c: int|
                    0 <= c < i + 1 && !(#[trigger] r@.contains(c as usize)) implies best < len && (c
                    == best || younger(ages@, best as int, c)) by {
                    if c < i {
                        assert(old_best < len && (c == old_best || younger(ages@, old_best as int, c)));
                    }
                }
            }
            i = i + 1;
        }
        proof {
            // Fewer than `len` taken, so someone is left.
            if best == len {
                assert forall|j: int, m: int| 0 <= j < m < r@.len() implies r@[j] != r@[m] by {
                    assert(younger(ages@, r@[j] as int, r@[m] as int));
                }
                lemma_some_left(r@, len as int);
                let c = choose|c: int| 0 <= c < len && !(#[trigger] r@.contains(c as usize));
                assert(best < len);
                assert(false);
            }
        }
        let ghost old_r = r@;
        r.push(best);
        proof {
            assert forall|c: int| 0 <= c < len implies #[trigger] placed(ages@, r@, c) by {
                if !r@.contains(c as usize) {
                    assert(placed(ages@, old_r, c));
                    assert(!old_r.contains(c as usize)) by {
                        if old_r.contains(c as usize) {
                            let j = choose|j: int| 0 <= j < old_r.len() && old_r[j] == c;
                            assert(r@[j] == c);
                        }
                    }
                    assert(c != best) by {
                        assert(r@[old_r.len() as int] == best);
                    }
                    assert forall|j: int| 0 <= j < r@.len() implies younger(ages@, r@[j] as int, c) by {
                        if j < old_r.len() {
                            assert(r@[j] == old_r[j]);
                        }
                    }
                }
            }
            assert forall|j: int| 0 <= j < old_r.len() implies !(r@[j] == best) by {
                assert(r@[j] == old_r[j]);
                if old_r[j] == best {
                    assert(old_r.contains(best));
                }
            }
        }
    }
    r
}

proof fn lemma_some_left(r: Seq<usize>, len: int)
    requires
        0 <= r.len() < len,
        len <= usize::MAX,
        forall|j: int| 0 <= j < r.len() ==> r[j] < len,
        forall|j: int, m: int| 0 <= j < m < r.len() ==> r[j] != r[m],
    ensures
        exists|c: int| 0 <= c < len && !(#[trigger] r.contains(c as usize)),
{
    let ri = r.map_values(|x: usize| x as int);
    assert(ri.no_duplicates()) by {
        assert forall|j: int, m: int| 0 <= j < ri.len() && 0 <= m < ri.len() && j != m implies ri[j]
            != ri[m] by {
            if j < m {
                assert(r[j] != r[m]);
            } else {
                assert(r[m] != r[j]);
            }
        }
    }
    ri.unique_seq_to_set();
    vstd::set_lib::lemma_int_range(0, len);
    let range = vstd::set_lib::set_int_range(0, len);
    if forall|c: int| 0 <= c < len ==> #[trigger] r.contains(c as usize) {
        assert(range.subset_of(ri.to_set())) by {
            assert forall|c: int| range.contains(c) implies ri.to_set().contains(c) by {
                assert(r.contains(c as usize));
                let j = choose|j: int| 0 <= j < r.len() && r[j] == c as usize;
                assert(ri[j] == c);
            }
        }
        assert(ri.to_set().subset_of(range)) by {
            assert forall|c: int| ri.to_set().contains(c) implies range.contains(c) by {
                let j = choose|j: int| 0 <= j < ri.len() && ri[j] == c;
                assert(r[j] < len);
            }
        }
        vstd::set_lib::lemma_len_subset(range, ri.to_set());
        assert(false);
    }
}

} // verus!
