use vstd::prelude::*;

use crate::evolve::{placed, younger, youngest};

verus! {

/// Species tag; `0` means unassigned.
pub type SpeciesId = u64;

/// The tag of a member not yet assigned to a species.
pub const NO_SPECIES: SpeciesId = 0;

/// `near[i * n + j]` says whether member `j` is within the species radius of
/// member `i`.
pub open spec fn is_near(near: Seq<bool>, n: int, i: int, j: int) -> bool {
    near[i * n + j]
}

/// `ids` is the clustering of `n` members, taken in order, into `k` species
/// seeded at `seeds`: the first unassigned member seeds the next species, which
/// takes every later unassigned member near the seed.
pub open spec fn is_clustering(near: Seq<bool>, n: int, ids: Seq<SpeciesId>, seeds: Seq<int>) -> bool {
    let k = seeds.len();
    &&& ids.len() == n
    &&& forall|t: int| 0 <= t < k ==> 0 <= #[trigger] seeds[t] < n && ids[seeds[t]] == t + 1
    &&& forall|t: int, u: int| 0 <= t < u < k ==> #[trigger] seeds[t] < #[trigger] seeds[u]
    &&& forall|v: int|
        0 <= v < n ==> {
            let t = #[trigger] ids[v] as int - 1;
            &&& 0 <= t < k
            &&& seeds[t] <= v
            &&& v == seeds[t] || is_near(near, n, seeds[t], v)
            &&& forall|u: int| 0 <= u < t ==> !is_near(near, n, #[trigger] seeds[u], v)
        }
}

/// Clusters `n` members, sorted by fitness, into species: the best member not
/// yet assigned seeds a new species, which every other unassigned member near
/// the seed joins. Tags count up from 1; the second result is the number of
/// species.
pub fn speciate(near: &[bool], n: usize) -> (r: (Vec<SpeciesId>, u64))
    requires
        near@.len() == n * n,
    ensures
        exists|seeds: Seq<int>| seeds.len() == r.1 && is_clustering(near@, n as int, r.0@, seeds),
{
    let mut ids: Vec<SpeciesId> = Vec::new();
    let mut i: usize = 0;
    while i < n
        invariant
            i <= n,
            ids@.len() == i,
            forall|k: int| 0 <= k < i ==> ids@[k] == NO_SPECIES,
        decreases n - i,
    {
        ids.push(NO_SPECIES);
        i = i + 1;
    }
    let total = near.len();
    assert(total == n * n);
    let mut num: u64 = 0;
    let ghost mut seeds: Seq<int> = Seq::empty();
    let mut s: usize = 0;
    while s < n
        invariant
            near@.len() == n * n,
            n * n <= usize::MAX,
            ids@.len() == n,
            s <= n,
            num == seeds.len(),
            num <= s,
            forall|t: int| 0 <= t < num ==> 0 <= #[trigger] seeds[t] < s && ids@[seeds[t]] == t + 1,
            forall|t: int, u: int| 0 <= t < u < num ==> #[trigger] seeds[t] < #[trigger] seeds[u],
            forall|v: int| 0 <= v < s ==> ids@[v] != NO_SPECIES,
            forall|v: int|
                0 <= v < n && ids@[v] != NO_SPECIES ==> {
                    let t = ids@[v] as int - 1;
                    &&& 0 <= t < num
                    &&& seeds[t] <= v
                    &&& v == seeds[t] || is_near(near@, n as int, seeds[t], v)
                    &&& forall|u: int| 0 <= u < t ==> !is_near(near@, n as int, #[trigger] seeds[u], v)
                },
            forall|v: int|
                0 <= v < n && ids@[v] == NO_SPECIES ==> forall|u: int|
                    0 <= u < num ==> !is_near(near@, n as int, #[trigger] seeds[u], v),
        decreases n - s,
    {
        if ids[s] == NO_SPECIES {
            let tag = num + 1;
            ids.set(s, tag);
            proof {
                seeds = seeds.push(s as int);
            }
            let mut v = s + 1;
            while v < n
                invariant
                    near@.len() == n * n,
                    n * n <= usize::MAX,
                    ids@.len() == n,
                    s < n,
                    s + 1 <= v <= n,
                    tag == num + 1,
                    seeds.len() == num + 1,
                    seeds[num as int] == s,
                    num <= s,
                    forall|t: int|
                        0 <= t < num + 1 ==> 0 <= #[trigger] seeds[t] <= s && ids@[seeds[t]] == t
                            + 1,
                    forall|t: int, u: int|
                        0 <= t < u < num + 1 ==> #[trigger] seeds[t] < #[trigger] seeds[u],
                    forall|w: int| 0 <= w <= s ==> ids@[w] != NO_SPECIES,
                    forall|w: int|
                        0 <= w < n && ids@[w] != NO_SPECIES ==> {
                            let t = ids@[w] as int - 1;
                            &&& 0 <= t < num + 1
                            &&& seeds[t] <= w
                            &&& w == seeds[t] || is_near(near@, n as int, seeds[t], w)
                            &&& forall|u: int|
                                0 <= u < t ==> !is_near(near@, n as int, #[trigger] seeds[u], w)
                        },
                    forall|w: int|
                        v <= w < n && ids@[w] == NO_SPECIES ==> forall|u: int|
                            0 <= u < num ==> !is_near(near@, n as int, #[trigger] seeds[u], w),
                    forall|w: int|
                        s < w < v && ids@[w] == NO_SPECIES ==> forall|u: int|
                            0 <= u < num + 1 ==> !is_near(near@, n as int, #[trigger] seeds[u], w),
                decreases n - v,
            {
                proof {
                    assert(s * n + v < n * n) by (nonlinear_arith)
                        requires
                            s < n,
                            v < n,
                    ;
                }
                let at = s * n + v;
                if ids[v] == NO_SPECIES && near[at] {
                    ids.set(v, tag);
                }
                v = v + 1;
            }
            num = tag;
        }
        s = s + 1;
    }
    proof {
        assert(is_clustering(near@, n as int, ids@, seeds));
    }
    (ids, num)
}

/// Every species has a member, its seed, that is near every other member of
/// the species.
pub proof fn lemma_species_have_central_member(
    near: Seq<bool>,
    n: int,
    ids: Seq<SpeciesId>,
    seeds: Seq<int>,
    tag: SpeciesId,
)
    requires
        is_clustering(near, n, ids, seeds),
        exists|v: int| 0 <= v < n && ids[v] == tag,
    ensures
        exists|c: int|
            0 <= c < n && ids[c] == tag && forall|v: int|
                0 <= v < n && ids[v] == tag && v != c ==> is_near(near, n, c, v),
{
    let v0 = choose|v: int| 0 <= v < n && ids[v] == tag;
    let t = ids[v0] as int - 1;
    let c = seeds[t];
    assert(0 <= c < n && ids[c] == tag);
    assert forall|v: int| 0 <= v < n && ids[v] == tag && v != c implies is_near(near, n, c, v) by {
        assert(ids[v] as int - 1 == t);
    }
}

/// The tag `t` occurs among the first `i` tags.
pub open spec fn tag_in_prefix(tags: Seq<SpeciesId>, i: int, t: SpeciesId) -> bool {
    exists|w: int| 0 <= w < i && tags[w] == t
}

/// The distinct species tags of a generation, in ascending order.
pub fn species_tags(tags: &[SpeciesId]) -> (r: Vec<SpeciesId>)
    ensures
        forall|i: int, j: int| 0 <= i < j < r@.len() ==> r@[i] < r@[j],
        forall|t: SpeciesId| tags@.contains(t) <==> r@.contains(t),
{
    let mut r: Vec<SpeciesId> = Vec::new();
    let mut i: usize = 0;
    while i < tags.len()
        invariant
            i <= tags@.len(),
            forall|a: int, b: int| 0 <= a < b < r@.len() ==> r@[a] < r@[b],
            forall|t: SpeciesId| tag_in_prefix(tags@, i as int, t) <==> r@.contains(t),
        decreases tags@.len() - i,
    {
        let t = tags[i];
        // Insert `t` at its place in ascending order, unless already there.
        let mut p: usize = 0;
        while p < r.len() && r[p] < t
            invariant
                p <= r@.len(),
                forall|a: int| 0 <= a < p ==> r@[a] < t,
            decreases r@.len() - p,
        {
            p = p + 1;
        }
        let ghost before = r@;
        if p == r.len() || r[p] != t {
            r.insert(p, t);
            proof {
                assert(r@ =~= before.subrange(0, p as int).push(t) + before.subrange(
                    p as int,
                    before.len() as int,
                ));
                assert forall|a: int, b: int| 0 <= a < b < r@.len() implies r@[a] < r@[b] by {
                    if p < before.len() {
                        assert(before[p as int] > t);
                    }
                    if a < p && b > p {
                        assert(r@[a] < t);
                    }
                }
                assert forall|x: SpeciesId| tag_in_prefix(tags@, i + 1, x) <==> r@.contains(x) by {
                    if tag_in_prefix(tags@, i + 1, x) {
                        let w = choose|w: int| 0 <= w < i + 1 && #[trigger] tags@[w] == x;
                        if w < i {
                            assert(tag_in_prefix(tags@, i as int, x));
                            assert(before.contains(x));
                            let q = choose|q: int| 0 <= q < before.len() && #[trigger] before[q] == x;
                            if q < p {
                                assert(r@[q] == x);
                            } else {
                                assert(r@[q + 1] == x);
                            }
                        } else {
                            assert(r@[p as int] == x);
                        }
                    }
                    if r@.contains(x) {
                        let q = choose|q: int| 0 <= q < r@.len() && #[trigger] r@[q] == x;
                        if q == p {
                            assert(tags@[i as int] == x);
                        } else {
                            if q < p {
                                assert(before[q] == x);
                            } else {
                                assert(before[q - 1] == x);
                            }
                            assert(before.contains(x));
                        }
                    }
                }
            }
        } else {
            proof {
                assert(r@[p as int] == t);
                assert forall|x: SpeciesId| tag_in_prefix(tags@, i + 1, x) <==> r@.contains(x) by {
                    if tag_in_prefix(tags@, i + 1, x) {
                        let w = choose|w: int| 0 <= w < i + 1 && #[trigger] tags@[w] == x;
                        if w < i {
                            assert(tag_in_prefix(tags@, i as int, x));
                        }
                    }
                }
            }
        }
        i = i + 1;
    }
    proof {
        assert forall|x: SpeciesId| tags@.contains(x) <==> r@.contains(x) by {
            if tags@.contains(x) {
                let w = choose|w: int| 0 <= w < tags@.len() && #[trigger] tags@[w] == x;
                assert(tag_in_prefix(tags@, i as int, x));
            }
        }
    }
    r
}

/// How many of the first `p` members have the tag `t`.
pub open spec fn count_before(tags: Seq<SpeciesId>, t: SpeciesId, p: int) -> nat
    decreases p,
{
    if p <= 0 {
        0
    } else {
        count_before(tags, t, p - 1) + if tags[p - 1] == t { 1nat } else { 0nat }
    }
}

/// Member `p` is among the first `per_species` members of its species.
pub open spec fn within_quota(tags: Seq<SpeciesId>, p: int, per_species: usize) -> bool {
    count_before(tags, tags[p], p) < per_species
}

/// The tag `t` is one of the first `m` of `ts`.
pub open spec fn tag_among(ts: Seq<SpeciesId>, m: int, t: SpeciesId) -> bool {
    exists|k: int| 0 <= k < m && ts[k] == t
}

proof fn lemma_count_before_bounded(tags: Seq<SpeciesId>, t: SpeciesId, p: int)
    requires
        0 <= p,
    ensures
        count_before(tags, t, p) <= p,
    decreases p,
{
    if p > 0 {
        lemma_count_before_bounded(tags, t, p - 1);
    }
}

/// The first `per_species` members of each species, species by species in
/// ascending tag order and in their order within a species. Members are
/// sorted by fitness, so these are the best of each species.
pub fn species_top(tags: &[SpeciesId], per_species: usize) -> (r: Vec<usize>)
    ensures
        forall|j: int| 0 <= j < r@.len() ==> r@[j] < tags@.len(),
        forall|j: int, k: int|
            0 <= j < k < r@.len() ==> tags@[r@[j] as int] < tags@[r@[k] as int] || (tags@[r@[j] as int]
                == tags@[r@[k] as int] && r@[j] < r@[k]),
        forall|q: int|
            0 <= q < tags@.len() ==> (r@.contains(q as usize) <==> within_quota(
                tags@,
                q,
                per_species,
            )),
{
    let ts = species_tags(tags);
    let len = tags.len();
    let mut r: Vec<usize> = Vec::new();
    let mut m: usize = 0;
    while m < ts.len()
        invariant
            len == tags@.len(),
            forall|a: int, b: int| 0 <= a < b < ts@.len() ==> ts@[a] < ts@[b],
            m <= ts@.len(),
            forall|j: int| 0 <= j < r@.len() ==> r@[j] < len,
            forall|j: int, k: int|
                0 <= j < k < r@.len() ==> tags@[r@[j] as int] < tags@[r@[k] as int] || (tags@[r@[j] as int]
                    == tags@[r@[k] as int] && r@[j] < r@[k]),
            forall|j: int| 0 <= j < r@.len() ==> #[trigger] tag_among(ts@, m as int, tags@[r@[j] as int]),
            forall|q: int|
                0 <= q < len ==> (r@.contains(q as usize) <==> (tag_among(ts@, m as int, tags@[q])
                    && within_quota(tags@, q, per_species))),
        decreases ts@.len() - m,
    {
        let t = ts[m];
        let mut c: usize = 0;
        let mut p: usize = 0;
        while p < len
            invariant
                len == tags@.len(),
                forall|a: int, b: int| 0 <= a < b < ts@.len() ==> ts@[a] < ts@[b],
                m < ts@.len(),
                t == ts@[m as int],
                p <= len,
                c == if count_before(tags@, t, p as int) < per_species {
                    count_before(tags@, t, p as int)
                } else {
                    per_species as nat
                },
                forall|j: int| 0 <= j < r@.len() ==> r@[j] < len,
                forall|j: int, k: int|
                    0 <= j < k < r@.len() ==> tags@[r@[j] as int] < tags@[r@[k] as int] || (
                    tags@[r@[j] as int] == tags@[r@[k] as int] && r@[j] < r@[k]),
                forall|j: int|
                    0 <= j < r@.len() ==> (#[trigger] tag_among(ts@, m as int, tags@[r@[j] as int]))
                        || (tags@[r@[j] as int] == t && r@[j] < p),
                forall|q: int|
                    0 <= q < len ==> (r@.contains(q as usize) <==> ((tag_among(
                        ts@,
                        m as int,
                        tags@[q],
                    ) && within_quota(tags@, q, per_species)) || (q < p && tags@[q] == t
                        && within_quota(tags@, q, per_species)))),
            decreases len - p,
        {
            proof {
                lemma_count_before_bounded(tags@, t, p as int);
                // Tags of earlier species are below `t`.
                assert forall|j: int| 0 <= j < r@.len() && #[trigger] tag_among(ts@, m as int, tags@[r@[j] as int]) implies tags@[r@[j] as int] < t by {
                    let k = choose|k: int| 0 <= k < m && ts@[k] == tags@[r@[j] as int];
                }
            }
            if tags[p] == t && c < per_species {
                let ghost old_r = r@;
                r.push(p);
                proof {
                    assert forall|q: int| 0 <= q < len implies (r@.contains(q as usize) <==> ((
                    tag_among(ts@, m as int, tags@[q]) && within_quota(tags@, q, per_species)) || (
                    q < p + 1 && tags@[q] == t && within_quota(tags@, q, per_species)))) by {
                        if r@.contains(q as usize) && q != p {
                            let j = choose|j: int| 0 <= j < r@.len() && r@[j] == q as usize;
                            assert(old_r[j] == q as usize);
                            assert(old_r.contains(q as usize));
                        }
                        if old_r.contains(q as usize) {
                            let j = choose|j: int| 0 <= j < old_r.len() && old_r[j] == q as usize;
                            assert(r@[j] == q as usize);
                        }
                        if q == p {
                            assert(r@[old_r.len() as int] == p);
                        }
                    }
                    assert forall|j: int| 0 <= j < r@.len() implies (#[trigger] tag_among(
                        ts@,
                        m as int,
                        tags@[r@[j] as int],
                    )) || (tags@[r@[j] as int] == t && r@[j] < p + 1) by {
                        if j < old_r.len() {
                            assert(r@[j] == old_r[j]);
                        }
                    }
                }
                c = c + 1;
            } else {
                proof {
                    assert forall|q: int| 0 <= q < len implies (r@.contains(q as usize) <==> ((
                    tag_among(ts@, m as int, tags@[q]) && within_quota(tags@, q, per_species)) || (
                    q < p + 1 && tags@[q] == t && within_quota(tags@, q, per_species)))) by {
                        if q == p && tags@[q] == t {
                            assert(!within_quota(tags@, q, per_species));
                        }
                        if q == p && tag_among(ts@, m as int, tags@[q]) {
                            let k = choose|k: int| 0 <= k < m && ts@[k] == tags@[q];
                            if tags@[q] == t {
                                assert(ts@[k] < ts@[m as int]);
                            }
                        }
                    }
                }
            }
            p = p + 1;
        }
        proof {
            assert forall|q: int| 0 <= q < len implies (r@.contains(q as usize) <==> (tag_among(
                ts@,
                m + 1,
                tags@[q],
            ) && within_quota(tags@, q, per_species))) by {
                if tag_among(ts@, m + 1, tags@[q]) && !tag_among(ts@, m as int, tags@[q]) {
                    let k = choose|k: int| 0 <= k < m + 1 && ts@[k] == tags@[q];
                    assert(k == m);
                }
                if tags@[q] == t {
                    assert(ts@[m as int] == tags@[q]);
                }
            }
            assert forall|j: int| 0 <= j < r@.len() implies #[trigger] tag_among(
                ts@,
                m + 1,
                tags@[r@[j] as int],
            ) by {
                if tag_among(ts@, m as int, tags@[r@[j] as int]) {
                    let k = choose|k: int| 0 <= k < m && ts@[k] == tags@[r@[j] as int];
                    assert(0 <= k < m + 1 && ts@[k] == tags@[r@[j] as int]);
                } else {
                    assert(ts@[m as int] == tags@[r@[j] as int]);
                }
            }
        }
        m = m + 1;
    }
    proof {
        assert forall|q: int| 0 <= q < len implies tag_among(ts@, ts@.len() as int, tags@[q]) by {
            assert(tags@.contains(tags@[q]));
            assert(ts@.contains(tags@[q]));
            let k = choose|k: int| 0 <= k < ts@.len() && ts@[k] == tags@[q];
        }
    }
    r
}

/// Each member's rank within its species: how many members of its species
/// come before it.
pub open spec fn species_ranks(tags: Seq<SpeciesId>) -> Seq<usize> {
    Seq::new(tags.len(), |p: int| count_before(tags, tags[p], p) as usize)
}

/// The members to show as a sample of `n`: species take turns, each giving
/// its next best member, and in the last turn the best of those offered are
/// kept. Members are sorted by fitness, so this is the `n` members first by
/// rank within their species and then by position, in that order.
pub fn sample_members(tags: &[SpeciesId], n: usize) -> (r: Vec<usize>)
    ensures
        r@.len() == if n <= tags@.len() { n as int } else { tags@.len() as int },
        forall|j: int| 0 <= j < r@.len() ==> r@[j] < tags@.len(),
        forall|j: int, k: int|
            0 <= j < k < r@.len() ==> younger(species_ranks(tags@), r@[j] as int, r@[k] as int),
        forall|i: int|
            0 <= i < tags@.len() ==> #[trigger] placed(species_ranks(tags@), r@, i),
{
    let len = tags.len();
    let mut ranks: Vec<usize> = Vec::new();
    let mut p: usize = 0;
    while p < len
        invariant
            len == tags@.len(),
            p <= len,
            ranks@.len() == p,
            forall|k: int| 0 <= k < p ==> ranks@[k] == species_ranks(tags@)[k],
        decreases len - p,
    {
        let mut c: usize = 0;
        let mut q: usize = 0;
        while q < p
            invariant
                len == tags@.len(),
                p < len,
                q <= p,
                c == count_before(tags@, tags@[p as int], q as int),
                c <= q,
            decreases p - q,
        {
            if tags[q] == tags[p] {
                c = c + 1;
            }
            q = q + 1;
        }
        ranks.push(c);
        p = p + 1;
    }
    proof {
        assert(ranks@ =~= species_ranks(tags@));
    }
    youngest(ranks.as_slice(), n)
}

} // verus!
