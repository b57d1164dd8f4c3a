use vstd::prelude::*;
use std::collections::HashSet;

verus! {

broadcast use vstd::std_specs::hash::group_hash_axioms;

/// The unordered pair `{a, b}` as a tuple, smaller identifier first.
pub open spec fn spec_pair_key(a: u64, b: u64) -> (u64, u64) {
    if a < b {
        (a, b)
    } else {
        (b, a)
    }
}

/// Canonical key of a pair of track identifiers, so that a pair is seen
/// once whichever track of it is examined first.
pub fn pair_key(a: u64, b: u64) -> (key: (u64, u64))
    ensures
        key == spec_pair_key(a, b),
        key.0 <= key.1,
        (key.0 == a && key.1 == b) || (key.0 == b && key.1 == a),
{
    if a < b {
        (a, b)
    } else {
        (b, a)
    }
}

/// `i` paired with each index of `list`, in order.
pub open spec fn pairs_with(i: usize, list: Seq<usize>) -> Seq<(usize, usize)> {
    list.map_values(|j: usize| (i, j))
}

/// Pairs of positions within one bucket: `(own[a], own[b])` for `a < b`,
/// by `a` and then `b`, starting from position `a`.
pub open spec fn within_from(own: Seq<usize>, a: int) -> Seq<(usize, usize)>
    decreases own.len() - a,
{
    if a < 0 || a >= own.len() {
        Seq::empty()
    } else {
        pairs_with(own[a], own.skip(a + 1)) + within_from(own, a + 1)
    }
}

/// Pairs of a bucket's entries (from position `i`) with a neighbouring bucket's.
pub open spec fn cross_one(own: Seq<usize>, neighbor: Seq<usize>, i: int) -> Seq<(usize, usize)>
    decreases own.len() - i,
{
    if i < 0 || i >= own.len() {
        Seq::empty()
    } else {
        pairs_with(own[i], neighbor) + cross_one(own, neighbor, i + 1)
    }
}

/// Pairs of a bucket's entries with those of each neighbouring bucket from
/// the `n`-th on, neighbour by neighbour.
pub open spec fn cross_from(own: Seq<usize>, neighbors: Seq<Seq<usize>>, n: int) -> Seq<
    (usize, usize),
>
    decreases neighbors.len() - n,
{
    if n < 0 || n >= neighbors.len() {
        Seq::empty()
    } else {
        cross_one(own, neighbors[n], 0) + cross_from(own, neighbors, n + 1)
    }
}

/// Every pair examined for one bucket, in the order examined: pairs within
/// the bucket, then pairs with each neighbouring bucket.
pub open spec fn bucket_attempts(own: Seq<usize>, neighbors: Seq<Seq<usize>>) -> Seq<(usize, usize)> {
    within_from(own, 0) + cross_from(own, neighbors, 0)
}

/// Whether an examined pair joins two different entries.
pub open spec fn distinct_pair(p: (usize, usize)) -> bool {
    p.0 != p.1
}

/// The track-identifier key of a pair of snapshot positions.
pub open spec fn track_pair_key(ids: Seq<u64>, p: (usize, usize)) -> (u64, u64) {
    spec_pair_key(ids[p.0 as int], ids[p.1 as int])
}

/// Keys of the pairs of distinct entries among `attempts`.
pub open spec fn keys_seen(ids: Seq<u64>, attempts: Seq<(usize, usize)>) -> Set<(u64, u64)> {
    Set::new(
        |k: (u64, u64)|
            exists|t: int|
                0 <= t < attempts.len() && distinct_pair(#[trigger] attempts[t]) && track_pair_key(
                    ids,
                    attempts[t],
                ) == k,
    )
}

/// The examined pairs kept for a closest-approach test: each pair of
/// distinct entries whose pair of track identifiers was not met earlier.
pub open spec fn first_pairs(ids: Seq<u64>, attempts: Seq<(usize, usize)>) -> Seq<(usize, usize)>
    decreases attempts.len(),
{
    if attempts.len() == 0 {
        Seq::empty()
    } else {
        let earlier = attempts.drop_last();
        let p = attempts.last();
        if distinct_pair(p) && !keys_seen(ids, earlier).contains(track_pair_key(ids, p)) {
            first_pairs(ids, earlier).push(p)
        } else {
            first_pairs(ids, earlier)
        }
    }
}

proof fn lemma_within_contains(own: Seq<usize>, start: int, a: int, b: int)
    requires
        0 <= start <= a < b < own.len(),
    ensures
        within_from(own, start).contains((own[a], own[b])),
    decreases own.len() - start,
{
    let head = pairs_with(own[start], own.skip(start + 1));
    let tail = within_from(own, start + 1);
    assert(within_from(own, start) == head + tail);
    if a == start {
        let w = b - start - 1;
        assert(head[w] == (own[a], own[b]));
        assert((head + tail)[w] == (own[a], own[b]));
    } else {
        lemma_within_contains(own, start + 1, a, b);
        let w = choose|w: int| 0 <= w < tail.len() && tail[w] == (own[a], own[b]);
        assert((head + tail)[head.len() + w] == (own[a], own[b]));
    }
}

proof fn lemma_cross_one_contains(own: Seq<usize>, nb: Seq<usize>, start: int, a: int, j: int)
    requires
        0 <= start <= a < own.len(),
        0 <= j < nb.len(),
    ensures
        cross_one(own, nb, start).contains((own[a], nb[j])),
    decreases own.len() - start,
{
    let head = pairs_with(own[start], nb);
    let tail = cross_one(own, nb, start + 1);
    assert(cross_one(own, nb, start) == head + tail);
    if a == start {
        assert(head[j] == (own[a], nb[j]));
        assert((head + tail)[j] == (own[a], nb[j]));
    } else {
        lemma_cross_one_contains(own, nb, start + 1, a, j);
        let w = choose|w: int| 0 <= w < tail.len() && tail[w] == (own[a], nb[j]);
        assert((head + tail)[head.len() + w] == (own[a], nb[j]));
    }
}

proof fn lemma_cross_from_contains(own: Seq<usize>, nbs: Seq<Seq<usize>>, n: int, m: int, a: int, j: int)
    requires
        0 <= n <= m < nbs.len(),
        0 <= a < own.len(),
        0 <= j < nbs[m].len(),
    ensures
        cross_from(own, nbs, n).contains((own[a], nbs[m][j])),
    decreases nbs.len() - n,
{
    let head = cross_one(own, nbs[n], 0);
    let tail = cross_from(own, nbs, n + 1);
    assert(cross_from(own, nbs, n) == head + tail);
    if m == n {
        lemma_cross_one_contains(own, nbs[n], 0, a, j);
        let w = choose|w: int| 0 <= w < head.len() && head[w] == (own[a], nbs[m][j]);
        assert((head + tail)[w] == (own[a], nbs[m][j]));
    } else {
        lemma_cross_from_contains(own, nbs, n + 1, m, a, j);
        let w = choose|w: int| 0 <= w < tail.len() && tail[w] == (own[a], nbs[m][j]);
        assert((head + tail)[head.len() + w] == (own[a], nbs[m][j]));
    }
}

proof fn lemma_examined_pair_kept(ids: Seq<u64>, attempts: Seq<(usize, usize)>, p: (usize, usize))
    requires
        attempts.contains(p),
        p.0 != p.1,
    ensures
        exists|i: int|
            0 <= i < first_pairs(ids, attempts).len() && spec_pair_key(
                ids[(#[trigger] first_pairs(ids, attempts)[i]).0 as int],
                ids[first_pairs(ids, attempts)[i].1 as int],
            ) == spec_pair_key(ids[p.0 as int], ids[p.1 as int]),
{
    let t = choose|t: int| 0 <= t < attempts.len() && attempts[t] == p;
    assert(distinct_pair(attempts[t]));
    assert(keys_seen(ids, attempts).contains(track_pair_key(ids, p)));
    lemma_first_pairs_unique(ids, attempts);
}

proof fn lemma_first_pairs_subset(ids: Seq<u64>, attempts: Seq<(usize, usize)>)
    ensures
        forall|i: int|
            0 <= i < first_pairs(ids, attempts).len() ==> attempts.contains(
                #[trigger] first_pairs(ids, attempts)[i],
            ),
    decreases attempts.len(),
{
    if attempts.len() > 0 {
        let earlier = attempts.drop_last();
        lemma_first_pairs_subset(ids, earlier);
        let kept = first_pairs(ids, attempts);
        let prev = first_pairs(ids, earlier);
        assert forall|i: int| 0 <= i < kept.len() implies attempts.contains(#[trigger] kept[i]) by {
            if i < prev.len() {
                assert(kept[i] == prev[i]);
                let w = choose|w: int| 0 <= w < earlier.len() && earlier[w] == prev[i];
                assert(attempts[w] == earlier[w]);
            } else {
                assert(kept[i] == attempts.last());
                assert(attempts[attempts.len() - 1] == attempts.last());
            }
        }
    }
}

/// Whether `p` pairs two entries of the bucket, the first listed earlier.
pub open spec fn within_pair(own: Seq<usize>, p: (usize, usize)) -> bool {
    exists|a: int, b: int| 0 <= a < b < own.len() && p == (#[trigger] own[a], #[trigger] own[b])
}

/// Whether `p` pairs an entry of the bucket with an entry of a neighbour.
pub open spec fn cross_pair(own: Seq<usize>, neighbors: Seq<Seq<usize>>, p: (usize, usize)) -> bool {
    exists|m: int, a: int, j: int|
        0 <= m < neighbors.len() && 0 <= a < own.len() && 0 <= j < neighbors[m].len() && p == (
        #[trigger] own[a], #[trigger] neighbors[m][j])
}

proof fn lemma_within_members(own: Seq<usize>, start: int)
    requires
        0 <= start,
    ensures
        forall|w: int|
            0 <= w < within_from(own, start).len() ==> within_pair(own, #[trigger] within_from(own, start)[w]),
    decreases own.len() - start,
{
    if start < own.len() {
        lemma_within_members(own, start + 1);
        let head = pairs_with(own[start], own.skip(start + 1));
        let tail = within_from(own, start + 1);
        let all = within_from(own, start);
        assert(all == head + tail);
        assert forall|w: int| 0 <= w < all.len() implies within_pair(own, #[trigger] all[w]) by {
            if w < head.len() {
                assert(all[w] == (own[start], own[start + 1 + w]));
            } else {
                assert(all[w] == tail[w - head.len()]);
            }
        }
    }
}

proof fn lemma_cross_one_members(own: Seq<usize>, neighbors: Seq<Seq<usize>>, m: int, start: int)
    requires
        0 <= m < neighbors.len(),
        0 <= start,
    ensures
        forall|w: int|
            0 <= w < cross_one(own, neighbors[m], start).len() ==> cross_pair(
                own,
                neighbors,
                #[trigger] cross_one(own, neighbors[m], start)[w],
            ),
    decreases own.len() - start,
{
    if start < own.len() {
        lemma_cross_one_members(own, neighbors, m, start + 1);
        let head = pairs_with(own[start], neighbors[m]);
        let tail = cross_one(own, neighbors[m], start + 1);
        let all = cross_one(own, neighbors[m], start);
        assert(all == head + tail);
        assert forall|w: int| 0 <= w < all.len() implies cross_pair(own, neighbors, #[trigger] all[w]) by {
            if w < head.len() {
                assert(all[w] == (own[start], neighbors[m][w]));
            } else {
                assert(all[w] == tail[w - head.len()]);
            }
        }
    }
}

proof fn lemma_cross_from_members(own: Seq<usize>, neighbors: Seq<Seq<usize>>, n: int)
    requires
        0 <= n,
    ensures
        forall|w: int|
            0 <= w < cross_from(own, neighbors, n).len() ==> cross_pair(
                own,
                neighbors,
                #[trigger] cross_from(own, neighbors, n)[w],
            ),
    decreases neighbors.len() - n,
{
    if n < neighbors.len() {
        lemma_cross_from_members(own, neighbors, n + 1);
        lemma_cross_one_members(own, neighbors, n, 0);
        let head = cross_one(own, neighbors[n], 0);
        let tail = cross_from(own, neighbors, n + 1);
        let all = cross_from(own, neighbors, n);
        assert(all == head + tail);
        assert forall|w: int| 0 <= w < all.len() implies cross_pair(own, neighbors, #[trigger] all[w]) by {
            if w < head.len() {
                assert(all[w] == head[w]);
            } else {
                assert(all[w] == tail[w - head.len()]);
            }
        }
    }
}

/// A bucket screens only pairs it should: each pair kept joins two
/// different entries, either two entries of the bucket (the first listed
/// earlier) or an entry of the bucket with an entry of a neighbouring
/// bucket, and no two kept pairs have the same pair of track identifiers.
pub proof fn lemma_bucket_pairs_sound(ids: Seq<u64>, own: Seq<usize>, neighbors: Seq<Seq<usize>>)
    ensures
        forall|i: int|
            0 <= i < first_pairs(ids, bucket_attempts(own, neighbors)).len() ==> {
                let p = #[trigger] first_pairs(ids, bucket_attempts(own, neighbors))[i];
                &&& p.0 != p.1
                &&& within_pair(own, p) || cross_pair(own, neighbors, p)
            },
        forall|i: int, j: int|
            0 <= i < j < first_pairs(ids, bucket_attempts(own, neighbors)).len() ==> spec_pair_key(
                ids[(#[trigger] first_pairs(ids, bucket_attempts(own, neighbors))[i]).0 as int],
                ids[first_pairs(ids, bucket_attempts(own, neighbors))[i].1 as int],
            ) != spec_pair_key(
                ids[(#[trigger] first_pairs(ids, bucket_attempts(own, neighbors))[j]).0 as int],
                ids[first_pairs(ids, bucket_attempts(own, neighbors))[j].1 as int],
            ),
{
    let att = bucket_attempts(own, neighbors);
    let within = within_from(own, 0);
    let cross = cross_from(own, neighbors, 0);
    assert(att == within + cross);
    lemma_first_pairs_subset(ids, att);
    lemma_first_pairs_unique(ids, att);
    lemma_within_members(own, 0);
    lemma_cross_from_members(own, neighbors, 0);
    let fp = first_pairs(ids, att);
    assert forall|i: int| 0 <= i < fp.len() implies {
        let p = #[trigger] fp[i];
        &&& p.0 != p.1
        &&& within_pair(own, p) || cross_pair(own, neighbors, p)
    } by {
        assert(distinct_pair(fp[i]));
        assert(att.contains(fp[i]));
        let w = choose|w: int| 0 <= w < att.len() && att[w] == fp[i];
        if w < within.len() {
            assert(att[w] == within[w]);
        } else {
            assert(att[w] == cross[w - within.len()]);
        }
    }
    assert forall|i: int, j: int| 0 <= i < j < fp.len() implies spec_pair_key(
        ids[(#[trigger] fp[i]).0 as int],
        ids[fp[i].1 as int],
    ) != spec_pair_key(ids[(#[trigger] fp[j]).0 as int], ids[fp[j].1 as int]) by {
        assert(track_pair_key(ids, fp[i]) != track_pair_key(ids, fp[j]));
    }
}

/// Every pair of different entries that a bucket should screen is screened
/// under its pair of track identifiers: each pair of entries of the bucket
/// itself (`own[a]`, `own[b]` with `a < b`), and each pair of an entry of
/// the bucket with an entry of a neighbouring bucket.
pub proof fn lemma_bucket_pairs_cover(ids: Seq<u64>, own: Seq<usize>, neighbors: Seq<Seq<usize>>)
    ensures
        forall|a: int, b: int|
            0 <= a < b < own.len() && own[a] != own[b] ==> exists|i: int|
                0 <= i < first_pairs(ids, bucket_attempts(own, neighbors)).len() && spec_pair_key(
                    ids[(#[trigger] first_pairs(ids, bucket_attempts(own, neighbors))[i]).0 as int],
                    ids[first_pairs(ids, bucket_attempts(own, neighbors))[i].1 as int],
                ) == spec_pair_key(ids[#[trigger] own[a] as int], ids[#[trigger] own[b] as int]),
        forall|m: int, a: int, j: int|
            0 <= m < neighbors.len() && 0 <= a < own.len() && 0 <= j < neighbors[m].len() && own[a]
                != neighbors[m][j] ==> exists|i: int|
                0 <= i < first_pairs(ids, bucket_attempts(own, neighbors)).len() && spec_pair_key(
                    ids[(#[trigger] first_pairs(ids, bucket_attempts(own, neighbors))[i]).0 as int],
                    ids[first_pairs(ids, bucket_attempts(own, neighbors))[i].1 as int],
                ) == spec_pair_key(
                    ids[#[trigger] own[a] as int],
                    ids[#[trigger] neighbors[m][j] as int],
                ),
{
    let att = bucket_attempts(own, neighbors);
    let within = within_from(own, 0);
    let cross = cross_from(own, neighbors, 0);
    assert(att == within + cross);
    assert forall|a: int, b: int| 0 <= a < b < own.len() && own[a] != own[b] implies exists|i: int|
        0 <= i < first_pairs(ids, att).len() && spec_pair_key(
            ids[(#[trigger] first_pairs(ids, att)[i]).0 as int],
            ids[first_pairs(ids, att)[i].1 as int],
        ) == spec_pair_key(ids[#[trigger] own[a] as int], ids[#[trigger] own[b] as int]) by {
        lemma_within_contains(own, 0, a, b);
        let w = choose|w: int| 0 <= w < within.len() && within[w] == (own[a], own[b]);
        assert(att[w] == (own[a], own[b]));
        lemma_examined_pair_kept(ids, att, (own[a], own[b]));
    }
    assert forall|m: int, a: int, j: int|
        0 <= m < neighbors.len() && 0 <= a < own.len() && 0 <= j < neighbors[m].len() && own[a]
            != neighbors[m][j] implies exists|i: int|
        0 <= i < first_pairs(ids, att).len() && spec_pair_key(
            ids[(#[trigger] first_pairs(ids, att)[i]).0 as int],
            ids[first_pairs(ids, att)[i].1 as int],
        ) == spec_pair_key(ids[#[trigger] own[a] as int], ids[#[trigger] neighbors[m][j] as int]) by {
        lemma_cross_from_contains(own, neighbors, 0, m, a, j);
        let w = choose|w: int| 0 <= w < cross.len() && cross[w] == (own[a], neighbors[m][j]);
        assert(att[within.len() + w] == (own[a], neighbors[m][j]));
        lemma_examined_pair_kept(ids, att, (own[a], neighbors[m][j]));
    }
}

/// The pairs kept from a bucket join distinct entries, no two of them have
/// the same pair of track identifiers, and every pair of track identifiers
/// met among the examined pairs is kept once.
pub proof fn lemma_first_pairs_unique(ids: Seq<u64>, attempts: Seq<(usize, usize)>)
    ensures
        forall|i: int|
            0 <= i < first_pairs(ids, attempts).len() ==> distinct_pair(
                #[trigger] first_pairs(ids, attempts)[i],
            ),
        forall|i: int, j: int|
            0 <= i < j < first_pairs(ids, attempts).len() ==> track_pair_key(
                ids,
                #[trigger] first_pairs(ids, attempts)[i],
            ) != track_pair_key(ids, #[trigger] first_pairs(ids, attempts)[j]),
        forall|k: (u64, u64)|
            keys_seen(ids, attempts).contains(k) <==> exists|i: int|
                0 <= i < first_pairs(ids, attempts).len() && track_pair_key(
                    ids,
                    #[trigger] first_pairs(ids, attempts)[i],
                ) == k,
    decreases attempts.len(),
{
    if attempts.len() > 0 {
        let earlier = attempts.drop_last();
        let p = attempts.last();
        lemma_first_pairs_unique(ids, earlier);
        let kept = first_pairs(ids, attempts);
        let prev = first_pairs(ids, earlier);
        assert forall|k: (u64, u64)| keys_seen(ids, attempts).contains(k) <==> keys_seen(
            ids,
            earlier,
        ).contains(k) || (distinct_pair(p) && track_pair_key(ids, p) == k) by {
            if keys_seen(ids, attempts).contains(k) {
                let w = choose|w: int|
                    0 <= w < attempts.len() && distinct_pair(#[trigger] attempts[w]) && track_pair_key(
                        ids,
                        attempts[w],
                    ) == k;
                if w < earlier.len() {
                    assert(earlier[w] == attempts[w]);
                }
            }
            if keys_seen(ids, earlier).contains(k) {
                let w = choose|w: int|
                    0 <= w < earlier.len() && distinct_pair(#[trigger] earlier[w]) && track_pair_key(
                        ids,
                        earlier[w],
                    ) == k;
                assert(attempts[w] == earlier[w]);
            }
            if distinct_pair(p) && track_pair_key(ids, p) == k {
                assert(attempts[attempts.len() - 1] == p);
            }
        }
        if distinct_pair(p) && !keys_seen(ids, earlier).contains(track_pair_key(ids, p)) {
            assert(kept =~= prev.push(p));
            assert forall|k: (u64, u64)| keys_seen(ids, attempts).contains(k) implies exists|i: int|
                0 <= i < kept.len() && track_pair_key(ids, #[trigger] kept[i]) == k by {
                if keys_seen(ids, earlier).contains(k) {
                    let i = choose|i: int|
                        0 <= i < prev.len() && track_pair_key(ids, #[trigger] prev[i]) == k;
                    assert(kept[i] == prev[i]);
                } else {
                    assert(kept[prev.len() as int] == p);
                }
            }
            assert forall|k: (u64, u64)| (exists|i: int|
                0 <= i < kept.len() && track_pair_key(ids, #[trigger] kept[i]) == k) implies keys_seen(
                ids,
                attempts,
            ).contains(k) by {
                let i = choose|i: int| 0 <= i < kept.len() && track_pair_key(ids, #[trigger] kept[i]) == k;
                if i < prev.len() {
                    assert(kept[i] == prev[i]);
                }
            }
            assert forall|i: int, j: int| 0 <= i < j < kept.len() implies track_pair_key(
                ids,
                #[trigger] kept[i],
            ) != track_pair_key(ids, #[trigger] kept[j]) by {
                assert(kept[i] == prev[i]);
                if j < prev.len() {
                    assert(kept[j] == prev[j]);
                } else {
                    assert(keys_seen(ids, earlier).contains(track_pair_key(ids, prev[i])));
                }
            }
            assert forall|i: int| 0 <= i < kept.len() implies distinct_pair(#[trigger] kept[i]) by {
                if i < prev.len() {
                    assert(kept[i] == prev[i]);
                }
            }
        } else {
            assert(kept == prev);
        }
    }
}

/// A single number standing for a pair of identifiers.
pub open spec fn pair_code(k: (u64, u64)) -> int {
    k.0 * 0x1_0000_0000_0000_0000 + k.1
}

proof fn lemma_pair_code_injective(a: (u64, u64), b: (u64, u64))
    requires
        pair_code(a) == pair_code(b),
    ensures
        a == b,
{
    assert(a.0 == b.0 && a.1 == b.1) by (nonlinear_arith)
        requires
            a.0 * 0x1_0000_0000_0000_0000 + a.1 == b.0 * 0x1_0000_0000_0000_0000 + b.1,
            0 <= a.1 < 0x1_0000_0000_0000_0000,
            0 <= b.1 < 0x1_0000_0000_0000_0000,
    ;
}

fn code_of(k: (u64, u64)) -> (c: u128)
    ensures
        c == pair_code(k),
{
    (k.0 as u128) * 0x1_0000_0000_0000_0000u128 + (k.1 as u128)
}

/// Whether both positions of every pair are below `bound`.
pub open spec fn pairs_below(s: Seq<(usize, usize)>, bound: int) -> bool {
    forall|t: int| 0 <= t < s.len() ==> (#[trigger] s[t]).0 < bound && s[t].1 < bound
}

/// Whether every entry of `s` is below `bound`.
pub open spec fn entries_below(s: Seq<usize>, bound: int) -> bool {
    forall|k: int| 0 <= k < s.len() ==> (#[trigger] s[k] as int) < bound
}

proof fn lemma_concat_below(a: Seq<(usize, usize)>, b: Seq<(usize, usize)>, bound: int)
    requires
        pairs_below(a, bound),
        pairs_below(b, bound),
    ensures
        pairs_below(a + b, bound),
{
    assert forall|t: int| 0 <= t < (a + b).len() implies (#[trigger] (a + b)[t]).0 < bound && (a
        + b)[t].1 < bound by {
        if t < a.len() {
            assert((a + b)[t] == a[t]);
        } else {
            assert((a + b)[t] == b[t - a.len()]);
        }
    }
}

proof fn lemma_within_below(own: Seq<usize>, a: int, bound: int)
    requires
        entries_below(own, bound),
    ensures
        pairs_below(within_from(own, a), bound),
    decreases own.len() - a,
{
    if 0 <= a < own.len() {
        lemma_within_below(own, a + 1, bound);
        let list = own.skip(a + 1);
        assert(pairs_below(pairs_with(own[a], list), bound)) by {
            assert forall|t: int| 0 <= t < list.len() implies (#[trigger] pairs_with(own[a], list)[t]).1
                < bound by {
                assert(list[t] == own[a + 1 + t]);
            }
        }
        lemma_concat_below(pairs_with(own[a], list), within_from(own, a + 1), bound);
    }
}

proof fn lemma_cross_one_below(own: Seq<usize>, nb: Seq<usize>, i: int, bound: int)
    requires
        entries_below(own, bound),
        entries_below(nb, bound),
    ensures
        pairs_below(cross_one(own, nb, i), bound),
    decreases own.len() - i,
{
    if 0 <= i < own.len() {
        lemma_cross_one_below(own, nb, i + 1, bound);
        lemma_concat_below(pairs_with(own[i], nb), cross_one(own, nb, i + 1), bound);
    }
}

proof fn lemma_cross_below(own: Seq<usize>, nbs: Seq<Seq<usize>>, n: int, bound: int)
    requires
        entries_below(own, bound),
        forall|m: int| 0 <= m < nbs.len() ==> entries_below(#[trigger] nbs[m], bound),
    ensures
        pairs_below(cross_from(own, nbs, n), bound),
    decreases nbs.len() - n,
{
    if 0 <= n < nbs.len() {
        lemma_cross_below(own, nbs, n + 1, bound);
        lemma_cross_one_below(own, nbs[n], 0, bound);
        lemma_concat_below(cross_one(own, nbs[n], 0), cross_from(own, nbs, n + 1), bound);
    }
}

fn extend_pairs(list: &mut Vec<(usize, usize)>, i: usize, others: &[usize], from: usize)
    requires
        from <= others@.len(),
    ensures
        final(list)@ == old(list)@ + pairs_with(i, others@.skip(from as int)),
{
    let mut j: usize = from;
    while j < others.len()
        invariant
            from <= j <= others@.len(),
            list@ == old(list)@ + pairs_with(i, others@.skip(from as int).take(j - from)),
        decreases others.len() - j,
    {
        let ghost before = list@;
        list.push((i, others[j]));
        proof {
            let tail = others@.skip(from as int);
            assert(tail.take(j + 1 - from) =~= tail.take(j - from).push(others@[j as int]));
            assert(pairs_with(i, tail.take(j + 1 - from)) =~= pairs_with(i, tail.take(j - from)).push(
                (i, others@[j as int]),
            ));
        }
        j += 1;
    }
    proof {
        assert(others@.skip(from as int).take(j - from) =~= others@.skip(from as int));
    }
}

fn all_attempts(own: &[usize], neighbors: &[Vec<usize>]) -> (r: Vec<(usize, usize)>)
    ensures
        r@ == bucket_attempts(own@, neighbors@.map_values(|v: Vec<usize>| v@)),
{
    let ghost nbs = neighbors@.map_values(|v: Vec<usize>| v@);
    let mut list: Vec<(usize, usize)> = Vec::new();
    let mut a: usize = 0;
    while a < own.len()
        invariant
            a <= own@.len(),
            list@ + within_from(own@, a as int) == within_from(own@, 0),
        decreases own.len() - a,
    {
        let ghost before = list@;
        extend_pairs(&mut list, own[a], own, a + 1);
        proof {
            assert(before + within_from(own@, a as int) =~= list@ + within_from(own@, a + 1));
        }
        a += 1;
    }
    proof {
        assert(list@ =~= within_from(own@, 0));
    }
    let ghost within = list@;
    let mut n: usize = 0;
    while n < neighbors.len()
        invariant
            n <= neighbors@.len(),
            nbs == neighbors@.map_values(|v: Vec<usize>| v@),
            list@ + cross_from(own@, nbs, n as int) == within + cross_from(own@, nbs, 0),
        decreases neighbors.len() - n,
    {
        let nb = &neighbors[n];
        assert(nb@ == nbs[n as int]);
        assert(list@ + cross_from(own@, nbs, n as int) =~= list@ + cross_one(own@, nb@, 0)
            + cross_from(own@, nbs, n + 1));
        let mut i: usize = 0;
        while i < own.len()
            invariant
                i <= own@.len(),
                n < neighbors@.len(),
                nb@ == nbs[n as int],
                nbs == neighbors@.map_values(|v: Vec<usize>| v@),
                list@ + cross_one(own@, nb@, i as int) + cross_from(own@, nbs, n + 1) == within
                    + cross_from(own@, nbs, 0),
            decreases own.len() - i,
        {
            let ghost before = list@;
            extend_pairs(&mut list, own[i], nb.as_slice(), 0);
            proof {
                assert(nb@.skip(0) =~= nb@);
                assert(before + cross_one(own@, nb@, i as int) =~= list@ + cross_one(
                    own@,
                    nb@,
                    i + 1,
                ));
            }
            i += 1;
        }
        proof {
            assert(cross_one(own@, nb@, i as int) =~= Seq::<(usize, usize)>::empty());
            assert(list@ + cross_one(own@, nb@, i as int) + cross_from(own@, nbs, n + 1) =~= list@
                + cross_from(own@, nbs, n + 1));
        }
        n += 1;
    }
    proof {
        assert(list@ =~= within + cross_from(own@, nbs, 0));
    }
    list
}

/// The pairs of snapshot positions to test for a close approach from one
/// bucket: pairs within the bucket, then pairs of its entries with each
/// neighbouring bucket's, keeping only pairs of distinct entries whose
/// pair of track identifiers (in either order) was not met earlier.
pub fn bucket_candidates(track_ids: &[u64], own: &[usize], neighbors: &[Vec<usize>]) -> (r: Vec<
    (usize, usize),
>)
    requires
        forall|k: int| 0 <= k < own@.len() ==> (#[trigger] own@[k] as int) < track_ids@.len(),
        forall|n: int, k: int|
            0 <= n < neighbors@.len() && 0 <= k < neighbors@[n]@.len() ==> (
            #[trigger] neighbors@[n]@[k] as int) < track_ids@.len(),
    ensures
        r@ == first_pairs(
            track_ids@,
            bucket_attempts(own@, neighbors@.map_values(|v: Vec<usize>| v@)),
        ),
        forall|a: int, b: int|
            0 <= a < b < own@.len() && own@[a] != own@[b] ==> exists|i: int|
                0 <= i < r@.len() && spec_pair_key(
                    track_ids@[(#[trigger] r@[i]).0 as int],
                    track_ids@[r@[i].1 as int],
                ) == spec_pair_key(
                    track_ids@[#[trigger] own@[a] as int],
                    track_ids@[#[trigger] own@[b] as int],
                ),
        forall|m: int, a: int, j: int|
            0 <= m < neighbors@.len() && 0 <= a < own@.len() && 0 <= j < neighbors@[m]@.len()
                && own@[a] != neighbors@[m]@[j] ==> exists|i: int|
                0 <= i < r@.len() && spec_pair_key(
                    track_ids@[(#[trigger] r@[i]).0 as int],
                    track_ids@[r@[i].1 as int],
                ) == spec_pair_key(
                    track_ids@[#[trigger] own@[a] as int],
                    track_ids@[#[trigger] neighbors@[m]@[j] as int],
                ),
        forall|i: int|
            0 <= i < r@.len() ==> {
                let p = #[trigger] r@[i];
                &&& p.0 != p.1
                &&& within_pair(own@, p) || cross_pair(
                    own@,
                    neighbors@.map_values(|v: Vec<usize>| v@),
                    p,
                )
            },
        forall|i: int, j: int|
            0 <= i < j < r@.len() ==> spec_pair_key(
                track_ids@[(#[trigger] r@[i]).0 as int],
                track_ids@[r@[i].1 as int],
            ) != spec_pair_key(track_ids@[(#[trigger] r@[j]).0 as int], track_ids@[r@[j].1 as int]),
{
    let attempts = all_attempts(own, neighbors);
    let ghost ps = attempts@;
    let ghost ids = track_ids@;
    proof {
        let nbs = neighbors@.map_values(|v: Vec<usize>| v@);
        assert forall|m: int| 0 <= m < nbs.len() implies entries_below(#[trigger] nbs[m], ids.len() as int) by {
            assert forall|k: int| 0 <= k < nbs[m].len() implies (#[trigger] nbs[m][k] as int) < ids.len() by {
                assert(nbs[m] == neighbors@[m]@);
                assert(neighbors@[m]@[k] < ids.len());
            }
        }
        lemma_within_below(own@, 0, ids.len() as int);
        lemma_cross_below(own@, nbs, 0, ids.len() as int);
        lemma_concat_below(within_from(own@, 0), cross_from(own@, nbs, 0), ids.len() as int);
    }
    let mut seen: HashSet<u128> = HashSet::new();
    let mut kept: Vec<(usize, usize)> = Vec::new();
    let mut t: usize = 0;
    while t < attempts.len()
        invariant
            ps == attempts@,
            ids == track_ids@,
            t <= ps.len(),
            forall|u: int| 0 <= u < ps.len() ==> (#[trigger] ps[u]).0 < ids.len() && ps[u].1 < ids.len(),
            kept@ == first_pairs(ids, ps.take(t as int)),
            forall|k: (u64, u64)|
                #![trigger keys_seen(ids, ps.take(t as int)).contains(k)]
                seen@.contains(pair_code(k) as u128) <==> keys_seen(ids, ps.take(t as int)).contains(
                    k,
                ),
            forall|c: u128| #[trigger] seen@.contains(c) ==> exists|k: (u64, u64)| pair_code(k) == c,
        decreases ps.len() - t,
    {
        let p = attempts[t];
        let ghost pre = ps.take(t as int);
        let ghost post = ps.take(t + 1);
        proof {
            assert(post.drop_last() =~= pre);
            assert(post.last() == p);
        }
        if p.0 != p.1 {
            let key = pair_key(track_ids[p.0], track_ids[p.1]);
            let code = code_of(key);
            let fresh = seen.insert(code);
            proof {
                assert(key == track_pair_key(ids, p));
                assert(fresh == !keys_seen(ids, pre).contains(key));
                assert forall|k: (u64, u64)| #![trigger keys_seen(ids, post).contains(k)]
                    seen@.contains(pair_code(k) as u128) <==> keys_seen(ids, post).contains(k) by {
                    if keys_seen(ids, post).contains(k) && !keys_seen(ids, pre).contains(k) {
                        let w = choose|w: int|
                            0 <= w < post.len() && distinct_pair(#[trigger] post[w])
                                && track_pair_key(ids, post[w]) == k;
                        if w < pre.len() {
                            assert(pre[w] == post[w]);
                        }
                    }
                    if keys_seen(ids, pre).contains(k) {
                        let w = choose|w: int|
                            0 <= w < pre.len() && distinct_pair(#[trigger] pre[w])
                                && track_pair_key(ids, pre[w]) == k;
                        assert(post[w] == pre[w]);
                    }
                    if seen@.contains(pair_code(k) as u128) && pair_code(k) as u128 == code {
                        lemma_pair_code_injective(k, key);
                        assert(post[t as int] == p);
                    }
                    if k == key {
                        assert(post[t as int] == p);
                    }
                }
            }
            if fresh {
                kept.push(p);
            }
        } else {
            proof {
                assert forall|k: (u64, u64)| #![trigger keys_seen(ids, post).contains(k)]
                    keys_seen(ids, post).contains(k) == keys_seen(ids, pre).contains(k) by {
                    if keys_seen(ids, post).contains(k) {
                        let w = choose|w: int|
                            0 <= w < post.len() && distinct_pair(#[trigger] post[w])
                                && track_pair_key(ids, post[w]) == k;
                        assert(w < pre.len());
                        assert(pre[w] == post[w]);
                    }
                    if keys_seen(ids, pre).contains(k) {
                        let w = choose|w: int|
                            0 <= w < pre.len() && distinct_pair(#[trigger] pre[w])
                                && track_pair_key(ids, pre[w]) == k;
                        assert(post[w] == pre[w]);
                    }
                }
            }
        }
        t += 1;
    }
    proof {
        assert(ps.take(t as int) =~= ps);
        let nbs = neighbors@.map_values(|v: Vec<usize>| v@);
        lemma_bucket_pairs_cover(ids, own@, nbs);
        lemma_bucket_pairs_sound(ids, own@, nbs);
        assert forall|m: int, a: int, j: int|
            0 <= m < neighbors@.len() && 0 <= a < own@.len() && 0 <= j < neighbors@[m]@.len()
                && own@[a] != neighbors@[m]@[j] implies exists|i: int|
            0 <= i < kept@.len() && spec_pair_key(
                ids[(#[trigger] kept@[i]).0 as int],
                ids[kept@[i].1 as int],
            ) == spec_pair_key(ids[#[trigger] own@[a] as int], ids[#[trigger] neighbors@[m]@[j] as int]) by {
            assert(nbs[m] == neighbors@[m]@);
            assert(nbs[m][j] == neighbors@[m]@[j]);
        }
    }
    kept
}

/// The key of a pair does not depend on the order in which its two
/// tracks are given.
pub proof fn lemma_pair_key_symmetric(a: u64, b: u64)
    ensures
        spec_pair_key(a, b) == spec_pair_key(b, a),
{
}

} // verus!
