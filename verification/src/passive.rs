use vstd::prelude::*;

verus! {

/// Distance in time between two timestamps.
pub open spec fn time_gap(a: u64, b: u64) -> int {
    if a >= b {
        a - b
    } else {
        b - a
    }
}

/// `|a - b|`.
pub fn gap(a: u64, b: u64) -> (g: u64)
    ensures
        g == time_gap(a, b),
{
    if a >= b {
        a - b
    } else {
        b - a
    }
}

/// Position of the first timestamp closest to `query_ms`, or none for no
/// timestamps: the anchor from which a state is extrapolated.
pub fn closest_in_time(timestamps: &[u64], query_ms: u64) -> (r: Option<usize>)
    ensures
        r is None <==> timestamps@.len() == 0,
        r matches Some(k) ==> {
            &&& k < timestamps@.len()
            &&& forall|j: int|
                0 <= j < timestamps@.len() ==> time_gap(timestamps@[k as int], query_ms) <= time_gap(
                    #[trigger] timestamps@[j],
                    query_ms,
                )
            &&& forall|j: int|
                0 <= j < k ==> time_gap(timestamps@[k as int], query_ms) < time_gap(
                    #[trigger] timestamps@[j],
                    query_ms,
                )
        },
{
    if timestamps.len() == 0 {
        return None;
    }
    let mut best: usize = 0;
    let mut best_gap: u64 = gap(timestamps[0], query_ms);
    let mut i: usize = 1;
    while i < timestamps.len()
        invariant
            1 <= i <= timestamps@.len(),
            best < i,
            best_gap == time_gap(timestamps@[best as int], query_ms),
            forall|j: int| 0 <= j < i ==> best_gap <= time_gap(#[trigger] timestamps@[j], query_ms),
            forall|j: int| 0 <= j < best ==> best_gap < time_gap(#[trigger] timestamps@[j], query_ms),
        decreases timestamps.len() - i,
    {
        let gap = gap(timestamps[i], query_ms);
        if gap < best_gap {
            best = i;
            best_gap = gap;
        }
        i += 1;
    }
    Some(best)
}

} // verus!
