use vstd::prelude::*;
use std::collections::HashSet;

verus! {

broadcast use vstd::std_specs::hash::group_hash_axioms;

/// The entries of `s` in order, each kept only at its first occurrence.
pub open spec fn first_occurrences(s: Seq<usize>) -> Seq<usize>
    decreases s.len(),
{
    if s.len() == 0 {
        Seq::empty()
    } else if s.drop_last().contains(s.last()) {
        first_occurrences(s.drop_last())
    } else {
        first_occurrences(s.drop_last()).push(s.last())
    }
}

/// The observed object indices with repeats removed (an object seen by
/// several sensors counts once), in order of first observation.
pub fn distinct_object_indices(object_indices: &[usize]) -> (r: Vec<usize>)
    ensures
        r@ == first_occurrences(object_indices@),
{
    let mut seen: HashSet<usize> = HashSet::new();
    let mut r: Vec<usize> = Vec::new();
    let mut i: usize = 0;
    while i < object_indices.len()
        invariant
            i <= object_indices@.len(),
            r@ == first_occurrences(object_indices@.take(i as int)),
            forall|x: usize| #[trigger] seen@.contains(x) <==> object_indices@.take(i as int).contains(x),
        decreases object_indices.len() - i,
    {
        let x = object_indices[i];
        let ghost pre = object_indices@.take(i as int);
        let ghost post = object_indices@.take(i + 1);
        proof {
            assert(post.drop_last() =~= pre);
            assert(post.last() == x);
        }
        let fresh = seen.insert(x);
        if fresh {
            r.push(x);
        }
        proof {
            assert forall|y: usize| #[trigger] seen@.contains(y) <==> post.contains(y) by {
                if post.contains(y) && y != x {
                    let k = choose|k: int| 0 <= k < post.len() && post[k] == y;
                    assert(k < pre.len());
                    assert(pre[k] == y);
                }
                if pre.contains(y) {
                    let k = choose|k: int| 0 <= k < pre.len() && pre[k] == y;
                    assert(post[k] == y);
                }
                if y == x {
                    assert(post[i as int] == x);
                }
            }
        }
        i += 1;
    }
    proof {
        assert(object_indices@.take(i as int) =~= object_indices@);
    }
    r
}

/// Keeping first occurrences leaves every entry exactly once: the result
/// holds the same entries as the input and none twice.
pub proof fn lemma_first_occurrences(s: Seq<usize>)
    ensures
        first_occurrences(s).no_duplicates(),
        forall|x: usize| #[trigger] first_occurrences(s).contains(x) <==> s.contains(x),
    decreases s.len(),
{
    if s.len() > 0 {
        let pre = s.drop_last();
        lemma_first_occurrences(pre);
        let q = first_occurrences(pre);
        assert forall|x: usize| #[trigger] s.contains(x) <==> pre.contains(x) || x == s.last() by {
            if s.contains(x) && x != s.last() {
                let k = choose|k: int| 0 <= k < s.len() && s[k] == x;
                assert(pre[k] == x);
            }
            if pre.contains(x) {
                let k = choose|k: int| 0 <= k < pre.len() && pre[k] == x;
                assert(s[k] == x);
            }
            if x == s.last() {
                assert(s[s.len() - 1] == x);
            }
        }
        if !pre.contains(s.last()) {
            let r = q.push(s.last());
            assert forall|x: usize| #[trigger] r.contains(x) <==> q.contains(x) || x == s.last() by {
                if r.contains(x) && x != s.last() {
                    let k = choose|k: int| 0 <= k < r.len() && r[k] == x;
                    assert(q[k] == x);
                }
                if q.contains(x) {
                    let k = choose|k: int| 0 <= k < q.len() && q[k] == x;
                    assert(r[k] == x);
                }
                if x == s.last() {
                    assert(r[r.len() - 1] == x);
                }
            }
            assert forall|i: int, j: int| 0 <= i < r.len() && 0 <= j < r.len() && i != j implies r[i]
                != r[j] by {
                if i < q.len() && j < q.len() {
                    assert(r[i] == q[i] && r[j] == q[j]);
                } else if i < q.len() {
                    assert(q.contains(r[i]));
                } else {
                    assert(q.contains(r[j]));
                }
            }
        }
    }
}

/// The step counter after one more step, and whether the run is finished:
/// it already was, or the counter has reached the number of steps.
pub fn advance_step(step: usize, steps: usize, finished: bool) -> (r: (usize, bool))
    requires
        step < usize::MAX,
    ensures
        r.0 == step + 1,
        r.1 == (finished || step + 1 >= steps),
{
    let next = step + 1;
    (next, finished || next >= steps)
}

} // verus!
