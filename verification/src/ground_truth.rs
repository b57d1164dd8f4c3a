use vstd::prelude::*;
use std::collections::HashMap;
use crate::objects::ObjectPool;

verus! {

broadcast use vstd::std_specs::hash::group_hash_axioms;

/// The truth that one batch of observations carries: observation `i` is of
/// the object whose identifier is `ids[indices[i]]`.
pub open spec fn observation_truth(indices: Seq<usize>, ids: Seq<usize>) -> Map<usize, usize> {
    Map::new(|i: usize| (i as int) < indices.len(), |i: usize| ids[indices[i as int] as int])
}

/// What a lookup in a table with contents `m` answers.
pub open spec fn lookup(m: Map<usize, usize>, observation_index: usize) -> Option<usize> {
    if m.contains_key(observation_index) {
        Some(m[observation_index])
    } else {
        None
    }
}

/// For each observation index, the identifier of the object actually
/// observed.
pub struct GroundTruthTable {
    entries: HashMap<usize, usize>,
}

impl View for GroundTruthTable {
    type V = Map<usize, usize>;

    closed spec fn view(&self) -> Map<usize, usize> {
        self.entries@
    }
}

impl GroundTruthTable {
    /// An empty table.
    pub fn new() -> (t: Self)
        ensures
            t@ == Map::<usize, usize>::empty(),
    {
        GroundTruthTable { entries: HashMap::new() }
    }

    /// Records that observation `i` is of object `object_indices[i]`, for each
    /// `i`; entries for other observation indices are kept.
    pub fn record_observations(&mut self, object_indices: &[usize], objects: &ObjectPool)
        requires
            forall|i: int|
                0 <= i < object_indices@.len() ==> (#[trigger] object_indices@[i] as int) < objects.id@.len(),
        ensures
            final(self)@ == old(self)@.union_prefer_right(
                observation_truth(object_indices@, objects.id@),
            ),
    {
        let mut i: usize = 0;
        while i < object_indices.len()
            invariant
                i <= object_indices@.len(),
                forall|k: int|
                    0 <= k < object_indices@.len() ==> (#[trigger] object_indices@[k] as int)
                        < objects.id@.len(),
                self@ == old(self)@.union_prefer_right(
                    observation_truth(object_indices@.take(i as int), objects.id@),
                ),
            decreases object_indices.len() - i,
        {
            let obj_idx = object_indices[i];
            let id = objects.get_id(obj_idx);
            self.entries.insert(i, id);
            proof {
                assert(self@ =~= old(self)@.union_prefer_right(
                    observation_truth(object_indices@.take(i + 1), objects.id@),
                ));
            }
            i += 1;
        }
        proof {
            assert(object_indices@.take(i as int) =~= object_indices@);
        }
    }

    /// Identifier of the object observed by observation `observation_index`,
    /// if recorded.
    pub fn get_object_id(&self, observation_index: usize) -> (r: Option<usize>)
        ensures
            r == lookup(self@, observation_index),
    {
        match self.entries.get(&observation_index) {
            Some(id) => Some(*id),
            None => None,
        }
    }

    /// Forgets every entry.
    pub fn clear(&mut self)
        ensures
            final(self)@ == Map::<usize, usize>::empty(),
    {
        self.entries.clear();
    }
}

/// A lookup after recording a batch answers the batch's truth for the
/// batch's observation indices and the earlier answer for any other index.
pub proof fn lemma_lookup_after_record(
    before: Map<usize, usize>,
    object_indices: Seq<usize>,
    ids: Seq<usize>,
    observation_index: usize,
)
    ensures
        lookup(before.union_prefer_right(observation_truth(object_indices, ids)), observation_index)
            == if (observation_index as int) < object_indices.len() {
            Some(ids[object_indices[observation_index as int] as int])
        } else {
            lookup(before, observation_index)
        },
{
}

/// After `clear`, or in a new table, no observation has a recorded object.
pub proof fn lemma_lookup_empty(observation_index: usize)
    ensures
        lookup(Map::<usize, usize>::empty(), observation_index) is None,
{
}

/// The table's contents after recording `batches` in order into a new or
/// cleared table; each batch is the object indices of its observations and
/// the identifiers of the pool they index.
pub open spec fn truth_after(batches: Seq<(Seq<usize>, Seq<usize>)>) -> Map<usize, usize>
    decreases batches.len(),
{
    if batches.len() == 0 {
        Map::empty()
    } else {
        truth_after(batches.drop_last()).union_prefer_right(
            observation_truth(batches.last().0, batches.last().1),
        )
    }
}

/// The last of `batches` that has an observation with index `i`.
pub open spec fn last_covering(batches: Seq<(Seq<usize>, Seq<usize>)>, i: usize) -> Option<int>
    decreases batches.len(),
{
    if batches.len() == 0 {
        None
    } else if (i as int) < batches.last().0.len() {
        Some(batches.len() - 1)
    } else {
        last_covering(batches.drop_last(), i)
    }
}

/// After any number of batches recorded into a new or cleared table, the
/// answer for observation index `i` comes from the last batch that has an
/// observation with that index (later batches are shorter), and there is no
/// answer when no batch has one.
pub proof fn lemma_lookup_after_batches(batches: Seq<(Seq<usize>, Seq<usize>)>, i: usize)
    ensures
        lookup(truth_after(batches), i) == match last_covering(batches, i) {
            Some(j) => Some(batches[j].1[batches[j].0[i as int] as int]),
            None => None,
        },
        last_covering(batches, i) matches Some(j) ==> {
            &&& 0 <= j < batches.len()
            &&& (i as int) < batches[j].0.len()
            &&& forall|k: int| j < k < batches.len() ==> (i as int) >= (#[trigger] batches[k]).0.len()
        },
        last_covering(batches, i) is None ==> forall|k: int|
            0 <= k < batches.len() ==> (i as int) >= (#[trigger] batches[k]).0.len(),
    decreases batches.len(),
{
    if batches.len() > 0 {
        let pre = batches.drop_last();
        lemma_lookup_after_batches(pre, i);
        lemma_lookup_after_record(truth_after(pre), batches.last().0, batches.last().1, i);
        if (i as int) >= batches.last().0.len() {
            assert forall|k: int| 0 <= k < pre.len() implies (#[trigger] batches[k]) == pre[k] by {}
            if last_covering(pre, i) is Some {
                let j = last_covering(pre, i)->0;
                assert(batches[j] == pre[j]);
                assert forall|k: int| j < k < batches.len() implies (i as int) >= (
                #[trigger] batches[k]).0.len() by {
                    if k < pre.len() {
                        assert(batches[k] == pre[k]);
                    }
                }
            } else {
                assert forall|k: int| 0 <= k < batches.len() implies (i as int) >= (
                #[trigger] batches[k]).0.len() by {
                    if k < pre.len() {
                        assert(batches[k] == pre[k]);
                    }
                }
            }
        }
    }
}

} // verus!
