use vstd::prelude::*;
use crate::ground_truth::{lookup, GroundTruthTable};
use crate::objects::ObjectPool;
use crate::tracker::{
    aged, after_update, spec_steps_since, started, AssociationScore, TrackLifecycle, TrackStatus,
};

verus! {

/// What the tracker did with one observation of a batch.
#[derive(Debug, Clone, Copy, PartialEq, Eq, Structural)]
pub enum ObservationAction {
    /// The observation was added to the active track at this index.
    Update(usize),
    /// A new track was started on the observation.
    Create,
    /// No track took the observation and it names no object, so it was dropped.
    Ignore,
}

/// The tracker's bookkeeping part way through a batch: the active tracks,
/// the next free track identifier, the scores so far and one action per
/// observation handled.
pub struct AssociationState {
    pub lives: Seq<TrackLifecycle>,
    pub next_track_id: int,
    pub true_positives: nat,
    pub false_positives: nat,
    pub actions: Seq<ObservationAction>,
}

/// The object observation `i` truly comes from, as scoring sees it: known
/// when the observation has an object index and the ground truth holds an
/// entry for it.
pub open spec fn true_object(truth: Map<usize, usize>, n_indexed: int, i: int) -> Option<usize> {
    if 0 <= i < n_indexed {
        lookup(truth, i as usize)
    } else {
        None
    }
}

/// The identifier of the object that observation `i` names, if it has an
/// object index.
pub open spec fn named_object(indices: Seq<usize>, ids: Seq<usize>, i: int) -> Option<usize> {
    if 0 <= i < indices.len() {
        Some(ids[indices[i] as int])
    } else {
        None
    }
}

/// One observation handled: an observation assigned to a track updates that
/// track and is scored; an unassigned observation that names an object
/// starts a new track with the next identifier; any other is dropped.
pub open spec fn association_step(
    s: AssociationState,
    assigned: Option<usize>,
    truly: Option<usize>,
    named: Option<usize>,
    timestamp_ms: u64,
) -> AssociationState {
    match assigned {
        Some(t) => {
            let before = s.lives[t as int];
            let after = after_update(before, timestamp_ms);
            let score = after.association_score(before.status == TrackStatus::Confirmed, truly);
            AssociationState {
                lives: s.lives.update(t as int, after),
                next_track_id: s.next_track_id,
                true_positives: s.true_positives + if score == AssociationScore::TruePositive {
                    1nat
                } else {
                    0nat
                },
                false_positives: s.false_positives + if score == AssociationScore::FalsePositive {
                    1nat
                } else {
                    0nat
                },
                actions: s.actions.push(ObservationAction::Update(t)),
            }
        },
        None => match named {
            Some(object_id) => AssociationState {
                lives: s.lives.push(started(s.next_track_id as u64, object_id, timestamp_ms)),
                next_track_id: s.next_track_id + 1,
                true_positives: s.true_positives,
                false_positives: s.false_positives,
                actions: s.actions.push(ObservationAction::Create),
            },
            None => AssociationState {
                lives: s.lives,
                next_track_id: s.next_track_id,
                true_positives: s.true_positives,
                false_positives: s.false_positives,
                actions: s.actions.push(ObservationAction::Ignore),
            },
        },
    }
}

/// The bookkeeping after the first `k` observations of a batch, handled in
/// order from `start`.
pub open spec fn associate(
    start: AssociationState,
    assignment: Seq<Option<usize>>,
    truth: Map<usize, usize>,
    indices: Seq<usize>,
    ids: Seq<usize>,
    timestamp_ms: u64,
    k: nat,
) -> AssociationState
    decreases k,
{
    if k == 0 {
        start
    } else {
        let i = k - 1;
        association_step(
            associate(start, assignment, truth, indices, ids, timestamp_ms, (k - 1) as nat),
            assignment[i],
            true_object(truth, indices.len() as int, i),
            named_object(indices, ids, i),
            timestamp_ms,
        )
    }
}

/// The state a batch starts from: the active tracks and the next free
/// identifier, no scores and no actions.
pub open spec fn batch_start(lives: Seq<TrackLifecycle>, next_track_id: u64) -> AssociationState {
    AssociationState {
        lives,
        next_track_id: next_track_id as int,
        true_positives: 0,
        false_positives: 0,
        actions: Seq::empty(),
    }
}

/// The scores and the per-observation actions of one batch.
pub struct AssociationOutcome {
    pub actions: Vec<ObservationAction>,
    pub true_positives: usize,
    pub false_positives: usize,
}

/// Handles a batch of observations in order, given the track each was
/// assigned (`assignment[i]`, an index into `lives`, or none): an assigned
/// observation updates its track and is scored against the ground truth;
/// an unassigned one that has an object index starts a tentative track on
/// that object with the next identifier; any other is dropped.
pub fn associate_observations(
    lives: &mut Vec<TrackLifecycle>,
    next_track_id: &mut u64,
    assignment: &[Option<usize>],
    truth: &GroundTruthTable,
    object_indices: &[usize],
    objects: &ObjectPool,
    timestamp_ms: u64,
) -> (r: AssociationOutcome)
    requires
        forall|i: int|
            0 <= i < assignment@.len() && (#[trigger] assignment@[i]) is Some ==> (assignment@[i]->0 as int)
                < old(lives)@.len(),
        forall|i: int|
            0 <= i < object_indices@.len() ==> (#[trigger] object_indices@[i] as int)
                < objects.id@.len(),
        forall|t: int|
            0 <= t < old(lives)@.len() ==> (#[trigger] old(lives)@[t]).observation_count
                + assignment@.len() < usize::MAX,
        *old(next_track_id) + assignment@.len() <= u64::MAX,
    ensures
        ({
            let s = associate(
                batch_start(old(lives)@, *old(next_track_id)),
                assignment@,
                truth@,
                object_indices@,
                objects.id@,
                timestamp_ms,
                assignment@.len(),
            );
            &&& final(lives)@ == s.lives
            &&& *final(next_track_id) == s.next_track_id
            &&& r.actions@ == s.actions
            &&& r.true_positives == s.true_positives
            &&& r.false_positives == s.false_positives
        }),
{
    let ghost start = batch_start(lives@, *next_track_id);
    let ghost n0 = lives@.len();
    let ghost lives0 = lives@;
    let ghost id0 = *next_track_id;
    let mut actions: Vec<ObservationAction> = Vec::new();
    let mut true_positives: usize = 0;
    let mut false_positives: usize = 0;
    let mut i: usize = 0;
    while i < assignment.len()
        invariant
            i <= assignment@.len(),
            forall|a: int|
                0 <= a < assignment@.len() && (#[trigger] assignment@[a]) is Some ==> (
                assignment@[a]->0 as int) < n0,
            forall|a: int|
                0 <= a < object_indices@.len() ==> (#[trigger] object_indices@[a] as int)
                    < objects.id@.len(),
            forall|t: int| 0 <= t < n0 ==> (#[trigger] lives0[t]).observation_count
                + assignment@.len() < usize::MAX,
            id0 + assignment@.len() <= u64::MAX,
            start == batch_start(lives0, id0),
            n0 == lives0.len(),
            lives@.len() >= n0,
            forall|t: int| 0 <= t < n0 ==> (#[trigger] lives@[t]).observation_count
                <= lives0[t].observation_count + i,
            *next_track_id <= id0 + i,
            true_positives <= i,
            false_positives <= i,
            ({
                let s = associate(
                    start,
                    assignment@,
                    truth@,
                    object_indices@,
                    objects.id@,
                    timestamp_ms,
                    i as nat,
                );
                &&& lives@ == s.lives
                &&& *next_track_id == s.next_track_id
                &&& actions@ == s.actions
                &&& true_positives == s.true_positives
                &&& false_positives == s.false_positives
            }),
        decreases assignment.len() - i,
    {
        let ghost before = associate(
            start,
            assignment@,
            truth@,
            object_indices@,
            objects.id@,
            timestamp_ms,
            i as nat,
        );
        match assignment[i] {
            Some(t) => {
                let was_confirmed = lives[t].status == TrackStatus::Confirmed;
                let mut life = lives[t];
                life.record_update(timestamp_ms);
                let truly = if i < object_indices.len() {
                    truth.get_object_id(i)
                } else {
                    None
                };
                let score = life.score_association(was_confirmed, truly);
                lives.set(t, life);
                match score {
                    AssociationScore::TruePositive => true_positives += 1,
                    AssociationScore::FalsePositive => false_positives += 1,
                    AssociationScore::NotScored => {},
                }
                actions.push(ObservationAction::Update(t));
            },
            None => {
                if i < object_indices.len() {
                    let object_id = objects.get_id(object_indices[i]);
                    lives.push(TrackLifecycle::new(*next_track_id, object_id, timestamp_ms));
                    *next_track_id = *next_track_id + 1;
                    actions.push(ObservationAction::Create);
                } else {
                    actions.push(ObservationAction::Ignore);
                }
            },
        }
        proof {
            assert(associate(
                start,
                assignment@,
                truth@,
                object_indices@,
                objects.id@,
                timestamp_ms,
                (i + 1) as nat,
            ) == association_step(
                before,
                assignment@[i as int],
                true_object(truth@, object_indices@.len() as int, i as int),
                named_object(object_indices@, objects.id@, i as int),
                timestamp_ms,
            ));
        }
        i += 1;
    }
    AssociationOutcome { actions, true_positives, false_positives }
}

/// Runs the staleness check on every track: confirmed tracks with no update
/// for three or more whole steps become lost, all others are unchanged.
pub fn age_tracks(lives: &mut Vec<TrackLifecycle>, timestamp_ms: u64, dt_ms: u64)
    requires
        old(lives)@.len() > 0 ==> dt_ms > 0,
    ensures
        final(lives)@.len() == old(lives)@.len(),
        forall|t: int|
            0 <= t < old(lives)@.len() ==> (#[trigger] final(lives)@[t]) == aged(
                old(lives)@[t],
                timestamp_ms,
                dt_ms,
            ),
{
    let ghost before = lives@;
    let mut i: usize = 0;
    while i < lives.len()
        invariant
            before.len() > 0 ==> dt_ms > 0,
            i <= lives@.len(),
            lives@.len() == before.len(),
            forall|t: int| 0 <= t < i ==> (#[trigger] lives@[t]) == aged(before[t], timestamp_ms, dt_ms),
            forall|t: int| i <= t < lives@.len() ==> (#[trigger] lives@[t]) == before[t],
        decreases lives.len() - i,
    {
        let mut life = lives[i];
        life.mark_lost_if_stale(timestamp_ms, dt_ms);
        lives.set(i, life);
        i += 1;
    }
}

/// Positions in `lives` of the lost tracks (`lost`) or of the others
/// (`!lost`), in ascending order.
pub open spec fn positions_where_lost(lives: Seq<TrackLifecycle>, lost: bool) -> Seq<usize>
    decreases lives.len(),
{
    if lives.len() == 0 {
        Seq::empty()
    } else {
        let prev = positions_where_lost(lives.drop_last(), lost);
        if (lives.last().status == TrackStatus::Lost) == lost {
            prev.push((lives.len() - 1) as usize)
        } else {
            prev
        }
    }
}

/// Splits tracks into those that stay active and those that are lost:
/// the positions of the tracks that are not lost, then of those that are,
/// each in their original order.
pub fn split_lost(lives: &[TrackLifecycle]) -> (r: (Vec<usize>, Vec<usize>))
    ensures
        r.0@ == positions_where_lost(lives@, false),
        r.1@ == positions_where_lost(lives@, true),
{
    let mut keep: Vec<usize> = Vec::new();
    let mut lost: Vec<usize> = Vec::new();
    let mut i: usize = 0;
    while i < lives.len()
        invariant
            i <= lives@.len(),
            keep@ == positions_where_lost(lives@.take(i as int), false),
            lost@ == positions_where_lost(lives@.take(i as int), true),
        decreases lives.len() - i,
    {
        proof {
            assert(lives@.take(i + 1).drop_last() =~= lives@.take(i as int));
        }
        if lives[i].status == TrackStatus::Lost {
            lost.push(i);
        } else {
            keep.push(i);
        }
        i += 1;
    }
    proof {
        assert(lives@.take(i as int) =~= lives@);
    }
    (keep, lost)
}

/// The split into active and lost tracks is a stable partition: each
/// position appears in exactly one of the two lists, in the list of lost
/// tracks exactly when its track is lost, and each list is strictly
/// ascending.
pub proof fn lemma_split_lost_partition(lives: Seq<TrackLifecycle>)
    requires
        lives.len() <= usize::MAX,
    ensures
        forall|p: usize|
            (p as int) < lives.len() ==> (#[trigger] positions_where_lost(lives, true).contains(p)
                <==> lives[p as int].status == TrackStatus::Lost),
        forall|p: usize|
            (p as int) < lives.len() ==> (#[trigger] positions_where_lost(lives, false).contains(p)
                <==> lives[p as int].status != TrackStatus::Lost),
        forall|b: bool, p: usize|
            #[trigger] positions_where_lost(lives, b).contains(p) ==> (p as int) < lives.len(),
        forall|b: bool, i: int, j: int|
            0 <= i < j < positions_where_lost(lives, b).len() ==> #[trigger] positions_where_lost(
                lives,
                b,
            )[i] < #[trigger] positions_where_lost(lives, b)[j],
    decreases lives.len(),
{
    if lives.len() > 0 {
        let pre = lives.drop_last();
        lemma_split_lost_partition(pre);
        let n = (lives.len() - 1) as usize;
        assert forall|b: bool, p: usize| #[trigger]
            positions_where_lost(lives, b).contains(p) <==> (positions_where_lost(pre, b).contains(p)
                || ((lives.last().status == TrackStatus::Lost) == b && p == n)) by {
            let prev = positions_where_lost(pre, b);
            if (lives.last().status == TrackStatus::Lost) == b {
                let all = prev.push(n);
                if all.contains(p) {
                    let k = choose|k: int| 0 <= k < all.len() && all[k] == p;
                    if k < prev.len() {
                        assert(prev[k] == p);
                    }
                }
                if prev.contains(p) {
                    let k = choose|k: int| 0 <= k < prev.len() && prev[k] == p;
                    assert(all[k] == p);
                }
                if p == n {
                    assert(all[prev.len() as int] == n);
                }
            }
        }
        assert forall|p: usize| (p as int) < lives.len() implies (#[trigger] positions_where_lost(
            lives,
            true,
        ).contains(p) <==> lives[p as int].status == TrackStatus::Lost) by {
            if p < n {
                assert(pre[p as int] == lives[p as int]);
            } else {
                assert(!positions_where_lost(pre, true).contains(p));
            }
        }
        assert forall|p: usize| (p as int) < lives.len() implies (#[trigger] positions_where_lost(
            lives,
            false,
        ).contains(p) <==> lives[p as int].status != TrackStatus::Lost) by {
            if p < n {
                assert(pre[p as int] == lives[p as int]);
            } else {
                assert(!positions_where_lost(pre, false).contains(p));
            }
        }
        assert forall|b: bool, i: int, j: int|
            0 <= i < j < positions_where_lost(lives, b).len() implies #[trigger] positions_where_lost(
            lives,
            b,
        )[i] < #[trigger] positions_where_lost(lives, b)[j] by {
            let prev = positions_where_lost(pre, b);
            let all = positions_where_lost(lives, b);
            if j < prev.len() {
                assert(all[i] == prev[i] && all[j] == prev[j]);
            } else {
                assert(all[i] == prev[i]);
                assert(prev.contains(prev[i]));
            }
        }
    }
}

/// Number of tracks in `lives` that are confirmed and went at least one
/// whole step of `dt_ms` without an update by `timestamp_ms`.
pub open spec fn count_missed(lives: Seq<TrackLifecycle>, timestamp_ms: u64, dt_ms: u64) -> nat
    decreases lives.len(),
{
    if lives.len() == 0 {
        0
    } else {
        let t = lives.last();
        count_missed(lives.drop_last(), timestamp_ms, dt_ms) + if t.status == TrackStatus::Confirmed
            && spec_steps_since(timestamp_ms, t.last_updated_ms, dt_ms) >= 1 {
            1nat
        } else {
            0nat
        }
    }
}

/// Whether a track is confirmed and went at least one whole step of `dt_ms`
/// without an update by `timestamp_ms`.
pub open spec fn missed_step(timestamp_ms: u64, dt_ms: u64) -> spec_fn(TrackLifecycle) -> bool {
    |t: TrackLifecycle|
        t.status == TrackStatus::Confirmed && spec_steps_since(timestamp_ms, t.last_updated_ms, dt_ms)
            >= 1
}

/// The false-negative count is the number of tracks of the list, wherever
/// they stand, that are confirmed and missed the step: the tracks kept by
/// filtering the list on that condition. It is at least one as soon as one
/// track missed the step, and zero when none did.
pub proof fn lemma_missed_count_is_number_missed(lives: Seq<TrackLifecycle>, timestamp_ms: u64, dt_ms: u64)
    ensures
        count_missed(lives, timestamp_ms, dt_ms) == lives.filter(missed_step(timestamp_ms, dt_ms)).len(),
        count_missed(lives, timestamp_ms, dt_ms) <= lives.len(),
        forall|t: int|
            0 <= t < lives.len() && missed_step(timestamp_ms, dt_ms)(#[trigger] lives[t]) ==> count_missed(
                lives,
                timestamp_ms,
                dt_ms,
            ) >= 1,
        (forall|t: int| 0 <= t < lives.len() ==> !missed_step(timestamp_ms, dt_ms)(#[trigger] lives[t]))
            ==> count_missed(lives, timestamp_ms, dt_ms) == 0,
    decreases lives.len(),
{
    reveal(Seq::filter);
    if lives.len() > 0 {
        let pre = lives.drop_last();
        lemma_missed_count_is_number_missed(pre, timestamp_ms, dt_ms);
        assert forall|t: int|
            0 <= t < lives.len() && missed_step(timestamp_ms, dt_ms)(#[trigger] lives[t]) implies count_missed(
            lives,
            timestamp_ms,
            dt_ms,
        ) >= 1 by {
            if t < pre.len() {
                assert(pre[t] == lives[t]);
            }
        }
        if forall|t: int| 0 <= t < lives.len() ==> !missed_step(timestamp_ms, dt_ms)(#[trigger] lives[t]) {
            assert forall|t: int| 0 <= t < pre.len() implies !missed_step(timestamp_ms, dt_ms)(
                #[trigger] pre[t],
            ) by {
                assert(pre[t] == lives[t]);
            }
            assert(!missed_step(timestamp_ms, dt_ms)(lives[lives.len() - 1]));
        }
    }
}

proof fn lemma_count_missed_bound(lives: Seq<TrackLifecycle>, timestamp_ms: u64, dt_ms: u64)
    ensures
        count_missed(lives, timestamp_ms, dt_ms) <= lives.len(),
    decreases lives.len(),
{
    if lives.len() > 0 {
        lemma_count_missed_bound(lives.drop_last(), timestamp_ms, dt_ms);
    }
}

/// Number of confirmed tracks that missed the current step (the false
/// negatives of a step).
pub fn count_missed_updates(lives: &[TrackLifecycle], timestamp_ms: u64, dt_ms: u64) -> (n: usize)
    requires
        (exists|t: int| 0 <= t < lives@.len() && (#[trigger] lives@[t]).status == TrackStatus::Confirmed)
            ==> dt_ms > 0,
    ensures
        n == count_missed(lives@, timestamp_ms, dt_ms),
        n == lives@.filter(missed_step(timestamp_ms, dt_ms)).len(),
{
    proof {
        lemma_missed_count_is_number_missed(lives@, timestamp_ms, dt_ms);
    }
    let mut n: usize = 0;
    let mut i: usize = 0;
    while i < lives.len()
        invariant
            (exists|t: int| 0 <= t < lives@.len() && (#[trigger] lives@[t]).status == TrackStatus::Confirmed)
                ==> dt_ms > 0,
            i <= lives@.len(),
            n == count_missed(lives@.take(i as int), timestamp_ms, dt_ms),
        decreases lives.len() - i,
    {
        proof {
            assert(lives@.take(i + 1).drop_last() =~= lives@.take(i as int));
            lemma_count_missed_bound(lives@.take(i as int), timestamp_ms, dt_ms);
        }
        if lives[i].missed_update(timestamp_ms, dt_ms) {
            n += 1;
        }
        i += 1;
    }
    proof {
        assert(lives@.take(i as int) =~= lives@);
    }
    n
}

/// Number of actions of kind `Update`.
pub open spec fn count_updates(actions: Seq<ObservationAction>) -> nat
    decreases actions.len(),
{
    if actions.len() == 0 {
        0
    } else {
        count_updates(actions.drop_last()) + if actions.last() is Update {
            1nat
        } else {
            0nat
        }
    }
}

/// Number of actions of kind `Create`.
pub open spec fn count_creates(actions: Seq<ObservationAction>) -> nat
    decreases actions.len(),
{
    if actions.len() == 0 {
        0
    } else {
        count_creates(actions.drop_last()) + if actions.last() is Create {
            1nat
        } else {
            0nat
        }
    }
}

/// Track identifiers in order: each is below the next free one, and no two
/// tracks share one.
pub open spec fn ids_valid(lives: Seq<TrackLifecycle>, next_track_id: int) -> bool {
    &&& forall|t: int| 0 <= t < lives.len() ==> ((#[trigger] lives[t]).track_id as int) < next_track_id
    &&& forall|a: int, b: int|
        0 <= a < b < lives.len() ==> (#[trigger] lives[a]).track_id != (#[trigger] lives[b]).track_id
}

/// Every track is well formed and not lost.
pub open spec fn lives_live(lives: Seq<TrackLifecycle>) -> bool {
    forall|t: int|
        0 <= t < lives.len() ==> (#[trigger] lives[t]).wf() && lives[t].status != TrackStatus::Lost
}

proof fn lemma_associate_prefix(
    start: AssociationState,
    assignment: Seq<Option<usize>>,
    truth: Map<usize, usize>,
    indices: Seq<usize>,
    ids: Seq<usize>,
    timestamp_ms: u64,
    k: nat,
)
    requires
        k <= assignment.len(),
        forall|i: int|
            0 <= i < k && (#[trigger] assignment[i]) is Some ==> (assignment[i]->0 as int)
                < start.lives.len(),
        forall|t: int|
            0 <= t < start.lives.len() ==> (#[trigger] start.lives[t]).observation_count + k
                < usize::MAX,
        0 <= start.next_track_id,
        start.next_track_id + k <= u64::MAX,
        ids_valid(start.lives, start.next_track_id),
        start.actions.len() == 0,
        start.true_positives == 0,
        start.false_positives == 0,
    ensures
        ({
            let s = associate(start, assignment, truth, indices, ids, timestamp_ms, k);
            &&& ids_valid(s.lives, s.next_track_id)
            &&& lives_live(start.lives) ==> lives_live(s.lives)
            &&& s.actions.len() == k
            &&& s.lives.len() == start.lives.len() + count_creates(s.actions)
            &&& s.next_track_id == start.next_track_id + count_creates(s.actions)
            &&& s.true_positives + s.false_positives <= count_updates(s.actions)
            &&& count_updates(s.actions) + count_creates(s.actions) <= k
            &&& forall|t: int|
                0 <= t < start.lives.len() ==> (#[trigger] s.lives[t]).track_id
                    == start.lives[t].track_id && s.lives[t].object_id == start.lives[t].object_id
                    && s.lives[t].observation_count <= start.lives[t].observation_count + k
            &&& forall|u: int|
                start.lives.len() <= u < s.lives.len() ==> (#[trigger] s.lives[u]).track_id
                    >= start.next_track_id
        }),
    decreases k,
{
    if k > 0 {
        let i = k - 1;
        lemma_associate_prefix(start, assignment, truth, indices, ids, timestamp_ms, (k - 1) as nat);
        let p = associate(start, assignment, truth, indices, ids, timestamp_ms, (k - 1) as nat);
        let s = associate(start, assignment, truth, indices, ids, timestamp_ms, k);
        assert(s.actions.drop_last() =~= p.actions);
        match assignment[i] {
            Some(t) => {
                let before = p.lives[t as int];
                assert(before.observation_count + 1 < usize::MAX);
                let after = after_update(before, timestamp_ms);
                assert(s.lives == p.lives.update(t as int, after));
                assert forall|a: int, b: int|
                    0 <= a < b < s.lives.len() implies (#[trigger] s.lives[a]).track_id
                        != (#[trigger] s.lives[b]).track_id by {
                    assert(p.lives[a].track_id != p.lives[b].track_id);
                }
                assert forall|u: int| 0 <= u < s.lives.len() implies ((
                #[trigger] s.lives[u]).track_id as int) < s.next_track_id by {
                    assert((p.lives[u].track_id as int) < p.next_track_id);
                }
                assert forall|u: int|
                    start.lives.len() <= u < s.lives.len() implies (#[trigger] s.lives[u]).track_id
                        >= start.next_track_id by {
                    assert(s.lives[u] == p.lives[u]);
                }
                if lives_live(start.lives) {
                    assert forall|u: int| 0 <= u < s.lives.len() implies (
                    #[trigger] s.lives[u]).wf() && s.lives[u].status != TrackStatus::Lost by {
                        assert(p.lives[u].wf());
                    }
                }
            },
            None => {
                match named_object(indices, ids, i) {
                    Some(object_id) => {
                        let fresh = started(p.next_track_id as u64, object_id, timestamp_ms);
                        assert(s.lives == p.lives.push(fresh));
                        assert(fresh.track_id as int == p.next_track_id);
                        assert forall|a: int, b: int|
                            0 <= a < b < s.lives.len() implies (#[trigger] s.lives[a]).track_id
                                != (#[trigger] s.lives[b]).track_id by {
                            if b < p.lives.len() {
                                assert(p.lives[a].track_id != p.lives[b].track_id);
                            } else {
                                assert((p.lives[a].track_id as int) < p.next_track_id);
                            }
                        }
                        assert forall|u: int| 0 <= u < s.lives.len() implies ((
                        #[trigger] s.lives[u]).track_id as int) < s.next_track_id by {
                            if u < p.lives.len() {
                                assert((p.lives[u].track_id as int) < p.next_track_id);
                            }
                        }
                        assert forall|u: int|
                            start.lives.len() <= u < s.lives.len() implies (
                            #[trigger] s.lives[u]).track_id >= start.next_track_id by {
                            if u < p.lives.len() {
                                assert(s.lives[u] == p.lives[u]);
                            }
                        }
                        if lives_live(start.lives) {
                            assert forall|u: int| 0 <= u < s.lives.len() implies (
                            #[trigger] s.lives[u]).wf() && s.lives[u].status != TrackStatus::Lost by {
                                if u < p.lives.len() {
                                    assert(p.lives[u].wf());
                                }
                            }
                        }
                    },
                    None => {},
                }
            },
        }
    }
}

/// The action a batch takes on observation `i`: an update of its assigned
/// track, a new track when it is unassigned but names an object, and
/// nothing otherwise.
pub open spec fn expected_action(assignment: Seq<Option<usize>>, indices: Seq<usize>, i: int) -> ObservationAction {
    match assignment[i] {
        Some(t) => ObservationAction::Update(t),
        None => if 0 <= i < indices.len() {
            ObservationAction::Create
        } else {
            ObservationAction::Ignore
        },
    }
}

proof fn lemma_count_creates_prefix(a: Seq<ObservationAction>, i: int)
    requires
        0 <= i < a.len(),
    ensures
        count_creates(a.take(i)) + (if a[i] is Create {
            1int
        } else {
            0int
        }) <= count_creates(a),
    decreases a.len(),
{
    if i == a.len() - 1 {
        assert(a.take(i) =~= a.drop_last());
    } else {
        lemma_count_creates_prefix(a.drop_last(), i);
        assert(a.drop_last().take(i) =~= a.take(i));
    }
}

proof fn lemma_created_tracks(
    start: AssociationState,
    assignment: Seq<Option<usize>>,
    truth: Map<usize, usize>,
    indices: Seq<usize>,
    ids: Seq<usize>,
    timestamp_ms: u64,
    k: nat,
)
    requires
        k <= assignment.len(),
        forall|i: int|
            0 <= i < k && (#[trigger] assignment[i]) is Some ==> (assignment[i]->0 as int)
                < start.lives.len(),
        forall|t: int|
            0 <= t < start.lives.len() ==> (#[trigger] start.lives[t]).observation_count + k
                < usize::MAX,
        0 <= start.next_track_id,
        start.next_track_id + k <= u64::MAX,
        ids_valid(start.lives, start.next_track_id),
        start.actions.len() == 0,
        start.true_positives == 0,
        start.false_positives == 0,
    ensures
        ({
            let s = associate(start, assignment, truth, indices, ids, timestamp_ms, k);
            &&& forall|i: int| 0 <= i < k ==> #[trigger] s.actions[i] == expected_action(assignment, indices, i)
            &&& forall|i: int|
                0 <= i < k && (#[trigger] s.actions[i]) is Create ==> s.lives[(start.lives.len()
                    + count_creates(s.actions.take(i))) as int] == started(
                    (start.next_track_id + count_creates(s.actions.take(i))) as u64,
                    ids[indices[i] as int],
                    timestamp_ms,
                )
        }),
    decreases k,
{
    lemma_associate_prefix(start, assignment, truth, indices, ids, timestamp_ms, k);
    if k > 0 {
        let i0 = k - 1;
        lemma_associate_prefix(start, assignment, truth, indices, ids, timestamp_ms, (k - 1) as nat);
        lemma_created_tracks(start, assignment, truth, indices, ids, timestamp_ms, (k - 1) as nat);
        let p = associate(start, assignment, truth, indices, ids, timestamp_ms, (k - 1) as nat);
        let s = associate(start, assignment, truth, indices, ids, timestamp_ms, k);
        assert(s.actions.take(i0) =~= p.actions);
        assert forall|i: int| 0 <= i < k implies #[trigger] s.actions[i] == expected_action(
            assignment,
            indices,
            i,
        ) by {
            if i < i0 {
                assert(s.actions[i] == p.actions[i]);
            }
        }
        assert forall|i: int|
            0 <= i < k && (#[trigger] s.actions[i]) is Create implies s.lives[(start.lives.len()
                + count_creates(s.actions.take(i))) as int] == started(
                (start.next_track_id + count_creates(s.actions.take(i))) as u64,
                ids[indices[i] as int],
                timestamp_ms,
            ) by {
            if i < i0 {
                assert(s.actions[i] == p.actions[i]);
                assert(s.actions.take(i) =~= p.actions.take(i));
                lemma_count_creates_prefix(p.actions, i);
                let idx = (start.lives.len() + count_creates(p.actions.take(i))) as int;
                assert(idx < p.lives.len());
                if let Some(t) = assignment[i0] {
                    assert(s.lives == p.lives.update(t as int, after_update(p.lives[t as int], timestamp_ms)));
                    assert(s.lives[idx] == p.lives[idx]);
                } else if named_object(indices, ids, i0) is Some {
                    assert(s.lives[idx] == p.lives[idx]);
                }
            } else {
                assert(assignment[i0] is None);
                assert(named_object(indices, ids, i0) is Some);
            }
        }
    }
}

/// A batch keeps the tracks valid: starting from tracks with distinct
/// identifiers below the next free one, identifiers stay distinct and below
/// the new next free one, which grew by exactly the number of tracks
/// started, and every track started has an identifier at or above the old
/// next free one (so it differs from any identifier handed out before);
/// tracks that were well formed and live stay so; existing tracks keep
/// their identifier and object; each
/// observation gets one action: an update of its assigned track, a new
/// track when it is unassigned and names an object, nothing otherwise; the
/// tracks started are appended in observation order, the `c`-th of them
/// (from zero) with identifier `next_track_id + c`, tentative, with one
/// observation at the batch's time, on the object its observation names;
/// and only updates are scored, each at most once.
pub proof fn lemma_batch_keeps_tracks_valid(
    lives: Seq<TrackLifecycle>,
    next_track_id: u64,
    assignment: Seq<Option<usize>>,
    truth: Map<usize, usize>,
    indices: Seq<usize>,
    ids: Seq<usize>,
    timestamp_ms: u64,
)
    requires
        forall|i: int|
            0 <= i < assignment.len() && (#[trigger] assignment[i]) is Some ==> (assignment[i]->0 as int)
                < lives.len(),
        forall|t: int|
            0 <= t < lives.len() ==> (#[trigger] lives[t]).observation_count + assignment.len()
                < usize::MAX,
        next_track_id + assignment.len() <= u64::MAX,
        ids_valid(lives, next_track_id as int),
    ensures
        ({
            let s = associate(
                batch_start(lives, next_track_id),
                assignment,
                truth,
                indices,
                ids,
                timestamp_ms,
                assignment.len(),
            );
            &&& ids_valid(s.lives, s.next_track_id)
            &&& lives_live(lives) ==> lives_live(s.lives)
            &&& forall|u: int|
                lives.len() <= u < s.lives.len() ==> (#[trigger] s.lives[u]).track_id >= next_track_id
            &&& s.actions.len() == assignment.len()
            &&& s.lives.len() == lives.len() + count_creates(s.actions)
            &&& s.next_track_id == next_track_id + count_creates(s.actions)
            &&& s.true_positives + s.false_positives <= count_updates(s.actions)
            &&& forall|t: int|
                0 <= t < lives.len() ==> (#[trigger] s.lives[t]).track_id == lives[t].track_id
                    && s.lives[t].object_id == lives[t].object_id
            &&& forall|i: int|
                0 <= i < assignment.len() ==> #[trigger] s.actions[i] == expected_action(
                    assignment,
                    indices,
                    i,
                )
            &&& forall|i: int|
                0 <= i < assignment.len() && (#[trigger] s.actions[i]) is Create ==> s.lives[(lives.len()
                    + count_creates(s.actions.take(i))) as int] == started(
                    (next_track_id + count_creates(s.actions.take(i))) as u64,
                    ids[indices[i] as int],
                    timestamp_ms,
                )
        }),
{
    lemma_created_tracks(
        batch_start(lives, next_track_id),
        assignment,
        truth,
        indices,
        ids,
        timestamp_ms,
        assignment.len(),
    );
    lemma_associate_prefix(
        batch_start(lives, next_track_id),
        assignment,
        truth,
        indices,
        ids,
        timestamp_ms,
        assignment.len(),
    );
}

} // verus!
