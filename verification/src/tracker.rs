use vstd::prelude::*;

verus! {

/// Lifecycle stage of a track.
#[derive(Debug, Clone, Copy, PartialEq, Eq, Structural)]
pub enum TrackStatus {
    /// Fewer than three observations so far.
    Tentative,
    /// Three or more observations.
    Confirmed,
    /// A track that went three or more steps without an update.
    Lost,
}

/// Number of observations at which a track becomes confirmed.
pub const CONFIRMATION_OBSERVATIONS: usize = 3;

/// Number of whole steps without an update after which a track is lost.
pub const LOST_AFTER_STEPS: u64 = 3;

/// The bookkeeping part of a track: who it is, which object it was started
/// on, how many observations it holds, when it was last updated and its
/// lifecycle stage.
#[derive(Debug, Clone, Copy)]
pub struct TrackLifecycle {
    pub track_id: u64,
    pub object_id: usize,
    pub observation_count: usize,
    pub last_updated_ms: u64,
    pub status: TrackStatus,
}

/// Whole steps of `dt_ms` milliseconds from `last_updated_ms` to
/// `timestamp_ms`, zero when the timestamp is not later.
pub open spec fn spec_steps_since(timestamp_ms: u64, last_updated_ms: u64, dt_ms: u64) -> int {
    if timestamp_ms > last_updated_ms {
        (timestamp_ms - last_updated_ms) / (dt_ms as int)
    } else {
        0
    }
}

/// How an association update is scored against the ground truth.
#[derive(Debug, Clone, Copy, PartialEq, Eq, Structural)]
pub enum AssociationScore {
    /// The confirmed track follows the object that was observed.
    TruePositive,
    /// The confirmed track follows another object.
    FalsePositive,
    /// The update is not scored.
    NotScored,
}

/// A track after one more observation at `timestamp_ms`: the count grows by
/// one, the update time is the timestamp, and a track holding three or more
/// observations is confirmed.
pub open spec fn after_update(t: TrackLifecycle, timestamp_ms: u64) -> TrackLifecycle {
    TrackLifecycle {
        track_id: t.track_id,
        object_id: t.object_id,
        observation_count: (t.observation_count + 1) as usize,
        last_updated_ms: timestamp_ms,
        status: if t.observation_count + 1 >= 3 {
            TrackStatus::Confirmed
        } else {
            t.status
        },
    }
}

/// A tentative track with one observation, started at `timestamp_ms` on
/// object `object_id`.
pub open spec fn started(track_id: u64, object_id: usize, timestamp_ms: u64) -> TrackLifecycle {
    TrackLifecycle {
        track_id,
        object_id,
        observation_count: 1,
        last_updated_ms: timestamp_ms,
        status: TrackStatus::Tentative,
    }
}

/// A track after the staleness check at `timestamp_ms`: a track with no
/// update for three or more whole steps of `dt_ms` is lost; any other track
/// is unchanged.
pub open spec fn aged(t: TrackLifecycle, timestamp_ms: u64, dt_ms: u64) -> TrackLifecycle {
    TrackLifecycle {
        track_id: t.track_id,
        object_id: t.object_id,
        observation_count: t.observation_count,
        last_updated_ms: t.last_updated_ms,
        status: if spec_steps_since(timestamp_ms, t.last_updated_ms, dt_ms) >= 3 {
            TrackStatus::Lost
        } else {
            t.status
        },
    }
}

impl TrackLifecycle {
    /// How an update that left the track in this state is scored: a track
    /// that is confirmed, whose observation has a known true object, and
    /// that either was confirmed before or has just reached three
    /// observations, is a true positive when it follows that object and a
    /// false positive otherwise.
    pub open spec fn association_score(&self, was_confirmed: bool, true_object: Option<usize>) -> AssociationScore {
        match true_object {
            Some(t) => if self.status == TrackStatus::Confirmed && (was_confirmed
                || self.observation_count == 3) {
                if self.object_id == t {
                    AssociationScore::TruePositive
                } else {
                    AssociationScore::FalsePositive
                }
            } else {
                AssociationScore::NotScored
            },
            None => AssociationScore::NotScored,
        }
    }

    /// The lifecycle stage agrees with the number of observations: a track
    /// holds at least one, a tentative track fewer than three and a
    /// confirmed track three or more.
    pub open spec fn wf(&self) -> bool {
        &&& self.observation_count >= 1
        &&& (self.status == TrackStatus::Tentative ==> self.observation_count < 3)
        &&& (self.status == TrackStatus::Confirmed ==> self.observation_count >= 3)
    }

    /// A tentative track started on one observation of object `object_id`.
    pub fn new(track_id: u64, object_id: usize, timestamp_ms: u64) -> (t: Self)
        ensures
            t == started(track_id, object_id, timestamp_ms),
            t.wf(),
    {
        TrackLifecycle {
            track_id,
            object_id,
            observation_count: 1,
            last_updated_ms: timestamp_ms,
            status: TrackStatus::Tentative,
        }
    }

    /// Adds one observation at `timestamp_ms`; the track is confirmed once it
    /// holds three or more.
    pub fn record_update(&mut self, timestamp_ms: u64)
        requires
            old(self).observation_count < usize::MAX,
        ensures
            *final(self) == after_update(*old(self), timestamp_ms),
            final(self).observation_count == old(self).observation_count + 1,
            final(self).last_updated_ms == timestamp_ms,
            final(self).track_id == old(self).track_id,
            final(self).object_id == old(self).object_id,
            final(self).status == if final(self).observation_count >= 3 {
                TrackStatus::Confirmed
            } else {
                old(self).status
            },
            old(self).wf() && old(self).status != TrackStatus::Lost ==> final(self).wf(),
    {
        self.observation_count = self.observation_count + 1;
        self.last_updated_ms = timestamp_ms;
        if self.observation_count >= CONFIRMATION_OBSERVATIONS {
            self.status = TrackStatus::Confirmed;
        }
    }

    /// Whole steps since the last update.
    pub fn steps_since_update(&self, timestamp_ms: u64, dt_ms: u64) -> (n: u64)
        requires
            dt_ms > 0,
        ensures
            n == spec_steps_since(timestamp_ms, self.last_updated_ms, dt_ms),
    {
        timestamp_ms.saturating_sub(self.last_updated_ms) / dt_ms
    }

    /// Marks a track lost when three or more whole steps have passed since
    /// its last update.
    pub fn mark_lost_if_stale(&mut self, timestamp_ms: u64, dt_ms: u64)
        requires
            dt_ms > 0,
        ensures
            *final(self) == aged(*old(self), timestamp_ms, dt_ms),
            final(self).status == if spec_steps_since(
                timestamp_ms,
                old(self).last_updated_ms,
                dt_ms,
            ) >= 3 {
                TrackStatus::Lost
            } else {
                old(self).status
            },
            final(self).observation_count == old(self).observation_count,
            final(self).last_updated_ms == old(self).last_updated_ms,
            final(self).track_id == old(self).track_id,
            final(self).object_id == old(self).object_id,
            old(self).wf() ==> final(self).wf(),
    {
        let steps = self.steps_since_update(timestamp_ms, dt_ms);
        if steps >= LOST_AFTER_STEPS {
            self.status = TrackStatus::Lost;
        }
    }

    /// Whether a confirmed track missed the current step: it was not
    /// updated for at least one whole step.
    pub fn missed_update(&self, timestamp_ms: u64, dt_ms: u64) -> (b: bool)
        requires
            self.status == TrackStatus::Confirmed ==> dt_ms > 0,
        ensures
            b == (self.status == TrackStatus::Confirmed && spec_steps_since(
                timestamp_ms,
                self.last_updated_ms,
                dt_ms,
            ) >= 1),
    {
        self.status == TrackStatus::Confirmed && self.steps_since_update(timestamp_ms, dt_ms) >= 1
    }

    /// Scores an update of this track: a track that is confirmed after the
    /// update, whose observation has a known true object, and that either
    /// was confirmed before or has just reached three observations, is a
    /// true positive when it follows that object and a false positive
    /// otherwise.
    pub fn score_association(&self, was_confirmed: bool, true_object: Option<usize>) -> (s:
        AssociationScore)
        ensures
            s == self.association_score(was_confirmed, true_object),
    {
        match true_object {
            Some(t) => {
                if self.status == TrackStatus::Confirmed && (was_confirmed || self.observation_count
                    == CONFIRMATION_OBSERVATIONS) {
                    if self.object_id == t {
                        AssociationScore::TruePositive
                    } else {
                        AssociationScore::FalsePositive
                    }
                } else {
                    AssociationScore::NotScored
                }
            },
            None => AssociationScore::NotScored,
        }
    }
}

/// Tracks already taken by the assignments in `assigned`.
pub open spec fn taken(assigned: Seq<Option<usize>>) -> Set<usize> {
    Set::new(|t: usize| exists|k: int| 0 <= k < assigned.len() && assigned[k] == Some(t))
}

/// The first of `ranked` not in `used`.
pub open spec fn first_free(ranked: Seq<usize>, used: Set<usize>) -> Option<usize>
    decreases ranked.len(),
{
    if ranked.len() == 0 {
        None
    } else if !used.contains(ranked[0]) {
        Some(ranked[0])
    } else {
        first_free(ranked.drop_first(), used)
    }
}

/// Greedy nearest-neighbour association: observations are taken in order,
/// and each gets the best-ranked of its candidate tracks that no earlier
/// observation took, if any.
pub open spec fn greedy_assignment(ranked: Seq<Seq<usize>>) -> Seq<Option<usize>>
    decreases ranked.len(),
{
    if ranked.len() == 0 {
        Seq::empty()
    } else {
        let before = greedy_assignment(ranked.drop_last());
        before.push(first_free(ranked.last(), taken(before)))
    }
}

proof fn lemma_first_free(ranked: Seq<usize>, used: Set<usize>)
    ensures
        first_free(ranked, used) matches Some(t) ==> ranked.contains(t) && !used.contains(t),
        first_free(ranked, used) is None ==> forall|k: int| 0 <= k < ranked.len() ==> used.contains(
            #[trigger] ranked[k],
        ),
    decreases ranked.len(),
{
    if ranked.len() > 0 {
        lemma_first_free(ranked.drop_first(), used);
        if first_free(ranked, used) is Some && used.contains(ranked[0]) {
            let t = first_free(ranked, used)->0;
            let k = choose|k: int| 0 <= k < ranked.drop_first().len() && ranked.drop_first()[k] == t;
            assert(ranked[k + 1] == t);
        }
        if first_free(ranked, used) is Some && !used.contains(ranked[0]) {
            assert(ranked[0] == first_free(ranked, used)->0);
        }
        if first_free(ranked, used) is None {
            assert forall|k: int| 0 <= k < ranked.len() implies used.contains(#[trigger] ranked[k]) by {
                if k > 0 {
                    assert(ranked[k] == ranked.drop_first()[k - 1]);
                }
            }
        }
    }
}

proof fn lemma_first_free_best(ranked: Seq<usize>, used: Set<usize>)
    ensures
        first_free(ranked, used) matches Some(t) ==> exists|k0: int|
            0 <= k0 < ranked.len() && ranked[k0] == t && forall|k: int|
                0 <= k < k0 ==> used.contains(#[trigger] ranked[k]),
    decreases ranked.len(),
{
    if ranked.len() > 0 {
        let rest = ranked.drop_first();
        lemma_first_free_best(rest, used);
        if !used.contains(ranked[0]) {
            assert(ranked[0] == first_free(ranked, used)->0);
            assert(forall|k: int| 0 <= k < 0 ==> used.contains(#[trigger] ranked[k]));
        } else if first_free(ranked, used) is Some {
            let t = first_free(ranked, used)->0;
            assert(first_free(rest, used) == Some(t));
            let k0 = choose|k0: int|
                0 <= k0 < rest.len() && rest[k0] == t && forall|k: int|
                    0 <= k < k0 ==> used.contains(#[trigger] rest[k]);
            assert(ranked[k0 + 1] == t);
            assert forall|k: int| 0 <= k < k0 + 1 implies used.contains(#[trigger] ranked[k]) by {
                if k > 0 {
                    assert(ranked[k] == rest[k - 1]);
                }
            }
        }
    }
}

/// Each observation that is given a track gets the best-ranked of its
/// candidates that is still free: the track was not taken by an earlier
/// observation, and every candidate ranked before it was.
pub proof fn lemma_greedy_takes_best_free(ranked: Seq<Seq<usize>>)
    ensures
        forall|i: int|
            0 <= i < ranked.len() && (#[trigger] greedy_assignment(ranked)[i]) is Some ==> {
                &&& !taken(greedy_assignment(ranked).take(i)).contains(greedy_assignment(ranked)[i]->0)
                &&& exists|k0: int|
                    0 <= k0 < ranked[i].len() && ranked[i][k0] == greedy_assignment(ranked)[i]->0
                        && forall|k: int|
                        0 <= k < k0 ==> taken(greedy_assignment(ranked).take(i)).contains(
                            #[trigger] ranked[i][k],
                        )
            },
    decreases ranked.len(),
{
    if ranked.len() > 0 {
        let pre = ranked.drop_last();
        lemma_greedy_takes_best_free(pre);
        lemma_greedy_assignment_matching(pre);
        let before = greedy_assignment(pre);
        let all = greedy_assignment(ranked);
        let used = taken(before);
        lemma_first_free(ranked.last(), used);
        lemma_first_free_best(ranked.last(), used);
        assert(all =~= before.push(first_free(ranked.last(), used)));
        assert forall|i: int| 0 <= i < ranked.len() && (#[trigger] all[i]) is Some implies {
            &&& !taken(all.take(i)).contains(all[i]->0)
            &&& exists|k0: int|
                0 <= k0 < ranked[i].len() && ranked[i][k0] == all[i]->0 && forall|k: int|
                    0 <= k < k0 ==> taken(all.take(i)).contains(#[trigger] ranked[i][k])
        } by {
            if i < pre.len() {
                assert(all[i] == before[i]);
                assert(pre[i] == ranked[i]);
                assert(all.take(i) =~= before.take(i));
            } else {
                assert(all.take(i) =~= before);
                assert(ranked[i] == ranked.last());
            }
        }
    }
}

/// Assigns observations to tracks greedily: `ranked[i]` lists the candidate
/// tracks of observation `i`, best first; each observation takes the first
/// candidate not taken by an earlier observation.
pub fn greedy_assign(ranked: &[Vec<usize>], n_tracks: usize) -> (r: Vec<Option<usize>>)
    requires
        forall|i: int, k: int|
            0 <= i < ranked@.len() && 0 <= k < ranked@[i]@.len() ==> (#[trigger] ranked@[i]@[k] as int)
                < n_tracks,
    ensures
        r@ == greedy_assignment(ranked@.map_values(|v: Vec<usize>| v@)),
        r@.len() == ranked@.len(),
        forall|i: int|
            0 <= i < r@.len() && (#[trigger] r@[i]) is Some ==> {
                &&& !taken(r@.take(i)).contains(r@[i]->0)
                &&& exists|k0: int|
                    0 <= k0 < ranked@[i]@.len() && ranked@[i]@[k0] == r@[i]->0 && forall|k: int|
                        0 <= k < k0 ==> taken(r@.take(i)).contains(#[trigger] ranked@[i]@[k])
            },
{
    let ghost rs = ranked@.map_values(|v: Vec<usize>| v@);
    let mut matched: Vec<bool> = Vec::new();
    let mut t: usize = 0;
    while t < n_tracks
        invariant
            t <= n_tracks,
            matched@.len() == t,
            forall|u: int| 0 <= u < t ==> !(#[trigger] matched@[u]),
        decreases n_tracks - t,
    {
        matched.push(false);
        t += 1;
    }
    let mut r: Vec<Option<usize>> = Vec::new();
    let mut i: usize = 0;
    while i < ranked.len()
        invariant
            rs == ranked@.map_values(|v: Vec<usize>| v@),
            forall|a: int, k: int|
                0 <= a < ranked@.len() && 0 <= k < ranked@[a]@.len() ==> (
                #[trigger] ranked@[a]@[k] as int) < n_tracks,
            i <= ranked@.len(),
            matched@.len() == n_tracks,
            r@ == greedy_assignment(rs.take(i as int)),
            forall|u: usize| (u as int) < n_tracks ==> (#[trigger] matched@[u as int] <==> taken(r@).contains(u)),
            forall|u: usize| #[trigger] taken(r@).contains(u) ==> (u as int) < n_tracks,
        decreases ranked.len() - i,
    {
        let list = &ranked[i];
        assert(list@ == rs[i as int]);
        let ghost used = taken(r@);
        let mut k: usize = 0;
        let mut choice: Option<usize> = None;
        assert(list@.skip(0) =~= list@);
        while k < list.len() && choice.is_none()
            invariant
                list@ == rs[i as int],
                i < ranked@.len(),
                forall|a: int, kk: int|
                    0 <= a < ranked@.len() && 0 <= kk < ranked@[a]@.len() ==> (
                    #[trigger] ranked@[a]@[kk] as int) < n_tracks,
                rs == ranked@.map_values(|v: Vec<usize>| v@),
                matched@.len() == n_tracks,
                forall|u: usize| (u as int) < n_tracks ==> (#[trigger] matched@[u as int] <==> used.contains(u)),
                k <= list@.len(),
                choice is None ==> first_free(list@, used) == first_free(list@.skip(k as int), used),
                choice is Some ==> choice == first_free(list@, used),
            decreases list.len() - k,
        {
            let c = list[k];
            assert(ranked@[i as int]@[k as int] == c);
            proof {
                assert(list@.skip(k as int)[0] == c);
                assert(list@.skip(k as int).drop_first() =~= list@.skip(k + 1));
            }
            if !matched[c] {
                choice = Some(c);
            }
            k += 1;
        }
        proof {
            if choice is None {
                assert(k == list@.len());
                assert(list@.skip(k as int) =~= Seq::<usize>::empty());
            }
            assert(choice == first_free(list@, used));
            assert(rs.take(i + 1).drop_last() =~= rs.take(i as int));
            assert(rs.take(i + 1).last() == list@);
            lemma_first_free(list@, used);
            if choice is Some {
                let c = choice->0;
                let w = choose|w: int| 0 <= w < list@.len() && list@[w] == c;
                assert(ranked@[i as int]@[w] == c);
            }
        }
        match choice {
            Some(c) => {
                matched.set(c, true);
            },
            None => {},
        }
        let ghost before = r@;
        r.push(choice);
        proof {
            assert forall|u: usize| #[trigger] taken(r@).contains(u) <==> taken(before).contains(u) || choice
                == Some(u) by {
                if taken(r@).contains(u) {
                    let w = choose|w: int| 0 <= w < r@.len() && r@[w] == Some(u);
                    if w < before.len() {
                        assert(before[w] == r@[w]);
                    }
                }
                if taken(before).contains(u) {
                    let w = choose|w: int| 0 <= w < before.len() && before[w] == Some(u);
                    assert(r@[w] == before[w]);
                }
                if choice == Some(u) {
                    assert(r@[before.len() as int] == Some(u));
                }
            }
            lemma_first_free(list@, used);
            if choice is Some {
                let c = choice->0;
                let w = choose|w: int| 0 <= w < list@.len() && list@[w] == c;
                assert(ranked@[i as int]@[w] == c);
            }
        }
        i += 1;
    }
    proof {
        assert(rs.take(i as int) =~= rs);
        lemma_greedy_takes_best_free(rs);
        lemma_greedy_assignment_matching(rs);
        assert forall|j: int| 0 <= j < ranked@.len() implies #[trigger] rs[j] == ranked@[j]@ by {}
    }
    r
}

/// Greedy association yields a matching: no track is given to two
/// observations, every track given is among the observation's candidates,
/// and an observation left without a track had all its candidates taken
/// by earlier observations.
pub proof fn lemma_greedy_assignment_matching(ranked: Seq<Seq<usize>>)
    ensures
        forall|i: int, j: int|
            0 <= i < j < ranked.len() && greedy_assignment(ranked)[i] is Some ==> #[trigger] greedy_assignment(
                ranked,
            )[i] != #[trigger] greedy_assignment(ranked)[j],
        forall|i: int|
            0 <= i < ranked.len() && (#[trigger] greedy_assignment(ranked)[i]) is Some ==> ranked[i].contains(
                greedy_assignment(ranked)[i]->0,
            ),
        forall|i: int, k: int|
            #![trigger greedy_assignment(ranked)[i], ranked[i][k]]
            0 <= i < ranked.len() && 0 <= k < ranked[i].len() && greedy_assignment(ranked)[i] is None
                ==> taken(greedy_assignment(ranked).take(i)).contains(ranked[i][k]),
        greedy_assignment(ranked).len() == ranked.len(),
    decreases ranked.len(),
{
    if ranked.len() > 0 {
        let pre = ranked.drop_last();
        lemma_greedy_assignment_matching(pre);
        let before = greedy_assignment(pre);
        let all = greedy_assignment(ranked);
        let used = taken(before);
        lemma_first_free(ranked.last(), used);
        assert(all =~= before.push(first_free(ranked.last(), used)));
        assert forall|i: int, j: int|
            0 <= i < j < ranked.len() && all[i] is Some implies #[trigger] all[i] != #[trigger] all[j] by {
            assert(all[i] == before[i]);
            if j < pre.len() {
                assert(all[j] == before[j]);
            } else {
                assert(used.contains(before[i]->0));
            }
        }
        assert forall|i: int|
            0 <= i < ranked.len() && (#[trigger] all[i]) is Some implies ranked[i].contains(all[i]->0) by {
            if i < pre.len() {
                assert(all[i] == before[i]);
                assert(pre[i] == ranked[i]);
            }
        }
        assert forall|i: int, k: int|
            #![trigger all[i], ranked[i][k]]
            0 <= i < ranked.len() && 0 <= k < ranked[i].len() && all[i] is None implies taken(
                all.take(i),
            ).contains(ranked[i][k]) by {
            if i < pre.len() {
                assert(all[i] == before[i]);
                assert(pre[i] == ranked[i]);
                assert(all.take(i) =~= before.take(i));
                assert(pre[i][k] == ranked[i][k]);
            } else {
                assert(all.take(i) =~= before);
                assert(ranked.last()[k] == ranked[i][k]);
            }
        }
    }
}

/// Number of tracks in `s` at stage `status`.
pub open spec fn count_status(s: Seq<TrackStatus>, status: TrackStatus) -> nat
    decreases s.len(),
{
    if s.len() == 0 {
        0
    } else {
        count_status(s.drop_last(), status) + if s.last() == status {
            1nat
        } else {
            0nat
        }
    }
}

/// The stages of a sequence of tracks.
pub open spec fn statuses(tracks: Seq<TrackLifecycle>) -> Seq<TrackStatus> {
    tracks.map_values(|t: TrackLifecycle| t.status)
}

proof fn lemma_count_status_bound(s: Seq<TrackStatus>)
    ensures
        count_status(s, TrackStatus::Confirmed) + count_status(s, TrackStatus::Tentative) <= s.len(),
    decreases s.len(),
{
    if s.len() > 0 {
        lemma_count_status_bound(s.drop_last());
    }
}

/// Whether a track is at stage `status`.
pub open spec fn has_status(status: TrackStatus) -> spec_fn(TrackLifecycle) -> bool {
    |t: TrackLifecycle| t.status == status
}

/// The number of tracks at a stage is the number of tracks of the list,
/// wherever they stand, whose stage it is: the tracks kept by filtering the
/// list on that stage.
pub proof fn lemma_count_status_is_number_at_stage(tracks: Seq<TrackLifecycle>, status: TrackStatus)
    ensures
        count_status(statuses(tracks), status) == tracks.filter(has_status(status)).len(),
        count_status(statuses(tracks), status) <= tracks.len(),
        forall|t: int|
            0 <= t < tracks.len() && (#[trigger] tracks[t]).status == status ==> count_status(
                statuses(tracks),
                status,
            ) >= 1,
        (forall|t: int| 0 <= t < tracks.len() ==> (#[trigger] tracks[t]).status != status)
            ==> count_status(statuses(tracks), status) == 0,
    decreases tracks.len(),
{
    reveal(Seq::filter);
    if tracks.len() > 0 {
        let pre = tracks.drop_last();
        lemma_count_status_is_number_at_stage(pre, status);
        assert(statuses(tracks).drop_last() =~= statuses(pre));
        assert(statuses(tracks).last() == tracks.last().status);
        assert forall|t: int|
            0 <= t < tracks.len() && (#[trigger] tracks[t]).status == status implies count_status(
            statuses(tracks),
            status,
        ) >= 1 by {
            if t < pre.len() {
                assert(pre[t] == tracks[t]);
            }
        }
        if forall|t: int| 0 <= t < tracks.len() ==> (#[trigger] tracks[t]).status != status {
            assert forall|t: int| 0 <= t < pre.len() implies (#[trigger] pre[t]).status != status by {
                assert(pre[t] == tracks[t]);
            }
            assert(tracks[tracks.len() - 1].status != status);
        }
    }
}

/// Numbers of confirmed and of tentative tracks.
pub fn count_statuses(tracks: &[TrackLifecycle]) -> (counts: (usize, usize))
    ensures
        counts.0 == count_status(statuses(tracks@), TrackStatus::Confirmed),
        counts.1 == count_status(statuses(tracks@), TrackStatus::Tentative),
        counts.0 == tracks@.filter(has_status(TrackStatus::Confirmed)).len(),
        counts.1 == tracks@.filter(has_status(TrackStatus::Tentative)).len(),
{
    proof {
        lemma_count_status_is_number_at_stage(tracks@, TrackStatus::Confirmed);
        lemma_count_status_is_number_at_stage(tracks@, TrackStatus::Tentative);
    }
    let mut confirmed: usize = 0;
    let mut tentative: usize = 0;
    let mut i: usize = 0;
    while i < tracks.len()
        invariant
            i <= tracks@.len(),
            confirmed == count_status(statuses(tracks@.take(i as int)), TrackStatus::Confirmed),
            tentative == count_status(statuses(tracks@.take(i as int)), TrackStatus::Tentative),
        decreases tracks.len() - i,
    {
        proof {
            let pre = statuses(tracks@.take(i as int));
            let post = statuses(tracks@.take(i + 1));
            assert(post.drop_last() =~= pre);
            assert(post.last() == tracks@[i as int].status);
            lemma_count_status_bound(post);
            assert(post.len() == i + 1);
        }
        match tracks[i].status {
            TrackStatus::Confirmed => confirmed += 1,
            TrackStatus::Tentative => tentative += 1,
            TrackStatus::Lost => {},
        }
        i += 1;
    }
    proof {
        assert(tracks@.take(i as int) =~= tracks@);
    }
    (confirmed, tentative)
}

/// Every track is counted at most once: confirmed and tentative counts
/// together never exceed the number of tracks.
pub proof fn lemma_counts_bounded(tracks: Seq<TrackLifecycle>)
    ensures
        count_status(statuses(tracks), TrackStatus::Confirmed) + count_status(
            statuses(tracks),
            TrackStatus::Tentative,
        ) <= tracks.len(),
{
    lemma_count_status_bound(statuses(tracks));
}

/// The lifecycle promised of tracks: a new track is tentative with one
/// observation; each update adds one observation, and a track holding
/// three or more is confirmed while one holding one or two is tentative;
/// the staleness check turns any track with no update for three or more
/// steps into a lost one and leaves every other track as it was; each step
/// keeps the stage in agreement with the observation count.
pub proof fn lemma_lifecycle(
    t: TrackLifecycle,
    track_id: u64,
    object_id: usize,
    timestamp_ms: u64,
    dt_ms: u64,
)
    requires
        t.wf(),
        t.status != TrackStatus::Lost,
        t.observation_count < usize::MAX,
    ensures
        started(track_id, object_id, timestamp_ms).wf(),
        started(track_id, object_id, timestamp_ms).status == TrackStatus::Tentative,
        after_update(t, timestamp_ms).wf(),
        after_update(t, timestamp_ms).observation_count == t.observation_count + 1,
        after_update(t, timestamp_ms).status == TrackStatus::Confirmed <==> after_update(
            t,
            timestamp_ms,
        ).observation_count >= 3,
        after_update(t, timestamp_ms).status == TrackStatus::Tentative <==> after_update(
            t,
            timestamp_ms,
        ).observation_count <= 2,
        aged(t, timestamp_ms, dt_ms).wf(),
        aged(t, timestamp_ms, dt_ms).status == TrackStatus::Lost <==> spec_steps_since(
            timestamp_ms,
            t.last_updated_ms,
            dt_ms,
        ) >= 3,
{
}

} // verus!
