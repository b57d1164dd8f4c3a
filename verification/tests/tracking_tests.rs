use leo_sim::association::{
    age_tracks, associate_observations, count_missed_updates, split_lost, ObservationAction,
};
use leo_sim::collision::{bucket_candidates, pair_key};
use leo_sim::ground_truth::GroundTruthTable;
use leo_sim::objects::{ObjectPool, ObjectType};
use leo_sim::sim::{advance_step, distinct_object_indices};
use leo_sim::spatial::SpatialIndex;
use leo_sim::tracker::{count_statuses, greedy_assign, AssociationScore, TrackLifecycle, TrackStatus};

fn pool(ids: &[usize]) -> ObjectPool {
    ObjectPool {
        id: ids.to_vec(),
        object_type: ids.iter().map(|_| ObjectType::Debris).collect(),
    }
}

#[test]
fn ground_truth_records_and_clears() {
    let objects = pool(&[100, 101, 102, 103]);
    let mut table = GroundTruthTable::new();
    assert_eq!(table.get_object_id(0), None);
    table.record_observations(&[2, 0, 3], &objects);
    assert_eq!(table.get_object_id(0), Some(102));
    assert_eq!(table.get_object_id(1), Some(100));
    assert_eq!(table.get_object_id(2), Some(103));
    assert_eq!(table.get_object_id(3), None);
    table.record_observations(&[1], &objects);
    assert_eq!(table.get_object_id(0), Some(101));
    assert_eq!(table.get_object_id(2), Some(103));
    table.clear();
    assert_eq!(table.get_object_id(0), None);
    assert_eq!(table.get_object_id(2), None);
}

#[test]
fn object_names_are_zero_padded() {
    let objects = pool(&[42, 0, 1234567]);
    assert_eq!(objects.get_name(0), "OBJ_000043");
    assert_eq!(objects.get_name(1), "OBJ_000001");
    assert_eq!(objects.get_name(2), "OBJ_1234568");
    assert_eq!(objects.get_id(2), 1234567);
    assert_eq!(objects.len(), 3);
    assert!(!objects.is_empty());
    assert!(pool(&[]).is_empty());
    assert_eq!(objects.get_object_type(1), ObjectType::Debris);
}

#[test]
fn pair_key_orders_identifiers() {
    assert_eq!(pair_key(5, 3), (3, 5));
    assert_eq!(pair_key(3, 5), (3, 5));
    assert_eq!(pair_key(4, 4), (4, 4));
}

#[test]
fn bucket_candidates_skip_repeats_and_self_pairs() {
    // snapshot positions 0..4 carry track ids; positions 1 and 3 are the same track
    let ids = [10u64, 11, 12, 11];
    let own = [0usize, 1];
    let neighbors = vec![vec![1usize, 2], vec![3usize, 0]];
    let pairs = bucket_candidates(&ids, &own, &neighbors);
    // within: (0,1); neighbour 0: (0,1) repeat, (0,2), (1,1) self, (1,2);
    // neighbour 1: (0,3) repeats {10,11}, (0,0) self, (1,3) is {11,11} new, (1,0) repeat
    assert_eq!(pairs, vec![(0, 1), (0, 2), (1, 2), (1, 3)]);
}

#[test]
fn spatial_index_query_scans_cells_in_order() {
    let mut index = SpatialIndex::new();
    let cells = [(0, 0, 0), (5, 0, 0), (0, 0, 1), (1, 1, 1), (0, 0, 0), (-1, 0, 0)];
    index.rebuild(&cells);
    assert_eq!(index.query_nearby((0, 0, 0), 1), vec![5, 0, 4, 2, 3]);
    assert_eq!(index.query_nearby((5, 0, 0), 0), vec![1]);
    assert_eq!(index.query_nearby((10, 10, 10), 2), Vec::<usize>::new());
    index.rebuild(&[(5, 0, 0)]);
    assert_eq!(index.query_nearby((0, 0, 0), 1), Vec::<usize>::new());
    assert_eq!(index.query_nearby((0, 0, 0), 6), vec![0]);
}

#[test]
fn track_lifecycle_confirms_after_three_observations() {
    let mut t = TrackLifecycle::new(7, 3, 1000);
    assert_eq!(t.status, TrackStatus::Tentative);
    assert_eq!(t.observation_count, 1);
    t.record_update(2000);
    assert_eq!(t.status, TrackStatus::Tentative);
    t.record_update(3000);
    assert_eq!(t.status, TrackStatus::Confirmed);
    assert_eq!(t.observation_count, 3);
    assert_eq!(t.last_updated_ms, 3000);
}

#[test]
fn confirmed_track_is_lost_after_three_silent_steps() {
    let mut t = TrackLifecycle::new(1, 0, 0);
    t.record_update(1000);
    t.record_update(2000);
    assert_eq!(t.steps_since_update(4999, 1000), 2);
    t.mark_lost_if_stale(4999, 1000);
    assert_eq!(t.status, TrackStatus::Confirmed);
    assert!(t.missed_update(3000, 1000));
    assert!(!t.missed_update(2500, 1000));
    assert_eq!(t.steps_since_update(1000, 1000), 0);
    t.mark_lost_if_stale(5000, 1000);
    assert_eq!(t.status, TrackStatus::Lost);
    let mut tentative = TrackLifecycle::new(2, 0, 0);
    tentative.mark_lost_if_stale(2999, 1000);
    assert_eq!(tentative.status, TrackStatus::Tentative);
    tentative.mark_lost_if_stale(3000, 1000);
    assert_eq!(tentative.status, TrackStatus::Lost);
}

#[test]
fn association_scoring() {
    let mut t = TrackLifecycle::new(1, 9, 0);
    assert_eq!(t.score_association(false, Some(9)), AssociationScore::NotScored);
    t.record_update(1);
    t.record_update(2);
    assert_eq!(t.score_association(false, Some(9)), AssociationScore::TruePositive);
    assert_eq!(t.score_association(false, Some(4)), AssociationScore::FalsePositive);
    assert_eq!(t.score_association(true, None), AssociationScore::NotScored);
    t.record_update(3);
    assert_eq!(t.score_association(false, Some(9)), AssociationScore::NotScored);
    assert_eq!(t.score_association(true, Some(9)), AssociationScore::TruePositive);
}

#[test]
fn status_counts() {
    let mut a = TrackLifecycle::new(1, 0, 0);
    let b = TrackLifecycle::new(2, 0, 0);
    a.record_update(1);
    a.record_update(2);
    let mut c = TrackLifecycle::new(3, 0, 0);
    c.record_update(1);
    c.record_update(2);
    c.mark_lost_if_stale(10_000, 1000);
    assert_eq!(count_statuses(&[a, b, c]), (1, 1));
    assert_eq!(count_statuses(&[]), (0, 0));
}

#[test]
fn greedy_assignment_takes_first_free_candidate() {
    let ranked = vec![vec![2usize, 0], vec![2, 1], vec![1, 2], vec![]];
    assert_eq!(greedy_assign(&ranked, 3), vec![Some(2), Some(1), None, None]);
}

#[test]
fn distinct_indices_keep_first_occurrence() {
    assert_eq!(distinct_object_indices(&[3, 1, 3, 2, 1]), vec![3, 1, 2]);
    assert_eq!(distinct_object_indices(&[]), Vec::<usize>::new());
}

#[test]
fn batch_updates_creates_and_scores() {
    let objects = pool(&[100, 101, 102]);
    let mut truth = GroundTruthTable::new();
    // observation i is of object indices[i]
    let indices = [0usize, 2, 1];
    truth.record_observations(&indices, &objects);

    let mut confirmed_on_100 = TrackLifecycle::new(4, 100, 0);
    confirmed_on_100.record_update(1000);
    confirmed_on_100.record_update(2000);
    let mut two_obs_on_101 = TrackLifecycle::new(5, 101, 0);
    two_obs_on_101.record_update(1000);
    let mut lives = vec![confirmed_on_100, two_obs_on_101];
    let mut next_track_id = 6u64;

    // observation 0 updates track 0 (same object), observation 1 updates
    // track 1 (which becomes confirmed, but follows another object),
    // observation 2 starts a new track, observation 3 has no object index
    let assignment = [Some(0usize), Some(1), None, None];
    let outcome = associate_observations(
        &mut lives,
        &mut next_track_id,
        &assignment,
        &truth,
        &indices,
        &objects,
        3000,
    );
    assert_eq!(
        outcome.actions,
        vec![
            ObservationAction::Update(0),
            ObservationAction::Update(1),
            ObservationAction::Create,
            ObservationAction::Ignore
        ]
    );
    assert_eq!(outcome.true_positives, 1);
    assert_eq!(outcome.false_positives, 1);
    assert_eq!(next_track_id, 7);
    assert_eq!(lives.len(), 3);
    assert_eq!(lives[0].observation_count, 4);
    assert_eq!(lives[1].status, TrackStatus::Confirmed);
    assert_eq!(lives[1].last_updated_ms, 3000);
    assert_eq!(lives[2].track_id, 6);
    assert_eq!(lives[2].object_id, 101);
    assert_eq!(lives[2].status, TrackStatus::Tentative);
}

#[test]
fn batch_without_ground_truth_is_not_scored() {
    let objects = pool(&[100]);
    let truth = GroundTruthTable::new();
    let mut confirmed = TrackLifecycle::new(0, 100, 0);
    confirmed.record_update(1);
    confirmed.record_update(2);
    let mut lives = vec![confirmed];
    let mut next_track_id = 1u64;
    let outcome = associate_observations(&mut lives, &mut next_track_id, &[Some(0)], &truth, &[0], &objects, 3);
    assert_eq!(outcome.true_positives + outcome.false_positives, 0);
    assert_eq!(lives[0].observation_count, 4);
    assert_eq!(next_track_id, 1);
}

#[test]
fn aging_and_missed_updates() {
    let mut stale = TrackLifecycle::new(0, 0, 0);
    stale.record_update(0);
    stale.record_update(0);
    let mut fresh = TrackLifecycle::new(1, 0, 0);
    fresh.record_update(4000);
    fresh.record_update(4000);
    let recent = TrackLifecycle::new(2, 0, 3000);
    let old_tentative = TrackLifecycle::new(3, 0, 2000);
    let mut lives = vec![stale, fresh, recent, old_tentative];
    age_tracks(&mut lives, 5000, 1000);
    assert_eq!(lives[0].status, TrackStatus::Lost);
    assert_eq!(lives[1].status, TrackStatus::Confirmed);
    assert_eq!(lives[2].status, TrackStatus::Tentative);
    assert_eq!(lives[3].status, TrackStatus::Lost);
    assert_eq!(split_lost(&lives), (vec![1usize, 2], vec![0usize, 3]));
    assert_eq!(split_lost(&[]), (Vec::<usize>::new(), Vec::<usize>::new()));
    assert_eq!(count_missed_updates(&lives, 5000, 1000), 1);
    assert_eq!(count_missed_updates(&lives, 4500, 1000), 0);
    assert_eq!(count_missed_updates(&[], 4500, 1000), 0);
}

#[test]
fn neighbor_occupants_skip_centre_and_empty_cells() {
    let mut index = SpatialIndex::new();
    index.rebuild(&[(0, 0, 0), (1, 0, 0), (0, 0, 0), (-1, -1, -1), (2, 0, 0), (0, 1, -1)]);
    assert_eq!(index.neighbor_occupants((0, 0, 0)), vec![vec![3usize], vec![5], vec![1]]);
    assert_eq!(index.neighbor_occupants((1, 0, 0)), vec![vec![0usize, 2], vec![5], vec![4]]);
    assert_eq!(index.neighbor_occupants((10, 10, 10)), Vec::<Vec<usize>>::new());
}

#[test]
fn step_counter_finishes_at_the_step_count() {
    assert_eq!(advance_step(0, 3, false), (1, false));
    assert_eq!(advance_step(2, 3, false), (3, true));
    assert_eq!(advance_step(5, 3, false), (6, true));
    assert_eq!(advance_step(0, 3, true), (1, true));
}

#[test]
fn no_tracks_need_no_step_length() {
    let mut lives: Vec<TrackLifecycle> = Vec::new();
    age_tracks(&mut lives, 1000, 0);
    assert!(lives.is_empty());
    let tentative = TrackLifecycle::new(0, 0, 0);
    assert!(!tentative.missed_update(1000, 0));
    assert_eq!(count_missed_updates(&[tentative], 1000, 0), 0);
}
