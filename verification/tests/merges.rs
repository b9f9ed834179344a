use akius::game_state::{Score, SphereInfo};
use akius::nearest::{pick_closest_first, MergeCandidate};
use akius::physics_rules::{
    check_distance_merges, detect_collisions, handle_despawn_delay, new_merge_cooldown, resolve_merges,
    tick_merge_cooldown, DespawnDelay, DespawnStep, MergeEvent, PlannedMerge, MERGE_COOLDOWN_NANOS,
    PARENT_DESPAWN_FRAMES,
};

fn sphere(entity: u64, tier: u8) -> SphereInfo {
    SphereInfo { entity, tier }
}

/// A candidate at centre distance `d` (as the bits of a non-negative f32).
fn cand(entity_a: u64, entity_b: u64, d: f32) -> MergeCandidate {
    MergeCandidate { entity_a, entity_b, distance: d.to_bits() }
}

fn at_distance(events: &[MergeEvent], d: f32) -> Vec<MergeCandidate> {
    events.iter().map(|e| cand(e.entity_a, e.entity_b, d)).collect()
}

#[test]
fn test_collision_midpoint_merge() {
    let mut score = Score { total: 0, peak_tier: 0, completed_orders: 0 };
    let (a, b) = (10u64, 11u64);
    let spheres = vec![sphere(a, 1), sphere(b, 1)];

    let events = detect_collisions(&vec![(a, b)], &spheres);
    assert_eq!(events, vec![MergeEvent { entity_a: a, entity_b: b }]);

    // The spheres were spawned one unit apart
    let (plans, win) = resolve_merges(&at_distance(&events, 1.0), &spheres, &mut score);
    // Both parents leave and a tier 2 sphere is spawned
    assert_eq!(plans, vec![PlannedMerge { entity_a: a, entity_b: b, next_tier: 2 }]);
    assert!(!win);

    // Parents linger one frame, then go
    let delay = DespawnDelay { frames: PARENT_DESPAWN_FRAMES };
    assert_eq!(handle_despawn_delay(delay), DespawnStep::Wait { frames: 0 });
    assert_eq!(handle_despawn_delay(DespawnDelay { frames: 0 }), DespawnStep::Despawn);

    assert_eq!(score.total, 200);
    assert_eq!(score.peak_tier, 2);
}

#[test]
fn test_double_merge_safety() {
    let mut score = Score::default();
    let (a, b, c) = (1u64, 2u64, 3u64);
    let spheres = vec![sphere(a, 1), sphere(b, 1), sphere(c, 1)];
    let events = detect_collisions(&vec![(a, b), (b, c)], &spheres);
    assert_eq!(events.len(), 2);

    // a, b and c stand one unit apart in a row
    let (plans, _) = resolve_merges(&at_distance(&events, 1.0), &spheres, &mut score);
    // a and b merge; c is left alone
    assert_eq!(plans.len(), 1);
    assert_eq!(plans[0].entity_a, a);
    assert_eq!(plans[0].entity_b, b);
    assert!(plans.iter().all(|p| p.entity_a != c && p.entity_b != c));
}

#[test]
fn collisions_need_equal_tiers_and_eligible_spheres() {
    let eligible = vec![sphere(1, 2), sphere(2, 3), sphere(3, 2)];
    let events = detect_collisions(&vec![(1, 2), (1, 3), (1, 4), (3, 1)], &eligible);
    assert_eq!(
        events,
        vec![MergeEvent { entity_a: 1, entity_b: 3 }, MergeEvent { entity_a: 3, entity_b: 1 }]
    );
}

#[test]
fn merging_two_tier_eight_spheres_wins() {
    let mut score = Score { total: 0, peak_tier: 8, completed_orders: 4 };
    let spheres = vec![sphere(5, 8), sphere(6, 8), sphere(7, 9), sphere(8, 9)];
    let events = vec![cand(7, 8, 0.5), cand(5, 6, 1.0)];
    let (plans, win) = resolve_merges(&events, &spheres, &mut score);
    // The top tier never merges further; the two tier 8 spheres do
    assert_eq!(plans, vec![PlannedMerge { entity_a: 5, entity_b: 6, next_tier: 9 }]);
    assert!(win);
    assert_eq!(score.total, 900);
    assert_eq!(score.peak_tier, 9);
}

#[test]
fn missing_or_unequal_spheres_do_not_merge() {
    let mut score = Score::default();
    let spheres = vec![sphere(1, 3), sphere(2, 4)];
    let events = vec![cand(1, 2, 1.0), cand(1, 9, 1.0)];
    let (plans, win) = resolve_merges(&events, &spheres, &mut score);
    assert!(plans.is_empty());
    assert!(!win);
    assert_eq!(score, Score::default());
}

#[test]
fn proximity_scan_pairs_each_sphere_once() {
    // Spheres 0, 1 and 2 are tier 1 and all touch; 3 is tier 2 touching 0.
    let spheres = vec![sphere(100, 1), sphere(101, 1), sphere(102, 1), sphere(103, 2)];
    let mut reach = vec![vec![None; 4]; 4];
    reach[0][1] = Some(1.0f32.to_bits());
    reach[0][2] = Some(1.0f32.to_bits());
    reach[1][2] = Some(1.0f32.to_bits());
    reach[0][3] = Some(0.5f32.to_bits());
    let events = check_distance_merges(&spheres, &reach);
    assert_eq!(events, vec![cand(100, 101, 1.0)]);
}

#[test]
fn proximity_scan_finds_independent_pairs() {
    let spheres = vec![sphere(1, 4), sphere(2, 5), sphere(3, 4), sphere(4, 5)];
    let mut reach = vec![vec![None; 4]; 4];
    reach[0][2] = Some(2.0f32.to_bits());
    reach[1][3] = Some(1.5f32.to_bits());
    reach[0][1] = Some(0.1f32.to_bits());
    let events = check_distance_merges(&spheres, &reach);
    // The closer pair goes first
    assert_eq!(events, vec![cand(2, 4, 1.5), cand(1, 3, 2.0)]);
}

#[test]
fn proximity_merge_takes_the_closest_sphere() {
    // A touches B and C, C is closer to A, and B does not touch C.
    let (a, b, c) = (1u64, 2u64, 3u64);
    let spheres = vec![sphere(a, 1), sphere(b, 1), sphere(c, 1)];
    let mut reach = vec![vec![None; 3]; 3];
    reach[0][1] = Some(1.0f32.to_bits());
    reach[0][2] = Some(0.9f32.to_bits());
    let events = check_distance_merges(&spheres, &reach);
    assert_eq!(events, vec![cand(a, c, 0.9)]);
}

#[test]
fn shared_sphere_merges_with_the_closer_partner() {
    let mut score = Score::default();
    let (a, b, c) = (1u64, 2u64, 3u64);
    let spheres = vec![sphere(a, 2), sphere(b, 2), sphere(c, 2)];
    // Both collisions involve a; the later one is closer
    let events = vec![cand(a, b, 1.2), cand(a, c, 1.1)];
    let (plans, win) = resolve_merges(&events, &spheres, &mut score);
    assert_eq!(plans, vec![PlannedMerge { entity_a: a, entity_b: c, next_tier: 3 }]);
    assert!(!win);
    assert_eq!(score.total, 300);
}

#[test]
fn closest_pair_goes_first_and_others_follow() {
    // Chain a-b-c-d: b-c is closest, which leaves a and d unpaired.
    let cands = vec![cand(1, 2, 1.0), cand(2, 3, 0.5), cand(3, 4, 1.0), cand(5, 6, 3.0)];
    assert_eq!(pick_closest_first(&cands), vec![cand(2, 3, 0.5), cand(5, 6, 3.0)]);
    // Equal distances: the earliest candidate wins
    let tied = vec![cand(1, 2, 1.0), cand(2, 3, 1.0)];
    assert_eq!(pick_closest_first(&tied), vec![cand(1, 2, 1.0)]);
}

#[test]
fn merge_cooldown_runs_out() {
    let mut c = new_merge_cooldown();
    assert!(!tick_merge_cooldown(&mut c, MERGE_COOLDOWN_NANOS / 2));
    assert!(!tick_merge_cooldown(&mut c, MERGE_COOLDOWN_NANOS / 2 - 1));
    assert!(tick_merge_cooldown(&mut c, 2));
}
