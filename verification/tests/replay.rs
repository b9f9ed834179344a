use akius::game_state::{GameTick, NextSphereId};
use akius::replay::{
    advance_game_tick, correct_drift, inject_shots, is_snapshot_tick, record_shot, record_snapshot, sort_by_id,
    CorrectionSnapshot, ReplayRecord, ReplayState, ShotRecord, SimSphere, SphereSnapshot,
};

fn snap(id: u32, tier: u8, x: f32, z: f32) -> SphereSnapshot {
    SphereSnapshot { id, tier, x_bits: x.to_bits(), z_bits: z.to_bits(), vx_bits: 0f32.to_bits(), vz_bits: 0f32.to_bits() }
}

#[test]
fn test_replay_playback_injection_and_correction() {
    let record = ReplayRecord {
        seed: 42,
        shots: vec![ShotRecord { tick: 1, x_bits: 2.5f32.to_bits() }],
        correction_snapshots: vec![CorrectionSnapshot {
            tick: 2,
            spheres: vec![snap(1, 1, 1.0, 2.0), snap(2, 2, -1.0, -2.0)],
        }],
    };
    let mut state = ReplayState::Playing { record, next_shot_idx: 0, next_snapshot_idx: 0, debug_mode: true };
    let mut tick = GameTick(0);
    let mut next_id = NextSphereId(0);

    // Update 1: tick 1, the shot is injected
    advance_game_tick(&mut tick);
    let shot = inject_shots(&mut state, tick.0);
    assert_eq!(shot.map(f32::from_bits), Some(2.5));
    assert!(correct_drift(&mut state, tick.0, &vec![], &mut next_id).is_none());

    // Update 2: tick 2, sphere 1 (entity 500) is corrected, 99 (entity 501) removed, 2 spawned
    advance_game_tick(&mut tick);
    assert_eq!(inject_shots(&mut state, tick.0), None);
    let sims = vec![SimSphere { id: 1, entity: 500 }, SimSphere { id: 99, entity: 501 }];
    let plan = correct_drift(&mut state, tick.0, &sims, &mut next_id).unwrap();
    assert_eq!(plan.despawns, vec![501]);
    assert_eq!(plan.corrections.len(), 1);
    assert_eq!(plan.corrections[0].entity, 500);
    assert_eq!(plan.corrections[0].snapshot.tier, 1);
    assert_eq!(f32::from_bits(plan.corrections[0].snapshot.x_bits), 1.0);
    assert_eq!(f32::from_bits(plan.corrections[0].snapshot.z_bits), 2.0);
    assert_eq!(plan.spawns.len(), 1);
    assert_eq!(plan.spawns[0].id, 2);
    assert_eq!(plan.spawns[0].tier, 2);
    assert_eq!(f32::from_bits(plan.spawns[0].x_bits), -1.0);
    assert_eq!(f32::from_bits(plan.spawns[0].z_bits), -2.0);
    assert_eq!(next_id, NextSphereId(3));
    match state {
        ReplayState::Playing { next_shot_idx, next_snapshot_idx, .. } => {
            assert_eq!(next_shot_idx, 1);
            assert_eq!(next_snapshot_idx, 1);
        }
        _ => panic!("still playing"),
    }
}

#[test]
fn several_shots_on_one_tick_aim_at_the_last() {
    let record = ReplayRecord {
        seed: 0,
        shots: vec![
            ShotRecord { tick: 3, x_bits: 1.0f32.to_bits() },
            ShotRecord { tick: 3, x_bits: 2.0f32.to_bits() },
            ShotRecord { tick: 4, x_bits: 3.0f32.to_bits() },
        ],
        correction_snapshots: vec![],
    };
    let mut state = ReplayState::Playing { record, next_shot_idx: 0, next_snapshot_idx: 0, debug_mode: false };
    assert_eq!(inject_shots(&mut state, 2), None);
    assert_eq!(inject_shots(&mut state, 3).map(f32::from_bits), Some(2.0));
    assert_eq!(inject_shots(&mut state, 4).map(f32::from_bits), Some(3.0));
    assert_eq!(inject_shots(&mut state, 5), None);
}

#[test]
fn recording_takes_a_sorted_snapshot_every_120_ticks() {
    assert!(!is_snapshot_tick(0));
    assert!(!is_snapshot_tick(119));
    assert!(is_snapshot_tick(120));
    assert!(is_snapshot_tick(240));

    let mut state = ReplayState::Recording { record: ReplayRecord { seed: 5, ..ReplayRecord::default() } };
    record_shot(&mut state, 7, 0.5f32.to_bits());
    record_snapshot(&mut state, 119, vec![snap(1, 1, 0.0, 0.0)]);
    record_snapshot(&mut state, 120, vec![snap(9, 1, 0.0, 0.0), snap(3, 2, 1.0, 0.0), snap(9, 4, 2.0, 0.0), snap(1, 5, 3.0, 0.0)]);
    match &state {
        ReplayState::Recording { record } => {
            assert_eq!(record.seed, 5);
            assert_eq!(record.shots, vec![ShotRecord { tick: 7, x_bits: 0.5f32.to_bits() }]);
            assert_eq!(record.correction_snapshots.len(), 1);
            assert_eq!(record.correction_snapshots[0].tick, 120);
            let ids: Vec<(u32, u8)> = record.correction_snapshots[0].spheres.iter().map(|s| (s.id, s.tier)).collect();
            assert_eq!(ids, vec![(1, 5), (3, 2), (9, 1), (9, 4)]);
        }
        _ => panic!("still recording"),
    }

    let mut idle = ReplayState::Inactive;
    record_shot(&mut idle, 1, 0);
    record_snapshot(&mut idle, 120, vec![]);
    assert!(matches!(idle, ReplayState::Inactive));
}

#[test]
fn sort_by_id_is_stable() {
    let sorted = sort_by_id(vec![snap(2, 1, 0.0, 0.0), snap(1, 2, 0.0, 0.0), snap(2, 3, 0.0, 0.0), snap(0, 4, 0.0, 0.0)]);
    let order: Vec<(u32, u8)> = sorted.iter().map(|s| (s.id, s.tier)).collect();
    assert_eq!(order, vec![(0, 4), (1, 2), (2, 1), (2, 3)]);
}

#[test]
fn correction_keeps_next_id_past_spawned_spheres() {
    let record = ReplayRecord {
        seed: 0,
        shots: vec![],
        correction_snapshots: vec![CorrectionSnapshot { tick: 10, spheres: vec![snap(4, 1, 0.0, 0.0), snap(2, 1, 0.0, 0.0)] }],
    };
    let mut state = ReplayState::Playing { record, next_shot_idx: 0, next_snapshot_idx: 0, debug_mode: false };
    let mut next_id = NextSphereId(3);
    // Two simulated entities share id 2: the later one is the one matched.
    let sims = vec![SimSphere { id: 2, entity: 70 }, SimSphere { id: 2, entity: 71 }, SimSphere { id: 8, entity: 72 }];
    let plan = correct_drift(&mut state, 10, &sims, &mut next_id).unwrap();
    assert_eq!(plan.spawns.len(), 1);
    assert_eq!(plan.spawns[0].id, 4);
    assert_eq!(next_id, NextSphereId(5));
    assert_eq!(plan.corrections.len(), 1);
    assert_eq!(plan.corrections[0].entity, 71);
    assert_eq!(plan.despawns, vec![72]);
}
