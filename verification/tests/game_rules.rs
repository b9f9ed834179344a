use akius::game_state::{
    add_merge_score, check_loss_condition, check_order_fulfillment, new_loss_tracker, reset_game_state,
    update_high_score, ActiveFulfillment, ActiveOrder, AppState, DispenserQueue, FulfillmentAction, GameTick,
    HighScore, LossInput, LossStep, LossTracker, Score, SphereInfo, FULFILLMENT_NANOS,
};
use akius::rng::GameRng;
use akius::timer::OnceTimer;
use std::time::Duration;

fn nanos(secs: f32) -> u64 {
    Duration::from_secs_f32(secs).as_nanos() as u64
}

fn beyond_line(y: f32, z: f32, launcher_z: f32) -> bool {
    z > launcher_z + 0.2 || y < -0.2
}

/// Runs the loss check over one sphere and applies its step; returns whether the game is lost.
fn loss_frame(tracker: &mut Option<LossTracker>, y: f32, z: f32, delta: u64) -> bool {
    let input = vec![LossInput { entity: 1, beyond_line: beyond_line(y, z, 12.0), tracker: *tracker }];
    let (steps, lost) = check_loss_condition(&input, delta);
    match steps[0] {
        LossStep::Start => *tracker = Some(new_loss_tracker()),
        LossStep::Advance { tracker: t } => *tracker = Some(t),
        LossStep::Clear => *tracker = None,
        LossStep::Unchanged => {}
    }
    lost
}

#[test]
fn test_loss_condition_grace_period() {
    let mut state = AppState::InGame;
    let mut tracker = None;

    // Sphere past the launcher_z + 0.2 boundary (Z = 12.5): a tracker is added
    let lost = loss_frame(&mut tracker, 0.0, 12.5, 0);
    assert!(tracker.is_some());
    assert!(!lost);
    assert_eq!(state, AppState::InGame);

    // 0.3 seconds later: still within the grace period
    let lost = loss_frame(&mut tracker, 0.0, 12.5, nanos(0.3));
    assert!(!lost);
    assert_eq!(state, AppState::InGame);

    // Another 0.3 seconds (0.6 s in total, past the 0.5 s grace period)
    let lost = loss_frame(&mut tracker, 0.0, 12.5, nanos(0.3));
    if lost {
        state = AppState::GameOver;
    }
    assert_eq!(state, AppState::GameOver);
}

#[test]
fn test_loss_condition_recoil() {
    let mut tracker = None;
    loss_frame(&mut tracker, 0.0, 12.5, 0);
    assert!(tracker.is_some());

    // Back behind the line: the tracker is dropped
    loss_frame(&mut tracker, 0.0, 12.0, 0);
    assert!(tracker.is_none());
}

#[test]
fn test_loss_condition_fallen_y() {
    let mut state = AppState::InGame;
    let mut tracker = None;

    loss_frame(&mut tracker, -0.3, 12.1, 0);
    assert!(tracker.is_some());

    if loss_frame(&mut tracker, -0.3, 12.1, nanos(0.6)) {
        state = AppState::GameOver;
    }
    assert_eq!(state, AppState::GameOver);
}

#[test]
fn test_order_fulfillment() {
    let mut score = Score { total: 0, peak_tier: 0, completed_orders: 0 };
    let mut order = ActiveOrder { target_tier: 4 };
    let mut fulfillment = ActiveFulfillment::default();
    let mut rng = GameRng::default();
    let sphere = 42u64;
    let eligible = vec![SphereInfo { entity: sphere, tier: 4 }];

    let action = check_order_fulfillment(&mut fulfillment, &mut score, &mut order, 0, &eligible, true, &mut rng.rng);
    // The sphere stays and is now fulfilling
    assert_eq!(action, FulfillmentAction::Begin { entity: sphere });
    assert_eq!(fulfillment.entity, Some(sphere));

    let action = check_order_fulfillment(&mut fulfillment, &mut score, &mut order, nanos(1.3), &Vec::new(), true, &mut rng.rng);
    // The sphere is removed
    assert_eq!(action, FulfillmentAction::Complete { entity: sphere, tier: 4 });
    assert_eq!(fulfillment.entity, None);

    assert_eq!(score.total, 2000);
    assert_eq!(score.peak_tier, 4);
    assert_eq!(score.completed_orders, 1);

    assert!(order.target_tier >= 5 && order.target_tier <= 8);
}

#[test]
fn test_restart_from_game_over() {
    let mut state = AppState::InGame;
    let mut score = Score::default();
    let mut order = ActiveOrder { target_tier: 6 };
    let mut queue = DispenserQueue { current: 1, next: 2 };
    let mut fulfillment = ActiveFulfillment::default();
    let mut tick = GameTick(0);

    let mut tracker = None;
    loss_frame(&mut tracker, 0.0, 12.5, 0);
    assert!(tracker.is_some());

    if loss_frame(&mut tracker, 0.0, 12.5, nanos(0.6)) {
        state = AppState::GameOver;
    }
    assert_eq!(state, AppState::GameOver);

    // Restart: entering the game resets the session
    state = AppState::InGame;
    score.total = 700;
    score.peak_tier = 3;
    order.target_tier = 8;
    queue = DispenserQueue { current: 3, next: 4 };
    tick.0 = 99;
    reset_game_state(&mut score, &mut order, &mut queue, &mut fulfillment, &mut tick);
    assert_eq!(state, AppState::InGame);
    assert_eq!(score, Score::default());
    assert_eq!(order.target_tier, 6);
    assert_eq!(queue, DispenserQueue { current: 1, next: 2 });
    assert_eq!(fulfillment.entity, None);
    assert_eq!(fulfillment.timer.duration_nanos(), FULFILLMENT_NANOS);
    assert_eq!(tick.0, 0);
}

#[test]
fn fulfillment_abandons_a_vanished_sphere_without_scoring() {
    let mut score = Score::default();
    let mut order = ActiveOrder { target_tier: 6 };
    let mut fulfillment = ActiveFulfillment::default();
    let mut rng = GameRng::new(1);
    let eligible = vec![SphereInfo { entity: 3, tier: 5 }, SphereInfo { entity: 4, tier: 6 }, SphereInfo { entity: 5, tier: 6 }];
    let a = check_order_fulfillment(&mut fulfillment, &mut score, &mut order, 0, &eligible, true, &mut rng.rng);
    assert_eq!(a, FulfillmentAction::Begin { entity: 4 });
    let a = check_order_fulfillment(&mut fulfillment, &mut score, &mut order, nanos(0.5), &eligible, true, &mut rng.rng);
    assert_eq!(a, FulfillmentAction::Waiting);
    let a = check_order_fulfillment(&mut fulfillment, &mut score, &mut order, nanos(1.0), &eligible, false, &mut rng.rng);
    assert_eq!(a, FulfillmentAction::Abandon { entity: 4 });
    assert_eq!(score, Score::default());
    assert_eq!(order.target_tier, 6);
    let a = check_order_fulfillment(&mut fulfillment, &mut score, &mut order, 0, &Vec::new(), true, &mut rng.rng);
    assert_eq!(a, FulfillmentAction::Idle);
}

#[test]
fn fulfillment_waits_the_full_countdown() {
    let mut score = Score::default();
    let mut order = ActiveOrder { target_tier: 5 };
    let mut fulfillment = ActiveFulfillment::default();
    let mut rng = GameRng::new(3);
    let eligible = vec![SphereInfo { entity: 9, tier: 5 }];
    check_order_fulfillment(&mut fulfillment, &mut score, &mut order, 0, &eligible, true, &mut rng.rng);
    let a = check_order_fulfillment(&mut fulfillment, &mut score, &mut order, FULFILLMENT_NANOS - 1, &eligible, true, &mut rng.rng);
    assert_eq!(a, FulfillmentAction::Waiting);
    let a = check_order_fulfillment(&mut fulfillment, &mut score, &mut order, 1, &eligible, true, &mut rng.rng);
    assert_eq!(a, FulfillmentAction::Complete { entity: 9, tier: 5 });
    assert_eq!(score.total, 2500);
}

#[test]
fn merge_score_raises_peak_only_upward() {
    let mut score = Score { total: 100, peak_tier: 5, completed_orders: 2 };
    add_merge_score(&mut score, 3);
    assert_eq!(score, Score { total: 400, peak_tier: 5, completed_orders: 2 });
    add_merge_score(&mut score, 7);
    assert_eq!(score, Score { total: 1100, peak_tier: 7, completed_orders: 2 });
}

#[test]
fn high_score_tracks_the_best_total() {
    let mut high = HighScore(500);
    assert!(!update_high_score(&mut high, 400));
    assert_eq!(high, HighScore(500));
    assert!(update_high_score(&mut high, 900));
    assert_eq!(high, HighScore(900));
}

#[test]
fn timer_ticks_add_up() {
    let mut a = OnceTimer::new(1000);
    a.tick(300);
    a.tick(400);
    let mut b = OnceTimer::new(1000);
    b.tick(700);
    assert_eq!(a.elapsed_nanos(), b.elapsed_nanos());
    assert!(!a.is_finished());
    a.tick(300);
    assert!(a.is_finished());
    assert_eq!(a.elapsed_nanos(), 1000);
    a.tick(5);
    assert_eq!(a.elapsed_nanos(), 1000);
    a.reset();
    assert!(!a.is_finished());
    assert_eq!(a.elapsed_nanos(), 0);
    a.tick(u64::MAX);
    assert!(a.is_finished());
}
