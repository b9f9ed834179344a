use akius::game_state::{ActiveFulfillment, ActiveOrder, AppState, DispenserQueue, GameTick, NextSphereId, Score};
use akius::launcher::LaunchPlan;
use akius::rng::GameRng;
use akius::timer::OnceTimer;
use akius::train::{count_order_tiers, decode_action, reset_episode, step_outcome, train_shoot, OrderTierCounts, TrainAction};

#[test]
fn actions_decode_to_columns_and_waits() {
    assert_eq!(decode_action(0), TrainAction { shoot_column: Some(0), ticks: 24 });
    assert_eq!(decode_action(31), TrainAction { shoot_column: Some(31), ticks: 24 });
    assert_eq!(decode_action(32), TrainAction { shoot_column: None, ticks: 6 });
    assert_eq!(decode_action(33), TrainAction { shoot_column: None, ticks: 12 });
    assert_eq!(decode_action(34), TrainAction { shoot_column: None, ticks: 24 });
    assert_eq!(decode_action(1000), TrainAction { shoot_column: None, ticks: 24 });
}

#[test]
fn episode_reset_and_shots() {
    let mut score = Score { total: 5, peak_tier: 2, completed_orders: 1 };
    let mut order = ActiveOrder { target_tier: 7 };
    let mut queue = DispenserQueue { current: 4, next: 4 };
    let mut fulfillment = ActiveFulfillment::default();
    let mut tick = GameTick(30);
    let mut next_id = NextSphereId(12);
    let mut cooldown = OnceTimer::new(1);
    reset_episode(&mut score, &mut order, &mut queue, &mut fulfillment, &mut tick, &mut next_id, &mut cooldown);
    assert_eq!(score, Score::default());
    assert_eq!(order.target_tier, 6);
    assert_eq!(queue, DispenserQueue { current: 1, next: 2 });
    assert_eq!(next_id, NextSphereId(1));
    assert!(cooldown.is_finished());

    let mut q = Some(queue);
    let mut rng = GameRng::new(9);
    let plan = train_shoot(&mut cooldown, false, &mut q, &mut next_id, &mut rng.rng);
    assert_eq!(plan, Some(LaunchPlan { id: 1, tier: 1 }));
    assert_eq!(q.unwrap().current, 2);
    assert!(!cooldown.is_finished());
    assert_eq!(train_shoot(&mut cooldown, false, &mut q, &mut next_id, &mut rng.rng), None);
    cooldown.tick(u64::MAX);
    assert_eq!(train_shoot(&mut cooldown, true, &mut q, &mut next_id, &mut rng.rng), None);
    assert_eq!(next_id, NextSphereId(2));
}

#[test]
fn step_outcomes() {
    let o = step_outcome(100, 350, AppState::InGame);
    assert_eq!(o.score_delta, 250);
    assert!(!o.terminated);
    let o = step_outcome(350, 0, AppState::GameOver);
    assert_eq!(o.score_delta, 0);
    assert!(o.loss && o.terminated && !o.win && !o.truncated);
    let o = step_outcome(0, 0, AppState::Win);
    assert!(o.win && o.terminated);
}

#[test]
fn order_tier_counts() {
    let c = count_order_tiers(&vec![5, 1, 8, 8, 6, 9, 7, 5, 5]);
    assert_eq!(c, OrderTierCounts { tier5: 3, tier6: 1, tier7: 1, tier8: 2 });
}
