//! The discrete part of the headless training environment: actions, episode
//! reset, shots and step outcomes.
use crate::core_math::{dispensed_tier_for_roll, spec_dispensed_tier};
use crate::game_state::{reset_game_state, FULFILLMENT_NANOS, ActiveFulfillment, ActiveOrder, AppState, DispenserQueue, GameTick, NextSphereId, Score};
use crate::launcher::{LAUNCH_COOLDOWN_NANOS, LaunchPlan};
use crate::rng::roll_percent;
use crate::timer::{OnceTimer, fresh, ticked};
use vstd::prelude::*;

verus! {

/// Number of launch columns an action can choose.
pub const LAUNCH_COLUMNS: usize = 32;

/// Simulation ticks that a shot, or the default wait, lasts.
pub const LONG_WAIT_TICKS: u32 = 24;

/// What an action asks for: an optional launch column and how many ticks to simulate.
#[derive(Clone, Copy, Debug, PartialEq, Eq, Structural)]
pub struct TrainAction {
    pub shoot_column: Option<usize>,
    pub ticks: u32,
}

/// Decodes an action: 0-31 shoot from that column and simulate 24 ticks;
/// 32 waits 6 ticks, 33 waits 12, and anything else waits 24.
pub fn decode_action(action: usize) -> (a: TrainAction)
    ensures
        a == if action < 32 {
            TrainAction { shoot_column: Some(action), ticks: 24 }
        } else if action == 32 {
            TrainAction { shoot_column: None, ticks: 6 }
        } else if action == 33 {
            TrainAction { shoot_column: None, ticks: 12 }
        } else {
            TrainAction { shoot_column: None, ticks: 24 }
        },
{
    if action < LAUNCH_COLUMNS {
        TrainAction { shoot_column: Some(action), ticks: LONG_WAIT_TICKS }
    } else if action == 32 {
        TrainAction { shoot_column: None, ticks: 6 }
    } else if action == 33 {
        TrainAction { shoot_column: None, ticks: 12 }
    } else {
        TrainAction { shoot_column: None, ticks: LONG_WAIT_TICKS }
    }
}

/// A launch from the training environment with the percentile `roll` for the
/// tier dispensed next: it happens when the cooldown has run out and the launch
/// spot is free; the current sphere (tier 1 without a queue) gets the next id,
/// the queue moves up with the drawn tier, and the cooldown restarts.
pub fn train_shoot_with_roll(
    cooldown: &mut OnceTimer,
    obstructed: bool,
    queue: &mut Option<DispenserQueue>,
    next_id: &mut NextSphereId,
    roll: u32,
) -> (plan: Option<LaunchPlan>)
    requires
        old(cooldown)@.finished && !obstructed ==> old(next_id).0 < u32::MAX,
    ensures
        if old(cooldown)@.finished && !obstructed {
            &&& plan == Some(LaunchPlan {
                id: old(next_id).0,
                tier: match *old(queue) {
                    Some(q) => q.current,
                    None => 1u8,
                },
            })
            &&& final(next_id).0 == old(next_id).0 + 1
            &&& *final(queue) == match *old(queue) {
                Some(q) => Some(DispenserQueue { current: q.next, next: spec_dispensed_tier(roll as int) }),
                None => None,
            }
            &&& final(cooldown)@ == fresh(old(cooldown)@.duration)
        } else {
            &&& plan is None
            &&& *final(next_id) == *old(next_id)
            &&& *final(queue) == *old(queue)
            &&& final(cooldown)@ == old(cooldown)@
        },
{
    if cooldown.is_finished() && !obstructed {
        let tier = match queue {
            Some(q) => q.current,
            None => 1,
        };
        let id = next_id.0;
        next_id.0 = id + 1;
        let next_tier = dispensed_tier_for_roll(roll);
        match queue {
            Some(q) => {
                q.current = q.next;
                q.next = next_tier;
            },
            None => {},
        }
        cooldown.reset();
        Some(LaunchPlan { id, tier })
    } else {
        None
    }
}

/// A launch from the training environment, drawing the next dispensed tier from
/// the session's generator whenever a sphere is launched. The outcome is the
/// one `train_shoot_with_roll` gives for some roll in `0..100`.
pub fn train_shoot(
    cooldown: &mut OnceTimer,
    obstructed: bool,
    queue: &mut Option<DispenserQueue>,
    next_id: &mut NextSphereId,
    rng: &mut rand::rngs::StdRng,
) -> (plan: Option<LaunchPlan>)
    requires
        old(cooldown)@.finished && !obstructed ==> old(next_id).0 < u32::MAX,
    ensures
        if old(cooldown)@.finished && !obstructed {
            &&& plan == Some(LaunchPlan {
                id: old(next_id).0,
                tier: match *old(queue) {
                    Some(q) => q.current,
                    None => 1u8,
                },
            })
            &&& final(next_id).0 == old(next_id).0 + 1
            &&& match *old(queue) {
                Some(q) => exists|roll: int| 0 <= roll < 100 && *final(queue) == Some(DispenserQueue {
                    current: q.next,
                    next: spec_dispensed_tier(roll),
                }),
                None => *final(queue) is None,
            }
            &&& final(cooldown)@ == fresh(old(cooldown)@.duration)
        } else {
            &&& plan is None
            &&& *final(next_id) == *old(next_id)
            &&& *final(queue) == *old(queue)
            &&& final(cooldown)@ == old(cooldown)@
        },
{
    let roll = if cooldown.is_finished() && !obstructed {
        roll_percent(rng)
    } else {
        0
    };
    train_shoot_with_roll(cooldown, obstructed, queue, next_id, roll)
}

/// Starts a new training episode: the session is reset, sphere ids start at 1,
/// and the launcher's cooldown is fresh and already run out.
pub fn reset_episode(
    score: &mut Score,
    order: &mut ActiveOrder,
    queue: &mut DispenserQueue,
    fulfillment: &mut ActiveFulfillment,
    tick: &mut GameTick,
    next_id: &mut NextSphereId,
    cooldown: &mut OnceTimer,
)
    ensures
        final(score).total == 0 && final(score).peak_tier == 0 && final(score).completed_orders == 0,
        final(order).target_tier == 6,
        final(queue).current == 1 && final(queue).next == 2,
        final(fulfillment).entity is None,
        final(fulfillment).timer@ == fresh(FULFILLMENT_NANOS as nat),
        final(tick).0 == 0,
        final(next_id).0 == 1,
        final(cooldown)@ == ticked(fresh(LAUNCH_COOLDOWN_NANOS as nat), LAUNCH_COOLDOWN_NANOS as nat),
        final(cooldown)@.finished,
{
    reset_game_state(score, order, queue, fulfillment, tick);
    next_id.0 = 1;
    let mut c = OnceTimer::new(LAUNCH_COOLDOWN_NANOS);
    c.tick(LAUNCH_COOLDOWN_NANOS);
    *cooldown = c;
}

/// What a training step reports beyond the observation.
#[derive(Clone, Copy, Debug, PartialEq, Eq, Structural)]
pub struct StepOutcome {
    pub score_delta: u32,
    pub win: bool,
    pub loss: bool,
    pub terminated: bool,
    pub truncated: bool,
}

/// The outcome of a step: the score gained since the previous step (never
/// negative), whether the game was won or lost, and that it ends on either.
pub fn step_outcome(previous_score: u32, current_score: u32, state: AppState) -> (o: StepOutcome)
    ensures
        o.score_delta == if current_score >= previous_score {
            current_score - previous_score
        } else {
            0
        },
        o.win == (state == AppState::Win),
        o.loss == (state == AppState::GameOver),
        o.terminated == (o.win || o.loss),
        !o.truncated,
{
    let score_delta = if current_score >= previous_score { current_score - previous_score } else { 0 };
    let win = state == AppState::Win;
    let loss = state == AppState::GameOver;
    StepOutcome { score_delta, win, loss, terminated: win || loss, truncated: false }
}

/// Number of entries of `tiers` equal to `tier`.
pub open spec fn count_tier(tiers: Seq<u8>, tier: u8) -> nat
    decreases tiers.len(),
{
    if tiers.len() == 0 {
        0
    } else {
        count_tier(tiers.drop_last(), tier) + if tiers.last() == tier {
            1nat
        } else {
            0nat
        }
    }
}

/// How many spheres of each order tier are on the table.
#[derive(Clone, Copy, Debug, PartialEq, Eq, Structural)]
pub struct OrderTierCounts {
    pub tier5: usize,
    pub tier6: usize,
    pub tier7: usize,
    pub tier8: usize,
}

/// Counts the spheres of tiers 5, 6, 7 and 8.
pub fn count_order_tiers(tiers: &Vec<u8>) -> (c: OrderTierCounts)
    ensures
        c.tier5 == count_tier(tiers@, 5),
        c.tier6 == count_tier(tiers@, 6),
        c.tier7 == count_tier(tiers@, 7),
        c.tier8 == count_tier(tiers@, 8),
{
    let mut c = OrderTierCounts { tier5: 0, tier6: 0, tier7: 0, tier8: 0 };
    let n = tiers.len();
    let mut i: usize = 0;
    while i < n
        invariant
            n == tiers@.len(),
            0 <= i <= n,
            c.tier5 == count_tier(tiers@.take(i as int), 5),
            c.tier6 == count_tier(tiers@.take(i as int), 6),
            c.tier7 == count_tier(tiers@.take(i as int), 7),
            c.tier8 == count_tier(tiers@.take(i as int), 8),
            c.tier5 + c.tier6 + c.tier7 + c.tier8 <= i,
        decreases n - i,
    {
        let t = tiers[i];
        assert(tiers@.take(i + 1).drop_last() == tiers@.take(i as int));
        if t == 5 {
            c.tier5 = c.tier5 + 1;
        } else if t == 6 {
            c.tier6 = c.tier6 + 1;
        } else if t == 7 {
            c.tier7 = c.tier7 + 1;
        } else if t == 8 {
            c.tier8 = c.tier8 + 1;
        }
        i = i + 1;
    }
    assert(tiers@.take(n as int) == tiers@);
    c
}

} // verus!
