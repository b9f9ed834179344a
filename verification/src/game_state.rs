//! Session state and the rules that advance it: orders, loss tracking, reset.
use crate::core_math::{get_merge_points, get_order_points, merge_points, order_points, count_rolls, lemma_count_interval};
use crate::rng::roll_percent;
use crate::timer::{OnceTimer, fresh, ticked, ticked_all, total, lemma_finishes_at_duration};
use vstd::prelude::*;

verus! {

/// How long a fulfilled sphere is shown before it is removed and scored:
/// 1.2 s as the engine stores it (1.2f32 seconds in nanoseconds).
pub const FULFILLMENT_NANOS: u64 = 1_200_000_048;

/// How long a sphere may stay past the loss line before the game is lost.
pub const LOSS_GRACE_NANOS: u64 = 500_000_000;

/// Target tier of the first order of a session.
pub const FIRST_ORDER_TIER: u8 = 6;

/// Phase of the application.
#[derive(Clone, Copy, Debug, PartialEq, Eq, Structural, Hash)]
pub enum AppState {
    MainMenu,
    InGame,
    GameOver,
    Win,
}

impl Default for AppState {
    fn default() -> (s: Self)
        ensures
            s == AppState::MainMenu,
    {
        AppState::MainMenu
    }
}

/// A sphere on the table, by tier.
#[derive(Clone, Copy, Debug, PartialEq, Eq, Structural)]
pub struct Sphere {
    pub tier: u8,
}

/// Stable identifier of a sphere across replays.
#[derive(Clone, Copy, Debug, PartialEq, Eq, Structural)]
pub struct SphereId(pub u32);

/// The identifier the next spawned sphere receives.
#[derive(Clone, Copy, Debug, PartialEq, Eq, Structural)]
pub struct NextSphereId(pub u32);

impl Default for NextSphereId {
    fn default() -> (n: Self)
        ensures
            n.0 == 0,
    {
        NextSphereId(0)
    }
}

/// Number of fixed simulation steps since the session started.
#[derive(Clone, Copy, Debug, PartialEq, Eq, Structural)]
pub struct GameTick(pub u64);

impl Default for GameTick {
    fn default() -> (t: Self)
        ensures
            t.0 == 0,
    {
        GameTick(0)
    }
}

/// Running score of a session.
#[derive(Clone, Copy, Debug, PartialEq, Eq, Structural)]
pub struct Score {
    pub total: u32,
    pub peak_tier: u8,
    pub completed_orders: u32,
}

impl Default for Score {
    fn default() -> (s: Self)
        ensures
            s.total == 0 && s.peak_tier == 0 && s.completed_orders == 0,
    {
        Score { total: 0, peak_tier: 0, completed_orders: 0 }
    }
}

/// The tier the current order asks for.
#[derive(Clone, Copy, Debug, PartialEq, Eq, Structural)]
pub struct ActiveOrder {
    pub target_tier: u8,
}

/// The sphere in the launcher and the one after it.
#[derive(Clone, Copy, Debug, PartialEq, Eq, Structural)]
pub struct DispenserQueue {
    pub current: u8,
    pub next: u8,
}

/// Whether the colorblind-friendly sphere pattern overlay is active.
#[derive(Clone, Copy, Debug, PartialEq, Eq, Structural)]
pub struct ColorblindMode(pub bool);

impl Default for ColorblindMode {
    fn default() -> (m: Self)
        ensures
            m.0,
    {
        ColorblindMode(true)
    }
}

/// Whether the aiming guide line is active.
#[derive(Clone, Copy, Debug, PartialEq, Eq, Structural)]
pub struct AimLineMode(pub bool);

impl Default for AimLineMode {
    fn default() -> (m: Self)
        ensures
            m.0,
    {
        AimLineMode(true)
    }
}

/// Best total seen so far.
#[derive(Clone, Copy, Debug, PartialEq, Eq, Structural)]
pub struct HighScore(pub u32);

impl Default for HighScore {
    fn default() -> (h: Self)
        ensures
            h.0 == 0,
    {
        HighScore(0)
    }
}

/// Whether the costly visual effects are drawn.
#[derive(Clone, Copy, Debug, PartialEq, Eq, Structural)]
pub enum VisualEffectsMode {
    On,
    Off,
}

impl Default for VisualEffectsMode {
    fn default() -> (m: Self)
        ensures
            m == VisualEffectsMode::On,
    {
        VisualEffectsMode::On
    }
}

/// An entity (by its engine id) carrying a sphere of some tier.
#[derive(Clone, Copy, Debug, PartialEq, Eq, Structural)]
pub struct SphereInfo {
    pub entity: u64,
    pub tier: u8,
}

/// The order currently being fulfilled, if any, and its countdown.
#[derive(Clone, Copy, Debug)]
pub struct ActiveFulfillment {
    pub entity: Option<u64>,
    pub timer: OnceTimer,
}

impl Default for ActiveFulfillment {
    fn default() -> (f: Self)
        ensures
            f.entity is None,
            f.timer@ == fresh(FULFILLMENT_NANOS as nat),
    {
        ActiveFulfillment { entity: None, timer: OnceTimer::new(FULFILLMENT_NANOS) }
    }
}

/// Grace-period countdown of a sphere that is past the loss line.
#[derive(Clone, Copy, Debug)]
pub struct LossTracker {
    pub timer: OnceTimer,
}

// ---------------------------------------------------------------------------
// Scoring
// ---------------------------------------------------------------------------

/// Credits a merge that produced a sphere of `next_tier`: its points are
/// added and the peak tier is raised to it if higher.
pub fn add_merge_score(score: &mut Score, next_tier: u8)
    requires
        old(score).total + merge_points(next_tier as int) <= u32::MAX,
    ensures
        final(score).total == old(score).total + merge_points(next_tier as int),
        final(score).peak_tier == if next_tier > old(score).peak_tier {
            next_tier
        } else {
            old(score).peak_tier
        },
        final(score).completed_orders == old(score).completed_orders,
{
    score.total = score.total + get_merge_points(next_tier);
    if next_tier > score.peak_tier {
        score.peak_tier = next_tier;
    }
}

/// Credits a completed order of `target_tier`: its points are added, the peak
/// tier is raised to it if higher, and one more order counts as completed.
pub fn add_order_score(score: &mut Score, target_tier: u8)
    requires
        old(score).total + order_points(target_tier as int) <= u32::MAX,
        old(score).completed_orders < u32::MAX,
    ensures
        final(score).total == old(score).total + order_points(target_tier as int),
        final(score).peak_tier == if target_tier > old(score).peak_tier {
            target_tier
        } else {
            old(score).peak_tier
        },
        final(score).completed_orders == old(score).completed_orders + 1,
{
    score.total = score.total + get_order_points(target_tier);
    if target_tier > score.peak_tier {
        score.peak_tier = target_tier;
    }
    score.completed_orders = score.completed_orders + 1;
}

/// Raises the high score to `total` if it is higher; says whether it rose.
pub fn update_high_score(high_score: &mut HighScore, total: u32) -> (raised: bool)
    ensures
        raised == (total > old(high_score).0),
        final(high_score).0 == if raised {
            total
        } else {
            old(high_score).0
        },
{
    if total > high_score.0 {
        high_score.0 = total;
        true
    } else {
        false
    }
}

// ---------------------------------------------------------------------------
// Orders
// ---------------------------------------------------------------------------

/// Weight of a tier-5 order, in percent.
pub open spec fn weight5(completed: int) -> int {
    5
}

/// Weight of a tier-8 order: 10 per completed order, at most 40.
pub open spec fn weight8(completed: int) -> int {
    if completed * 10 < 40 {
        completed * 10
    } else {
        40
    }
}

/// Weight of a tier-6 order: 60 less 10 per completed order, at least 15.
pub open spec fn weight6(completed: int) -> int {
    let d = if 60 - completed * 10 > 0 {
        60 - completed * 10
    } else {
        0
    };
    if d > 15 {
        d
    } else {
        15
    }
}

/// Weight of a tier-7 order: what the others leave of 100.
pub open spec fn weight7(completed: int) -> int {
    100 - weight5(completed) - weight6(completed) - weight8(completed)
}

/// The order tier a percentile roll selects after `completed` orders.
pub open spec fn spec_order_tier(completed: int, roll: int) -> u8 {
    let w5 = weight5(completed);
    let w6 = weight6(completed);
    let w7 = weight7(completed);
    if roll < w5 {
        5
    } else if roll < w5 + w6 {
        6
    } else if roll < w5 + w6 + w7 {
        7
    } else {
        8
    }
}

/// Percent weights of the four order tiers.
#[derive(Clone, Copy, Debug, PartialEq, Eq, Structural)]
pub struct OrderWeights {
    pub w5: u32,
    pub w6: u32,
    pub w7: u32,
    pub w8: u32,
}

/// The weights of the next order after `completed_orders` completed orders.
pub fn order_weights(completed_orders: u32) -> (w: OrderWeights)
    requires
        completed_orders * 10 <= u32::MAX,
    ensures
        w.w5 == weight5(completed_orders as int),
        w.w6 == weight6(completed_orders as int),
        w.w7 == weight7(completed_orders as int),
        w.w8 == weight8(completed_orders as int),
{
    let scaled = completed_orders * 10;
    let w8 = if scaled < 40 { scaled } else { 40 };
    let d = if 60 > scaled { 60 - scaled } else { 0 };
    let w6 = if d > 15 { d } else { 15 };
    let w5: u32 = 5;
    let w7 = 100 - w5 - w6 - w8;
    OrderWeights { w5, w6, w7, w8 }
}

/// The tier (5-8) of the next order after `completed_orders` completed orders,
/// for a percentile roll.
pub fn order_tier_for_roll(completed_orders: u32, roll: u32) -> (tier: u8)
    requires
        completed_orders * 10 <= u32::MAX,
    ensures
        tier == spec_order_tier(completed_orders as int, roll as int),
        5 <= tier <= 8,
{
    let w = order_weights(completed_orders);
    if roll < w.w5 {
        5
    } else if roll < w.w5 + w.w6 {
        6
    } else if roll < w.w5 + w.w6 + w.w7 {
        7
    } else {
        8
    }
}

/// The next order's weights after `completed` completed orders: tier 5 always
/// 5%; tier 8 starts at 0% and gains 10 points per completed order up to 40%;
/// tier 6 starts at 60% and loses 10 points per completed order down to 15%;
/// tier 7 takes the rest.
pub proof fn lemma_order_weight_values(completed: nat)
    ensures
        weight5(completed as int) == 5,
        weight8(completed as int) == if completed <= 4 { 10 * completed } else { 40 },
        weight6(completed as int) == if completed <= 4 { 60 - 10 * completed } else { 15 },
        weight7(completed as int) == 100 - 5 - weight6(completed as int) - weight8(completed as int),
        completed == 0 ==> weight6(completed as int) == 60 && weight7(completed as int) == 35 && weight8(completed as int) == 0,
        completed >= 5 ==> weight6(completed as int) == 15 && weight7(completed as int) == 40 && weight8(completed as int) == 40,
{
}

/// Whatever the number of completed orders, the four weights are between 0
/// and 100 and add up to 100, tier 8 never passes 40, tier 6 never falls
/// below 15, and of the 100 equally likely rolls exactly as many select each
/// tier as its weight says.
pub proof fn lemma_order_weights(completed: nat)
    ensures
        weight5(completed as int) + weight6(completed as int) + weight7(completed as int)
            + weight8(completed as int) == 100,
        0 <= weight8(completed as int) <= 40,
        15 <= weight6(completed as int) <= 60,
        35 <= weight7(completed as int) <= 40,
        count_rolls(|r: int| spec_order_tier(completed as int, r) == 5, 100) == weight5(completed as int),
        count_rolls(|r: int| spec_order_tier(completed as int, r) == 6, 100) == weight6(completed as int),
        count_rolls(|r: int| spec_order_tier(completed as int, r) == 7, 100) == weight7(completed as int),
        count_rolls(|r: int| spec_order_tier(completed as int, r) == 8, 100) == weight8(completed as int),
{
    let c = completed as int;
    let a = weight5(c);
    let b = a + weight6(c);
    let d = b + weight7(c);
    lemma_count_interval(|r: int| spec_order_tier(c, r) == 5, 0, a, 100);
    lemma_count_interval(|r: int| spec_order_tier(c, r) == 6, a, b, 100);
    lemma_count_interval(|r: int| spec_order_tier(c, r) == 7, b, d, 100);
    lemma_count_interval(|r: int| spec_order_tier(c, r) == 8, d, 100, 100);
}

// ---------------------------------------------------------------------------
// Order fulfillment
// ---------------------------------------------------------------------------

/// What the fulfillment step asks the engine to do.
#[derive(Clone, Copy, Debug, PartialEq, Eq, Structural)]
pub enum FulfillmentAction {
    /// No order is being fulfilled and no eligible sphere has the target tier.
    Idle,
    /// A sphere is being fulfilled; its countdown is still running.
    Waiting,
    /// Lock this sphere in place and start its countdown.
    Begin { entity: u64 },
    /// Remove this sphere and burst it in the colour of `tier`: the order is done.
    Complete { entity: u64, tier: u8 },
    /// The countdown ended but the sphere is gone; nothing is scored.
    Abandon { entity: u64 },
}

/// Whether a step of the fulfillment would complete an order (and so draw a new one).
pub open spec fn completes_order(fulfillment: ActiveFulfillment, delta_nanos: nat, target_exists: bool) -> bool {
    fulfillment.entity is Some && ticked(fulfillment.timer@, delta_nanos).finished && target_exists
}

/// Tells whether a step of the fulfillment by `delta_nanos` completes an order.
pub fn completes_order_now(fulfillment: &ActiveFulfillment, delta_nanos: u64, target_exists: bool) -> (b: bool)
    ensures
        b == completes_order(*fulfillment, delta_nanos as nat, target_exists),
{
    let mut peek = fulfillment.timer;
    peek.tick(delta_nanos);
    fulfillment.entity.is_some() && peek.is_finished() && target_exists
}

/// Whether `i` is the first index of `spheres` with tier `tier`.
pub open spec fn first_with_tier(spheres: Seq<SphereInfo>, tier: u8, i: int) -> bool {
    &&& 0 <= i < spheres.len()
    &&& spheres[i].tier == tier
    &&& forall|j: int| 0 <= j < i ==> spheres[j].tier != tier
}

/// One step of order fulfillment with the percentile `roll` that draws the next
/// order if this step completes one.
///
/// With no order in progress, the first eligible sphere (in `eligible`, the
/// spheres not merging, not despawning and not already fulfilling) whose tier
/// is the target starts a fresh countdown. With one in progress, the countdown
/// advances by `delta_nanos`; when it ends the sphere is released and, if it
/// still exists (`target_exists`), the order is scored and a new target tier is
/// drawn from the weights that the new number of completed orders gives.
pub fn advance_order_fulfillment(
    fulfillment: &mut ActiveFulfillment,
    score: &mut Score,
    order: &mut ActiveOrder,
    delta_nanos: u64,
    eligible: &Vec<SphereInfo>,
    target_exists: bool,
    roll: u32,
) -> (action: FulfillmentAction)
    requires
        completes_order(*old(fulfillment), delta_nanos as nat, target_exists) ==> {
            &&& old(score).total + order_points(old(order).target_tier as int) <= u32::MAX
            &&& (old(score).completed_orders + 1) * 10 <= u32::MAX
        },
    ensures
        match old(fulfillment).entity {
            Some(e) => {
                let t = ticked(old(fulfillment).timer@, delta_nanos as nat);
                &&& final(fulfillment).timer@ == t
                &&& if !t.finished {
                    &&& action == FulfillmentAction::Waiting
                    &&& final(fulfillment).entity == old(fulfillment).entity
                    &&& *final(score) == *old(score)
                    &&& *final(order) == *old(order)
                } else if !target_exists {
                    &&& action == (FulfillmentAction::Abandon { entity: e })
                    &&& final(fulfillment).entity is None
                    &&& *final(score) == *old(score)
                    &&& *final(order) == *old(order)
                } else {
                    &&& action == (FulfillmentAction::Complete { entity: e, tier: old(order).target_tier })
                    &&& final(fulfillment).entity is None
                    &&& final(score).total == old(score).total + order_points(old(order).target_tier as int)
                    &&& final(score).peak_tier == if old(order).target_tier > old(score).peak_tier {
                        old(order).target_tier
                    } else {
                        old(score).peak_tier
                    }
                    &&& final(score).completed_orders == old(score).completed_orders + 1
                    &&& final(order).target_tier == spec_order_tier(final(score).completed_orders as int, roll as int)
                }
            },
            None => {
                &&& *final(score) == *old(score)
                &&& *final(order) == *old(order)
                &&& match action {
                    FulfillmentAction::Begin { entity } => {
                        &&& exists|i: int| first_with_tier(eligible@, old(order).target_tier, i) && eligible@[i].entity == entity
                        &&& final(fulfillment).entity == Some(entity)
                        &&& final(fulfillment).timer@ == fresh(old(fulfillment).timer@.duration)
                    },
                    FulfillmentAction::Idle => {
                        &&& forall|i: int| 0 <= i < eligible@.len() ==> eligible@[i].tier != old(order).target_tier
                        &&& *final(fulfillment) == *old(fulfillment)
                    },
                    _ => false,
                }
            },
        },
{
    match fulfillment.entity {
        Some(e) => {
            fulfillment.timer.tick(delta_nanos);
            if fulfillment.timer.is_finished() {
                let action = if target_exists {
                    let tier = order.target_tier;
                    add_order_score(score, tier);
                    order.target_tier = order_tier_for_roll(score.completed_orders, roll);
                    FulfillmentAction::Complete { entity: e, tier }
                } else {
                    FulfillmentAction::Abandon { entity: e }
                };
                fulfillment.entity = None;
                action
            } else {
                FulfillmentAction::Waiting
            }
        },
        None => {
            let n = eligible.len();
            let mut i: usize = 0;
            while i < n
                invariant
                    n == eligible@.len(),
                    0 <= i <= n,
                    forall|j: int| 0 <= j < i ==> eligible@[j].tier != order.target_tier,
                    *fulfillment == *old(fulfillment),
                    *score == *old(score),
                    *order == *old(order),
                    old(fulfillment).entity is None,
                decreases n - i,
            {
                if eligible[i].tier == order.target_tier {
                    let entity = eligible[i].entity;
                    fulfillment.entity = Some(entity);
                    fulfillment.timer.reset();
                    assert(first_with_tier(eligible@, order.target_tier, i as int));
                    return FulfillmentAction::Begin { entity };
                }
                i = i + 1;
            }
            FulfillmentAction::Idle
        },
    }
}

/// One step of order fulfillment, drawing the next order from the session's
/// generator when (and only when) the step completes an order. The outcome is
/// the one `advance_order_fulfillment` gives for some roll in `0..100`.
pub fn check_order_fulfillment(
    fulfillment: &mut ActiveFulfillment,
    score: &mut Score,
    order: &mut ActiveOrder,
    delta_nanos: u64,
    eligible: &Vec<SphereInfo>,
    target_exists: bool,
    rng: &mut rand::rngs::StdRng,
) -> (action: FulfillmentAction)
    requires
        completes_order(*old(fulfillment), delta_nanos as nat, target_exists) ==> {
            &&& old(score).total + order_points(old(order).target_tier as int) <= u32::MAX
            &&& (old(score).completed_orders + 1) * 10 <= u32::MAX
        },
    ensures
        completes_order(*old(fulfillment), delta_nanos as nat, target_exists) ==> {
            &&& action == (FulfillmentAction::Complete {
                entity: old(fulfillment).entity->0,
                tier: old(order).target_tier,
            })
            &&& final(fulfillment).entity is None
            &&& final(fulfillment).timer@ == ticked(old(fulfillment).timer@, delta_nanos as nat)
            &&& final(score).total == old(score).total + order_points(old(order).target_tier as int)
            &&& final(score).completed_orders == old(score).completed_orders + 1
            &&& final(score).peak_tier == if old(order).target_tier > old(score).peak_tier {
                old(order).target_tier
            } else {
                old(score).peak_tier
            }
            &&& exists|roll: int| 0 <= roll < 100
                && final(order).target_tier == spec_order_tier(final(score).completed_orders as int, roll)
        },
        !completes_order(*old(fulfillment), delta_nanos as nat, target_exists) ==> {
            &&& *final(score) == *old(score)
            &&& *final(order) == *old(order)
            &&& match old(fulfillment).entity {
                Some(e) => {
                    let t = ticked(old(fulfillment).timer@, delta_nanos as nat);
                    &&& final(fulfillment).timer@ == t
                    &&& if t.finished {
                        action == (FulfillmentAction::Abandon { entity: e }) && final(fulfillment).entity is None
                    } else {
                        action == FulfillmentAction::Waiting && final(fulfillment).entity == old(fulfillment).entity
                    }
                },
                None => match action {
                    FulfillmentAction::Begin { entity } => {
                        &&& exists|i: int| first_with_tier(eligible@, old(order).target_tier, i) && eligible@[i].entity == entity
                        &&& final(fulfillment).entity == Some(entity)
                        &&& final(fulfillment).timer@ == fresh(old(fulfillment).timer@.duration)
                    },
                    FulfillmentAction::Idle => {
                        &&& forall|i: int| 0 <= i < eligible@.len() ==> eligible@[i].tier != old(order).target_tier
                        &&& *final(fulfillment) == *old(fulfillment)
                    },
                    _ => false,
                },
            }
        },
{
    let roll = if completes_order_now(fulfillment, delta_nanos, target_exists) {
        roll_percent(rng)
    } else {
        0
    };
    advance_order_fulfillment(fulfillment, score, order, delta_nanos, eligible, target_exists, roll)
}

// ---------------------------------------------------------------------------
// Loss condition
// ---------------------------------------------------------------------------

/// What the loss check asks the engine to do with one sphere's tracker.
#[derive(Clone, Copy, Debug)]
pub enum LossStep {
    /// The sphere is inside the line and has no tracker.
    Unchanged,
    /// The sphere has just crossed the line: give it a fresh tracker.
    Start,
    /// The sphere stays past the line: store its advanced tracker.
    Advance { tracker: LossTracker },
    /// The sphere is back inside the line: drop its tracker.
    Clear,
}

/// One sphere as the loss check sees it.
#[derive(Clone, Copy, Debug)]
pub struct LossInput {
    pub entity: u64,
    /// Past the loss line toward the player, or fallen off the table.
    pub beyond_line: bool,
    pub tracker: Option<LossTracker>,
}

/// The tracker step of one sphere, and whether its grace period just ran out.
pub fn loss_step(beyond_line: bool, tracker: Option<LossTracker>, delta_nanos: u64) -> (r: (LossStep, bool))
    ensures
        match r.0 {
            LossStep::Advance { tracker: advanced } => {
                &&& beyond_line
                &&& tracker is Some
                &&& advanced.timer@ == ticked(tracker->0.timer@, delta_nanos as nat)
                &&& r.1 == advanced.timer@.finished
            },
            LossStep::Start => beyond_line && tracker is None && !r.1,
            LossStep::Clear => !beyond_line && tracker is Some && !r.1,
            LossStep::Unchanged => !beyond_line && tracker is None && !r.1,
        },
{
    if beyond_line {
        match tracker {
            Some(t) => {
                let mut timer = t.timer;
                timer.tick(delta_nanos);
                let finished = timer.is_finished();
                (LossStep::Advance { tracker: LossTracker { timer } }, finished)
            },
            None => (LossStep::Start, false),
        }
    } else if tracker.is_some() {
        (LossStep::Clear, false)
    } else {
        (LossStep::Unchanged, false)
    }
}

/// A fresh tracker for a sphere that has just crossed the line.
pub fn new_loss_tracker() -> (t: LossTracker)
    ensures
        t.timer@ == fresh(LOSS_GRACE_NANOS as nat),
{
    LossTracker { timer: OnceTimer::new(LOSS_GRACE_NANOS) }
}

/// A sphere that stays past the line loses the game on the frame when the frame
/// times since it crossed (the crossing frame itself excluded, since that frame
/// only starts its tracker) reach the grace period, and not before.
pub proof fn lemma_loss_grace_period(deltas: Seq<nat>)
    requires
        deltas.len() > 0,
    ensures
        ticked_all(fresh(LOSS_GRACE_NANOS as nat), deltas).finished <==> total(deltas) >= LOSS_GRACE_NANOS,
{
    lemma_finishes_at_duration(LOSS_GRACE_NANOS as nat, deltas);
}

/// Whether the step that `loss_step` gives for `input` ends its grace period.
pub open spec fn ends_grace(input: LossInput, delta_nanos: nat) -> bool {
    input.beyond_line && input.tracker is Some && ticked(input.tracker->0.timer@, delta_nanos).finished
}

/// The loss check over all spheres on the table (fulfilling ones excluded):
/// one step per sphere, in order, and whether any sphere's grace period ran
/// out, which loses the game.
pub fn check_loss_condition(spheres: &Vec<LossInput>, delta_nanos: u64) -> (r: (Vec<LossStep>, bool))
    ensures
        r.0@.len() == spheres@.len(),
        forall|i: int| 0 <= i < spheres@.len() ==> match #[trigger] r.0@[i] {
            LossStep::Advance { tracker: advanced } => {
                &&& spheres@[i].beyond_line
                &&& spheres@[i].tracker is Some
                &&& advanced.timer@ == ticked(spheres@[i].tracker->0.timer@, delta_nanos as nat)
            },
            LossStep::Start => spheres@[i].beyond_line && spheres@[i].tracker is None,
            LossStep::Clear => !spheres@[i].beyond_line && spheres@[i].tracker is Some,
            LossStep::Unchanged => !spheres@[i].beyond_line && spheres@[i].tracker is None,
        },
        r.1 == exists|i: int| 0 <= i < spheres@.len() && ends_grace(#[trigger] spheres@[i], delta_nanos as nat),
{
    let mut steps: Vec<LossStep> = Vec::new();
    let mut game_over = false;
    let n = spheres.len();
    let mut i: usize = 0;
    while i < n
        invariant
            n == spheres@.len(),
            0 <= i <= n,
            steps@.len() == i,
            forall|k: int| 0 <= k < i ==> match #[trigger] steps@[k] {
                LossStep::Advance { tracker: advanced } => {
                    &&& spheres@[k].beyond_line
                    &&& spheres@[k].tracker is Some
                    &&& advanced.timer@ == ticked(spheres@[k].tracker->0.timer@, delta_nanos as nat)
                },
                LossStep::Start => spheres@[k].beyond_line && spheres@[k].tracker is None,
                LossStep::Clear => !spheres@[k].beyond_line && spheres@[k].tracker is Some,
                LossStep::Unchanged => !spheres@[k].beyond_line && spheres@[k].tracker is None,
            },
            game_over == exists|k: int| 0 <= k < i && ends_grace(#[trigger] spheres@[k], delta_nanos as nat),
        decreases n - i,
    {
        let input = spheres[i];
        let (step, finished) = loss_step(input.beyond_line, input.tracker, delta_nanos);
        proof {
            if finished {
                assert(ends_grace(spheres@[i as int], delta_nanos as nat));
            }
            if ends_grace(spheres@[i as int], delta_nanos as nat) {
                assert(finished);
            }
        }
        steps.push(step);
        game_over = game_over || finished;
        i = i + 1;
    }
    (steps, game_over)
}

// ---------------------------------------------------------------------------
// Reset
// ---------------------------------------------------------------------------

/// Puts a session back to its start: no score, the first order, the first two
/// dispensed tiers (1 then 2), no fulfillment in progress and tick zero.
pub fn reset_game_state(
    score: &mut Score,
    order: &mut ActiveOrder,
    queue: &mut DispenserQueue,
    fulfillment: &mut ActiveFulfillment,
    tick: &mut GameTick,
)
    ensures
        final(score).total == 0 && final(score).peak_tier == 0 && final(score).completed_orders == 0,
        final(order).target_tier == FIRST_ORDER_TIER,
        final(queue).current == 1 && final(queue).next == 2,
        final(fulfillment).entity is None,
        final(fulfillment).timer@ == fresh(FULFILLMENT_NANOS as nat),
        final(tick).0 == 0,
{
    *score = Score::default();
    order.target_tier = FIRST_ORDER_TIER;
    queue.current = 1;
    queue.next = 2;
    *fulfillment = ActiveFulfillment::default();
    tick.0 = 0;
}

} // verus!
