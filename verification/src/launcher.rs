//! Launcher control: touch tracking, fire requests, cooldown and dispensing.
use crate::core_math::{dispensed_tier_for_roll, spec_dispensed_tier};
use crate::game_state::{DispenserQueue, NextSphereId};
use crate::physics_rules::contains_entity;
use crate::rng::roll_percent;
use crate::timer::{OnceTimer, TimerView, fresh, ticked, ticked_all, total, lemma_ticked_all_is_one_tick};
use vstd::prelude::*;

verus! {

/// Minimum time between two launches: 0.4 s as the engine stores it
/// (0.4f32 seconds in nanoseconds).
pub const LAUNCH_COOLDOWN_NANOS: u64 = 400_000_006;

/// How long the launcher preview stays hidden after a launch: 0.2 s as the
/// engine compares it (elapsed times below this many nanoseconds read as less
/// than 0.2f32 seconds).
pub const PREVIEW_HIDE_NANOS: u64 = 199_999_992;

/// The launcher's discrete state: whether the preview is obstructed, the
/// cooldown since the last launch, and the touches that began in game.
#[derive(Clone, Debug)]
pub struct LauncherState {
    pub obstructed: bool,
    pub cooldown_timer: OnceTimer,
    pub active_touch_ids: Vec<u64>,
}

impl Default for LauncherState {
    /// Not obstructed, no touches, and a cooldown that has already run out so
    /// the first shot is not delayed.
    fn default() -> (s: Self)
        ensures
            !s.obstructed,
            s.active_touch_ids@.len() == 0,
            s.cooldown_timer@ == ticked(fresh(LAUNCH_COOLDOWN_NANOS as nat), LAUNCH_COOLDOWN_NANOS as nat),
            s.cooldown_timer@.finished,
    {
        let mut cooldown_timer = OnceTimer::new(LAUNCH_COOLDOWN_NANOS);
        cooldown_timer.tick(LAUNCH_COOLDOWN_NANOS);
        LauncherState { obstructed: false, cooldown_timer, active_touch_ids: Vec::new() }
    }
}

/// The touches of one frame: those that began, ended, and are held.
#[derive(Clone, Debug)]
pub struct TouchFrame {
    pub just_pressed: Vec<u64>,
    pub just_released: Vec<u64>,
    pub pressed: Vec<u64>,
}

// ---------------------------------------------------------------------------
// Touch tracking
// ---------------------------------------------------------------------------

/// The tracked ids after registering the touches that began.
pub open spec fn add_touches(ids: Seq<u64>, began: Seq<u64>) -> Seq<u64>
    decreases began.len(),
{
    if began.len() == 0 {
        ids
    } else {
        let prev = add_touches(ids, began.drop_last());
        if prev.contains(began.last()) {
            prev
        } else {
            prev.push(began.last())
        }
    }
}

/// Whether `p` is the first position of `x` in `s`.
pub open spec fn first_pos(s: Seq<u64>, x: u64, p: int) -> bool {
    &&& 0 <= p < s.len()
    &&& s[p] == x
    &&& forall|q: int| 0 <= q < p ==> s[q] != x
}

/// `s` without its element at `p`, the last element taking its place.
pub open spec fn swap_removed(s: Seq<u64>, p: int) -> Seq<u64> {
    s.update(p, s.last()).drop_last()
}

/// The tracked ids after the touches that ended, and whether one of them was
/// tracked (which fires).
pub open spec fn release_touches(ids: Seq<u64>, ended: Seq<u64>) -> (Seq<u64>, bool)
    decreases ended.len(),
{
    if ended.len() == 0 {
        (ids, false)
    } else {
        let prev = release_touches(ids, ended.drop_last());
        let x = ended.last();
        if prev.0.contains(x) {
            (swap_removed(prev.0, choose|p: int| first_pos(prev.0, x, p)), true)
        } else {
            prev
        }
    }
}

/// The tracked ids that are still held.
pub open spec fn keep_held(ids: Seq<u64>, held: Seq<u64>) -> Seq<u64>
    decreases ids.len(),
{
    if ids.len() == 0 {
        ids
    } else if held.contains(ids.last()) {
        keep_held(ids.drop_last(), held).push(ids.last())
    } else {
        keep_held(ids.drop_last(), held)
    }
}

/// The first position of `x` in `v`, if any.
fn position_of(v: &Vec<u64>, x: u64) -> (p: Option<usize>)
    ensures
        match p {
            Some(i) => first_pos(v@, x, i as int),
            None => !v@.contains(x),
        },
{
    let n = v.len();
    let mut i: usize = 0;
    while i < n
        invariant
            n == v@.len(),
            0 <= i <= n,
            forall|q: int| 0 <= q < i ==> v@[q] != x,
        decreases n - i,
    {
        if v[i] == x {
            return Some(i);
        }
        i = i + 1;
    }
    None
}

/// Updates the tracked touches for one frame: touches that began are added
/// (once each), a tracked touch that ended is dropped and fires, and only
/// touches still held are kept. Returns whether a tracked touch ended.
pub fn track_touches(ids: &mut Vec<u64>, touches: &TouchFrame) -> (fired: bool)
    ensures
        ({
            let added = add_touches(old(ids)@, touches.just_pressed@);
            let released = release_touches(added, touches.just_released@);
            &&& fired == released.1
            &&& final(ids)@ == keep_held(released.0, touches.pressed@)
        }),
{
    let ghost start = ids@;
    let n = touches.just_pressed.len();
    let mut i: usize = 0;
    while i < n
        invariant
            n == touches.just_pressed@.len(),
            0 <= i <= n,
            ids@ == add_touches(start, touches.just_pressed@.take(i as int)),
        decreases n - i,
    {
        let x = touches.just_pressed[i];
        assert(touches.just_pressed@.take(i + 1).drop_last() == touches.just_pressed@.take(i as int));
        if !contains_entity(ids, x) {
            ids.push(x);
        }
        i = i + 1;
    }
    assert(touches.just_pressed@.take(n as int) == touches.just_pressed@);
    let ghost added = ids@;
    let mut fired = false;
    let m = touches.just_released.len();
    let mut j: usize = 0;
    while j < m
        invariant
            m == touches.just_released@.len(),
            0 <= j <= m,
            (ids@, fired) == release_touches(added, touches.just_released@.take(j as int)),
        decreases m - j,
    {
        let x = touches.just_released[j];
        assert(touches.just_released@.take(j + 1).drop_last() == touches.just_released@.take(j as int));
        match position_of(ids, x) {
            Some(p) => {
                proof {
                    assert(ids@.contains(x));
                    let c = choose|c: int| first_pos(ids@, x, c);
                    assert(c == p as int) by {
                        if c < p {
                            assert(ids@[c] != x);
                        } else if c > p {
                            assert(ids@[p as int] != x);
                        }
                    }
                }
                ids.swap_remove(p);
                fired = true;
            },
            None => {},
        }
        j = j + 1;
    }
    assert(touches.just_released@.take(m as int) == touches.just_released@);
    let ghost released = ids@;
    let mut kept: Vec<u64> = Vec::new();
    let k = ids.len();
    let mut q: usize = 0;
    while q < k
        invariant
            k == ids@.len(),
            ids@ == released,
            0 <= q <= k,
            kept@ == keep_held(released.take(q as int), touches.pressed@),
        decreases k - q,
    {
        let x = ids[q];
        assert(released.take(q + 1).drop_last() == released.take(q as int));
        if contains_entity(&touches.pressed, x) {
            kept.push(x);
        }
        q = q + 1;
    }
    assert(released.take(k as int) == released);
    *ids = kept;
    fired
}

/// No touch is tracked twice: tracking keeps a list without repeats.
pub proof fn lemma_touches_stay_distinct(ids: Seq<u64>, began: Seq<u64>, ended: Seq<u64>, held: Seq<u64>)
    requires
        ids.no_duplicates(),
    ensures
        keep_held(release_touches(add_touches(ids, began), ended).0, held).no_duplicates(),
        forall|x: u64| #[trigger] keep_held(release_touches(add_touches(ids, began), ended).0, held).contains(x) ==> held.contains(x),
{
    lemma_add_distinct(ids, began);
    lemma_release_distinct(add_touches(ids, began), ended);
    lemma_keep_distinct(release_touches(add_touches(ids, began), ended).0, held);
}

proof fn lemma_add_distinct(ids: Seq<u64>, began: Seq<u64>)
    requires
        ids.no_duplicates(),
    ensures
        add_touches(ids, began).no_duplicates(),
    decreases began.len(),
{
    if began.len() > 0 {
        lemma_add_distinct(ids, began.drop_last());
    }
}

proof fn lemma_release_distinct(ids: Seq<u64>, ended: Seq<u64>)
    requires
        ids.no_duplicates(),
    ensures
        release_touches(ids, ended).0.no_duplicates(),
    decreases ended.len(),
{
    if ended.len() > 0 {
        lemma_release_distinct(ids, ended.drop_last());
        let prev = release_touches(ids, ended.drop_last()).0;
        let x = ended.last();
        if prev.contains(x) {
            lemma_first_pos_exists(prev, x);
            let p = choose|p: int| first_pos(prev, x, p);
            let r = swap_removed(prev, p);
            assert forall|a: int, b: int| 0 <= a < r.len() && 0 <= b < r.len() && a != b implies r[a] != r[b] by {
                let last = prev.len() - 1;
                let ia = if a == p { last } else { a };
                let ib = if b == p { last } else { b };
                assert(r[a] == prev[ia]);
                assert(r[b] == prev[ib]);
            }
        }
    }
}

/// An element that occurs has a first position.
proof fn lemma_first_pos_exists(s: Seq<u64>, x: u64)
    requires
        s.contains(x),
    ensures
        exists|p: int| first_pos(s, x, p),
    decreases s.len(),
{
    let init = s.drop_last();
    if init.contains(x) {
        lemma_first_pos_exists(init, x);
        let p = choose|p: int| first_pos(init, x, p);
        assert(s[p] == init[p]);
        assert forall|q: int| 0 <= q < p implies s[q] != x by {
            assert(s[q] == init[q]);
        }
        assert(first_pos(s, x, p));
    } else {
        assert(s.last() == x) by {
            let w = choose|w: int| 0 <= w < s.len() && s[w] == x;
            if w < s.len() - 1 {
                assert(init[w] == x);
            }
        }
        assert forall|q: int| 0 <= q < s.len() - 1 implies s[q] != x by {
            assert(init[q] == s[q]);
        }
        assert(first_pos(s, x, s.len() - 1));
    }
}

proof fn lemma_keep_distinct(ids: Seq<u64>, held: Seq<u64>)
    requires
        ids.no_duplicates(),
    ensures
        keep_held(ids, held).no_duplicates(),
        forall|x: u64| #[trigger] keep_held(ids, held).contains(x) ==> held.contains(x) && ids.contains(x),
    decreases ids.len(),
{
    if ids.len() > 0 {
        let init = ids.drop_last();
        assert(init.no_duplicates());
        lemma_keep_distinct(init, held);
        let k = keep_held(init, held);
        assert forall|x: u64| #[trigger] keep_held(ids, held).contains(x) implies held.contains(x) && ids.contains(x) by {
            if k.contains(x) {
                let w = choose|w: int| 0 <= w < init.len() && init[w] == x;
                assert(ids[w] == x);
            } else {
                assert(x == ids.last());
                assert(ids[ids.len() - 1] == x);
            }
        }
        if held.contains(ids.last()) {
            assert(!k.contains(ids.last())) by {
                if k.contains(ids.last()) {
                    let w = choose|w: int| 0 <= w < init.len() && init[w] == ids.last();
                    assert(ids[w] == ids[ids.len() - 1]);
                }
            }
        }
    }
}

// ---------------------------------------------------------------------------
// Firing
// ---------------------------------------------------------------------------

/// Whether this frame requests a shot: with touch input active, a tracked touch
/// ended off the UI; otherwise a left click off the UI or the space bar.
pub open spec fn spec_fire_pressed(touch_active: bool, touch_fired: bool, over_ui: bool, left_click: bool, space: bool) -> bool {
    if touch_active {
        touch_fired && !over_ui
    } else {
        (left_click && !over_ui) || space
    }
}

/// Decides whether this frame requests a shot.
pub fn fire_pressed(touch_active: bool, touch_fired: bool, over_ui: bool, left_click: bool, space: bool) -> (b: bool)
    ensures
        b == spec_fire_pressed(touch_active, touch_fired, over_ui, left_click, space),
{
    if touch_active {
        touch_fired && !over_ui
    } else {
        (left_click && !over_ui) || space
    }
}

/// Tracks this frame's touches and raises the fire request if the frame asks
/// for a shot (it never lowers it). Touch input is active when a touch is held
/// or has just ended.
pub fn gather_fire_request(
    state: &mut LauncherState,
    touches: &TouchFrame,
    over_ui: bool,
    left_click: bool,
    space: bool,
    fire_requested: &mut bool,
) -> (pressed: bool)
    ensures
        ({
            let added = add_touches(old(state).active_touch_ids@, touches.just_pressed@);
            let released = release_touches(added, touches.just_released@);
            let active = touches.pressed@.len() > 0 || touches.just_released@.len() > 0;
            &&& final(state).active_touch_ids@ == keep_held(released.0, touches.pressed@)
            &&& pressed == spec_fire_pressed(active, released.1, over_ui, left_click, space)
            &&& *final(fire_requested) == (*old(fire_requested) || pressed)
        }),
        final(state).obstructed == old(state).obstructed,
        final(state).cooldown_timer@ == old(state).cooldown_timer@,
{
    let active = touches.pressed.len() > 0 || touches.just_released.len() > 0;
    let fired = track_touches(&mut state.active_touch_ids, touches);
    let pressed = fire_pressed(active, fired, over_ui, left_click, space);
    if pressed {
        *fire_requested = true;
    }
    pressed
}

/// A sphere to launch: its id and tier.
#[derive(Clone, Copy, Debug, PartialEq, Eq, Structural)]
pub struct LaunchPlan {
    pub id: u32,
    pub tier: u8,
}

/// Whether a launch happens this frame: a shot was requested, the cooldown
/// (after this frame's tick) has run out, and no merge is settling.
pub open spec fn launches(cooldown: TimerView, delta_nanos: nat, fire_requested: bool, merge_active: bool) -> bool {
    fire_requested && ticked(cooldown, delta_nanos).finished && !merge_active
}

/// Tells whether a launch happens this frame.
pub fn launches_now(state: &LauncherState, delta_nanos: u64, fire_requested: bool, merge_active: bool) -> (b: bool)
    ensures
        b == launches(state.cooldown_timer@, delta_nanos as nat, fire_requested, merge_active),
{
    let mut peek = state.cooldown_timer;
    peek.tick(delta_nanos);
    fire_requested && peek.is_finished() && !merge_active
}

/// Handles a requested shot with the percentile `roll` for the tier dispensed
/// after it. The cooldown ticks; the request is consumed; if a launch happens,
/// the current sphere (tier 1 without a queue) gets the next id, the queue
/// moves up and draws its next tier, and the cooldown restarts.
pub fn launch_with_roll(
    state: &mut LauncherState,
    queue: &mut Option<DispenserQueue>,
    next_id: &mut NextSphereId,
    fire_requested: &mut bool,
    merge_active: bool,
    delta_nanos: u64,
    roll: u32,
) -> (plan: Option<LaunchPlan>)
    requires
        launches(old(state).cooldown_timer@, delta_nanos as nat, *old(fire_requested), merge_active) ==> old(next_id).0 < u32::MAX,
    ensures
        !*final(fire_requested),
        final(state).obstructed == old(state).obstructed,
        final(state).active_touch_ids@ == old(state).active_touch_ids@,
        if launches(old(state).cooldown_timer@, delta_nanos as nat, *old(fire_requested), merge_active) {
            &&& plan == Some(LaunchPlan {
                id: old(next_id).0,
                tier: match *old(queue) {
                    Some(q) => q.current,
                    None => 1u8,
                },
            })
            &&& final(next_id).0 == old(next_id).0 + 1
            &&& *final(queue) == match *old(queue) {
                Some(q) => Some(DispenserQueue { current: q.next, next: spec_dispensed_tier(roll as int) }),
                None => None,
            }
            &&& final(state).cooldown_timer@ == fresh(old(state).cooldown_timer@.duration)
        } else {
            &&& plan is None
            &&& *final(next_id) == *old(next_id)
            &&& *final(queue) == *old(queue)
            &&& final(state).cooldown_timer@ == ticked(old(state).cooldown_timer@, delta_nanos as nat)
        },
{
    state.cooldown_timer.tick(delta_nanos);
    if *fire_requested {
        *fire_requested = false;
        if state.cooldown_timer.is_finished() && !merge_active {
            let tier = match queue {
                Some(q) => q.current,
                None => 1,
            };
            let id = next_id.0;
            next_id.0 = id + 1;
            match queue {
                Some(q) => {
                    q.current = q.next;
                    q.next = dispensed_tier_for_roll(roll);
                },
                None => {},
            }
            state.cooldown_timer.reset();
            return Some(LaunchPlan { id, tier });
        }
    }
    None
}

/// Handles a requested shot, drawing the tier dispensed after it from the
/// session's generator when (and only when) a sphere is launched and there is a
/// queue. The outcome is the one `launch_with_roll` gives for some roll in `0..100`.
pub fn handle_launch_input(
    state: &mut LauncherState,
    queue: &mut Option<DispenserQueue>,
    next_id: &mut NextSphereId,
    fire_requested: &mut bool,
    merge_active: bool,
    delta_nanos: u64,
    rng: &mut rand::rngs::StdRng,
) -> (plan: Option<LaunchPlan>)
    requires
        launches(old(state).cooldown_timer@, delta_nanos as nat, *old(fire_requested), merge_active) ==> old(next_id).0 < u32::MAX,
    ensures
        !*final(fire_requested),
        final(state).obstructed == old(state).obstructed,
        final(state).active_touch_ids@ == old(state).active_touch_ids@,
        if launches(old(state).cooldown_timer@, delta_nanos as nat, *old(fire_requested), merge_active) {
            &&& plan == Some(LaunchPlan {
                id: old(next_id).0,
                tier: match *old(queue) {
                    Some(q) => q.current,
                    None => 1u8,
                },
            })
            &&& final(next_id).0 == old(next_id).0 + 1
            &&& match *old(queue) {
                Some(q) => exists|roll: int| 0 <= roll < 100 && *final(queue) == Some(DispenserQueue {
                    current: q.next,
                    next: spec_dispensed_tier(roll),
                }),
                None => *final(queue) is None,
            }
            &&& final(state).cooldown_timer@ == fresh(old(state).cooldown_timer@.duration)
        } else {
            &&& plan is None
            &&& *final(next_id) == *old(next_id)
            &&& *final(queue) == *old(queue)
            &&& final(state).cooldown_timer@ == ticked(old(state).cooldown_timer@, delta_nanos as nat)
        },
{
    let roll = if launches_now(state, delta_nanos, *fire_requested, merge_active) && queue.is_some() {
        roll_percent(rng)
    } else {
        0
    };
    launch_with_roll(state, queue, next_id, fire_requested, merge_active, delta_nanos, roll)
}

/// Whether the launcher preview sphere is shown: it is hidden during the first
/// part of an unfinished cooldown, for a smoother spawning feel.
pub fn preview_visible(cooldown: &OnceTimer) -> (visible: bool)
    ensures
        visible == (cooldown@.finished || cooldown@.elapsed >= PREVIEW_HIDE_NANOS),
{
    cooldown.is_finished() || cooldown.elapsed_nanos() >= PREVIEW_HIDE_NANOS
}

/// After a launch restarts the cooldown, a requested shot with no merge
/// settling launches on a later frame exactly when the frame times since the
/// launch (that frame's included) add up to the cooldown's duration.
pub proof fn lemma_cooldown_spacing(duration: nat, deltas: Seq<nat>)
    requires
        deltas.len() > 0,
    ensures
        launches(ticked_all(fresh(duration), deltas.drop_last()), deltas.last(), true, false)
            <==> total(deltas) >= duration,
{
    lemma_ticked_all_is_one_tick(fresh(duration), deltas);
}

} // verus!
