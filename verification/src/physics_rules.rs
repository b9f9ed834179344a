//! Merge rules: which spheres merge, into what, and what it scores.
use crate::core_math::{get_merge_points, merge_points, MAX_TIER};
use crate::game_state::{add_merge_score, Score, SphereInfo};
use crate::nearest::{closest_first, clear_of, lemma_closest_first, pick_closest_first, shares, MergeCandidate};
use crate::timer::{OnceTimer, fresh, ticked};
use vstd::prelude::*;

verus! {

/// How long a freshly merged sphere is kept out of further merges and
/// fulfillment: 0.35 s as the engine stores it (0.35f32 seconds in nanoseconds).
pub const MERGE_COOLDOWN_NANOS: u64 = 349_999_994;

/// Frames a merged parent lingers (without physics) before it is removed.
pub const PARENT_DESPAWN_FRAMES: u32 = 1;

/// Two spheres that should merge.
#[derive(Clone, Copy, Debug, PartialEq, Eq, Structural)]
pub struct MergeEvent {
    pub entity_a: u64,
    pub entity_b: u64,
}

/// A merge to carry out: both parents leave and a sphere of `next_tier` is
/// spawned between them.
#[derive(Clone, Copy, Debug, PartialEq, Eq, Structural)]
pub struct PlannedMerge {
    pub entity_a: u64,
    pub entity_b: u64,
    pub next_tier: u8,
}

/// Countdown during which a freshly merged sphere sits out.
#[derive(Clone, Copy, Debug)]
pub struct MergeCooldown {
    pub timer: OnceTimer,
}

/// Frames left before a merged parent is removed.
#[derive(Clone, Copy, Debug, PartialEq, Eq, Structural)]
pub struct DespawnDelay {
    pub frames: u32,
}

/// Whether `i` is the first position of `entity` in `spheres`.
pub open spec fn first_of(spheres: Seq<SphereInfo>, entity: u64, i: int) -> bool {
    &&& 0 <= i < spheres.len()
    &&& spheres[i].entity == entity
    &&& forall|j: int| 0 <= j < i ==> spheres[j].entity != entity
}

/// The tier of `entity` in `spheres` (its first entry), if it is there.
pub open spec fn tier_of(spheres: Seq<SphereInfo>, entity: u64) -> Option<u8> {
    if exists|i: int| first_of(spheres, entity, i) {
        Some(spheres[choose|i: int| first_of(spheres, entity, i)].tier)
    } else {
        None
    }
}

/// Looks up the tier of `entity` among `spheres`.
pub fn find_tier(spheres: &Vec<SphereInfo>, entity: u64) -> (tier: Option<u8>)
    ensures
        tier == tier_of(spheres@, entity),
{
    let n = spheres.len();
    let mut i: usize = 0;
    while i < n
        invariant
            n == spheres@.len(),
            0 <= i <= n,
            forall|j: int| 0 <= j < i ==> spheres@[j].entity != entity,
        decreases n - i,
    {
        if spheres[i].entity == entity {
            assert(first_of(spheres@, entity, i as int));
            let ghost k = choose|k: int| first_of(spheres@, entity, k);
            assert(k == i as int) by {
                if k < i {
                    assert(spheres@[k].entity != entity);
                } else if k > i {
                    assert(spheres@[i as int].entity != entity);
                }
            }
            return Some(spheres[i].tier);
        }
        i = i + 1;
    }
    assert(!exists|k: int| first_of(spheres@, entity, k));
    None
}

// ---------------------------------------------------------------------------
// Collisions
// ---------------------------------------------------------------------------

/// Whether a started collision between `a` and `b` is a merge: both are
/// eligible spheres and their tiers are equal.
pub open spec fn collision_merges(a: u64, b: u64, eligible: Seq<SphereInfo>) -> bool {
    tier_of(eligible, a) is Some && tier_of(eligible, b) is Some && tier_of(eligible, a) == tier_of(eligible, b)
}

/// The merge events of a run of started collisions, in order.
pub open spec fn collision_events(started: Seq<(u64, u64)>, eligible: Seq<SphereInfo>) -> Seq<MergeEvent>
    decreases started.len(),
{
    if started.len() == 0 {
        seq![]
    } else {
        let prev = collision_events(started.drop_last(), eligible);
        let (a, b) = started.last();
        if collision_merges(a, b, eligible) {
            prev.push(MergeEvent { entity_a: a, entity_b: b })
        } else {
            prev
        }
    }
}

/// Whether `eligible` has an entry for `a` and an entry for `b` with the same tier.
pub open spec fn eligible_same_tier(eligible: Seq<SphereInfo>, a: u64, b: u64) -> bool {
    exists|i: int, j: int|
        0 <= i < eligible.len() && 0 <= j < eligible.len() && #[trigger] eligible[i].entity == a
            && #[trigger] eligible[j].entity == b && eligible[i].tier == eligible[j].tier
}

/// Every merge event of a run of collisions is one of the started collisions,
/// and both of its spheres are eligible with the same tier (a collision of
/// which a sphere is not eligible gives no event); and every started collision
/// of two eligible spheres of the same tier gives an event.
pub proof fn lemma_collision_events(started: Seq<(u64, u64)>, eligible: Seq<SphereInfo>)
    ensures
        forall|k: int| 0 <= k < collision_events(started, eligible).len() ==> {
            let ev = #[trigger] collision_events(started, eligible)[k];
            &&& started.contains((ev.entity_a, ev.entity_b))
            &&& eligible_same_tier(eligible, ev.entity_a, ev.entity_b)
        },
        forall|s: int| 0 <= s < started.len() && tier_of(eligible, (#[trigger] started[s]).0) is Some
            && tier_of(eligible, started[s].0) == tier_of(eligible, started[s].1)
            ==> collision_events(started, eligible).contains(MergeEvent { entity_a: started[s].0, entity_b: started[s].1 }),
    decreases started.len(),
{
    if started.len() > 0 {
        let init = started.drop_last();
        lemma_collision_events(init, eligible);
        let prev = collision_events(init, eligible);
        let cur = collision_events(started, eligible);
        let (a, b) = started.last();
        assert forall|k: int| 0 <= k < cur.len() implies {
            let ev = #[trigger] cur[k];
            &&& started.contains((ev.entity_a, ev.entity_b))
            &&& eligible_same_tier(eligible, ev.entity_a, ev.entity_b)
        } by {
            if k < prev.len() {
                assert(cur[k] == prev[k]);
                let ev = prev[k];
                let w = choose|w: int| 0 <= w < init.len() && init[w] == (ev.entity_a, ev.entity_b);
                assert(started[w] == init[w]);
            } else {
                assert(collision_merges(a, b, eligible));
                assert(cur[k] == MergeEvent { entity_a: a, entity_b: b });
                assert(started[started.len() - 1] == (a, b));
                let i = choose|i: int| first_of(eligible, a, i);
                let j = choose|j: int| first_of(eligible, b, j);
                assert(eligible[i].entity == a && eligible[j].entity == b);
                assert(eligible[i].tier == eligible[j].tier);
                assert(eligible_same_tier(eligible, a, b));
            }
        }
        assert forall|q: int| 0 <= q < started.len() && tier_of(eligible, (#[trigger] started[q]).0) is Some
            && tier_of(eligible, started[q].0) == tier_of(eligible, started[q].1)
            implies cur.contains(MergeEvent { entity_a: started[q].0, entity_b: started[q].1 }) by {
            let ev = MergeEvent { entity_a: started[q].0, entity_b: started[q].1 };
            if q < init.len() {
                assert(init[q] == started[q]);
                assert(prev.contains(ev));
                let w = choose|w: int| 0 <= w < prev.len() && prev[w] == ev;
                if collision_merges(a, b, eligible) {
                    assert(cur[w] == prev[w]);
                } else {
                    assert(cur == prev);
                }
            } else {
                assert(started[q] == (a, b));
                assert(collision_merges(a, b, eligible));
                assert(cur[prev.len() as int] == ev);
            }
        }
    }
}

/// Turns started collisions between two eligible spheres (not merging, not
/// despawning, not fulfilling) of equal tier into merge events, in order.
pub fn detect_collisions(started: &Vec<(u64, u64)>, eligible: &Vec<SphereInfo>) -> (events: Vec<MergeEvent>)
    ensures
        events@ == collision_events(started@, eligible@),
        forall|k: int| 0 <= k < events@.len() ==> started@.contains((#[trigger] events@[k].entity_a, events@[k].entity_b))
            && eligible_same_tier(eligible@, events@[k].entity_a, events@[k].entity_b),
        forall|s: int| 0 <= s < started@.len() && tier_of(eligible@, (#[trigger] started@[s]).0) is Some
            && tier_of(eligible@, started@[s].0) == tier_of(eligible@, started@[s].1)
            ==> events@.contains(MergeEvent { entity_a: started@[s].0, entity_b: started@[s].1 }),
{
    proof {
        lemma_collision_events(started@, eligible@);
    }
    let mut events: Vec<MergeEvent> = Vec::new();
    let n = started.len();
    let mut i: usize = 0;
    while i < n
        invariant
            n == started@.len(),
            0 <= i <= n,
            events@ == collision_events(started@.take(i as int), eligible@),
        decreases n - i,
    {
        let (a, b) = started[i];
        assert(started@.take(i + 1).drop_last() == started@.take(i as int));
        let ta = find_tier(eligible, a);
        let tb = find_tier(eligible, b);
        match (ta, tb) {
            (Some(x), Some(y)) => {
                if x == y {
                    events.push(MergeEvent { entity_a: a, entity_b: b });
                }
            },
            _ => {},
        }
        i = i + 1;
    }
    assert(started@.take(n as int) == started@);
    events
}

// ---------------------------------------------------------------------------
// Merge resolution
// ---------------------------------------------------------------------------

/// Whether candidate `c` can merge at all: both spheres exist with the same
/// tier, and that tier is below the top tier.
pub open spec fn mergeable(c: MergeCandidate, spheres: Seq<SphereInfo>) -> bool {
    &&& tier_of(spheres, c.entity_a) is Some
    &&& tier_of(spheres, c.entity_a) == tier_of(spheres, c.entity_b)
    &&& tier_of(spheres, c.entity_a)->0 < MAX_TIER
}

/// The mergeable candidates, in their order.
pub open spec fn mergeable_candidates(cands: Seq<MergeCandidate>, spheres: Seq<SphereInfo>) -> Seq<MergeCandidate>
    decreases cands.len(),
{
    if cands.len() == 0 {
        seq![]
    } else {
        let prev = mergeable_candidates(cands.drop_last(), spheres);
        if mergeable(cands.last(), spheres) {
            prev.push(cands.last())
        } else {
            prev
        }
    }
}

/// The merges of a frame, closest first: the mergeable candidates paired
/// closest first (see `closest_first`).
pub open spec fn chosen_merges(cands: Seq<MergeCandidate>, spheres: Seq<SphereInfo>) -> Seq<MergeCandidate> {
    closest_first(mergeable_candidates(cands, spheres))
}

/// The merge that candidate `c` leads to: a sphere of the next tier.
pub open spec fn plan_of(c: MergeCandidate, spheres: Seq<SphereInfo>) -> PlannedMerge {
    PlannedMerge { entity_a: c.entity_a, entity_b: c.entity_b, next_tier: (tier_of(spheres, c.entity_a)->0 + 1) as u8 }
}

/// The merges planned for a frame, in the order they are chosen.
pub open spec fn merge_plans(cands: Seq<MergeCandidate>, spheres: Seq<SphereInfo>) -> Seq<PlannedMerge> {
    chosen_merges(cands, spheres).map_values(|c: MergeCandidate| plan_of(c, spheres))
}

/// Points that a run of planned merges scores.
pub open spec fn plans_points(plans: Seq<PlannedMerge>) -> int
    decreases plans.len(),
{
    if plans.len() == 0 {
        0
    } else {
        plans_points(plans.drop_last()) + merge_points(plans.last().next_tier as int)
    }
}

/// The peak tier after a run of planned merges, starting from `peak`.
pub open spec fn plans_peak(peak: u8, plans: Seq<PlannedMerge>) -> u8
    decreases plans.len(),
{
    if plans.len() == 0 {
        peak
    } else {
        let p = plans_peak(peak, plans.drop_last());
        if plans.last().next_tier > p {
            plans.last().next_tier
        } else {
            p
        }
    }
}

/// Whether some planned merge reaches the top tier.
pub open spec fn plans_win(plans: Seq<PlannedMerge>) -> bool {
    exists|k: int| 0 <= k < plans.len() && #[trigger] plans[k].next_tier == MAX_TIER
}

/// A frame's merges win the game exactly when one of them produces a sphere
/// of tier 9; a merge into tier 8 or below never does.
pub proof fn lemma_win_is_top_tier(plans: Seq<PlannedMerge>)
    ensures
        plans_win(plans) == exists|k: int| 0 <= k < plans.len() && #[trigger] plans[k].next_tier == 9,
{
}

/// Whether `v` holds `x`.
pub fn contains_entity(v: &Vec<u64>, x: u64) -> (b: bool)
    ensures
        b == v@.contains(x),
{
    let n = v.len();
    let mut i: usize = 0;
    while i < n
        invariant
            n == v@.len(),
            0 <= i <= n,
            forall|j: int| 0 <= j < i ==> v@[j] != x,
        decreases n - i,
    {
        if v[i] == x {
            assert(v@[i as int] == x);
            return true;
        }
        i = i + 1;
    }
    false
}

proof fn lemma_mergeable_candidates(cands: Seq<MergeCandidate>, spheres: Seq<SphereInfo>)
    ensures
        forall|k: int| 0 <= k < mergeable_candidates(cands, spheres).len() ==> {
            &&& mergeable(#[trigger] mergeable_candidates(cands, spheres)[k], spheres)
            &&& cands.contains(mergeable_candidates(cands, spheres)[k])
        },
        forall|i: int| 0 <= i < cands.len() && mergeable(#[trigger] cands[i], spheres)
            ==> mergeable_candidates(cands, spheres).contains(cands[i]),
    decreases cands.len(),
{
    if cands.len() > 0 {
        let init = cands.drop_last();
        lemma_mergeable_candidates(init, spheres);
        let prev = mergeable_candidates(init, spheres);
        let cur = mergeable_candidates(cands, spheres);
        assert forall|k: int| 0 <= k < cur.len() implies {
            &&& mergeable(#[trigger] cur[k], spheres)
            &&& cands.contains(cur[k])
        } by {
            if k < prev.len() {
                assert(cur[k] == prev[k]);
                let w = choose|w: int| 0 <= w < init.len() && init[w] == prev[k];
                assert(cands[w] == init[w]);
            } else {
                assert(cur[k] == cands.last());
                assert(cands[cands.len() - 1] == cands.last());
            }
        }
        assert forall|i: int| 0 <= i < cands.len() && mergeable(#[trigger] cands[i], spheres)
            implies cur.contains(cands[i]) by {
            if i < init.len() {
                assert(init[i] == cands[i]);
                assert(prev.contains(cands[i]));
                let w = choose|w: int| 0 <= w < prev.len() && prev[w] == cands[i];
                assert(cur[w] == prev[w]);
            } else {
                assert(cur[prev.len() as int] == cands[i]);
            }
        }
    }
}

/// The mergeable candidates among `cands`, in their order.
pub fn filter_mergeable(cands: &Vec<MergeCandidate>, spheres: &Vec<SphereInfo>) -> (kept: Vec<MergeCandidate>)
    ensures
        kept@ == mergeable_candidates(cands@, spheres@),
{
    let mut kept: Vec<MergeCandidate> = Vec::new();
    let n = cands.len();
    let mut i: usize = 0;
    while i < n
        invariant
            n == cands@.len(),
            0 <= i <= n,
            kept@ == mergeable_candidates(cands@.take(i as int), spheres@),
        decreases n - i,
    {
        let c = cands[i];
        assert(cands@.take(i + 1).drop_last() == cands@.take(i as int));
        assert(cands@.take(i + 1).last() == c);
        match (find_tier(spheres, c.entity_a), find_tier(spheres, c.entity_b)) {
            (Some(x), Some(y)) => {
                if x == y && x < MAX_TIER {
                    kept.push(c);
                }
            },
            _ => {},
        }
        i = i + 1;
    }
    assert(cands@.take(n as int) == cands@);
    kept
}

/// Works out the frame's merges from the candidate pairs (collisions and
/// resting contacts, each with its distance). A candidate can merge when both
/// spheres exist (in `spheres`) with the same tier and that tier is below the
/// top tier; of those, the closest pair whose spheres are both still free
/// merges first, then the closest of the rest, and so on (the earliest among
/// equally close pairs). Each merge plans a sphere of the next tier. Also says
/// whether a planned merge reaches the top tier.
pub fn plan_merges(candidates: &Vec<MergeCandidate>, spheres: &Vec<SphereInfo>) -> (r: (Vec<PlannedMerge>, bool))
    ensures
        r.0@ == merge_plans(candidates@, spheres@),
        r.1 == plans_win(r.0@),
        r.1 == exists|k: int| 0 <= k < r.0@.len() && #[trigger] r.0@[k].next_tier == 9,
{
    let eligible = filter_mergeable(candidates, spheres);
    let chosen = pick_closest_first(&eligible);
    proof {
        lemma_mergeable_candidates(candidates@, spheres@);
        lemma_closest_first(eligible@);
    }
    let mut plans: Vec<PlannedMerge> = Vec::new();
    let mut win = false;
    let n = chosen.len();
    let mut k: usize = 0;
    while k < n
        invariant
            n == chosen@.len(),
            chosen@ == chosen_merges(candidates@, spheres@),
            eligible@ == mergeable_candidates(candidates@, spheres@),
            forall|q: int| 0 <= q < n ==> eligible@.contains(#[trigger] chosen@[q]),
            forall|q: int| 0 <= q < eligible@.len() ==> mergeable(#[trigger] eligible@[q], spheres@),
            0 <= k <= n,
            plans@.len() == k,
            forall|q: int| 0 <= q < k ==> #[trigger] plans@[q] == plan_of(chosen@[q], spheres@),
            win == plans_win(plans@),
        decreases n - k,
    {
        let c = chosen[k];
        proof {
            assert(eligible@.contains(chosen@[k as int]));
            let w = choose|w: int| 0 <= w < eligible@.len() && eligible@[w] == c;
            assert(mergeable(eligible@[w], spheres@));
        }
        let ghost before = plans@;
        match find_tier(spheres, c.entity_a) {
            Some(x) => {
                let next_tier = x + 1;
                plans.push(PlannedMerge { entity_a: c.entity_a, entity_b: c.entity_b, next_tier });
                if next_tier == MAX_TIER {
                    win = true;
                }
                proof {
                    let last = plans@.len() - 1;
                    assert(plans@[last] == plan_of(c, spheres@));
                    assert forall|q: int| 0 <= q < before.len() implies plans@[q] == before[q] by {}
                    if win {
                        if next_tier == MAX_TIER {
                            assert(plans@[last].next_tier == MAX_TIER);
                        } else {
                            let w = choose|w: int| 0 <= w < before.len() && #[trigger] before[w].next_tier == MAX_TIER;
                            assert(plans@[w] == before[w]);
                        }
                    } else {
                        assert forall|w: int| 0 <= w < plans@.len() implies #[trigger] plans@[w].next_tier != MAX_TIER by {
                            if w < last {
                                assert(plans@[w] == before[w]);
                            }
                        }
                    }
                }
            },
            None => {},
        }
        k = k + 1;
    }
    assert(plans@ =~= merge_plans(candidates@, spheres@));
    proof {
        lemma_win_is_top_tier(plans@);
    }
    (plans, win)
}

/// The points that a run of planned merges scores.
pub fn planned_points(plans: &Vec<PlannedMerge>) -> (points: u64)
    requires
        plans@.len() <= u32::MAX,
    ensures
        points == plans_points(plans@),
{
    let mut points: u64 = 0;
    let n = plans.len();
    let mut i: usize = 0;
    while i < n
        invariant
            n == plans@.len(),
            n <= u32::MAX,
            0 <= i <= n,
            points == plans_points(plans@.take(i as int)),
            points <= 25500 * i,
        decreases n - i,
    {
        assert(plans@.take(i + 1).drop_last() == plans@.take(i as int));
        points = points + get_merge_points(plans[i].next_tier) as u64;
        i = i + 1;
    }
    assert(plans@.take(n as int) == plans@);
    points
}

/// Resolves the frame's merge candidates: plans the merges closest first (see
/// `plan_merges`) and credits each in order, its points added and the peak tier
/// raised. Returns the merges to carry out and whether one reached the top
/// tier, which wins the game.
pub fn resolve_merges(candidates: &Vec<MergeCandidate>, spheres: &Vec<SphereInfo>, score: &mut Score) -> (r: (Vec<PlannedMerge>, bool))
    requires
        old(score).total + plans_points(merge_plans(candidates@, spheres@)) <= u32::MAX,
    ensures
        r.0@ == merge_plans(candidates@, spheres@),
        r.1 == plans_win(r.0@),
        r.1 == exists|k: int| 0 <= k < r.0@.len() && #[trigger] r.0@[k].next_tier == 9,
        final(score).total == old(score).total + plans_points(r.0@),
        final(score).peak_tier == plans_peak(old(score).peak_tier, r.0@),
        final(score).completed_orders == old(score).completed_orders,
{
    let (plans, win) = plan_merges(candidates, spheres);
    let n = plans.len();
    let mut i: usize = 0;
    while i < n
        invariant
            n == plans@.len(),
            0 <= i <= n,
            score.total == old(score).total + plans_points(plans@.take(i as int)),
            score.peak_tier == plans_peak(old(score).peak_tier, plans@.take(i as int)),
            score.completed_orders == old(score).completed_orders,
            old(score).total + plans_points(plans@) <= u32::MAX,
        decreases n - i,
    {
        assert(plans@.take(i + 1).drop_last() == plans@.take(i as int));
        assert(plans@.take(i + 1).last() == plans@[i as int]);
        proof {
            lemma_points_prefix(plans@, i as int + 1);
        }
        add_merge_score(score, plans[i].next_tier);
        i = i + 1;
    }
    assert(plans@.take(n as int) == plans@);
    (plans, win)
}

/// The points of a prefix of planned merges never exceed those of all of them.
proof fn lemma_points_prefix(plans: Seq<PlannedMerge>, i: int)
    requires
        0 <= i <= plans.len(),
    ensures
        plans_points(plans.take(i)) <= plans_points(plans),
    decreases plans.len() - i,
{
    if i < plans.len() {
        lemma_points_prefix(plans, i + 1);
        assert(plans.take(i + 1).drop_last() == plans.take(i));
    } else {
        assert(plans.take(i) == plans);
    }
}

/// Whether entity `e` is a parent of `p`.
pub open spec fn plan_has(p: PlannedMerge, e: u64) -> bool {
    p.entity_a == e || p.entity_b == e
}

/// Whether candidate `c` has no sphere in common with the first `k` merges.
pub open spec fn clear_of_merges(c: MergeCandidate, plans: Seq<PlannedMerge>, k: int) -> bool {
    forall|l: int| 0 <= l < k ==> !plan_has(#[trigger] plans[l], c.entity_a) && !plan_has(plans[l], c.entity_b)
}

/// The merges of a frame, closest first: no sphere merges twice; each merge
/// joins the two spheres of a candidate, both of one tier below the top tier,
/// into a sphere of the next tier; each merge is at least as close as every
/// mergeable candidate that shares no sphere with the merges before it; and
/// every mergeable candidate shares a sphere with some merge.
#[verifier::rlimit(80)]
pub proof fn lemma_merges_closest_first(cands: Seq<MergeCandidate>, spheres: Seq<SphereInfo>)
    ensures
        merge_plans(cands, spheres).len() == chosen_merges(cands, spheres).len(),
        forall|k: int, l: int, e: u64|
            0 <= l < k < merge_plans(cands, spheres).len()
                && #[trigger] plan_has(merge_plans(cands, spheres)[l], e)
                ==> !#[trigger] plan_has(merge_plans(cands, spheres)[k], e),
        forall|k: int| 0 <= k < merge_plans(cands, spheres).len() ==> {
            let c = #[trigger] chosen_merges(cands, spheres)[k];
            let p = merge_plans(cands, spheres)[k];
            &&& cands.contains(c)
            &&& p.entity_a == c.entity_a && p.entity_b == c.entity_b
            &&& tier_of(spheres, p.entity_a) is Some
            &&& tier_of(spheres, p.entity_a) == tier_of(spheres, p.entity_b)
            &&& tier_of(spheres, p.entity_a)->0 < 9
            &&& p.next_tier == tier_of(spheres, p.entity_a)->0 + 1
        },
        forall|k: int, i: int|
            0 <= k < merge_plans(cands, spheres).len() && 0 <= i < cands.len()
                && tier_of(spheres, (#[trigger] cands[i]).entity_a) is Some
                && tier_of(spheres, cands[i].entity_a) == tier_of(spheres, cands[i].entity_b)
                && tier_of(spheres, cands[i].entity_a)->0 < 9
                && clear_of_merges(cands[i], merge_plans(cands, spheres), k)
                ==> cands[i].distance >= (#[trigger] chosen_merges(cands, spheres)[k]).distance,
        forall|i: int| 0 <= i < cands.len() && tier_of(spheres, (#[trigger] cands[i]).entity_a) is Some
                && tier_of(spheres, cands[i].entity_a) == tier_of(spheres, cands[i].entity_b)
                && tier_of(spheres, cands[i].entity_a)->0 < 9
            ==> exists|k: int| 0 <= k < merge_plans(cands, spheres).len()
                && (plan_has(#[trigger] merge_plans(cands, spheres)[k], cands[i].entity_a)
                    || plan_has(merge_plans(cands, spheres)[k], cands[i].entity_b)),
{
    let q = chosen_merges(cands, spheres);
    let p = merge_plans(cands, spheres);
    lemma_chosen_merges(cands, spheres);
    assert forall|k: int| 0 <= k < q.len() implies #[trigger] p[k] == plan_of(q[k], spheres) by {}
    assert forall|k: int, l: int, e: u64| 0 <= l < k < p.len() && #[trigger] plan_has(p[l], e)
        implies !#[trigger] plan_has(p[k], e) by {
        assert(p[k] == plan_of(q[k], spheres));
        assert(p[l] == plan_of(q[l], spheres));
        assert(!shares(q[k], q[l]));
    }
    assert forall|k: int, i: int|
        0 <= k < p.len() && 0 <= i < cands.len() && tier_of(spheres, (#[trigger] cands[i]).entity_a) is Some
            && tier_of(spheres, cands[i].entity_a) == tier_of(spheres, cands[i].entity_b)
            && tier_of(spheres, cands[i].entity_a)->0 < 9
            && clear_of_merges(cands[i], p, k)
        implies cands[i].distance >= (#[trigger] q[k]).distance by {
        assert forall|l: int| 0 <= l < k implies !shares(cands[i], #[trigger] q[l]) by {
            assert(p[l] == plan_of(q[l], spheres));
            assert(!plan_has(p[l], cands[i].entity_a) && !plan_has(p[l], cands[i].entity_b));
        }
        assert(clear_of(cands[i], q, k));
    }
    assert forall|i: int| 0 <= i < cands.len() && tier_of(spheres, (#[trigger] cands[i]).entity_a) is Some
            && tier_of(spheres, cands[i].entity_a) == tier_of(spheres, cands[i].entity_b)
            && tier_of(spheres, cands[i].entity_a)->0 < 9
        implies exists|k: int| 0 <= k < p.len()
            && (plan_has(#[trigger] p[k], cands[i].entity_a) || plan_has(p[k], cands[i].entity_b)) by {
        let k = choose|k: int| 0 <= k < q.len() && shares(cands[i], #[trigger] q[k]);
        assert(p[k] == plan_of(q[k], spheres));
        assert(plan_has(p[k], cands[i].entity_a) || plan_has(p[k], cands[i].entity_b));
    }
}

/// The frame's merges as closest-first pairing gives them, stated of the
/// candidates: each is a mergeable candidate, no two share a sphere, each is at
/// least as close as every mergeable candidate clear of the merges before it,
/// and every mergeable candidate shares a sphere with one of them.
proof fn lemma_chosen_merges(cands: Seq<MergeCandidate>, spheres: Seq<SphereInfo>)
    ensures
        forall|k: int| 0 <= k < chosen_merges(cands, spheres).len()
            ==> mergeable(#[trigger] chosen_merges(cands, spheres)[k], spheres) && cands.contains(chosen_merges(cands, spheres)[k]),
        forall|k: int, l: int| 0 <= l < k < chosen_merges(cands, spheres).len()
            ==> !shares(#[trigger] chosen_merges(cands, spheres)[k], #[trigger] chosen_merges(cands, spheres)[l]),
        forall|k: int, i: int| 0 <= k < chosen_merges(cands, spheres).len() && 0 <= i < cands.len()
            && mergeable(#[trigger] cands[i], spheres) && clear_of(cands[i], chosen_merges(cands, spheres), k)
            ==> cands[i].distance >= (#[trigger] chosen_merges(cands, spheres)[k]).distance,
        forall|i: int| 0 <= i < cands.len() && mergeable(#[trigger] cands[i], spheres)
            ==> exists|k: int| 0 <= k < chosen_merges(cands, spheres).len()
                && shares(cands[i], #[trigger] chosen_merges(cands, spheres)[k]),
{
    let m = mergeable_candidates(cands, spheres);
    let q = chosen_merges(cands, spheres);
    lemma_mergeable_candidates(cands, spheres);
    lemma_closest_first(m);
    assert forall|k: int| 0 <= k < q.len() implies mergeable(#[trigger] q[k], spheres) && cands.contains(q[k]) by {
        assert(m.contains(q[k]));
        let w = choose|w: int| 0 <= w < m.len() && m[w] == q[k];
        assert(mergeable(m[w], spheres));
        assert(cands.contains(m[w]));
    }
    assert forall|k: int, i: int| 0 <= k < q.len() && 0 <= i < cands.len()
        && mergeable(#[trigger] cands[i], spheres) && clear_of(cands[i], q, k)
        implies cands[i].distance >= (#[trigger] q[k]).distance by {
        assert(m.contains(cands[i]));
        let w = choose|w: int| 0 <= w < m.len() && m[w] == cands[i];
        assert(clear_of(m[w], q, k));
    }
    assert forall|i: int| 0 <= i < cands.len() && mergeable(#[trigger] cands[i], spheres)
        implies exists|k: int| 0 <= k < q.len() && shares(cands[i], #[trigger] q[k]) by {
        assert(m.contains(cands[i]));
        let w = choose|w: int| 0 <= w < m.len() && m[w] == cands[i];
        let k = choose|k: int| 0 <= k < q.len() && shares(#[trigger] m[w], #[trigger] q[k]);
        assert(shares(cands[i], q[k]));
    }
}


/// A frame's merges score the points of the tiers they produce, raise the peak
/// tier to the highest of them, and win the game exactly when one of them
/// reaches the top tier.
pub proof fn lemma_merge_score(peak: u8, plans: Seq<PlannedMerge>)
    ensures
        plans_points(plans) == 100 * tiers_sum(plans),
        plans_peak(peak, plans) >= peak,
        forall|k: int| 0 <= k < plans.len() ==> plans_peak(peak, plans) >= #[trigger] plans[k].next_tier,
        plans_peak(peak, plans) == peak || exists|k: int| 0 <= k < plans.len() && plans_peak(peak, plans) == #[trigger] plans[k].next_tier,
    decreases plans.len(),
{
    if plans.len() > 0 {
        let init = plans.drop_last();
        lemma_merge_score(peak, init);
        assert forall|k: int| 0 <= k < plans.len() implies plans_peak(peak, plans) >= #[trigger] plans[k].next_tier by {
            if k < init.len() {
                assert(plans[k] == init[k]);
            }
        }
        if plans_peak(peak, plans) != peak {
            if plans_peak(peak, plans) == plans.last().next_tier {
                assert(plans[plans.len() - 1] == plans.last());
            } else {
                let k = choose|k: int| 0 <= k < init.len() && plans_peak(peak, init) == #[trigger] init[k].next_tier;
                assert(plans[k] == init[k]);
            }
        }
    }
}

/// Sum of the tiers that a run of planned merges produces.
pub open spec fn tiers_sum(plans: Seq<PlannedMerge>) -> int
    decreases plans.len(),
{
    if plans.len() == 0 {
        0
    } else {
        tiers_sum(plans.drop_last()) + plans.last().next_tier
    }
}

// ---------------------------------------------------------------------------
// Proximity merges
// ---------------------------------------------------------------------------
/// Whether spheres `i` and `j` may merge by resting contact: the same tier,
/// and `reach[i][j]` gives their distance (they are within reach).
pub open spec fn near_pair(spheres: Seq<SphereInfo>, reach: Seq<Seq<Option<u32>>>, i: int, j: int) -> bool {
    spheres[i].tier == spheres[j].tier && reach[i][j] is Some
}

/// The candidate of spheres `i` and `j`, with their distance.
pub open spec fn pair_candidate(spheres: Seq<SphereInfo>, reach: Seq<Seq<Option<u32>>>, i: int, j: int) -> MergeCandidate {
    MergeCandidate { entity_a: spheres[i].entity, entity_b: spheres[j].entity, distance: reach[i][j]->0 }
}

/// The candidates of the pairs that come before `(i, j)`, pairs ordered by
/// first index and then by second index (`j == i + 1` is the start of row `i`).
pub open spec fn near_candidates(spheres: Seq<SphereInfo>, reach: Seq<Seq<Option<u32>>>, i: nat, j: nat) -> Seq<MergeCandidate>
    decreases i, j,
{
    if j <= i + 1 {
        if i == 0 {
            seq![]
        } else {
            near_candidates(spheres, reach, (i - 1) as nat, spheres.len())
        }
    } else {
        let prev = near_candidates(spheres, reach, i, (j - 1) as nat);
        if near_pair(spheres, reach, i as int, j - 1) {
            prev.push(pair_candidate(spheres, reach, i as int, j - 1))
        } else {
            prev
        }
    }
}

/// The candidates of all pairs `i < j`.
pub open spec fn all_near_candidates(spheres: Seq<SphereInfo>, reach: Seq<Seq<Option<u32>>>) -> Seq<MergeCandidate> {
    near_candidates(spheres, reach, spheres.len(), spheres.len() + 1)
}

/// The resting-contact merges of a frame: the near pairs, closest first.
pub open spec fn proximity_merges(spheres: Seq<SphereInfo>, reach: Seq<Seq<Option<u32>>>) -> Seq<MergeCandidate> {
    closest_first(all_near_candidates(spheres, reach))
}

/// The rows of a matrix as sequences.
pub open spec fn rows(reach: Seq<Vec<Option<u32>>>) -> Seq<Seq<Option<u32>>> {
    reach.map_values(|row: Vec<Option<u32>>| row@)
}

/// Whether `c` names spheres `i < j` of the same tier whose distance
/// `reach[i][j]` is the distance of `c`.
pub open spec fn same_tier_in_reach(spheres: Seq<SphereInfo>, reach: Seq<Seq<Option<u32>>>, c: MergeCandidate) -> bool {
    exists|i: int, j: int|
        0 <= i < j < spheres.len() && #[trigger] spheres[i].entity == c.entity_a && #[trigger] spheres[j].entity == c.entity_b
            && spheres[i].tier == spheres[j].tier && reach[i][j] == Some(c.distance)
}

/// Every resting-contact pair joins two spheres of the same tier that are
/// within reach of each other, at the distance the reach matrix gives; every
/// two spheres `i < j` of the same tier within reach have a sphere paired; and
/// each pair is at least as close as every such two spheres of which neither
/// is in an earlier pair.
pub proof fn lemma_proximity_same_tier(spheres: Seq<SphereInfo>, reach: Seq<Seq<Option<u32>>>)
    ensures
        forall|k: int| 0 <= k < proximity_merges(spheres, reach).len()
            ==> same_tier_in_reach(spheres, reach, #[trigger] proximity_merges(spheres, reach)[k]),
        forall|i: int, j: int| 0 <= i < j < spheres.len() && (#[trigger] spheres[i]).tier == (#[trigger] spheres[j]).tier
            && reach[i][j] is Some
            ==> exists|k: int| 0 <= k < proximity_merges(spheres, reach).len()
                && shares(pair_candidate(spheres, reach, i, j), #[trigger] proximity_merges(spheres, reach)[k]),
        forall|k: int, i: int, j: int| 0 <= k < proximity_merges(spheres, reach).len() && 0 <= i < j < spheres.len()
            && (#[trigger] spheres[i]).tier == (#[trigger] spheres[j]).tier && reach[i][j] is Some
            && clear_of(pair_candidate(spheres, reach, i, j), proximity_merges(spheres, reach), k)
            ==> reach[i][j]->0 >= (#[trigger] proximity_merges(spheres, reach)[k]).distance,
{
    lemma_proximity_merges(spheres, reach);
    let e = proximity_merges(spheres, reach);
    assert forall|i: int, j: int| 0 <= i < j < spheres.len() && (#[trigger] spheres[i]).tier == (#[trigger] spheres[j]).tier
        && reach[i][j] is Some
        implies exists|k: int| 0 <= k < e.len() && shares(pair_candidate(spheres, reach, i, j), #[trigger] e[k]) by {
        assert(near_pair(spheres, reach, i, j));
    }
    assert forall|k: int, i: int, j: int| 0 <= k < e.len() && 0 <= i < j < spheres.len()
        && (#[trigger] spheres[i]).tier == (#[trigger] spheres[j]).tier && reach[i][j] is Some
        && clear_of(pair_candidate(spheres, reach, i, j), e, k)
        implies reach[i][j]->0 >= (#[trigger] e[k]).distance by {
        assert(near_pair(spheres, reach, i, j));
    }
    assert forall|k: int| 0 <= k < e.len() implies same_tier_in_reach(spheres, reach, #[trigger] e[k]) by {
        assert(from_near_pair(spheres, reach, e[k]));
        let (i, j) = choose|i: int, j: int|
            0 <= i < j < spheres.len() && near_pair(spheres, reach, i, j) && e[k] == #[trigger] pair_candidate(spheres, reach, i, j);
        assert(spheres[i].entity == e[k].entity_a && spheres[j].entity == e[k].entity_b);
        assert(spheres[i].tier == spheres[j].tier);
        assert(reach[i][j] == Some(e[k].distance));
    }
}

/// Pairs up touching spheres of equal tier as a fallback for resting contacts.
/// `reach[i][j]` gives the distance of spheres `i` and `j` when they are within
/// reach of each other, and nothing otherwise. Of the pairs `i < j` of equal
/// tier within reach, the closest pair whose spheres are both still free is
/// paired first, then the closest of the rest, and so on (the earliest, in
/// order of `i` and then `j`, among equally close pairs).
pub fn check_distance_merges(spheres: &Vec<SphereInfo>, reach: &Vec<Vec<Option<u32>>>) -> (events: Vec<MergeCandidate>)
    requires
        reach@.len() == spheres@.len(),
        forall|i: int| 0 <= i < reach@.len() ==> #[trigger] reach@[i]@.len() == spheres@.len(),
    ensures
        events@ == proximity_merges(spheres@, rows(reach@)),
        forall|k: int| 0 <= k < events@.len() ==> same_tier_in_reach(spheres@, rows(reach@), #[trigger] events@[k]),
{
    proof {
        lemma_proximity_same_tier(spheres@, rows(reach@));
    }
    let ghost t = rows(reach@);
    let n = spheres.len();
    let mut cands: Vec<MergeCandidate> = Vec::new();
    let mut i: usize = 0;
    while i < n
        invariant
            n == spheres@.len(),
            t == rows(reach@),
            reach@.len() == n,
            forall|k: int| 0 <= k < reach@.len() ==> #[trigger] reach@[k]@.len() == n,
            0 <= i <= n,
            cands@ == near_candidates(spheres@, t, i as nat, (i + 1) as nat),
        decreases n - i,
    {
        let mut j: usize = i + 1;
        while j < n
            invariant
                n == spheres@.len(),
                t == rows(reach@),
                reach@.len() == n,
                forall|k: int| 0 <= k < reach@.len() ==> #[trigger] reach@[k]@.len() == n,
                0 <= i < n,
                i + 1 <= j <= n,
                cands@ == near_candidates(spheres@, t, i as nat, j as nat),
            decreases n - j,
        {
            let a = spheres[i];
            let b = spheres[j];
            assert(t[i as int] == reach@[i as int]@);
            if a.tier == b.tier {
                match reach[i][j] {
                    Some(d) => {
                        cands.push(MergeCandidate { entity_a: a.entity, entity_b: b.entity, distance: d });
                    },
                    None => {},
                }
            }
            j = j + 1;
        }
        i = i + 1;
    }
    pick_closest_first(&cands)
}

/// Whether `c` is the candidate of some pair `i < j` of spheres that may merge
/// by resting contact.
pub open spec fn from_near_pair(spheres: Seq<SphereInfo>, reach: Seq<Seq<Option<u32>>>, c: MergeCandidate) -> bool {
    exists|i: int, j: int|
        0 <= i < j < spheres.len() && near_pair(spheres, reach, i, j) && c == #[trigger] pair_candidate(spheres, reach, i, j)
}

/// Whether pair `(i2, j2)` comes before `(i, j)` in scan order.
pub open spec fn scanned_before(i2: int, j2: int, i: int, j: int) -> bool {
    i2 < i || (i2 == i && j2 < j)
}

proof fn lemma_near_candidates(spheres: Seq<SphereInfo>, reach: Seq<Seq<Option<u32>>>, i: nat, j: nat)
    requires
        i <= spheres.len(),
        j == i + 1 || (i < j <= spheres.len()),
    ensures
        forall|k: int| 0 <= k < near_candidates(spheres, reach, i, j).len()
            ==> from_near_pair(spheres, reach, #[trigger] near_candidates(spheres, reach, i, j)[k]),
        forall|i2: int, j2: int| 0 <= i2 < j2 < spheres.len() && scanned_before(i2, j2, i as int, j as int)
            && #[trigger] near_pair(spheres, reach, i2, j2)
            ==> near_candidates(spheres, reach, i, j).contains(pair_candidate(spheres, reach, i2, j2)),
    decreases i, j,
{
    let n = spheres.len();
    let cur = near_candidates(spheres, reach, i, j);
    if j <= i + 1 {
        if i > 0 {
            lemma_near_candidates(spheres, reach, (i - 1) as nat, n);
            let prev = near_candidates(spheres, reach, (i - 1) as nat, n);
            assert(cur == prev);
            assert forall|k: int| 0 <= k < cur.len() implies from_near_pair(spheres, reach, #[trigger] cur[k]) by {
                assert(cur[k] == prev[k]);
            }
            assert forall|i2: int, j2: int| 0 <= i2 < j2 < n && scanned_before(i2, j2, i as int, j as int)
                && #[trigger] near_pair(spheres, reach, i2, j2)
                implies cur.contains(pair_candidate(spheres, reach, i2, j2)) by {
                assert(scanned_before(i2, j2, i - 1, n as int));
            }
        } else {
            assert(cur.len() == 0);
        }
    } else {
        let jj = (j - 1) as nat;
        lemma_near_candidates(spheres, reach, i, jj);
        let prev = near_candidates(spheres, reach, i, jj);
        if near_pair(spheres, reach, i as int, jj as int) {
            let c = pair_candidate(spheres, reach, i as int, jj as int);
            assert(cur == prev.push(c));
            assert forall|k: int| 0 <= k < cur.len() implies from_near_pair(spheres, reach, #[trigger] cur[k]) by {
                if k < prev.len() {
                    assert(cur[k] == prev[k]);
                } else {
                    assert(cur[k] == pair_candidate(spheres, reach, i as int, jj as int));
                    assert(near_pair(spheres, reach, i as int, jj as int));
                }
            }
            assert forall|i2: int, j2: int| 0 <= i2 < j2 < n && scanned_before(i2, j2, i as int, j as int)
                && #[trigger] near_pair(spheres, reach, i2, j2)
                implies cur.contains(pair_candidate(spheres, reach, i2, j2)) by {
                if scanned_before(i2, j2, i as int, jj as int) {
                    let w = choose|w: int| 0 <= w < prev.len() && prev[w] == pair_candidate(spheres, reach, i2, j2);
                    assert(cur[w] == prev[w]);
                } else {
                    assert(i2 == i && j2 == jj);
                    assert(cur[prev.len() as int] == c);
                }
            }
        } else {
            assert(cur == prev);
            assert forall|k: int| 0 <= k < cur.len() implies from_near_pair(spheres, reach, #[trigger] cur[k]) by {
                assert(cur[k] == prev[k]);
            }
            assert forall|i2: int, j2: int| 0 <= i2 < j2 < n && scanned_before(i2, j2, i as int, j as int)
                && #[trigger] near_pair(spheres, reach, i2, j2)
                implies cur.contains(pair_candidate(spheres, reach, i2, j2)) by {
                if !scanned_before(i2, j2, i as int, jj as int) {
                    assert(i2 == i && j2 == jj);
                }
            }
        }
    }
}

/// Resting-contact merges go closest first: each pairs two spheres `i < j` of
/// equal tier within reach; no sphere is paired twice; each pair is at least as
/// close as every such pair that shares no sphere with the pairs before it;
/// and every such pair shares a sphere with some pair.
pub proof fn lemma_proximity_merges(spheres: Seq<SphereInfo>, reach: Seq<Seq<Option<u32>>>)
    ensures
        forall|k: int| 0 <= k < proximity_merges(spheres, reach).len()
            ==> from_near_pair(spheres, reach, #[trigger] proximity_merges(spheres, reach)[k]),
        forall|k: int, l: int| 0 <= l < k < proximity_merges(spheres, reach).len()
            ==> !shares(#[trigger] proximity_merges(spheres, reach)[k], #[trigger] proximity_merges(spheres, reach)[l]),
        forall|k: int, i: int, j: int| 0 <= k < proximity_merges(spheres, reach).len() && 0 <= i < j < spheres.len()
            && #[trigger] near_pair(spheres, reach, i, j)
            && clear_of(pair_candidate(spheres, reach, i, j), proximity_merges(spheres, reach), k)
            ==> reach[i][j]->0 >= (#[trigger] proximity_merges(spheres, reach)[k]).distance,
        forall|i: int, j: int| 0 <= i < j < spheres.len() && #[trigger] near_pair(spheres, reach, i, j)
            ==> exists|k: int| 0 <= k < proximity_merges(spheres, reach).len()
                && shares(pair_candidate(spheres, reach, i, j), #[trigger] proximity_merges(spheres, reach)[k]),
{
    let n = spheres.len();
    let c = all_near_candidates(spheres, reach);
    let e = proximity_merges(spheres, reach);
    lemma_near_candidates(spheres, reach, n, n + 1);
    lemma_closest_first(c);
    assert forall|k: int| 0 <= k < e.len() implies from_near_pair(spheres, reach, #[trigger] e[k]) by {
        assert(c.contains(e[k]));
        let w = choose|w: int| 0 <= w < c.len() && c[w] == e[k];
        assert(from_near_pair(spheres, reach, c[w]));
    }
    assert forall|k: int, i: int, j: int| 0 <= k < e.len() && 0 <= i < j < n
        && #[trigger] near_pair(spheres, reach, i, j)
        && clear_of(pair_candidate(spheres, reach, i, j), e, k)
        implies reach[i][j]->0 >= (#[trigger] e[k]).distance by {
        assert(scanned_before(i, j, n as int, n as int + 1));
        let w = choose|w: int| 0 <= w < c.len() && c[w] == pair_candidate(spheres, reach, i, j);
        assert(clear_of(c[w], e, k));
    }
    assert forall|i: int, j: int| 0 <= i < j < n && #[trigger] near_pair(spheres, reach, i, j)
        implies exists|k: int| 0 <= k < e.len() && shares(pair_candidate(spheres, reach, i, j), #[trigger] e[k]) by {
        assert(scanned_before(i, j, n as int, n as int + 1));
        let w = choose|w: int| 0 <= w < c.len() && c[w] == pair_candidate(spheres, reach, i, j);
        let k = choose|k: int| 0 <= k < e.len() && shares(#[trigger] c[w], #[trigger] e[k]);
        assert(shares(pair_candidate(spheres, reach, i, j), e[k]));
    }
}

// ---------------------------------------------------------------------------
// Lingering parents and cooldowns
// ---------------------------------------------------------------------------

/// What happens to a merged parent this frame.
#[derive(Clone, Copy, Debug, PartialEq, Eq, Structural)]
pub enum DespawnStep {
    /// Remove it now.
    Despawn,
    /// Keep it one more frame, with this many frames left.
    Wait { frames: u32 },
}

/// A parent with no frames left is removed; otherwise one frame is counted off.
pub fn handle_despawn_delay(delay: DespawnDelay) -> (step: DespawnStep)
    ensures
        step == if delay.frames == 0 {
            DespawnStep::Despawn
        } else {
            DespawnStep::Wait { frames: (delay.frames - 1) as u32 }
        },
{
    if delay.frames == 0 {
        DespawnStep::Despawn
    } else {
        DespawnStep::Wait { frames: delay.frames - 1 }
    }
}

/// The cooldown a freshly merged sphere starts with.
pub fn new_merge_cooldown() -> (c: MergeCooldown)
    ensures
        c.timer@ == fresh(MERGE_COOLDOWN_NANOS as nat),
{
    MergeCooldown { timer: OnceTimer::new(MERGE_COOLDOWN_NANOS) }
}

/// Advances a merge cooldown by the frame time; says whether it is over (and
/// the cooldown is to be removed).
pub fn tick_merge_cooldown(cooldown: &mut MergeCooldown, delta_nanos: u64) -> (done: bool)
    ensures
        final(cooldown).timer@ == ticked(old(cooldown).timer@, delta_nanos as nat),
        done == final(cooldown).timer@.finished,
{
    cooldown.timer.tick(delta_nanos);
    cooldown.timer.is_finished()
}

} // verus!
