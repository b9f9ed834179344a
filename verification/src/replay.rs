//! Replay records: shots to re-inject and periodic corrections of drift.
//!
//! Coordinates and velocities are carried as the bit patterns of the engine's
//! 32-bit floats; nothing here computes with them.
use crate::game_state::{GameTick, NextSphereId};
use std::collections::{HashMap, HashSet};
use vstd::prelude::*;

verus! {

broadcast use vstd::std_specs::hash::group_hash_axioms;

/// Ticks between two correction snapshots while recording (2 s at 60 Hz).
pub const SNAPSHOT_INTERVAL_TICKS: u64 = 120;

/// A shot: the tick it was fired on and the launch X coordinate (f32 bits).
#[derive(Clone, Copy, Debug, PartialEq, Eq, Structural)]
pub struct ShotRecord {
    pub tick: u64,
    pub x_bits: u32,
}

/// One sphere's recorded state (coordinates and velocity as f32 bits).
#[derive(Clone, Copy, Debug, PartialEq, Eq, Structural)]
pub struct SphereSnapshot {
    pub id: u32,
    pub tier: u8,
    pub x_bits: u32,
    pub z_bits: u32,
    pub vx_bits: u32,
    pub vz_bits: u32,
}

/// The spheres recorded at one tick, ordered by id.
#[derive(Clone, Debug)]
pub struct CorrectionSnapshot {
    pub tick: u64,
    pub spheres: Vec<SphereSnapshot>,
}

/// A recorded session: its seed, its shots and its correction snapshots.
#[derive(Clone, Debug)]
pub struct ReplayRecord {
    pub seed: u64,
    pub shots: Vec<ShotRecord>,
    pub correction_snapshots: Vec<CorrectionSnapshot>,
}

impl Default for ReplayRecord {
    fn default() -> (r: Self)
        ensures
            r.seed == 0 && r.shots@.len() == 0 && r.correction_snapshots@.len() == 0,
    {
        ReplayRecord { seed: 0, shots: Vec::new(), correction_snapshots: Vec::new() }
    }
}

/// Whether a session is being recorded, played back, or neither.
#[derive(Debug)]
pub enum ReplayState {
    /// Neither recording nor playing back.
    Inactive,
    Recording { record: ReplayRecord },
    Playing { record: ReplayRecord, next_shot_idx: usize, next_snapshot_idx: usize, debug_mode: bool },
}

impl Default for ReplayState {
    fn default() -> (s: Self)
        ensures
            s is Inactive,
    {
        ReplayState::Inactive
    }
}

/// Advances the session's tick counter by one.
pub fn advance_game_tick(tick: &mut GameTick)
    requires
        old(tick).0 < u64::MAX,
    ensures
        final(tick).0 == old(tick).0 + 1,
{
    tick.0 = tick.0 + 1;
}

/// Whether a snapshot is taken at `tick` while recording: every 120 ticks,
/// never at tick 0.
pub open spec fn spec_is_snapshot_tick(tick: u64) -> bool {
    tick > 0 && tick % 120 == 0
}

/// Whether a snapshot is taken at `tick` while recording.
pub fn is_snapshot_tick(tick: u64) -> (b: bool)
    ensures
        b == spec_is_snapshot_tick(tick),
{
    tick > 0 && tick % SNAPSHOT_INTERVAL_TICKS == 0
}

/// Appends a shot fired at `tick` from `x_bits` to the record, if recording.
pub fn record_shot(state: &mut ReplayState, tick: u64, x_bits: u32)
    ensures
        match *old(state) {
            ReplayState::Recording { record } => match *final(state) {
                ReplayState::Recording { record: r } => {
                    &&& r.seed == record.seed
                    &&& r.shots@ == record.shots@.push(ShotRecord { tick, x_bits })
                    &&& r.correction_snapshots@ == record.correction_snapshots@
                },
                _ => false,
            },
            _ => *final(state) == *old(state),
        },
{
    match state {
        ReplayState::Recording { record } => {
            record.shots.push(ShotRecord { tick, x_bits });
        },
        _ => {},
    }
}

// ---------------------------------------------------------------------------
// Input injection
// ---------------------------------------------------------------------------

/// The index after the run of shots, from `i` on, fired at `tick`.
pub open spec fn shot_run_end(shots: Seq<ShotRecord>, i: int, tick: u64) -> int
    decreases shots.len() - i,
{
    if 0 <= i < shots.len() && shots[i].tick == tick {
        shot_run_end(shots, i + 1, tick)
    } else {
        i
    }
}

/// While playing back, injects the shots recorded for `tick`: the cursor moves
/// past the run of shots at this tick, and the X coordinate of the last of them
/// is returned (a fire request aimed there). Nothing happens otherwise.
pub fn inject_shots(state: &mut ReplayState, tick: u64) -> (shot: Option<u32>)
    ensures
        match *old(state) {
            ReplayState::Playing { record, next_shot_idx, next_snapshot_idx, debug_mode } => {
                let end = shot_run_end(record.shots@, next_shot_idx as int, tick);
                &&& *final(state) == (ReplayState::Playing { record, next_shot_idx: end as usize, next_snapshot_idx, debug_mode })
                &&& shot == if end > next_shot_idx {
                    Some(record.shots@[end - 1].x_bits)
                } else {
                    None
                }
            },
            _ => *final(state) == *old(state) && shot is None,
        },
{
    match state {
        ReplayState::Playing { record, next_shot_idx, next_snapshot_idx: _, debug_mode: _ } => {
            let ghost start = *next_shot_idx as int;
            let mut shot: Option<u32> = None;
            let n = record.shots.len();
            while *next_shot_idx < n && record.shots[*next_shot_idx].tick == tick
                invariant
                    n == record.shots@.len(),
                    start <= *next_shot_idx,
                    shot_run_end(record.shots@, start, tick) == shot_run_end(record.shots@, *next_shot_idx as int, tick),
                    shot == if *next_shot_idx > start {
                        Some(record.shots@[*next_shot_idx - 1].x_bits)
                    } else {
                        None
                    },
                decreases n - *next_shot_idx,
            {
                shot = Some(record.shots[*next_shot_idx].x_bits);
                *next_shot_idx = *next_shot_idx + 1;
            }
            shot
        },
        _ => None,
    }
}

// ---------------------------------------------------------------------------
// Snapshots
// ---------------------------------------------------------------------------

/// Whether the snapshots are ordered by id.
pub open spec fn sorted_by_id(s: Seq<SphereSnapshot>) -> bool {
    forall|i: int, j: int| 0 <= i < j < s.len() ==> s[i].id <= s[j].id
}

/// The snapshots of `s` with id `id`, in their order in `s`.
pub open spec fn with_id(s: Seq<SphereSnapshot>, id: u32) -> Seq<SphereSnapshot>
    decreases s.len(),
{
    if s.len() == 0 {
        seq![]
    } else if s.last().id == id {
        with_id(s.drop_last(), id).push(s.last())
    } else {
        with_id(s.drop_last(), id)
    }
}

proof fn lemma_with_id_add(a: Seq<SphereSnapshot>, b: Seq<SphereSnapshot>, id: u32)
    ensures
        with_id(a + b, id) == with_id(a, id) + with_id(b, id),
    decreases b.len(),
{
    if b.len() == 0 {
        assert(a + b == a);
    } else {
        lemma_with_id_add(a, b.drop_last(), id);
        assert((a + b).drop_last() == a + b.drop_last());
        assert((a + b).last() == b.last());
    }
}

proof fn lemma_with_id_none(s: Seq<SphereSnapshot>, id: u32)
    requires
        forall|i: int| 0 <= i < s.len() ==> s[i].id != id,
    ensures
        with_id(s, id) == Seq::<SphereSnapshot>::empty(),
    decreases s.len(),
{
    if s.len() > 0 {
        lemma_with_id_none(s.drop_last(), id);
    }
}

/// Orders snapshots by id, keeping snapshots with equal ids in their order.
pub fn sort_by_id(spheres: Vec<SphereSnapshot>) -> (sorted: Vec<SphereSnapshot>)
    ensures
        sorted@.len() == spheres@.len(),
        sorted_by_id(sorted@),
        forall|id: u32| #[trigger] with_id(sorted@, id) == with_id(spheres@, id),
{
    let mut out: Vec<SphereSnapshot> = Vec::new();
    let n = spheres.len();
    let mut i: usize = 0;
    while i < n
        invariant
            n == spheres@.len(),
            0 <= i <= n,
            out@.len() == i,
            sorted_by_id(out@),
            forall|id: u32| #[trigger] with_id(out@, id) == with_id(spheres@.take(i as int), id),
        decreases n - i,
    {
        let x = spheres[i];
        let m = out.len();
        let mut pos: usize = 0;
        while pos < m && out[pos].id <= x.id
            invariant
                m == out@.len(),
                0 <= pos <= m,
                forall|q: int| 0 <= q < pos ==> out@[q].id <= x.id,
            decreases m - pos,
        {
            pos = pos + 1;
        }
        let ghost old_out = out@;
        proof {
            assert forall|q: int| pos <= q < m implies old_out[q].id > x.id by {
                if pos < m {
                    assert(old_out[pos as int].id > x.id);
                    if q > pos {
                        assert(old_out[pos as int].id <= old_out[q].id);
                    }
                }
            }
        }
        out.insert(pos, x);
        proof {
            let front = old_out.take(pos as int);
            let back = old_out.skip(pos as int);
            assert(old_out == front + back);
            assert(out@ == front + seq![x] + back);
            assert(spheres@.take(i + 1) == spheres@.take(i as int).push(x));
            let pre = spheres@.take(i as int);
            assert(spheres@.take(i + 1).drop_last() == pre);
            assert(spheres@.take(i + 1).last() == x);
            assert forall|id: u32| #[trigger] with_id(out@, id) == with_id(spheres@.take(i + 1), id) by {
                assert(with_id(old_out, id) == with_id(pre, id));
                lemma_with_id_add(front, back, id);
                lemma_with_id_add(front + seq![x], back, id);
                lemma_with_id_add(front, seq![x], id);
                assert(seq![x].drop_last() == Seq::<SphereSnapshot>::empty());
                assert(with_id(seq![x].drop_last(), id) == Seq::<SphereSnapshot>::empty());
                assert(seq![x].last() == x);
                if id == x.id {
                    assert forall|q: int| 0 <= q < back.len() implies back[q].id != id by {
                        assert(back[q] == old_out[pos + q]);
                    }
                    lemma_with_id_none(back, id);
                    assert(Seq::<SphereSnapshot>::empty().push(x) == seq![x]);
                    assert(with_id(seq![x], id) == seq![x]);
                    assert(with_id(front, id) + seq![x] == with_id(front, id).push(x));
                    assert(with_id(front, id) + Seq::<SphereSnapshot>::empty() == with_id(front, id));
                    assert(with_id(front, id).push(x) + Seq::<SphereSnapshot>::empty() == with_id(front, id).push(x));
                } else {
                    assert(with_id(seq![x], id) == Seq::<SphereSnapshot>::empty());
                    assert(with_id(front, id) + Seq::<SphereSnapshot>::empty() == with_id(front, id));
                }
            }

            assert forall|a: int, b: int| 0 <= a < b < out@.len() implies out@[a].id <= out@[b].id by {
                if b < pos {
                } else if b == pos {
                    assert(out@[a] == old_out[a]);
                } else if a < pos {
                    assert(out@[a] == old_out[a]);
                    assert(out@[b] == old_out[b - 1]);
                } else if a == pos {
                    assert(out@[b] == old_out[b - 1]);
                } else {
                    assert(out@[a] == old_out[a - 1]);
                    assert(out@[b] == old_out[b - 1]);
                }
            }
        }
        i = i + 1;
    }
    assert(spheres@.take(n as int) == spheres@);
    out
}

/// While recording, on every snapshot tick, appends a snapshot of `spheres`
/// ordered by id (stably) to the record. Nothing happens otherwise.
pub fn record_snapshot(state: &mut ReplayState, tick: u64, spheres: Vec<SphereSnapshot>)
    ensures
        match *old(state) {
            ReplayState::Recording { record } => if spec_is_snapshot_tick(tick) {
                match *final(state) {
                    ReplayState::Recording { record: r } => {
                        &&& r.seed == record.seed
                        &&& r.shots@ == record.shots@
                        &&& r.correction_snapshots@.len() == record.correction_snapshots@.len() + 1
                        &&& r.correction_snapshots@.drop_last() == record.correction_snapshots@
                        &&& r.correction_snapshots@.last().tick == tick
                        &&& r.correction_snapshots@.last().spheres@.len() == spheres@.len()
                        &&& sorted_by_id(r.correction_snapshots@.last().spheres@)
                        &&& forall|id: u32| #[trigger] with_id(r.correction_snapshots@.last().spheres@, id)
                            == with_id(spheres@, id)
                    },
                    _ => false,
                }
            } else {
                *final(state) == *old(state)
            },
            _ => *final(state) == *old(state),
        },
{
    match state {
        ReplayState::Recording { record } => {
            if is_snapshot_tick(tick) {
                let sorted = sort_by_id(spheres);
                record.correction_snapshots.push(CorrectionSnapshot { tick, spheres: sorted });
            }
        },
        _ => {},
    }
}

// ---------------------------------------------------------------------------
// Drift correction
// ---------------------------------------------------------------------------

/// A simulated sphere: its stable id and its engine entity.
#[derive(Clone, Copy, Debug, PartialEq, Eq, Structural)]
pub struct SimSphere {
    pub id: u32,
    pub entity: u64,
}

/// Overwrite this entity's tier, position and velocity with the snapshot.
#[derive(Clone, Copy, Debug, PartialEq, Eq, Structural)]
pub struct Correction {
    pub entity: u64,
    pub snapshot: SphereSnapshot,
}

/// What a correction snapshot asks the engine to do.
#[derive(Clone, Debug)]
pub struct CorrectionPlan {
    pub corrections: Vec<Correction>,
    pub spawns: Vec<SphereSnapshot>,
    pub despawns: Vec<u64>,
}

/// Whether `k` is the last position of `id` among the simulated spheres
/// (the entry a lookup by id finds when later entries replace earlier ones).
pub open spec fn last_of(sims: Seq<SimSphere>, id: u32, k: int) -> bool {
    &&& 0 <= k < sims.len()
    &&& sims[k].id == id
    &&& forall|l: int| k < l < sims.len() ==> sims[l].id != id
}

/// The simulated entities by id, later entries replacing earlier ones.
pub open spec fn sim_map(sims: Seq<SimSphere>) -> Map<u32, u64>
    decreases sims.len(),
{
    if sims.len() == 0 {
        Map::empty()
    } else {
        sim_map(sims.drop_last()).insert(sims.last().id, sims.last().entity)
    }
}

/// The simulated entity that id `id` maps to, if any.
pub open spec fn sim_entity(sims: Seq<SimSphere>, id: u32) -> Option<u64> {
    if sim_map(sims).contains_key(id) {
        Some(sim_map(sims)[id])
    } else {
        None
    }
}

/// Every simulated sphere's id is in the map.
proof fn lemma_sim_map_has(sims: Seq<SimSphere>)
    ensures
        forall|k: int| 0 <= k < sims.len() ==> sim_map(sims).contains_key(#[trigger] sims[k].id),
    decreases sims.len(),
{
    if sims.len() > 0 {
        let init = sims.drop_last();
        lemma_sim_map_has(init);
        assert forall|k: int| 0 <= k < sims.len() implies sim_map(sims).contains_key(#[trigger] sims[k].id) by {
            if k < init.len() {
                assert(init[k] == sims[k]);
            }
        }
    }
}

/// Some recorded sphere among the first `i + 1` has id `id` exactly when one
/// among the first `i` has, or the one at `i` has.
proof fn lemma_recorded_step(recs: Seq<SphereSnapshot>, i: int, id: u32)
    requires
        0 <= i < recs.len(),
    ensures
        recorded(recs.take(i + 1), id) == (recorded(recs.take(i), id) || recs[i].id == id),
{
    let a = recs.take(i);
    let b = recs.take(i + 1);
    if recorded(a, id) {
        let r = choose|r: int| 0 <= r < a.len() && #[trigger] a[r].id == id;
        assert(b[r] == a[r]);
    }
    if recs[i].id == id {
        assert(b[i].id == id);
    }
    if recorded(b, id) {
        let r = choose|r: int| 0 <= r < b.len() && #[trigger] b[r].id == id;
        if r < i {
            assert(a[r] == b[r]);
        }
    }
}

/// Whether some recorded sphere has id `id`.
pub open spec fn recorded(recs: Seq<SphereSnapshot>, id: u32) -> bool {
    exists|r: int| 0 <= r < recs.len() && #[trigger] recs[r].id == id
}

/// Corrections and spawns so far, and the next sphere id.
pub struct CorrectionState {
    pub corrections: Seq<Correction>,
    pub spawns: Seq<SphereSnapshot>,
    pub next_id: int,
}

/// Going through the recorded spheres in order: one that matches a simulated
/// sphere corrects it; one that does not is spawned, and the next id moves past it.
pub open spec fn correction_fold(recs: Seq<SphereSnapshot>, sims: Seq<SimSphere>, next_id: int) -> CorrectionState
    decreases recs.len(),
{
    if recs.len() == 0 {
        CorrectionState { corrections: seq![], spawns: seq![], next_id }
    } else {
        let prev = correction_fold(recs.drop_last(), sims, next_id);
        let r = recs.last();
        match sim_entity(sims, r.id) {
            Some(e) => CorrectionState {
                corrections: prev.corrections.push(Correction { entity: e, snapshot: r }),
                spawns: prev.spawns,
                next_id: prev.next_id,
            },
            None => CorrectionState {
                corrections: prev.corrections,
                spawns: prev.spawns.push(r),
                next_id: if r.id >= prev.next_id {
                    r.id + 1
                } else {
                    prev.next_id
                },
            },
        }
    }
}

/// The simulated entities, among the first `k`, that no recorded sphere
/// matches (one per id, the entry a lookup by id finds).
pub open spec fn unmatched_upto(sims: Seq<SimSphere>, recs: Seq<SphereSnapshot>, k: int) -> Seq<u64>
    decreases k,
{
    if k <= 0 {
        seq![]
    } else {
        let prev = unmatched_upto(sims, recs, k - 1);
        if last_of(sims, sims[k - 1].id, k - 1) && !recorded(recs, sims[k - 1].id) {
            prev.push(sims[k - 1].entity)
        } else {
            prev
        }
    }
}

/// Whether spawning the recorded spheres that match nothing never needs an id
/// past the largest.
pub open spec fn spawn_ids_fit(recs: Seq<SphereSnapshot>, sims: Seq<SimSphere>) -> bool {
    forall|r: int| 0 <= r < recs.len() && sim_entity(sims, #[trigger] recs[r].id) is None ==> recs[r].id < u32::MAX
}

/// The plan for the recorded spheres `recs` against the simulated spheres:
/// a recorded sphere whose id maps to a simulated entity corrects it, one whose
/// id maps to none is spawned (and the next id moves past it), and a simulated
/// entity that no recorded sphere matches is removed.
pub fn plan_correction(recs: &Vec<SphereSnapshot>, sims: &Vec<SimSphere>, next_id: &mut NextSphereId) -> (plan: CorrectionPlan)
    requires
        spawn_ids_fit(recs@, sims@),
    ensures
        plan.corrections@ == correction_fold(recs@, sims@, old(next_id).0 as int).corrections,
        plan.spawns@ == correction_fold(recs@, sims@, old(next_id).0 as int).spawns,
        final(next_id).0 == correction_fold(recs@, sims@, old(next_id).0 as int).next_id,
        plan.despawns@ == unmatched_upto(sims@, recs@, sims@.len() as int),
        forall|k: int| 0 <= k < plan.corrections@.len() ==> recs@.contains((#[trigger] plan.corrections@[k]).snapshot)
            && sim_of(sims@, plan.corrections@[k].snapshot.id, plan.corrections@[k].entity),
        forall|r: int| 0 <= r < recs@.len() && in_sims(sims@, #[trigger] recs@[r].id) ==> exists|k: int|
            0 <= k < plan.corrections@.len() && (#[trigger] plan.corrections@[k]).snapshot == recs@[r],
{
    let ghost start = next_id.0 as int;
    let m = sims.len();
    let mut by_id: HashMap<u32, u64> = HashMap::new();
    let mut k: usize = 0;
    while k < m
        invariant
            m == sims@.len(),
            0 <= k <= m,
            by_id@ == sim_map(sims@.take(k as int)),
        decreases m - k,
    {
        let s = sims[k];
        assert(sims@.take(k + 1).drop_last() == sims@.take(k as int));
        assert(sims@.take(k + 1).last() == s);
        by_id.insert(s.id, s.entity);
        k = k + 1;
    }
    assert(sims@.take(m as int) == sims@);
    let mut corrections: Vec<Correction> = Vec::new();
    let mut spawns: Vec<SphereSnapshot> = Vec::new();
    let mut matched: HashSet<u32> = HashSet::new();
    let n = recs.len();
    let mut i: usize = 0;
    while i < n
        invariant
            n == recs@.len(),
            0 <= i <= n,
            by_id@ == sim_map(sims@),
            spawn_ids_fit(recs@, sims@),
            corrections@ == correction_fold(recs@.take(i as int), sims@, start).corrections,
            spawns@ == correction_fold(recs@.take(i as int), sims@, start).spawns,
            next_id.0 == correction_fold(recs@.take(i as int), sims@, start).next_id,
            forall|id: u32| #[trigger] matched@.contains(id)
                == (recorded(recs@.take(i as int), id) && sim_map(sims@).contains_key(id)),
        decreases n - i,
    {
        let r = recs[i];
        assert(recs@.take(i + 1).drop_last() == recs@.take(i as int));
        assert(recs@.take(i + 1).last() == r);
        proof {
            assert forall|id: u32| true implies recorded(recs@.take(i + 1), id)
                == (recorded(recs@.take(i as int), id) || recs@[i as int].id == id) by {
                lemma_recorded_step(recs@, i as int, id);
            }
        }
        match by_id.get(&r.id) {
            Some(e) => {
                corrections.push(Correction { entity: *e, snapshot: r });
                matched.insert(r.id);
            },
            None => {
                assert(recs@[i as int] == r);
                spawns.push(r);
                if r.id >= next_id.0 {
                    next_id.0 = r.id + 1;
                }
            },
        }
        i = i + 1;
    }
    assert(recs@.take(n as int) == recs@);
    proof {
        lemma_sim_map_has(sims@);
    }
    let mut despawns: Vec<u64> = Vec::new();
    let mut k: usize = 0;
    while k < m
        invariant
            m == sims@.len(),
            0 <= k <= m,
            forall|id: u32| #[trigger] matched@.contains(id) == (recorded(recs@, id) && sim_map(sims@).contains_key(id)),
            forall|q: int| 0 <= q < sims@.len() ==> sim_map(sims@).contains_key(#[trigger] sims@[q].id),
            despawns@ == unmatched_upto(sims@, recs@, k as int),
        decreases m - k,
    {
        let s = sims[k];
        let mut later = false;
        let mut l: usize = k + 1;
        while l < m
            invariant
                m == sims@.len(),
                k < l <= m,
                s == sims@[k as int],
                later == exists|q: int| k < q < l && sims@[q].id == s.id,
            decreases m - l,
        {
            if sims[l].id == s.id {
                later = true;
            }
            l = l + 1;
        }
        assert(sim_map(sims@).contains_key(sims@[k as int].id));
        if !later && !matched.contains(&s.id) {
            despawns.push(s.entity);
        }
        k = k + 1;
    }
    proof {
        lemma_correction_keeps_snapshots(recs@, sims@, start);
        let cs = correction_fold(recs@, sims@, start).corrections;
        assert(corrections@ == cs);
    }
    let plan = CorrectionPlan { corrections, spawns, despawns };
    proof {
        let cs = correction_fold(recs@, sims@, start).corrections;
        assert(plan.corrections@ == cs);
        assert forall|r: int| 0 <= r < recs@.len() && in_sims(sims@, #[trigger] recs@[r].id) implies exists|k: int|
            0 <= k < plan.corrections@.len() && (#[trigger] plan.corrections@[k]).snapshot == recs@[r] by {
            let k = choose|k: int| 0 <= k < cs.len() && (#[trigger] cs[k]).snapshot == recs@[r];
            assert(plan.corrections@[k] == cs[k]);
        }
    }
    plan
}

/// While playing back, at the tick of the next correction snapshot: plans the
/// correction of the simulated spheres against it (correct matched spheres,
/// spawn missing ones with the next id moved past theirs, remove unmatched
/// ones) and moves the cursor to the following snapshot. Nothing happens
/// otherwise.
pub fn correct_drift(state: &mut ReplayState, tick: u64, sims: &Vec<SimSphere>, next_id: &mut NextSphereId) -> (plan: Option<CorrectionPlan>)
    requires
        match *old(state) {
            ReplayState::Playing { record, next_snapshot_idx, .. } => {
                next_snapshot_idx < record.correction_snapshots@.len()
                    && record.correction_snapshots@[next_snapshot_idx as int].tick == tick
                    ==> spawn_ids_fit(record.correction_snapshots@[next_snapshot_idx as int].spheres@, sims@)
            },
            _ => true,
        },
    ensures
        match *old(state) {
            ReplayState::Playing { record, next_shot_idx, next_snapshot_idx, debug_mode } => {
                if next_snapshot_idx < record.correction_snapshots@.len()
                    && record.correction_snapshots@[next_snapshot_idx as int].tick == tick {
                    let recs = record.correction_snapshots@[next_snapshot_idx as int].spheres@;
                    let st = correction_fold(recs, sims@, old(next_id).0 as int);
                    &&& *final(state) == (ReplayState::Playing {
                        record,
                        next_shot_idx,
                        next_snapshot_idx: (next_snapshot_idx + 1) as usize,
                        debug_mode,
                    })
                    &&& plan is Some
                    &&& plan->0.corrections@ == st.corrections
                    &&& plan->0.spawns@ == st.spawns
                    &&& plan->0.despawns@ == unmatched_upto(sims@, recs, sims@.len() as int)
                    &&& final(next_id).0 == st.next_id
                } else {
                    *final(state) == *old(state) && plan is None && *final(next_id) == *old(next_id)
                }
            },
            _ => *final(state) == *old(state) && plan is None && *final(next_id) == *old(next_id),
        },
{
    match state {
        ReplayState::Playing { record, next_shot_idx: _, next_snapshot_idx, debug_mode: _ } => {
            if *next_snapshot_idx < record.correction_snapshots.len()
                && record.correction_snapshots[*next_snapshot_idx].tick == tick {
                let plan = plan_correction(&record.correction_snapshots[*next_snapshot_idx].spheres, sims, next_id);
                *next_snapshot_idx = *next_snapshot_idx + 1;
                Some(plan)
            } else {
                None
            }
        },
        _ => None,
    }
}

/// Whether the simulated sphere that id `id` names (its last entry) is `e`.
pub open spec fn sim_of(sims: Seq<SimSphere>, id: u32, e: u64) -> bool {
    exists|l: int| last_of(sims, id, l) && #[trigger] sims[l].entity == e
}

/// Whether some simulated sphere has id `id`.
pub open spec fn in_sims(sims: Seq<SimSphere>, id: u32) -> bool {
    exists|l: int| 0 <= l < sims.len() && #[trigger] sims[l].id == id
}

/// The map by id holds exactly the ids of the simulated spheres, each mapped
/// to the entity of its last entry.
proof fn lemma_sim_map_last(sims: Seq<SimSphere>)
    ensures
        forall|id: u32| #[trigger] sim_map(sims).contains_key(id) == in_sims(sims, id),
        forall|id: u32| #[trigger] sim_map(sims).contains_key(id) ==> sim_of(sims, id, sim_map(sims)[id]),
    decreases sims.len(),
{
    if sims.len() > 0 {
        let init = sims.drop_last();
        let n = sims.len() - 1;
        let s = sims.last();
        lemma_sim_map_last(init);
        assert(sims[n] == s);
        assert(sim_map(sims) == sim_map(init).insert(s.id, s.entity));
        assert forall|id: u32| #[trigger] sim_map(sims).contains_key(id) == in_sims(sims, id) by {
            if id == s.id {
                assert(sims[n].id == id);
                assert(in_sims(sims, id));
            } else {
                assert(sim_map(sims).contains_key(id) == sim_map(init).contains_key(id));
                if in_sims(init, id) {
                    let l = choose|l: int| 0 <= l < init.len() && #[trigger] init[l].id == id;
                    assert(sims[l] == init[l]);
                }
                if in_sims(sims, id) {
                    let l = choose|l: int| 0 <= l < sims.len() && #[trigger] sims[l].id == id;
                    assert(init[l] == sims[l]);
                }
            }
        }
        assert forall|id: u32| #[trigger] sim_map(sims).contains_key(id) implies sim_of(sims, id, sim_map(sims)[id]) by {
            if id == s.id {
                assert(last_of(sims, id, n));
                assert(sims[n].entity == sim_map(sims)[id]);
            } else {
                let e = sim_map(init)[id];
                assert(sim_map(sims)[id] == e);
                let l = choose|l: int| last_of(init, id, l) && #[trigger] init[l].entity == e;
                assert(sims[l] == init[l]);
                assert forall|q: int| l < q < sims.len() implies sims[q].id != id by {
                    if q < n {
                        assert(sims[q] == init[q]);
                    }
                }
                assert(last_of(sims, id, l));
            }
        }
    }
}

/// A correction keeps each recorded sphere as it was recorded: every
/// correction carries a recorded snapshot unchanged (id, tier, position and
/// velocity) onto the simulated sphere with that id (its last entry), every
/// recorded sphere whose id is simulated is carried by a correction, and every
/// recorded sphere whose id is not simulated is spawned unchanged.
pub proof fn lemma_correction_keeps_snapshots(recs: Seq<SphereSnapshot>, sims: Seq<SimSphere>, next_id: int)
    ensures
        forall|k: int| 0 <= k < correction_fold(recs, sims, next_id).corrections.len() ==> {
            let c = #[trigger] correction_fold(recs, sims, next_id).corrections[k];
            &&& recs.contains(c.snapshot)
            &&& sim_of(sims, c.snapshot.id, c.entity)
        },
        forall|r: int| 0 <= r < recs.len() && in_sims(sims, #[trigger] recs[r].id) ==> exists|k: int|
            0 <= k < correction_fold(recs, sims, next_id).corrections.len()
                && (#[trigger] correction_fold(recs, sims, next_id).corrections[k]).snapshot == recs[r],
        forall|k: int| 0 <= k < correction_fold(recs, sims, next_id).spawns.len() ==> {
            let sp = #[trigger] correction_fold(recs, sims, next_id).spawns[k];
            recs.contains(sp) && !in_sims(sims, sp.id)
        },
        forall|r: int| 0 <= r < recs.len() && !in_sims(sims, #[trigger] recs[r].id)
            ==> correction_fold(recs, sims, next_id).spawns.contains(recs[r]),
    decreases recs.len(),
{
    lemma_sim_map_last(sims);
    if recs.len() > 0 {
        let init = recs.drop_last();
        let n = recs.len() - 1;
        let r0 = recs.last();
        assert(recs[n] == r0);
        lemma_correction_keeps_snapshots(init, sims, next_id);
        let prev = correction_fold(init, sims, next_id);
        let cur = correction_fold(recs, sims, next_id);
        assert forall|k: int| 0 <= k < cur.corrections.len() implies {
            let c = #[trigger] cur.corrections[k];
            &&& recs.contains(c.snapshot)
            &&& sim_of(sims, c.snapshot.id, c.entity)
        } by {
            if k < prev.corrections.len() {
                assert(cur.corrections[k] == prev.corrections[k]);
                let w = choose|w: int| 0 <= w < init.len() && init[w] == prev.corrections[k].snapshot;
                assert(recs[w] == init[w]);
            } else {
                assert(sim_map(sims).contains_key(r0.id));
                assert(cur.corrections[k] == Correction { entity: sim_map(sims)[r0.id], snapshot: r0 });
            }
        }
        assert forall|r: int| 0 <= r < recs.len() && in_sims(sims, #[trigger] recs[r].id) implies exists|k: int|
            0 <= k < cur.corrections.len() && (#[trigger] cur.corrections[k]).snapshot == recs[r] by {
            if r < n {
                assert(init[r] == recs[r]);
                let k = choose|k: int| 0 <= k < prev.corrections.len() && (#[trigger] prev.corrections[k]).snapshot == init[r];
                assert(sim_map(sims).contains_key(r0.id) ==> cur.corrections[k] == prev.corrections[k]);
                assert(!sim_map(sims).contains_key(r0.id) ==> cur.corrections == prev.corrections);
            } else {
                assert(cur.corrections[prev.corrections.len() as int].snapshot == r0);
            }
        }
        assert forall|k: int| 0 <= k < cur.spawns.len() implies {
            let sp = #[trigger] cur.spawns[k];
            recs.contains(sp) && !in_sims(sims, sp.id)
        } by {
            if k < prev.spawns.len() {
                assert(cur.spawns[k] == prev.spawns[k]);
                let w = choose|w: int| 0 <= w < init.len() && init[w] == prev.spawns[k];
                assert(recs[w] == init[w]);
            } else {
                assert(cur.spawns[k] == r0);
            }
        }
        assert forall|r: int| 0 <= r < recs.len() && !in_sims(sims, #[trigger] recs[r].id)
            implies cur.spawns.contains(recs[r]) by {
            if r < n {
                assert(init[r] == recs[r]);
                let w = choose|w: int| 0 <= w < prev.spawns.len() && prev.spawns[w] == init[r];
                assert(cur.spawns[w] == prev.spawns[w]);
            } else {
                assert(cur.spawns[prev.spawns.len() as int] == r0);
            }
        }
    }
}

/// After a correction, every spawned sphere's id is below the next id, and the
/// next id never goes back.
pub proof fn lemma_spawned_ids_fresh(recs: Seq<SphereSnapshot>, sims: Seq<SimSphere>, next_id: int)
    ensures
        correction_fold(recs, sims, next_id).next_id >= next_id,
        forall|k: int| 0 <= k < correction_fold(recs, sims, next_id).spawns.len()
            ==> #[trigger] correction_fold(recs, sims, next_id).spawns[k].id < correction_fold(recs, sims, next_id).next_id,
        correction_fold(recs, sims, next_id).corrections.len() + correction_fold(recs, sims, next_id).spawns.len() == recs.len(),
        correction_fold(recs, sims, next_id).next_id == next_id || exists|k: int|
            0 <= k < correction_fold(recs, sims, next_id).spawns.len()
                && correction_fold(recs, sims, next_id).next_id == (#[trigger] correction_fold(recs, sims, next_id).spawns[k]).id + 1,
    decreases recs.len(),
{
    if recs.len() > 0 {
        lemma_spawned_ids_fresh(recs.drop_last(), sims, next_id);
        let prev = correction_fold(recs.drop_last(), sims, next_id);
        let cur = correction_fold(recs, sims, next_id);
        assert forall|k: int| 0 <= k < cur.spawns.len() implies #[trigger] cur.spawns[k].id < cur.next_id by {
            if k < prev.spawns.len() {
                assert(cur.spawns[k] == prev.spawns[k]);
            }
        }
        if cur.next_id != next_id {
            if cur.next_id == prev.next_id {
                let k = choose|k: int| 0 <= k < prev.spawns.len() && prev.next_id == (#[trigger] prev.spawns[k]).id + 1;
                assert(cur.spawns[k] == prev.spawns[k]);
            } else {
                assert(cur.spawns[cur.spawns.len() - 1] == recs.last());
            }
        }
    }
}

/// Whether the simulated sphere at `l` is the last entry of its id and no
/// recorded sphere has that id.
pub open spec fn unmatched_at(sims: Seq<SimSphere>, recs: Seq<SphereSnapshot>, l: int) -> bool {
    &&& last_of(sims, sims[l].id, l)
    &&& forall|r: int| 0 <= r < recs.len() ==> (#[trigger] recs[r]).id != sims[l].id
}

/// Whether `e` is the entity of an unmatched simulated sphere among the first `k`.
pub open spec fn from_unmatched(sims: Seq<SimSphere>, recs: Seq<SphereSnapshot>, k: int, e: u64) -> bool {
    exists|l: int| 0 <= l < k && unmatched_at(sims, recs, l) && #[trigger] sims[l].entity == e
}

/// A correction removes exactly the simulated spheres that no recorded sphere
/// matches: every removed entity is such a sphere (the last entry of its id),
/// and each such sphere is removed.
pub proof fn lemma_despawns_unmatched(sims: Seq<SimSphere>, recs: Seq<SphereSnapshot>, k: int)
    requires
        0 <= k <= sims.len(),
    ensures
        forall|q: int| 0 <= q < unmatched_upto(sims, recs, k).len()
            ==> from_unmatched(sims, recs, k, #[trigger] unmatched_upto(sims, recs, k)[q]),
        forall|l: int| 0 <= l < k && unmatched_at(sims, recs, l)
            ==> unmatched_upto(sims, recs, k).contains((#[trigger] sims[l]).entity),
    decreases k,
{
    if k > 0 {
        lemma_despawns_unmatched(sims, recs, k - 1);
        let prev = unmatched_upto(sims, recs, k - 1);
        let cur = unmatched_upto(sims, recs, k);
        let m = k - 1;
        if recorded(recs, sims[m].id) {
            let r = choose|r: int| 0 <= r < recs.len() && #[trigger] recs[r].id == sims[m].id;
            assert(!unmatched_at(sims, recs, m));
        }
        if unmatched_at(sims, recs, m) {
            assert(!recorded(recs, sims[m].id));
        }
        assert forall|q: int| 0 <= q < cur.len() implies from_unmatched(sims, recs, k, #[trigger] cur[q]) by {
            if q < prev.len() {
                assert(cur[q] == prev[q]);
                assert(from_unmatched(sims, recs, k - 1, prev[q]));
                let l = choose|l: int| 0 <= l < k - 1 && unmatched_at(sims, recs, l) && #[trigger] sims[l].entity == prev[q];
                assert(sims[l].entity == cur[q]);
            } else {
                assert(cur[q] == sims[m].entity);
                assert(unmatched_at(sims, recs, m));
            }
        }
        assert forall|l: int| 0 <= l < k && unmatched_at(sims, recs, l)
            implies cur.contains((#[trigger] sims[l]).entity) by {
            if l < m {
                let w = choose|w: int| 0 <= w < prev.len() && prev[w] == sims[l].entity;
                assert(cur[w] == prev[w]);
            } else {
                assert(cur[prev.len() as int] == sims[l].entity);
            }
        }
    }
}

} // verus!
