//! Closest-first pairing: out of candidate pairs of spheres, the closest pair
//! whose spheres are both still free merges first, then the closest of what
//! is left, and so on; among equally close pairs the earliest goes first.
use std::collections::HashSet;
use vstd::prelude::*;

verus! {

broadcast use vstd::std_specs::hash::group_hash_axioms;

/// Two spheres that may merge, with how far apart their centres are: any
/// integer that orders pairs as their centre distances do (the bit pattern of
/// a non-negative 32-bit float distance is one).
#[derive(Clone, Copy, Debug, PartialEq, Eq, Structural)]
pub struct MergeCandidate {
    pub entity_a: u64,
    pub entity_b: u64,
    pub distance: u32,
}

/// Whether `c` involves sphere `x`.
pub open spec fn has(c: MergeCandidate, x: u64) -> bool {
    c.entity_a == x || c.entity_b == x
}

/// Whether `c` and `d` have a sphere in common.
pub open spec fn shares(c: MergeCandidate, d: MergeCandidate) -> bool {
    has(d, c.entity_a) || has(d, c.entity_b)
}

/// Whether neither sphere of `c` has merged already.
pub open spec fn available(c: MergeCandidate, merged: Seq<u64>) -> bool {
    !merged.contains(c.entity_a) && !merged.contains(c.entity_b)
}

/// Among the first `n` candidates, the earliest available one of least distance.
pub open spec fn closest_upto(cands: Seq<MergeCandidate>, merged: Seq<u64>, n: nat) -> Option<int>
    decreases n,
{
    if n == 0 {
        None
    } else {
        let b = closest_upto(cands, merged, (n - 1) as nat);
        let i = n - 1;
        if available(cands[i], merged) && (b is None || cands[i].distance < cands[b->0].distance) {
            Some(i)
        } else {
            b
        }
    }
}

/// The spheres merged so far and the pairs chosen so far.
pub struct PickState {
    pub merged: Seq<u64>,
    pub chosen: Seq<MergeCandidate>,
}

/// The pairing after `t` rounds: each round takes the closest available
/// candidate, if there is one, and marks both its spheres merged.
pub open spec fn pick_state(cands: Seq<MergeCandidate>, t: nat) -> PickState
    decreases t,
{
    if t == 0 {
        PickState { merged: seq![], chosen: seq![] }
    } else {
        let p = pick_state(cands, (t - 1) as nat);
        match closest_upto(cands, p.merged, cands.len()) {
            Some(b) => PickState {
                merged: p.merged.push(cands[b].entity_a).push(cands[b].entity_b),
                chosen: p.chosen.push(cands[b]),
            },
            None => p,
        }
    }
}

/// The pairs that closest-first pairing chooses, in the order it chooses them.
pub open spec fn closest_first(cands: Seq<MergeCandidate>) -> Seq<MergeCandidate> {
    pick_state(cands, cands.len()).chosen
}

/// The earliest available candidate of least distance, if any, where
/// `merged` holds the spheres of `merged_seq`.
fn closest_available(cands: &Vec<MergeCandidate>, merged: &HashSet<u64>, Ghost(merged_seq): Ghost<Seq<u64>>) -> (best: Option<usize>)
    requires
        forall|x: u64| merged@.contains(x) == merged_seq.contains(x),
    ensures
        match best {
            Some(b) => b < cands@.len() && closest_upto(cands@, merged_seq, cands@.len()) == Some(b as int),
            None => closest_upto(cands@, merged_seq, cands@.len()) is None,
        },
{
    let n = cands.len();
    let mut best: Option<usize> = None;
    let mut i: usize = 0;
    while i < n
        invariant
            n == cands@.len(),
            0 <= i <= n,
            forall|x: u64| merged@.contains(x) == merged_seq.contains(x),
            match best {
                Some(b) => b < i && closest_upto(cands@, merged_seq, i as nat) == Some(b as int),
                None => closest_upto(cands@, merged_seq, i as nat) is None,
            },
        decreases n - i,
    {
        let c = cands[i];
        if !merged.contains(&c.entity_a) && !merged.contains(&c.entity_b) {
            match best {
                Some(b) => {
                    if c.distance < cands[b].distance {
                        best = Some(i);
                    }
                },
                None => {
                    best = Some(i);
                },
            }
        }
        i = i + 1;
    }
    best
}

/// Pairs the candidates closest first: repeatedly the closest candidate whose
/// two spheres are both still free is chosen (the earliest among equally close
/// ones), until none is left.
pub fn pick_closest_first(cands: &Vec<MergeCandidate>) -> (chosen: Vec<MergeCandidate>)
    ensures
        chosen@ == closest_first(cands@),
{
    let n = cands.len();
    let mut merged: HashSet<u64> = HashSet::new();
    let mut chosen: Vec<MergeCandidate> = Vec::new();
    let mut t: usize = 0;
    while t < n
        invariant
            n == cands@.len(),
            0 <= t <= n,
            forall|x: u64| merged@.contains(x) == pick_state(cands@, t as nat).merged.contains(x),
            chosen@ == pick_state(cands@, t as nat).chosen,
        decreases n - t,
    {
        let ghost seq = pick_state(cands@, t as nat).merged;
        match closest_available(cands, &merged, Ghost(seq)) {
            Some(b) => {
                let c = cands[b];
                merged.insert(c.entity_a);
                merged.insert(c.entity_b);
                chosen.push(c);
                proof {
                    assert forall|x: u64| merged@.contains(x) == pick_state(cands@, (t + 1) as nat).merged.contains(x) by {
                        lemma_push_contains(seq, c.entity_a, x);
                        lemma_push_contains(seq.push(c.entity_a), c.entity_b, x);
                    }
                }
            },
            None => {},
        }
        t = t + 1;
    }
    chosen
}

/// Whether `c` has no sphere in common with the first `k` chosen pairs.
pub open spec fn clear_of(c: MergeCandidate, chosen: Seq<MergeCandidate>, k: int) -> bool {
    forall|l: int| 0 <= l < k ==> !shares(c, #[trigger] chosen[l])
}

/// Whether some chosen pair involves sphere `x`.
pub open spec fn merged_by(chosen: Seq<MergeCandidate>, x: u64) -> bool {
    exists|l: int| 0 <= l < chosen.len() && has(#[trigger] chosen[l], x)
}

/// Number of available candidates among the first `n`.
pub open spec fn count_available(cands: Seq<MergeCandidate>, merged: Seq<u64>, n: nat) -> nat
    decreases n,
{
    if n == 0 {
        0
    } else {
        count_available(cands, merged, (n - 1) as nat) + if available(cands[n - 1], merged) {
            1nat
        } else {
            0nat
        }
    }
}

proof fn lemma_closest_upto(cands: Seq<MergeCandidate>, merged: Seq<u64>, n: nat)
    requires
        n <= cands.len(),
    ensures
        match closest_upto(cands, merged, n) {
            Some(b) => {
                &&& 0 <= b < n
                &&& available(cands[b], merged)
                &&& forall|i: int| 0 <= i < n && available(#[trigger] cands[i], merged)
                    ==> cands[i].distance >= cands[b].distance
            },
            None => forall|i: int| 0 <= i < n ==> !available(#[trigger] cands[i], merged),
        },
    decreases n,
{
    if n > 0 {
        lemma_closest_upto(cands, merged, (n - 1) as nat);
    }
}

proof fn lemma_count_mono(cands: Seq<MergeCandidate>, m1: Seq<u64>, m2: Seq<u64>, n: nat, j: int)
    requires
        n <= cands.len(),
        forall|x: u64| m1.contains(x) ==> m2.contains(x),
    ensures
        count_available(cands, m2, n) <= count_available(cands, m1, n),
        0 <= j < n && available(cands[j], m1) && !available(cands[j], m2)
            ==> count_available(cands, m2, n) < count_available(cands, m1, n),
    decreases n,
{
    if n > 0 {
        lemma_count_mono(cands, m1, m2, (n - 1) as nat, j);
        let c = cands[n - 1];
        if available(c, m2) {
            assert(available(c, m1));
        }
    }
}

proof fn lemma_count_pos(cands: Seq<MergeCandidate>, merged: Seq<u64>, n: nat, j: int)
    requires
        n <= cands.len(),
        0 <= j < n,
        available(cands[j], merged),
    ensures
        count_available(cands, merged, n) >= 1,
    decreases n,
{
    if j < n - 1 {
        lemma_count_pos(cands, merged, (n - 1) as nat, j);
    }
}

proof fn lemma_count_le(cands: Seq<MergeCandidate>, merged: Seq<u64>, n: nat)
    ensures
        count_available(cands, merged, n) <= n,
    decreases n,
{
    if n > 0 {
        lemma_count_le(cands, merged, (n - 1) as nat);
    }
}

proof fn lemma_push_contains(s: Seq<u64>, v: u64, x: u64)
    ensures
        s.push(v).contains(x) == (s.contains(x) || x == v),
{
    if s.contains(x) {
        let w = choose|w: int| 0 <= w < s.len() && s[w] == x;
        assert(s.push(v)[w] == x);
    }
    if x == v {
        assert(s.push(v)[s.len() as int] == x);
    }
    if s.push(v).contains(x) {
        let w = choose|w: int| 0 <= w < s.len() + 1 && s.push(v)[w] == x;
        if w < s.len() {
            assert(s[w] == x);
        }
    }
}

/// What holds after every round of the pairing.
proof fn lemma_pick_state(cands: Seq<MergeCandidate>, t: nat)
    ensures
        ({
            let p = pick_state(cands, t);
            let c = p.chosen;
            let n = cands.len();
            &&& forall|x: u64| p.merged.contains(x) == merged_by(c, x)
            &&& forall|k: int| 0 <= k < c.len() ==> cands.contains(#[trigger] c[k])
            &&& forall|k: int, l: int| 0 <= l < k < c.len() ==> !shares(#[trigger] c[k], #[trigger] c[l])
            &&& forall|k: int, i: int| 0 <= k < c.len() && 0 <= i < n && clear_of(#[trigger] cands[i], c, k)
                ==> cands[i].distance >= (#[trigger] c[k]).distance
            &&& count_available(cands, p.merged, n) + c.len() <= n
            &&& c.len() == t || closest_upto(cands, p.merged, n) is None
        }),
    decreases t,
{
    let n = cands.len();
    if t == 0 {
        lemma_count_le(cands, seq![], n);
        assert forall|x: u64| pick_state(cands, t).merged.contains(x) == merged_by(pick_state(cands, t).chosen, x) by {
            let m: Seq<u64> = seq![];
            if m.contains(x) {
                let w = choose|w: int| 0 <= w < m.len() && m[w] == x;
            }
        }
    } else {
        lemma_pick_state(cands, (t - 1) as nat);
        let p = pick_state(cands, (t - 1) as nat);
        let m = p.merged;
        let c = p.chosen;
        lemma_closest_upto(cands, m, n);
        match closest_upto(cands, m, n) {
            Some(b) => {
                let cb = cands[b];
                let m2 = m.push(cb.entity_a).push(cb.entity_b);
                let c2 = c.push(cb);
                assert(pick_state(cands, t).merged == m2);
                assert(pick_state(cands, t).chosen == c2);
                assert forall|k: int| 0 <= k < c.len() implies #[trigger] c2[k] == c[k] by {}
                assert(c2[c.len() as int] == cb);
                // merged spheres are exactly those of the chosen pairs
                assert forall|x: u64| m2.contains(x) == merged_by(c2, x) by {
                    lemma_push_contains(m, cb.entity_a, x);
                    lemma_push_contains(m.push(cb.entity_a), cb.entity_b, x);
                    if merged_by(c, x) {
                        let l = choose|l: int| 0 <= l < c.len() && has(#[trigger] c[l], x);
                        assert(c2[l] == c[l]);
                    }
                    if has(cb, x) {
                        assert(has(c2[c.len() as int], x));
                    }
                    if merged_by(c2, x) {
                        let l = choose|l: int| 0 <= l < c2.len() && has(#[trigger] c2[l], x);
                        if l < c.len() {
                            assert(c2[l] == c[l]);
                            assert(merged_by(c, x));
                        }
                    }
                }
                // a candidate is available exactly when it is clear of every chosen pair
                assert forall|i: int| 0 <= i < n && clear_of(#[trigger] cands[i], c, c.len() as int)
                    implies available(cands[i], m) by {
                    let ci = cands[i];
                    if m.contains(ci.entity_a) {
                        assert(merged_by(c, ci.entity_a));
                        let l = choose|l: int| 0 <= l < c.len() && has(#[trigger] c[l], ci.entity_a);
                        assert(shares(ci, c[l]));
                    }
                    if m.contains(ci.entity_b) {
                        assert(merged_by(c, ci.entity_b));
                        let l = choose|l: int| 0 <= l < c.len() && has(#[trigger] c[l], ci.entity_b);
                        assert(shares(ci, c[l]));
                    }
                }
                assert forall|k: int| 0 <= k < c2.len() implies cands.contains(#[trigger] c2[k]) by {
                    if k == c.len() {
                        assert(cands[b] == c2[k]);
                    }
                }
                assert forall|k: int, l: int| 0 <= l < k < c2.len() implies !shares(#[trigger] c2[k], #[trigger] c2[l]) by {
                    if k == c.len() {
                        let cl = c[l];
                        if shares(cb, cl) {
                            assert(has(c[l], cb.entity_a) || has(c[l], cb.entity_b));
                            if has(c[l], cb.entity_a) {
                                assert(merged_by(c, cb.entity_a));
                            } else {
                                assert(merged_by(c, cb.entity_b));
                            }
                        }
                    }
                }
                assert forall|k: int, i: int| 0 <= k < c2.len() && 0 <= i < n && clear_of(#[trigger] cands[i], c2, k)
                    implies cands[i].distance >= (#[trigger] c2[k]).distance by {
                    if k < c.len() {
                        assert forall|l: int| 0 <= l < k implies !shares(cands[i], #[trigger] c[l]) by {
                            assert(c2[l] == c[l]);
                        }
                        assert(clear_of(cands[i], c, k));
                    } else {
                        assert forall|l: int| 0 <= l < c.len() implies !shares(cands[i], #[trigger] c[l]) by {
                            assert(c2[l] == c[l]);
                        }
                        assert(clear_of(cands[i], c, c.len() as int));
                        assert(available(cands[i], m));
                    }
                }
                assert forall|x: u64| m.contains(x) implies m2.contains(x) by {
                    lemma_push_contains(m, cb.entity_a, x);
                    lemma_push_contains(m.push(cb.entity_a), cb.entity_b, x);
                }
                lemma_push_contains(m, cb.entity_a, cb.entity_a);
                lemma_push_contains(m.push(cb.entity_a), cb.entity_b, cb.entity_a);
                lemma_count_mono(cands, m, m2, n, b);
            },
            None => {},
        }
    }
}

/// Closest-first pairing chooses only candidates, never two pairs with a
/// sphere in common, and each pair it chooses is at least as close as every
/// candidate that shares no sphere with the pairs chosen before it; and when it
/// is done, every candidate shares a sphere with a chosen pair.
#[verifier::rlimit(30)]
pub proof fn lemma_closest_first(cands: Seq<MergeCandidate>)
    ensures
        forall|k: int| 0 <= k < closest_first(cands).len() ==> cands.contains(#[trigger] closest_first(cands)[k]),
        forall|k: int, l: int| 0 <= l < k < closest_first(cands).len()
            ==> !shares(#[trigger] closest_first(cands)[k], #[trigger] closest_first(cands)[l]),
        forall|k: int, i: int| 0 <= k < closest_first(cands).len() && 0 <= i < cands.len()
            && clear_of(#[trigger] cands[i], closest_first(cands), k)
            ==> cands[i].distance >= (#[trigger] closest_first(cands)[k]).distance,
        forall|i: int| 0 <= i < cands.len() ==> exists|k: int| 0 <= k < closest_first(cands).len()
            && shares(#[trigger] cands[i], #[trigger] closest_first(cands)[k]),
{
    let n = cands.len();
    lemma_pick_state(cands, n);
    let p = pick_state(cands, n);
    let c = p.chosen;
    assert(c == closest_first(cands));
    lemma_closest_upto(cands, p.merged, n);
    if let Some(b) = closest_upto(cands, p.merged, n) {
        lemma_count_pos(cands, p.merged, n, b);
        assert(false);
    }
    assert forall|i: int| 0 <= i < n implies exists|k: int| 0 <= k < c.len()
        && shares(#[trigger] cands[i], #[trigger] c[k]) by {
        let ci = cands[i];
        assert(!available(ci, p.merged));
        let x = if p.merged.contains(ci.entity_a) { ci.entity_a } else { ci.entity_b };
        assert(p.merged.contains(x));
        assert(merged_by(c, x));
        let l = choose|l: int| 0 <= l < c.len() && has(#[trigger] c[l], x);
        assert(shares(ci, c[l]));
    }
}

} // verus!
