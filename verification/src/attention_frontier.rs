//! Threshold sweeps for Boolean attention admission.
//!
//! A preregistered, strictly increasing schedule of Hamming thresholds is
//! paired with the exact admission counts that each threshold produced against
//! the oracle reference, and the non-dominated density/miss frontier of the
//! sweep is extracted without selecting one threshold post hoc.

use vstd::prelude::*;

verus! {

/// Exact counts of one admission row scored against its oracle reference.
#[derive(Clone, Copy, Debug, PartialEq, Eq, Hash, Structural)]
pub struct AdmissionScore {
    /// Keys admitted by the router.
    pub admitted: usize,
    /// Keys the reference needs that the router did not admit.
    pub false_negative: usize,
    /// Keys the router admitted that the reference does not need.
    pub false_positive: usize,
}

impl AdmissionScore {
    /// Keys admitted by the router.
    pub fn admitted(self) -> (admitted: usize)
        ensures
            admitted == self.admitted,
    {
        self.admitted
    }

    /// Needed keys that were not admitted.
    pub fn false_negative(self) -> (misses: usize)
        ensures
            misses == self.false_negative,
    {
        self.false_negative
    }

    /// Admitted keys that were not needed.
    pub fn false_positive(self) -> (extra: usize)
        ensures
            extra == self.false_positive,
    {
        self.false_positive
    }
}

/// One preregistered Hamming threshold and its exact admission counts.
#[derive(Clone, Copy, Debug, PartialEq, Eq, Hash, Structural)]
pub struct ThresholdPoint {
    threshold: u64,
    score: AdmissionScore,
}

impl ThresholdPoint {
    /// The threshold of the point.
    pub closed spec fn threshold_value(self) -> u64 {
        self.threshold
    }

    /// The admission counts of the point.
    pub closed spec fn score_value(self) -> AdmissionScore {
        self.score
    }

    /// The threshold of the point.
    pub fn threshold(self) -> (threshold: u64)
        ensures
            threshold == self.threshold_value(),
    {
        self.threshold
    }

    /// The admission counts of the point.
    pub fn score(self) -> (score: AdmissionScore)
        ensures
            score == self.score_value(),
    {
        self.score
    }
}

/// Fail-closed errors of a threshold sweep.
#[derive(Clone, Copy, Debug, PartialEq, Eq, Structural)]
pub enum AttentionFrontierError {
    EmptyThresholdSweep,
    ThresholdsNotStrictlyIncreasing { index: usize, previous: u64, current: u64 },
    ReferenceLengthMismatch { keys: usize, reference: usize },
}

/// Threshold `i` does not exceed the one before it.
pub open spec fn order_break(t: Seq<u64>, i: int) -> bool {
    0 < i < t.len() && t[i - 1] >= t[i]
}

/// `i` is the first threshold that does not exceed the one before it.
pub open spec fn first_order_break(t: Seq<u64>, i: int) -> bool {
    order_break(t, i) && forall|j: int| 0 < j < i ==> !#[trigger] order_break(t, j)
}

/// `result` is what the sweep of `t` gives for `keys` keys, a reference of
/// `reference` entries and admission counts `s`, one per threshold.
pub open spec fn is_sweep_outcome(
    keys: usize,
    reference: usize,
    t: Seq<u64>,
    s: Seq<AdmissionScore>,
    result: Result<Vec<ThresholdPoint>, AttentionFrontierError>,
) -> bool {
    if t.len() == 0 {
        result == Err::<Vec<ThresholdPoint>, AttentionFrontierError>(AttentionFrontierError::EmptyThresholdSweep)
    } else if keys != reference {
        result == Err::<Vec<ThresholdPoint>, AttentionFrontierError>(
            AttentionFrontierError::ReferenceLengthMismatch { keys, reference },
        )
    } else if exists|i: int| #[trigger] order_break(t, i) {
        exists|i: int|
            #[trigger] first_order_break(t, i) && result == Err::<Vec<ThresholdPoint>, AttentionFrontierError>(
                AttentionFrontierError::ThresholdsNotStrictlyIncreasing {
                    index: i as usize,
                    previous: t[i - 1],
                    current: t[i],
                },
            )
    } else {
        result matches Ok(points) && points@.len() == t.len() && forall|i: int|
            0 <= i < t.len() ==> (#[trigger] points@[i]).threshold_value() == t[i] && points@[i].score_value()
                == s[i]
    }
}

/// Pairs a preregistered threshold schedule with the admission counts each
/// threshold produced for `key_count` keys against a reference of
/// `reference_len` entries, in schedule order.
///
/// The schedule is part of the experiment contract: a duplicate or
/// decreasing threshold is rejected, never sorted away.
///
/// # Errors
///
/// [`AttentionFrontierError::EmptyThresholdSweep`] for no threshold,
/// [`AttentionFrontierError::ReferenceLengthMismatch`] when the key count and
/// the reference length differ, and
/// [`AttentionFrontierError::ThresholdsNotStrictlyIncreasing`] at the first
/// threshold that does not exceed its predecessor.
pub fn sweep_thresholds(
    key_count: usize,
    reference_len: usize,
    thresholds: &[u64],
    scores: &[AdmissionScore],
) -> (result: Result<Vec<ThresholdPoint>, AttentionFrontierError>)
    requires
        scores@.len() == thresholds@.len(),
    ensures
        is_sweep_outcome(key_count, reference_len, thresholds@, scores@, result),
{
    let ghost t = thresholds@;
    if thresholds.len() == 0 {
        return Err(AttentionFrontierError::EmptyThresholdSweep);
    }
    if key_count != reference_len {
        return Err(AttentionFrontierError::ReferenceLengthMismatch { keys: key_count, reference: reference_len });
    }
    let mut i: usize = 1;
    while i < thresholds.len()
        invariant
            t == thresholds@,
            key_count == reference_len,
            1 <= i <= t.len(),
            forall|j: int| 0 < j < i ==> !#[trigger] order_break(t, j),
        decreases t.len() - i,
    {
        let previous = thresholds[i - 1];
        let current = thresholds[i];
        if previous >= current {
            proof {
                assert(first_order_break(t, i as int));
            }
            return Err(AttentionFrontierError::ThresholdsNotStrictlyIncreasing { index: i, previous, current });
        }
        i += 1;
    }
    proof {
        assert forall|j: int| !#[trigger] order_break(t, j) by {}
    }
    let mut points: Vec<ThresholdPoint> = Vec::new();
    let mut k: usize = 0;
    while k < thresholds.len()
        invariant
            t == thresholds@,
            scores@.len() == t.len(),
            k <= t.len(),
            points@.len() == k,
            forall|j: int| 0 <= j < k ==> (#[trigger] points@[j]).threshold_value() == t[j]
                && points@[j].score_value() == scores@[j],
        decreases t.len() - k,
    {
        points.push(ThresholdPoint { threshold: thresholds[k], score: scores[k] });
        k += 1;
    }
    Ok(points)
}

/// Point `o` dominates point `c`: no more admitted keys and no more misses,
/// and strictly fewer of one of them.
pub open spec fn point_dominates(o: ThresholdPoint, c: ThresholdPoint) -> bool {
    let a = o.score_value();
    let b = c.score_value();
    &&& a.admitted <= b.admitted
    &&& a.false_negative <= b.false_negative
    &&& (a.admitted < b.admitted || a.false_negative < b.false_negative)
}

/// No point of `all` dominates `c`.
pub open spec fn undominated_point(all: Seq<ThresholdPoint>, c: ThresholdPoint) -> bool {
    forall|j: int| 0 <= j < all.len() ==> !#[trigger] point_dominates(all[j], c)
}

/// The points among the first `m` of `all` that no point of `all` dominates,
/// in input order.
pub open spec fn frontier_upto(all: Seq<ThresholdPoint>, m: nat) -> Seq<ThresholdPoint>
    decreases m,
{
    if m == 0 {
        seq![]
    } else {
        let previous = frontier_upto(all, (m - 1) as nat);
        if undominated_point(all, all[m - 1]) {
            previous.push(all[m - 1])
        } else {
            previous
        }
    }
}

/// The exact non-dominated density/miss frontier of a sweep, in sweep order.
pub fn density_false_negative_frontier(points: &[ThresholdPoint]) -> (frontier: Vec<ThresholdPoint>)
    ensures
        frontier@ == frontier_upto(points@, points@.len()),
{
    let ghost all = points@;
    let mut frontier: Vec<ThresholdPoint> = Vec::new();
    let mut i: usize = 0;
    while i < points.len()
        invariant
            all == points@,
            i <= all.len(),
            frontier@ == frontier_upto(all, i as nat),
        decreases all.len() - i,
    {
        let candidate = points[i];
        let mut beaten = false;
        let mut j: usize = 0;
        while j < points.len()
            invariant_except_break
                !beaten,
            invariant
                all == points@,
                i < all.len(),
                candidate == all[i as int],
                j <= all.len(),
                forall|l: int| 0 <= l < j ==> !#[trigger] point_dominates(all[l], candidate),
            ensures
                beaten == !undominated_point(all, candidate),
            decreases all.len() - j,
        {
            let other = points[j];
            let a = other.score;
            let b = candidate.score;
            if a.admitted <= b.admitted && a.false_negative <= b.false_negative && (a.admitted < b.admitted
                || a.false_negative < b.false_negative) {
                proof {
                    assert(point_dominates(all[j as int], candidate));
                }
                beaten = true;
                break;
            }
            j += 1;
        }
        if !beaten {
            frontier.push(candidate);
        }
        i += 1;
    }
    proof {
        assert(all.len() as nat == points@.len());
    }
    frontier
}

proof fn lemma_frontier_upto_contains(all: Seq<ThresholdPoint>, m: nat, i: int)
    requires
        0 <= i < m <= all.len(),
        undominated_point(all, all[i]),
    ensures
        frontier_upto(all, m).contains(all[i]),
    decreases m,
{
    let previous = frontier_upto(all, (m - 1) as nat);
    if i < m - 1 {
        lemma_frontier_upto_contains(all, (m - 1) as nat, i);
        let k = choose|k: int| 0 <= k < previous.len() && previous[k] == all[i];
        if undominated_point(all, all[m - 1]) {
            assert(previous.push(all[m - 1])[k] == all[i]);
        }
    } else {
        assert(previous.push(all[m - 1])[previous.len() as int] == all[i]);
    }
}

/// Every point of a sweep is on its frontier or dominated by a point on it.
pub proof fn lemma_frontier_covers_sweep(all: Seq<ThresholdPoint>, x: int)
    requires
        0 <= x < all.len(),
    ensures
        undominated_point(all, all[x]) ==> frontier_upto(all, all.len()).contains(all[x]),
        !undominated_point(all, all[x]) ==> exists|f: ThresholdPoint|
            #[trigger] frontier_upto(all, all.len()).contains(f) && point_dominates(f, all[x]),
    decreases all[x].score_value().admitted + all[x].score_value().false_negative,
{
    if undominated_point(all, all[x]) {
        lemma_frontier_upto_contains(all, all.len(), x);
    } else {
        let y = choose|y: int| 0 <= y < all.len() && #[trigger] point_dominates(all[y], all[x]);
        lemma_frontier_covers_sweep(all, y);
        if undominated_point(all, all[y]) {
            assert(frontier_upto(all, all.len()).contains(all[y]));
        } else {
            let f = choose|f: ThresholdPoint|
                #[trigger] frontier_upto(all, all.len()).contains(f) && point_dominates(f, all[y]);
            assert(point_dominates(f, all[x]));
        }
    }
}

} // verus!
