//! Track resampling: even spacing of a raw point sequence.
//!
//! The caller supplies the per-segment distances (millimeters) that its
//! geodesy collaborator measured; this module plans the densifying
//! interpolation, merges the returned segment fills, walks the track to pick
//! an evenly spaced subsample and attaches a bearing to every sampled point.

use vstd::prelude::*;
use vstd::arithmetic::mul::lemma_mul_inequality;
use vstd::arithmetic::mul::lemma_mul_left_inequality;
use vstd::arithmetic::div_mod::lemma_fundamental_div_mod;
use vstd::arithmetic::div_mod::lemma_mod_bound;
use vstd::arithmetic::mul::lemma_mul_is_associative;
use vstd::arithmetic::mul::lemma_mul_upper_bound;
use crate::geom::Coordinate;
use crate::geom::OrientedViewpoint;
use crate::geom::MDEG_FULL_TURN;

verus! {

/// Why a resampling stage rejected its input.
#[derive(Clone, Copy, Debug, PartialEq, Eq, Structural)]
pub enum SampleError {
    /// Fewer than two track points were given.
    TooFewPoints,
    /// Companion sequences do not line up with the point sequence.
    LengthMismatch,
    /// A supplied coordinate lies outside the legal latitude or longitude
    /// range.
    CoordinateOutOfRange,
    /// A supplied bearing is not inside one full turn.
    BearingOutOfRange,
    /// The requested sample count is zero.
    TargetTooSmall,
    /// The track is too long for exact fixed-point arithmetic.
    TrackTooLong,
}

/// Scale applied to the sample-step divisor: the divisor is
/// `(STEP_SCALE * n - STEP_FUDGE) / STEP_SCALE`, that is `n - 0.99` for a
/// target count of `n`.
pub const STEP_SCALE: u64 = 100;

/// Hundredths subtracted from the sample-step divisor. The walk emits its
/// `k`-th sample once the accumulated distance reaches
/// `k * total / (n - 99/100)`; the deliberate shortfall below a whole frame
/// guarantees that the final track point is always captured.
pub const STEP_FUDGE: u64 = 99;

/// Largest value exact sample arithmetic may reach.
pub const SAMPLE_ARITH_CAP: u128 = 0xffff_ffff_ffff_ffff_ffff_ffff_ffff_ffff;

/// The sum of a distance sequence, in millimeters.
pub open spec fn sum_mm(s: Seq<u64>) -> int
    decreases s.len(),
{
    if s.len() == 0 {
        0
    } else {
        sum_mm(s.drop_last()) + s.last()
    }
}

pub proof fn lemma_sum_nonneg(s: Seq<u64>)
    ensures
        sum_mm(s) >= 0,
    decreases s.len(),
{
    if s.len() > 0 {
        lemma_sum_nonneg(s.drop_last());
    }
}

pub proof fn lemma_sum_take_succ(s: Seq<u64>, i: int)
    requires
        0 <= i < s.len(),
    ensures
        sum_mm(s.take(i + 1)) == sum_mm(s.take(i)) + s[i],
{
    assert(s.take(i + 1).drop_last() =~= s.take(i));
    assert(s.take(i + 1).last() == s[i]);
}

pub proof fn lemma_sum_take_le(s: Seq<u64>, i: int)
    requires
        0 <= i <= s.len(),
    ensures
        sum_mm(s.take(i)) <= sum_mm(s),
    decreases s.len() - i,
{
    if i == s.len() {
        assert(s.take(i) =~= s);
    } else {
        lemma_sum_take_succ(s, i);
        lemma_sum_take_le(s, i + 1);
    }
}

/// The walk emits its `k`-th sample at accumulated distance `current` when
/// `current >= k * total / (n - 99/100)`, compared here in exact
/// cross-multiplied form.
pub open spec fn emit_now(n: int, total: int, current: int, k: int) -> bool {
    current * (STEP_SCALE * n - STEP_FUDGE) >= total * STEP_SCALE * k
}

/// The tail of the sampling walk: from point index `idx` with accumulated
/// distance `current` and `k` samples already emitted, the points the walk
/// still emits. Each point is emitted exactly when its accumulated distance
/// has reached the `k`-th threshold; the walk stops after `n` samples or at
/// the end of the track.
pub open spec fn walk_from(
    points: Seq<Coordinate>,
    dists: Seq<u64>,
    n: int,
    total: int,
    idx: int,
    current: int,
    k: int,
) -> Seq<Coordinate>
    decreases points.len() - idx,
{
    if idx < 0 || idx >= points.len() || k >= n {
        Seq::empty()
    } else {
        let next = current + (if idx < dists.len() {
            dists[idx] as int
        } else {
            0
        });
        if emit_now(n, total, current, k) {
            seq![points[idx]] + walk_from(points, dists, n, total, idx + 1, next, k + 1)
        } else {
            walk_from(points, dists, n, total, idx + 1, next, k)
        }
    }
}

/// The evenly spaced subsample of a track: the sampling walk started at the
/// first point with nothing accumulated and nothing emitted.
pub open spec fn sampled_points(points: Seq<Coordinate>, dists: Seq<u64>, n: int) -> Seq<
    Coordinate,
> {
    walk_from(points, dists, n, sum_mm(dists), 0, 0, 0)
}

/// The walk never emits more samples than it has left to emit.
pub proof fn lemma_walk_len(
    points: Seq<Coordinate>,
    dists: Seq<u64>,
    n: int,
    total: int,
    idx: int,
    current: int,
    k: int,
)
    ensures
        walk_from(points, dists, n, total, idx, current, k).len() <= if k >= n {
            0int
        } else {
            n - k
        },
    decreases points.len() - idx,
{
    if !(idx < 0 || idx >= points.len() || k >= n) {
        let next = current + (if idx < dists.len() {
            dists[idx] as int
        } else {
            0
        });
        lemma_walk_len(points, dists, n, total, idx + 1, next, k + 1);
        lemma_walk_len(points, dists, n, total, idx + 1, next, k);
    }
}

/// Every point the walk emits is one of the track points.
pub proof fn lemma_walk_members(
    points: Seq<Coordinate>,
    dists: Seq<u64>,
    n: int,
    total: int,
    idx: int,
    current: int,
    k: int,
)
    ensures
        forall|i: int|
            0 <= i < walk_from(points, dists, n, total, idx, current, k).len()
                ==> points.contains(#[trigger] walk_from(points, dists, n, total, idx, current, k)[i]),
    decreases points.len() - idx,
{
    if !(idx < 0 || idx >= points.len() || k >= n) {
        let next = current + (if idx < dists.len() {
            dists[idx] as int
        } else {
            0
        });
        lemma_walk_members(points, dists, n, total, idx + 1, next, k + 1);
        lemma_walk_members(points, dists, n, total, idx + 1, next, k);
        let w = walk_from(points, dists, n, total, idx, current, k);
        if emit_now(n, total, current, k) {
            let rest = walk_from(points, dists, n, total, idx + 1, next, k + 1);
            assert forall|i: int| 0 <= i < w.len() implies points.contains(#[trigger] w[i]) by {
                if i == 0 {
                    assert(w[0] == points[idx]);
                } else {
                    assert(w[i] == rest[i - 1]);
                }
            }
        } else {
            let rest = walk_from(points, dists, n, total, idx + 1, next, k);
            assert forall|i: int| 0 <= i < w.len() implies points.contains(#[trigger] w[i]) by {
                assert(w[i] == rest[i]);
            }
        }
    }
}

/// A walk that still has samples left to emit and track left to cover emits
/// at least one more: at the latest, the final track point meets its
/// threshold, because the fudged divisor keeps every threshold strictly
/// below the total distance.
pub proof fn lemma_walk_emits(
    points: Seq<Coordinate>,
    dists: Seq<u64>,
    n: int,
    total: int,
    idx: int,
    k: int,
)
    requires
        dists.len() + 1 == points.len(),
        0 <= idx < points.len(),
        0 <= k < n,
        total == sum_mm(dists),
    ensures
        walk_from(points, dists, n, total, idx, sum_mm(dists.take(idx)), k).len() >= 1,
    decreases points.len() - idx,
{
    let current = sum_mm(dists.take(idx));
    if idx == points.len() - 1 {
        assert(dists.take(idx) =~= dists);
        lemma_sum_nonneg(dists);
        assert(STEP_SCALE * k <= STEP_SCALE * n - STEP_FUDGE) by {
            lemma_mul_left_inequality(STEP_SCALE as int, k, n - 1);
        }
        assert(total * (STEP_SCALE * k) <= total * (STEP_SCALE * n - STEP_FUDGE)) by {
            lemma_mul_left_inequality(total + 1, STEP_SCALE * k, STEP_SCALE * n - STEP_FUDGE);
            lemma_mul_inequality(STEP_SCALE * k, STEP_SCALE * n - STEP_FUDGE, total);
        }
        assert(total * STEP_SCALE * k == total * (STEP_SCALE * k)) by {
            lemma_mul_is_associative(total, STEP_SCALE as int, k);
        }
        assert(emit_now(n, total, current, k));
    } else {
        if emit_now(n, total, current, k) {
            assert(walk_from(points, dists, n, total, idx, current, k).len() >= 1);
        } else {
            lemma_sum_take_succ(dists, idx);
            lemma_walk_emits(points, dists, n, total, idx + 1, k);
        }
    }
}

/// The sampling walk always captures the first track point, never emits more
/// than asked, and captures at least two points of a real track when at
/// least two are asked for.
pub proof fn lemma_sampled_points_bounds(points: Seq<Coordinate>, dists: Seq<u64>, n: int)
    requires
        dists.len() + 1 == points.len(),
        n >= 1,
    ensures
        1 <= sampled_points(points, dists, n).len() <= n,
        sampled_points(points, dists, n)[0] == points[0],
        points.len() >= 2 && n >= 2 ==> sampled_points(points, dists, n).len() >= 2,
{
    let total = sum_mm(dists);
    lemma_sum_nonneg(dists);
    lemma_walk_len(points, dists, n, total, 0, 0, 0);
    assert(emit_now(n, total, 0, 0)) by {
        assert(0 * (STEP_SCALE * n - STEP_FUDGE) == 0) by (nonlinear_arith);
        assert(total * STEP_SCALE * 0 == 0) by {
            lemma_mul_is_associative(total, STEP_SCALE as int, 0);
        }
    }
    let next = 0 + (if 0 < dists.len() {
        dists[0] as int
    } else {
        0
    });
    assert(sampled_points(points, dists, n) == seq![points[0]] + walk_from(
        points,
        dists,
        n,
        total,
        1,
        next,
        1,
    ));
    if points.len() >= 2 && n >= 2 {
        assert(dists.take(0) =~= Seq::<u64>::empty());
        lemma_sum_take_succ(dists, 0);
        assert(next == sum_mm(dists.take(1)));
        lemma_walk_emits(points, dists, n, total, 1, 1);
    }
}

/// One densifying-interpolation request: the caller's geodesy collaborator
/// is to fill the great-circle segment from `start` to `end` with
/// intermediate points spaced every `step_mm` millimeters, endpoints
/// excluded.
#[derive(Clone, Copy, Debug, PartialEq, Eq, Structural)]
pub struct SegmentPlan {
    pub start: Coordinate,
    pub end: Coordinate,
    pub step_mm: u64,
}

/// The interpolation step for one segment: the measured spacing over the
/// factor, floored at one millimeter so a degenerate segment never asks for
/// a zero step.
pub open spec fn step_of(spacing_mm: u64, factor: int) -> int {
    if (spacing_mm as int) / factor < 1 {
        1
    } else {
        (spacing_mm as int) / factor
    }
}

/// The error, if any, with which `plan_interpolation` rejects its input, in
/// checking order.
pub open spec fn plan_check(points: Seq<Coordinate>, spacing: Seq<u64>) -> Option<SampleError> {
    if points.len() < 2 {
        Some(SampleError::TooFewPoints)
    } else if spacing.len() + 1 != points.len() {
        Some(SampleError::LengthMismatch)
    } else {
        None
    }
}

/// Plan the densifying interpolation of a track: one request per segment,
/// stepped so that the segment is replaced by `factor` evenly spaced
/// intermediate points. A factor below two performs no interpolation — a
/// policy threshold, not an error — and yields no requests.
pub fn plan_interpolation(
    points: &Vec<Coordinate>,
    spacing_mm: &Vec<u64>,
    factor: usize,
) -> (r: Result<Vec<SegmentPlan>, SampleError>)
    ensures
        r is Err <==> plan_check(points@, spacing_mm@) is Some,
        r is Err ==> r->Err_0 == plan_check(points@, spacing_mm@)->Some_0,
        r is Ok && factor < 2 ==> r->Ok_0@.len() == 0,
        r is Ok && factor >= 2 ==> r->Ok_0@.len() == spacing_mm@.len(),
        r is Ok && factor >= 2 ==> forall|i: int|
            0 <= i < spacing_mm@.len() ==> #[trigger] r->Ok_0@[i] == (SegmentPlan {
                start: points@[i],
                end: points@[i + 1],
                step_mm: step_of(spacing_mm@[i], factor as int) as u64,
            }),
{
    if points.len() < 2 {
        return Err(SampleError::TooFewPoints);
    }
    if spacing_mm.len() != points.len() - 1 {
        return Err(SampleError::LengthMismatch);
    }
    let mut plans: Vec<SegmentPlan> = Vec::new();
    if factor < 2 {
        return Ok(plans);
    }
    let mut i: usize = 0;
    while i < spacing_mm.len()
        invariant
            factor >= 2,
            spacing_mm@.len() + 1 == points@.len(),
            0 <= i <= spacing_mm@.len(),
            plans@.len() == i,
            forall|j: int|
                0 <= j < i ==> #[trigger] plans@[j] == (SegmentPlan {
                    start: points@[j],
                    end: points@[j + 1],
                    step_mm: step_of(spacing_mm@[j], factor as int) as u64,
                }),
        decreases spacing_mm@.len() - i,
    {
        let d = spacing_mm[i];
        let q: u64 = d / (factor as u64);
        let step: u64 = if q < 1 {
            1
        } else {
            q
        };
        plans.push(SegmentPlan { start: points[i], end: points[i + 1], step_mm: step });
        i = i + 1;
    }
    Ok(plans)
}

/// The concatenation, in order, of the interpolated fills of a track's
/// segments.
pub open spec fn flatten_fills(fills: Seq<Seq<Coordinate>>) -> Seq<Coordinate>
    decreases fills.len(),
{
    if fills.len() == 0 {
        Seq::empty()
    } else {
        flatten_fills(fills.drop_last()) + fills.last()
    }
}

pub proof fn lemma_flatten_take_succ(fills: Seq<Seq<Coordinate>>, j: int)
    requires
        0 <= j < fills.len(),
    ensures
        flatten_fills(fills.take(j + 1)) == flatten_fills(fills.take(j)) + fills[j],
{
    assert(fills.take(j + 1).drop_last() =~= fills.take(j));
    assert(fills.take(j + 1).last() == fills[j]);
}

/// The views of a vector of fills.
pub open spec fn fill_views(fills: Seq<Vec<Coordinate>>) -> Seq<Seq<Coordinate>> {
    fills.map_values(|v: Vec<Coordinate>| v@)
}

/// The error, if any, with which `merge_interpolated` rejects its input, in
/// checking order.
pub open spec fn merge_check(
    points: Seq<Coordinate>,
    fills: Seq<Seq<Coordinate>>,
    factor: int,
) -> Option<SampleError> {
    if points.len() < 2 {
        Some(SampleError::TooFewPoints)
    } else if factor < 2 {
        if exists|i: int| 0 <= i < points.len() && !(#[trigger] points[i]).wf() {
            Some(SampleError::CoordinateOutOfRange)
        } else {
            None
        }
    } else if fills.len() + 1 != points.len() {
        Some(SampleError::LengthMismatch)
    } else if exists|i: int, j: int|
        0 <= i < fills.len() && 0 <= j < fills[i].len() && !(#[trigger] fills[i][j]).wf() {
        Some(SampleError::CoordinateOutOfRange)
    } else if flatten_fills(fills).len() < 2 {
        Some(SampleError::TooFewPoints)
    } else {
        None
    }
}

/// Merge the caller-computed segment fills into the densified track: with a
/// factor of at least two every segment is replaced by its intermediate
/// points, concatenated in order; below that threshold the original points
/// pass through unchanged. Every coordinate the caller hands back is
/// validated on the way in, and a track that collapses below two points is
/// rejected.
#[verifier::loop_isolation(false)]
pub fn merge_interpolated(
    points: &Vec<Coordinate>,
    fills: &Vec<Vec<Coordinate>>,
    factor: usize,
) -> (r: Result<Vec<Coordinate>, SampleError>)
    ensures
        r is Err <==> merge_check(points@, fill_views(fills@), factor as int) is Some,
        r is Err ==> r->Err_0 == merge_check(points@, fill_views(fills@), factor as int)->Some_0,
        r is Ok && factor < 2 ==> r->Ok_0@ == points@,
        r is Ok && factor >= 2 ==> r->Ok_0@ == flatten_fills(fill_views(fills@)),
        r is Ok ==> r->Ok_0@.len() >= 2,
        r is Ok ==> forall|i: int| 0 <= i < r->Ok_0@.len() ==> (#[trigger] r->Ok_0@[i]).wf(),
{
    if points.len() < 2 {
        return Err(SampleError::TooFewPoints);
    }
    if factor < 2 {
        let mut out: Vec<Coordinate> = Vec::new();
        let mut i: usize = 0;
        while i < points.len()
            invariant
                0 <= i <= points@.len(),
                out@ =~= points@.take(i as int),
                forall|j: int| 0 <= j < i ==> (#[trigger] points@[j]).wf(),
            decreases points@.len() - i,
        {
            if !points[i].in_range() {
                return Err(SampleError::CoordinateOutOfRange);
            }
            out.push(points[i]);
            i = i + 1;
        }
        proof {
            assert(points@.take(points@.len() as int) =~= points@);
        }
        return Ok(out);
    }
    if fills.len() != points.len() - 1 {
        return Err(SampleError::LengthMismatch);
    }
    let ghost fv = fill_views(fills@);
    let mut out: Vec<Coordinate> = Vec::new();
    let mut i: usize = 0;
    while i < fills.len()
        invariant
            0 <= i <= fills@.len(),
            fv == fill_views(fills@),
            fv.len() == fills@.len(),
            forall|a: int| 0 <= a < fills@.len() ==> fv[a] == fills@[a]@,
            out@ =~= flatten_fills(fv.take(i as int)),
            forall|a: int, b: int|
                0 <= a < i && 0 <= b < fv[a].len() ==> (#[trigger] fv[a][b]).wf(),
            forall|t: int| 0 <= t < out@.len() ==> (#[trigger] out@[t]).wf(),
        decreases fills@.len() - i,
    {
        let fill = &fills[i];
        let mut j: usize = 0;
        while j < fill.len()
            invariant
                0 <= j <= fill@.len(),
                fill@ == fv[i as int],
                0 <= i < fv.len(),
                out@ =~= flatten_fills(fv.take(i as int)) + fill@.take(j as int),
                forall|b: int| 0 <= b < j ==> (#[trigger] fill@[b]).wf(),
                forall|t: int| 0 <= t < out@.len() ==> (#[trigger] out@[t]).wf(),
            decreases fill@.len() - j,
        {
            if !fill[j].in_range() {
                return Err(SampleError::CoordinateOutOfRange);
            }
            out.push(fill[j]);
            proof {
                assert(fill@.take(j as int + 1) =~= fill@.take(j as int) + seq![fill@[j as int]]);
            }
            j = j + 1;
        }
        proof {
            lemma_flatten_take_succ(fv, i as int);
            assert(fill@.take(fill@.len() as int) =~= fill@);
        }
        i = i + 1;
    }
    proof {
        assert(fv.take(fv.len() as int) =~= fv);
    }
    if out.len() < 2 {
        return Err(SampleError::TooFewPoints);
    }
    Ok(out)
}

/// The oriented viewpoints of a sampled track: each point faces its
/// successor; the final point, which has no outgoing segment, reuses the
/// bearing of the segment before it.
pub open spec fn viewpoints_of(points: Seq<Coordinate>, bearings: Seq<u32>) -> Seq<
    OrientedViewpoint,
> {
    Seq::new(
        points.len(),
        |i: int|
            OrientedViewpoint {
                coord: points[i],
                bearing_mdeg: if i < bearings.len() {
                    bearings[i]
                } else {
                    bearings[bearings.len() - 1]
                },
            },
    )
}

/// The error, if any, with which `attach_bearings` rejects its input, in
/// checking order.
pub open spec fn attach_check(points: Seq<Coordinate>, bearings: Seq<u32>) -> Option<SampleError> {
    if points.len() < 2 {
        Some(SampleError::TooFewPoints)
    } else if bearings.len() + 1 != points.len() {
        Some(SampleError::LengthMismatch)
    } else if exists|i: int| 0 <= i < points.len() && !(#[trigger] points[i]).wf() {
        Some(SampleError::CoordinateOutOfRange)
    } else if exists|i: int| 0 <= i < bearings.len() && #[trigger] bearings[i] >= MDEG_FULL_TURN {
        Some(SampleError::BearingOutOfRange)
    } else {
        None
    }
}

/// Attach the caller-measured segment bearings to a sampled track, one per
/// consecutive pair, extrapolating the last: every viewpoint of the result
/// carries a defined bearing inside one full turn.
#[verifier::loop_isolation(false)]
pub fn attach_bearings(points: &Vec<Coordinate>, bearings_mdeg: &Vec<u32>) -> (r: Result<
    Vec<OrientedViewpoint>,
    SampleError,
>)
    ensures
        r is Err <==> attach_check(points@, bearings_mdeg@) is Some,
        r is Err ==> r->Err_0 == attach_check(points@, bearings_mdeg@)->Some_0,
        r is Ok ==> r->Ok_0@ == viewpoints_of(points@, bearings_mdeg@),
        r is Ok ==> r->Ok_0@.len() == points@.len(),
        r is Ok ==> forall|i: int| 0 <= i < r->Ok_0@.len() ==> (#[trigger] r->Ok_0@[i]).wf(),
{
    if points.len() < 2 {
        return Err(SampleError::TooFewPoints);
    }
    if bearings_mdeg.len() != points.len() - 1 {
        return Err(SampleError::LengthMismatch);
    }
    let mut i: usize = 0;
    while i < points.len()
        invariant
            0 <= i <= points@.len(),
            forall|j: int| 0 <= j < i ==> (#[trigger] points@[j]).wf(),
        decreases points@.len() - i,
    {
        if !points[i].in_range() {
            return Err(SampleError::CoordinateOutOfRange);
        }
        i = i + 1;
    }
    let mut i: usize = 0;
    while i < bearings_mdeg.len()
        invariant
            0 <= i <= bearings_mdeg@.len(),
            forall|j: int| 0 <= j < i ==> #[trigger] bearings_mdeg@[j] < MDEG_FULL_TURN,
        decreases bearings_mdeg@.len() - i,
    {
        if bearings_mdeg[i] >= MDEG_FULL_TURN {
            return Err(SampleError::BearingOutOfRange);
        }
        i = i + 1;
    }
    let mut out: Vec<OrientedViewpoint> = Vec::new();
    let mut i: usize = 0;
    while i < points.len()
        invariant
            bearings_mdeg@.len() + 1 == points@.len(),
            0 <= i <= points@.len(),
            out@.len() == i,
            forall|j: int| 0 <= j < i ==> #[trigger] out@[j] == viewpoints_of(
                points@,
                bearings_mdeg@,
            )[j],
        decreases points@.len() - i,
    {
        let b: u32 = if i < bearings_mdeg.len() {
            bearings_mdeg[i]
        } else {
            bearings_mdeg[bearings_mdeg.len() - 1]
        };
        out.push(OrientedViewpoint { coord: points[i], bearing_mdeg: b });
        i = i + 1;
    }
    proof {
        assert(out@ =~= viewpoints_of(points@, bearings_mdeg@));
    }
    Ok(out)
}

/// The total length of a track, as the sum of its segment distances.
pub fn total_distance_mm(distances: &Vec<u64>) -> (r: u128)
    ensures
        r == sum_mm(distances@),
{
    let mut total: u128 = 0;
    let mut i: usize = 0;
    while i < distances.len()
        invariant
            0 <= i <= distances@.len(),
            total == sum_mm(distances@.take(i as int)),
            total <= (i as int) * 0xffff_ffff_ffff_ffffu64,
        decreases distances@.len() - i,
    {
        proof {
            lemma_sum_take_succ(distances@, i as int);
        }
        total = total + (distances[i] as u128);
        i = i + 1;
    }
    proof {
        assert(distances@.take(distances@.len() as int) =~= distances@);
    }
    total
}

/// Law: sampling a track of at least two points to a target of at least two
/// and orienting the result yields a non-empty viewpoint sequence no longer
/// than the target, in which every viewpoint — the extrapolated last one
/// included — carries a bearing inside one full turn. (A target of one
/// leaves a single viewpoint with no prior segment to take a bearing from;
/// the orienting stage rejects that input.)
pub proof fn lemma_sample_yields_oriented_viewpoints(
    points: Seq<Coordinate>,
    dists: Seq<u64>,
    bearings: Seq<u32>,
    n: int,
)
    requires
        dists.len() + 1 == points.len(),
        points.len() >= 2,
        n >= 2,
        bearings.len() + 1 == sampled_points(points, dists, n).len(),
        forall|i: int| 0 <= i < bearings.len() ==> #[trigger] bearings[i] < MDEG_FULL_TURN,
    ensures
        2 <= viewpoints_of(sampled_points(points, dists, n), bearings).len() <= n,
        forall|i: int|
            0 <= i < viewpoints_of(sampled_points(points, dists, n), bearings).len()
                ==> #[trigger] viewpoints_of(sampled_points(points, dists, n), bearings)[i].bearing_mdeg
                < MDEG_FULL_TURN,
{
    lemma_sampled_points_bounds(points, dists, n);
    let vps = viewpoints_of(sampled_points(points, dists, n), bearings);
    assert forall|i: int| 0 <= i < vps.len() implies #[trigger] vps[i].bearing_mdeg
        < MDEG_FULL_TURN by {
        if i < bearings.len() {
            assert(vps[i].bearing_mdeg == bearings[i]);
        } else {
            assert(vps[i].bearing_mdeg == bearings[bearings.len() - 1]);
        }
    }
}

/// The error, if any, with which `sample_points_by_distance` rejects its
/// input, in checking order.
pub open spec fn sample_check(points: Seq<Coordinate>, dists: Seq<u64>, n: int) -> Option<
    SampleError,
> {
    if dists.len() + 1 != points.len() {
        Some(SampleError::LengthMismatch)
    } else if n < 1 {
        Some(SampleError::TargetTooSmall)
    } else if sum_mm(dists) > (SAMPLE_ARITH_CAP as int) / (STEP_SCALE * n) {
        Some(SampleError::TrackTooLong)
    } else {
        None
    }
}

/// Uniformly resample a track to at most `n` points by walking the points
/// and their segment distances and emitting a point each time the
/// accumulated distance reaches the next multiple of
/// `total / (n - 99/100)`. The result keeps the input order, always starts
/// at the first track point, always captures the last one unless `n` fills
/// up first, and holds only points of the input.
pub fn sample_points_by_distance(
    points: &Vec<Coordinate>,
    distances: &Vec<u64>,
    n: usize,
) -> (r: Result<Vec<Coordinate>, SampleError>)
    ensures
        r is Err <==> sample_check(points@, distances@, n as int) is Some,
        r is Err ==> r->Err_0 == sample_check(points@, distances@, n as int)->Some_0,
        r is Ok ==> r->Ok_0@ == sampled_points(points@, distances@, n as int),
        r is Ok ==> 1 <= r->Ok_0@.len() <= n,
        r is Ok ==> r->Ok_0@[0] == points@[0],
        r is Ok && points@.len() >= 2 && n >= 2 ==> r->Ok_0@.len() >= 2,
        r is Ok ==> forall|i: int|
            0 <= i < r->Ok_0@.len() ==> points@.contains(#[trigger] r->Ok_0@[i]),
{
    if points.len() == 0 || distances.len() != points.len() - 1 {
        return Err(SampleError::LengthMismatch);
    }
    if n == 0 {
        return Err(SampleError::TargetTooSmall);
    }

    let total: u128 = total_distance_mm(distances);
    let ghost gtotal = sum_mm(distances@);

    let denom: u128 = (STEP_SCALE as u128) * (n as u128);
    let cap_div: u128 = SAMPLE_ARITH_CAP / denom;
    if total > cap_div {
        return Err(SampleError::TrackTooLong);
    }
    proof {
        lemma_fundamental_div_mod(SAMPLE_ARITH_CAP as int, denom as int);
        lemma_mod_bound(SAMPLE_ARITH_CAP as int, denom as int);
        lemma_mul_inequality(total as int, cap_div as int, denom as int);
        assert(gtotal * denom <= SAMPLE_ARITH_CAP);
    }

    let dfactor: u128 = denom - (STEP_FUDGE as u128);
    let mut out: Vec<Coordinate> = Vec::new();
    let mut current: u128 = 0;
    let mut idx: usize = 0;
    proof {
        assert(distances@.take(0) =~= Seq::<u64>::empty());
        assert(out@ + walk_from(points@, distances@, n as int, gtotal, 0, 0, 0) =~= sampled_points(
            points@,
            distances@,
            n as int,
        ));
    }
    while out.len() < n && idx < points.len()
        invariant
            n >= 1,
            distances@.len() + 1 == points@.len(),
            idx <= points@.len(),
            out@.len() <= n,
            gtotal == sum_mm(distances@),
            total == gtotal,
            gtotal * denom <= SAMPLE_ARITH_CAP,
            denom == (STEP_SCALE as int) * (n as int),
            dfactor == denom - STEP_FUDGE,
            idx <= distances@.len() ==> current == sum_mm(distances@.take(idx as int)),
            idx > distances@.len() ==> current == gtotal,
            out@ + walk_from(
                points@,
                distances@,
                n as int,
                gtotal,
                idx as int,
                current as int,
                out@.len() as int,
            ) =~= sampled_points(points@, distances@, n as int),
        decreases points@.len() - idx,
    {
        let ghost k = out@.len() as int;
        let ghost w = walk_from(
            points@,
            distances@,
            n as int,
            gtotal,
            idx as int,
            current as int,
            k,
        );
        proof {
            lemma_sum_take_le(distances@, idx as int);
            lemma_sum_nonneg(distances@.take(idx as int));
            lemma_mul_upper_bound(current as int, gtotal, dfactor as int, denom as int);
            lemma_mul_left_inequality(gtotal + 1, STEP_SCALE as int, denom as int);
            lemma_mul_inequality(STEP_SCALE as int, denom as int, gtotal);
            assert((gtotal * STEP_SCALE) * k <= (gtotal * STEP_SCALE) * (n as int)) by {
                lemma_mul_left_inequality(gtotal * STEP_SCALE + 1, k, n as int);
                lemma_mul_inequality(k, n as int, gtotal * STEP_SCALE);
            }
            lemma_mul_is_associative(gtotal, STEP_SCALE as int, n as int);
            assert((gtotal * STEP_SCALE) * (n as int) == gtotal * denom);
        }
        let k128: u128 = out.len() as u128;
        let lhs: u128 = current * dfactor;
        let rhs: u128 = (total * (STEP_SCALE as u128)) * k128;
        if lhs >= rhs {
            proof {
                lemma_mul_is_associative(gtotal, STEP_SCALE as int, k);
                assert(emit_now(n as int, gtotal, current as int, k));
            }
            out.push(points[idx]);
            proof {
                let next = current + (if (idx as int) < distances@.len() {
                    distances@[idx as int] as int
                } else {
                    0
                });
                let rest = walk_from(
                    points@,
                    distances@,
                    n as int,
                    gtotal,
                    idx as int + 1,
                    next,
                    k + 1,
                );
                assert(w =~= seq![points@[idx as int]] + rest);
                assert(out@ + rest =~= sampled_points(points@, distances@, n as int));
            }
        } else {
            proof {
                lemma_mul_is_associative(gtotal, STEP_SCALE as int, k);
                assert(!emit_now(n as int, gtotal, current as int, k));
            }
        }
        if idx < distances.len() {
            proof {
                lemma_sum_take_succ(distances@, idx as int);
                lemma_sum_take_le(distances@, idx as int + 1);
            }
            current = current + (distances[idx] as u128);
        } else {
            proof {
                assert(distances@.take(distances@.len() as int) =~= distances@);
            }
        }
        idx = idx + 1;
    }
    proof {
        let wend = walk_from(
            points@,
            distances@,
            n as int,
            gtotal,
            idx as int,
            current as int,
            out@.len() as int,
        );
        assert(wend =~= Seq::<Coordinate>::empty());
        assert(out@ =~= sampled_points(points@, distances@, n as int));
        lemma_sampled_points_bounds(points@, distances@, n as int);
        lemma_walk_members(points@, distances@, n as int, gtotal, 0, 0, 0);
    }
    Ok(out)
}

} // verus!
