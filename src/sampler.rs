//! Arc-length-uniform resampling of a flattened path.
//!
//! Sample `k` of `n` lies at arc length `k * total / n`. Arc lengths are
//! compared exactly, scaled by `n`: a target belongs to the first segment
//! whose end it does not pass, so a target on the boundary of two segments
//! lands on the end of the earlier one and is placed once.
use vstd::prelude::*;

use crate::geometry::{lerp_point, lerp_segment, point_in_range, seg_len, segment_length, Point, Segment};
use crate::path::{
    check_events, compute_path_length, event_error, lemma_path_length_bound, lemma_prefix_mono, lemma_prefix_step,
    lemma_prefix_whole, lemma_segments_in_range, path_length, path_segments, prefix_len,
    segments, segments_in_range, start_point, sum_lens, well_formed, PathError, PathEvent,
    MAX_EVENTS,
};

verus! {

/// Index of the first segment, from `j` on, whose end lies at or beyond the
/// scaled arc length `t` (`t` is `n` times an arc length).
pub open spec fn locate(segs: Seq<Segment>, j: nat, t: nat, n: nat) -> nat
    decreases segs.len() - j,
{
    if j >= segs.len() {
        j
    } else if t <= n * (prefix_len(segs, j as int) + seg_len(segs[j as int])) {
        j
    } else {
        locate(segs, j + 1, t, n)
    }
}

/// How far into its segment the scaled arc length `t` lies, scaled by `n`.
pub open spec fn offset_in_segment(segs: Seq<Segment>, t: nat, n: nat) -> int {
    t - n * prefix_len(segs, locate(segs, 0, t, n) as int)
}

/// The point at scaled arc length `t` along the segments.
pub open spec fn point_at(segs: Seq<Segment>, t: nat, n: nat) -> Point {
    let j = locate(segs, 0, t, n);
    lerp_point(segs[j as int], offset_in_segment(segs, t, n) as nat, n * seg_len(segs[j as int]))
}

/// The `n` samples of a path that starts at `start`, walks `segs`, and has
/// length `total`: the start, then one point every `total / n`.
pub open spec fn samples_of(start: Point, segs: Seq<Segment>, total: nat, n: nat) -> Seq<Point> {
    Seq::new(n, |k: int| if k == 0 { start } else { point_at(segs, (k * total) as nat, n) })
}

/// The samples a well-formed path yields when `n` are asked for.
pub open spec fn path_samples(ev: Seq<PathEvent>, n: nat) -> Seq<Point> {
    samples_of(start_point(ev), segments(ev), path_length(ev), n)
}

/// What sampling a path with `n` samples gives: the samples, or the first
/// problem found with the path, its length, or `n`.
pub open spec fn sampling_result(ev: Seq<PathEvent>, n: nat) -> Result<Seq<Point>, PathError> {
    if event_error(ev) is Some {
        Err(event_error(ev)->Some_0)
    } else if path_length(ev) == 0 {
        Err(PathError::DegeneratePath)
    } else if n == 0 {
        Err(PathError::InvalidSampleCount)
    } else {
        Ok(path_samples(ev, n))
    }
}

/// Starting the search at `j` finds the same segment as starting at the
/// beginning, once the target lies beyond the first `j` segments.
pub proof fn lemma_locate_skip(segs: Seq<Segment>, j: nat, t: nat, n: nat)
    requires
        j <= segs.len(),
        n * prefix_len(segs, j as int) < t,
    ensures
        locate(segs, 0, t, n) == locate(segs, j, t, n),
    decreases j,
{
    if j > 0 {
        lemma_prefix_step(segs, j - 1);
        lemma_prefix_mono(segs, j - 1, j as int);
        assert(n * prefix_len(segs, j - 1) <= n * prefix_len(segs, j as int)) by (nonlinear_arith)
            requires prefix_len(segs, j - 1) <= prefix_len(segs, j as int);
        lemma_locate_skip(segs, (j - 1) as nat, t, n);
    }
}

/// Whether the scaled target `k * total` lies at or before the scaled arc
/// length `n * end`.
fn target_reached(k: usize, total: u128, n: u128, end: u64) -> (r: bool)
    requires
        total < 0x8000_0000_0000_0000,
        n < 0x1_0000_0000_0000_0000,
        end < 0x8000_0000_0000_0000,
    ensures
        r == (k * total <= n * end),
{
    assert((k as u128) * total < 0x8000_0000_0000_0000_0000_0000_0000_0000) by (nonlinear_arith)
        requires k < 0x1_0000_0000_0000_0000, total < 0x8000_0000_0000_0000;
    assert(n * (end as u128) < 0x8000_0000_0000_0000_0000_0000_0000_0000) by (nonlinear_arith)
        requires n < 0x1_0000_0000_0000_0000, end < 0x8000_0000_0000_0000u64;
    (k as u128) * total <= n * (end as u128)
}

/// The samples of a path whose length is `total_length`, `n_sample` of them,
/// one every `total_length / n_sample` of arc length from the start.
pub fn construct_sample_points(events: &Vec<PathEvent>, total_length: u64, n_sample: usize) -> (r:
    Vec<Point>)
    requires
        well_formed(events@),
        total_length as nat == path_length(events@),
        total_length > 0,
        n_sample > 0,
    ensures
        r@ == path_samples(events@, n_sample as nat),
        r@.len() == n_sample,
{
    let segs = path_segments(events);
    proof {
        lemma_segments_in_range(events@);
        lemma_path_length_bound(events@);
    }
    let ghost sg = segs@;
    let ghost total = total_length as nat;
    let ghost n = n_sample as nat;
    let ghost expected = path_samples(events@, n);
    let start = match &events[0] {
        PathEvent::Begin { at } => *at,
        _ => Point { x: 0, y: 0 },
    };
    assert(point_in_range(start)) by {
        assert(crate::path::event_in_range(events@[0]));
    }
    let mut samples: Vec<Point> = Vec::new();
    samples.push(start);
    let total: u128 = total_length as u128;
    let nn: u128 = n_sample as u128;
    let mut acc: u64 = 0;
    let mut k: usize = 1;
    let mut j: usize = 0;
    proof {
        assert(sg.subrange(0, 0) =~= Seq::<Segment>::empty());
        lemma_prefix_whole(sg);
    }
    while j < segs.len()
        invariant
            sg == segs@,
            sg == segments(events@),
            segments_in_range(sg),
            sg.len() <= MAX_EVENTS,
            total == total_length as nat,
            total == sum_lens(sg),
            total < 0x8000_0000_0000_0000,
            total > 0,
            n == n_sample as nat,
            n > 0,
            expected == path_samples(events@, n),
            total_length as u128 == total,
            n_sample as u128 == nn,
            0 <= j <= sg.len(),
            acc as nat == prefix_len(sg, j as int),
            1 <= k <= n_sample,
            samples@.len() == k,
            forall|i: int| 0 <= i < k ==> samples@[i] == expected[i],
            k < n_sample ==> n * acc < k * total,
        decreases sg.len() - j,
    {
        let seg = segs[j];
        assert(point_in_range(sg[j as int].from));
        let l = segment_length(seg);
        proof {
            lemma_prefix_step(sg, j as int);
            lemma_prefix_mono(sg, j + 1, sg.len() as int);
            lemma_prefix_whole(sg);
        }
        let end: u64 = acc + l;
        while k < n_sample && target_reached(k, total, nn, end)
            invariant
                sg == segs@,
                sg == segments(events@),
                segments_in_range(sg),
                total == total_length as nat,
                total == sum_lens(sg),
                total < 0x8000_0000_0000_0000,
                total > 0,
                n == n_sample as nat,
                n > 0,
                expected == path_samples(events@, n),
                total_length as u128 == total,
                n_sample as u128 == nn,
                0 <= j < sg.len(),
                seg == sg[j as int],
                l as nat == seg_len(seg),
                l < 0x8000_0000,
                acc as nat == prefix_len(sg, j as int),
                end as nat == prefix_len(sg, j + 1),
                end == acc + l,
                end as nat <= total,
                1 <= k <= n_sample,
                samples@.len() == k,
                forall|i: int| 0 <= i < k ==> samples@[i] == expected[i],
                k < n_sample ==> n * acc < k * total,
            decreases n_sample - k,
        {
            let ghost t: nat = (k * total) as nat;
            assert((k as u128) * total < 0x8000_0000_0000_0000_0000_0000_0000_0000) by (nonlinear_arith)
                requires k < 0x1_0000_0000_0000_0000, total < 0x8000_0000_0000_0000;
            let kt: u128 = (k as u128) * total;
            assert(nn * (acc as u128) < 0x8000_0000_0000_0000_0000_0000_0000_0000) by (nonlinear_arith)
                requires nn < 0x1_0000_0000_0000_0000, acc < 0x8000_0000_0000_0000u64;
            let base: u128 = nn * (acc as u128);
            let num: u128 = kt - base;
            assert(nn * (l as u128) < 0x8000_0000_0000_0000_0000_0000) by (nonlinear_arith)
                requires nn < 0x1_0000_0000_0000_0000, l < 0x8000_0000u64;
            let den: u128 = nn * (l as u128);
            assert(num <= den) by (nonlinear_arith)
                requires
                    kt <= nn * (end as u128),
                    end == acc + l,
                    num == kt - base,
                    base == nn * acc,
                    den == nn * l,
            ;
            assert(den > 0);
            proof {
                lemma_locate_skip(sg, j as nat, t, n);
                assert(locate(sg, j as nat, t, n) == j);
            }
            let p = lerp_segment(seg, num, den);
            assert(p == expected[k as int]);
            samples.push(p);
            assert((k + 1) * total > n * acc) by (nonlinear_arith)
                requires k * total > n * acc, total > 0;
            k = k + 1;
        }
        acc = end;
        j = j + 1;
    }
    if k < n_sample {
        assert(false) by (nonlinear_arith)
            requires n * total < k * total, k < n;
    }
    assert(samples@ =~= expected);
    samples
}

/// Checks a path and `n_sample`, then samples the path: `n_sample` points
/// spaced evenly in arc length, starting at the path's start.
pub fn path_to_samples(events: &Vec<PathEvent>, n_sample: usize) -> (r: Result<
    Vec<Point>,
    PathError,
>)
    ensures
        match r {
            Ok(v) => sampling_result(events@, n_sample as nat) == Ok::<Seq<Point>, PathError>(v@),
            Err(e) => sampling_result(events@, n_sample as nat) == Err::<Seq<Point>, PathError>(e),
        },
        r is Ok ==> r->Ok_0@.len() == n_sample,
        well_formed(events@) && path_length(events@) == 0 ==> r == Err::<Vec<Point>, PathError>(
            PathError::DegeneratePath,
        ),
        well_formed(events@) && path_length(events@) > 0 && n_sample > 0 ==> r is Ok,
{
    if let Some(e) = check_events(events) {
        return Err(e);
    }
    let total_length = compute_path_length(events);
    if total_length == 0 {
        return Err(PathError::DegeneratePath);
    }
    if n_sample == 0 {
        return Err(PathError::InvalidSampleCount);
    }
    Ok(construct_sample_points(events, total_length, n_sample))
}

/// Every sample after the first lies on the segment that `locate` finds, at
/// arc length exactly `k * total / n` from the start: its segment begins
/// before that arc length and ends at or after it, and the sample is that far
/// along it. Consecutive samples are therefore `total / n` apart in arc
/// length, and the last one lies `total / n` before the end of the path.
pub proof fn lemma_uniform_spacing(ev: Seq<PathEvent>, n: nat, k: nat)
    requires
        well_formed(ev),
        path_length(ev) > 0,
        0 < k < n,
    ensures
        ({
            let segs = segments(ev);
            let total = path_length(ev);
            let t = k * total;
            let j = locate(segs, 0, t, n);
            &&& j < segs.len()
            &&& n * prefix_len(segs, j as int) < t
            &&& t <= n * prefix_len(segs, (j + 1) as int)
            &&& n * prefix_len(segs, j as int) + offset_in_segment(segs, t, n) == t
            &&& 0 < offset_in_segment(segs, t, n) <= n * seg_len(segs[j as int])
            &&& path_samples(ev, n)[k as int] == lerp_point(
                segs[j as int],
                offset_in_segment(segs, t, n) as nat,
                n * seg_len(segs[j as int]),
            )
            &&& (k + 1) * total - t == total
        }),
{
    let segs = segments(ev);
    let total = path_length(ev);
    let t = k * total;
    assert(t < n * total) by (nonlinear_arith)
        requires k < n, total > 0, t == k * total;
    assert(t > 0) by (nonlinear_arith)
        requires k > 0, total > 0, t == k * total;
    lemma_prefix_whole(segs);
    assert(segs.subrange(0, 0) =~= Seq::<Segment>::empty());
    assert(sum_lens(segs.subrange(0, 0)) == 0);
    assert(prefix_len(segs, 0) == 0);
    assert(n * prefix_len(segs, 0) == 0) by (nonlinear_arith)
        requires prefix_len(segs, 0) == 0;
    assert(t < n * sum_lens(segs));
    lemma_locate_found(segs, 0, t, n);
    let j = locate(segs, 0, t, n);
    lemma_prefix_step(segs, j as int);
    let off = offset_in_segment(segs, t, n);
    assert(n * prefix_len(segs, j as int) + off == t);
    assert(n * prefix_len(segs, (j + 1) as int) == n * prefix_len(segs, j as int) + n * seg_len(
        segs[j as int],
    )) by (nonlinear_arith)
        requires prefix_len(segs, (j + 1) as int) == prefix_len(segs, j as int) + seg_len(segs[j as int]);
    assert(0 < off <= n * seg_len(segs[j as int]));
    assert(path_samples(ev, n)[k as int] == point_at(segs, t, n));
    assert((k + 1) * total - t == total) by (nonlinear_arith)
        requires t == k * total;
}

/// `locate` stops on a segment whose end the target does not pass, past
/// every segment whose end it does pass.
pub proof fn lemma_locate_found(segs: Seq<Segment>, j: nat, t: nat, n: nat)
    requires
        j <= segs.len(),
        n * prefix_len(segs, j as int) < t,
        t < n * sum_lens(segs),
    ensures
        locate(segs, j, t, n) < segs.len(),
        n * prefix_len(segs, locate(segs, j, t, n) as int) < t,
        t <= n * prefix_len(segs, (locate(segs, j, t, n) + 1) as int),
    decreases segs.len() - j,
{
    lemma_prefix_whole(segs);
    if j == segs.len() {
        assert(false);
    } else {
        lemma_prefix_step(segs, j as int);
        if t > n * (prefix_len(segs, j as int) + seg_len(segs[j as int])) {
            lemma_locate_found(segs, j + 1, t, n);
        }
    }
}

} // verus!
