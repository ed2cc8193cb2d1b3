//! Flattened path events, their validation, and the segments they walk.
use vstd::prelude::*;

use crate::geometry::{lemma_seg_len_bound, point_in_range, seg_len, segment_length, Point, Segment};

verus! {

/// Most events a path may hold.
pub const MAX_EVENTS: usize = 0xFFFF_FFFF;

/// One event of a path, as a curve flattener emits them.
#[derive(Clone, Copy, Debug, PartialEq, Eq, Structural)]
pub enum PathEvent {
    Begin { at: Point },
    Line { from: Point, to: Point },
    Quadratic { from: Point, ctrl: Point, to: Point },
    Cubic { from: Point, ctrl1: Point, ctrl2: Point, to: Point },
    End { last: Point, first: Point, close: bool },
}

/// Why a path cannot be turned into samples.
#[derive(Clone, Copy, Debug, PartialEq, Eq, Structural)]
pub enum PathError {
    /// The events are not one `Begin`, straight lines, then one `End`.
    MalformedPath,
    /// A coordinate lies outside `[-COORD_LIMIT, COORD_LIMIT]`.
    CoordinateOutOfRange,
    /// More than `MAX_EVENTS` events.
    TooManyEvents,
    /// No samples were asked for.
    InvalidSampleCount,
    /// The path has length zero.
    DegeneratePath,
}

pub open spec fn is_begin(e: PathEvent) -> bool {
    e is Begin
}

pub open spec fn is_line(e: PathEvent) -> bool {
    e is Line
}

pub open spec fn is_end(e: PathEvent) -> bool {
    e is End
}

/// One contour: a `Begin`, then straight lines only, then an `End`.
pub open spec fn shape_ok(ev: Seq<PathEvent>) -> bool {
    &&& ev.len() >= 2
    &&& is_begin(ev[0])
    &&& is_end(ev[ev.len() - 1])
    &&& forall|i: int| 0 < i < ev.len() - 1 ==> is_line(#[trigger] ev[i])
}

pub open spec fn event_in_range(e: PathEvent) -> bool {
    match e {
        PathEvent::Begin { at } => point_in_range(at),
        PathEvent::Line { from, to } => point_in_range(from) && point_in_range(to),
        PathEvent::Quadratic { from, ctrl, to } => point_in_range(from) && point_in_range(ctrl)
            && point_in_range(to),
        PathEvent::Cubic { from, ctrl1, ctrl2, to } => point_in_range(from) && point_in_range(
            ctrl1,
        ) && point_in_range(ctrl2) && point_in_range(to),
        PathEvent::End { last, first, close } => point_in_range(last) && point_in_range(first),
    }
}

pub open spec fn all_in_range(ev: Seq<PathEvent>) -> bool {
    forall|i: int| 0 <= i < ev.len() ==> event_in_range(#[trigger] ev[i])
}

/// The first problem found with a sequence of events, if any.
pub open spec fn event_error(ev: Seq<PathEvent>) -> Option<PathError> {
    if ev.len() > MAX_EVENTS {
        Some(PathError::TooManyEvents)
    } else if !shape_ok(ev) {
        Some(PathError::MalformedPath)
    } else if !all_in_range(ev) {
        Some(PathError::CoordinateOutOfRange)
    } else {
        None
    }
}

pub open spec fn well_formed(ev: Seq<PathEvent>) -> bool {
    event_error(ev) is None
}

pub open spec fn start_point(ev: Seq<PathEvent>) -> Point {
    match ev[0] {
        PathEvent::Begin { at } => at,
        _ => Point { x: 0, y: 0 },
    }
}

pub open spec fn line_segment(e: PathEvent) -> Segment {
    match e {
        PathEvent::Line { from, to } => Segment { from, to },
        _ => Segment { from: Point { x: 0, y: 0 }, to: Point { x: 0, y: 0 } },
    }
}

/// The segment that closes a contour, if its `End` closes it.
pub open spec fn closing_segments(e: PathEvent) -> Seq<Segment> {
    match e {
        PathEvent::End { last, first, close } => if close {
            seq![Segment { from: last, to: first }]
        } else {
            seq![]
        },
        _ => seq![],
    }
}

/// The straight segments a path walks, in order, the closing one last.
pub open spec fn segments(ev: Seq<PathEvent>) -> Seq<Segment> {
    Seq::new((ev.len() - 2) as nat, |i: int| line_segment(ev[i + 1])) + closing_segments(
        ev[ev.len() - 1],
    )
}

/// Sum of the lengths of a sequence of segments.
pub open spec fn sum_lens(segs: Seq<Segment>) -> nat
    decreases segs.len(),
{
    if segs.len() == 0 {
        0
    } else {
        sum_lens(segs.drop_last()) + seg_len(segs.last())
    }
}

/// Length of the first `j` segments.
pub open spec fn prefix_len(segs: Seq<Segment>, j: int) -> nat {
    sum_lens(segs.subrange(0, j))
}

/// Arc length of a whole path.
pub open spec fn path_length(ev: Seq<PathEvent>) -> nat {
    sum_lens(segments(ev))
}

pub open spec fn segments_in_range(segs: Seq<Segment>) -> bool {
    forall|i: int|
        0 <= i < segs.len() ==> point_in_range(#[trigger] segs[i].from) && point_in_range(
            segs[i].to,
        )
}

pub proof fn lemma_prefix_step(segs: Seq<Segment>, j: int)
    requires
        0 <= j < segs.len(),
    ensures
        prefix_len(segs, j + 1) == prefix_len(segs, j) + seg_len(segs[j]),
{
    assert(segs.subrange(0, j + 1).drop_last() =~= segs.subrange(0, j));
}

pub proof fn lemma_prefix_whole(segs: Seq<Segment>)
    ensures
        prefix_len(segs, segs.len() as int) == sum_lens(segs),
{
    assert(segs.subrange(0, segs.len() as int) =~= segs);
}

pub proof fn lemma_prefix_mono(segs: Seq<Segment>, i: int, j: int)
    requires
        0 <= i <= j <= segs.len(),
    ensures
        prefix_len(segs, i) <= prefix_len(segs, j),
    decreases j - i,
{
    if i < j {
        lemma_prefix_mono(segs, i, j - 1);
        lemma_prefix_step(segs, j - 1);
    }
}

pub proof fn lemma_segments_in_range(ev: Seq<PathEvent>)
    requires
        well_formed(ev),
    ensures
        segments_in_range(segments(ev)),
        segments(ev).len() <= ev.len(),
{
    let segs = segments(ev);
    assert forall|i: int| 0 <= i < segs.len() implies point_in_range(#[trigger] segs[i].from)
        && point_in_range(segs[i].to) by {
        if i < ev.len() - 2 {
            assert(is_line(ev[i + 1]));
            assert(event_in_range(ev[i + 1]));
        } else {
            assert(event_in_range(ev[ev.len() - 1]));
        }
    }
}

/// A path of in-range segments is shorter than `2^31` per segment.
pub proof fn lemma_sum_lens_bound(segs: Seq<Segment>)
    requires
        segments_in_range(segs),
    ensures
        sum_lens(segs) <= segs.len() * 0x8000_0000,
    decreases segs.len(),
{
    if segs.len() > 0 {
        let init = segs.drop_last();
        assert forall|i: int| 0 <= i < init.len() implies point_in_range(#[trigger] init[i].from)
            && point_in_range(init[i].to) by {
            assert(init[i] == segs[i]);
        }
        lemma_sum_lens_bound(init);
        assert(point_in_range(segs[segs.len() - 1].from));
        lemma_seg_len_bound(segs.last());
    }
}

/// A well-formed path is shorter than `2^63`.
pub proof fn lemma_path_length_bound(ev: Seq<PathEvent>)
    requires
        well_formed(ev),
    ensures
        path_length(ev) < 0x8000_0000_0000_0000,
{
    lemma_segments_in_range(ev);
    lemma_sum_lens_bound(segments(ev));
    assert(segments(ev).len() * 0x8000_0000 < 0x8000_0000_0000_0000) by (nonlinear_arith)
        requires segments(ev).len() <= 0xFFFF_FFFF;
}

/// Checks the events: `None` when they form one in-range contour.
pub fn check_events(events: &Vec<PathEvent>) -> (r: Option<PathError>)
    ensures
        r == event_error(events@),
{
    let len = events.len();
    if len > MAX_EVENTS {
        return Some(PathError::TooManyEvents);
    }
    if len < 2 {
        return Some(PathError::MalformedPath);
    }
    if !matches!(events[0], PathEvent::Begin { .. }) || !matches!(events[len - 1], PathEvent::End { .. }) {
        return Some(PathError::MalformedPath);
    }
    let mut i: usize = 1;
    while i < len - 1
        invariant
            len == events@.len(),
            2 <= len <= MAX_EVENTS,
            1 <= i <= len - 1,
            forall|m: int| 0 < m < i ==> is_line(#[trigger] events@[m]),
        decreases len - i,
    {
        if !matches!(events[i], PathEvent::Line { .. }) {
            assert(!is_line(events@[i as int]));
            return Some(PathError::MalformedPath);
        }
        i = i + 1;
    }
    let mut i: usize = 0;
    while i < len
        invariant
            len == events@.len(),
            len <= MAX_EVENTS,
            shape_ok(events@),
            0 <= i <= len,
            forall|m: int| 0 <= m < i ==> event_in_range(#[trigger] events@[m]),
        decreases len - i,
    {
        if !event_in_range_exec(&events[i]) {
            assert(!event_in_range(events@[i as int]));
            return Some(PathError::CoordinateOutOfRange);
        }
        i = i + 1;
    }
    None
}

fn point_in_range_exec(p: Point) -> (r: bool)
    ensures
        r == point_in_range(p),
{
    -crate::geometry::COORD_LIMIT <= p.x && p.x <= crate::geometry::COORD_LIMIT
        && -crate::geometry::COORD_LIMIT <= p.y && p.y <= crate::geometry::COORD_LIMIT
}

fn event_in_range_exec(e: &PathEvent) -> (r: bool)
    ensures
        r == event_in_range(*e),
{
    match e {
        PathEvent::Begin { at } => point_in_range_exec(*at),
        PathEvent::Line { from, to } => point_in_range_exec(*from) && point_in_range_exec(*to),
        PathEvent::Quadratic { from, ctrl, to } => point_in_range_exec(*from) && point_in_range_exec(
            *ctrl,
        ) && point_in_range_exec(*to),
        PathEvent::Cubic { from, ctrl1, ctrl2, to } => point_in_range_exec(*from)
            && point_in_range_exec(*ctrl1) && point_in_range_exec(*ctrl2) && point_in_range_exec(
            *to,
        ),
        PathEvent::End { last, first, close: _ } => point_in_range_exec(*last)
            && point_in_range_exec(*first),
    }
}

/// The straight segments of a well-formed path, the closing one last.
pub fn path_segments(events: &Vec<PathEvent>) -> (r: Vec<Segment>)
    requires
        well_formed(events@),
    ensures
        r@ == segments(events@),
{
    let len = events.len();
    let mut segs: Vec<Segment> = Vec::new();
    let mut i: usize = 1;
    while i < len - 1
        invariant
            len == events@.len(),
            well_formed(events@),
            1 <= i <= len - 1,
            segs@ =~= Seq::new((i - 1) as nat, |m: int| line_segment(events@[m + 1])),
        decreases len - i,
    {
        assert(is_line(events@[i as int]));
        match &events[i] {
            PathEvent::Line { from, to } => {
                segs.push(Segment { from: *from, to: *to });
            },
            _ => {},
        }
        i = i + 1;
    }
    match &events[len - 1] {
        PathEvent::End { last, first, close } => {
            if *close {
                segs.push(Segment { from: *last, to: *first });
            }
        },
        _ => {},
    }
    assert(segs@ =~= segments(events@));
    segs
}

/// Arc length of a well-formed path: its lines, and the closing segment
/// when the path is closed.
pub fn compute_path_length(events: &Vec<PathEvent>) -> (r: u64)
    requires
        well_formed(events@),
    ensures
        r as nat == path_length(events@),
        r < 0x8000_0000_0000_0000,
{
    let segs = path_segments(events);
    proof {
        lemma_segments_in_range(events@);
    }
    let mut total: u64 = 0;
    let mut j: usize = 0;
    while j < segs.len()
        invariant
            segs@ == segments(events@),
            segments_in_range(segs@),
            segs@.len() <= MAX_EVENTS,
            0 <= j <= segs@.len(),
            total as nat == prefix_len(segs@, j as int),
            total <= j * 0x8000_0000,
        decreases segs@.len() - j,
    {
        assert(point_in_range(segs@[j as int].from));
        let l = segment_length(segs[j]);
        proof {
            lemma_prefix_step(segs@, j as int);
        }
        total = total + l;
        j = j + 1;
    }
    proof {
        lemma_prefix_whole(segs@);
    }
    total
}

} // verus!
