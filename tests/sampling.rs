use fourier_path::geometry::{isqrt, lerp_coordinate, segment_length, Point, Segment};
use fourier_path::path::{check_events, compute_path_length, path_segments, PathError, PathEvent};
use fourier_path::sampler::{construct_sample_points, path_to_samples};

fn pt(x: i64, y: i64) -> Point {
    Point { x, y }
}

fn polyline(points: &[(i64, i64)], close: bool) -> Vec<PathEvent> {
    let mut events = vec![PathEvent::Begin { at: pt(points[0].0, points[0].1) }];
    for w in points.windows(2) {
        events.push(PathEvent::Line { from: pt(w[0].0, w[0].1), to: pt(w[1].0, w[1].1) });
    }
    let last = points[points.len() - 1];
    events.push(PathEvent::End { last: pt(last.0, last.1), first: pt(points[0].0, points[0].1), close });
    events
}

#[test]
fn boundary_sample_lands_on_segment_joint() {
    let events = polyline(&[(0, 0), (10, 0), (15, 0)], false);
    let samples = path_to_samples(&events, 3).unwrap();
    assert_eq!(samples, vec![pt(0, 0), pt(5, 0), pt(10, 0)]);
}

#[test]
fn sample_count_is_exact() {
    let open = polyline(&[(0, 0), (7, 0), (7, 3), (100, 41)], false);
    let closed = polyline(&[(0, 0), (13, 0), (13, 17)], true);
    for n in [1usize, 2, 3, 7, 64, 1000, 10240] {
        assert_eq!(path_to_samples(&open, n).unwrap().len(), n);
        assert_eq!(path_to_samples(&closed, n).unwrap().len(), n);
    }
}

#[test]
fn straight_line_is_split_evenly() {
    let events = polyline(&[(0, 0), (100, 0)], false);
    let samples = path_to_samples(&events, 4).unwrap();
    assert_eq!(samples, vec![pt(0, 0), pt(25, 0), pt(50, 0), pt(75, 0)]);
}

#[test]
fn closed_square_samples_cover_closing_side() {
    let events = polyline(&[(0, 0), (10, 0), (10, 10), (0, 10)], true);
    let samples = path_to_samples(&events, 8).unwrap();
    assert_eq!(
        samples,
        vec![pt(0, 0), pt(5, 0), pt(10, 0), pt(10, 5), pt(10, 10), pt(5, 10), pt(0, 10), pt(0, 5)]
    );
}

#[test]
fn long_segment_takes_several_samples() {
    let events = polyline(&[(0, 0), (2, 0), (102, 0)], false);
    let samples = path_to_samples(&events, 6).unwrap();
    assert_eq!(samples, vec![pt(0, 0), pt(17, 0), pt(34, 0), pt(51, 0), pt(68, 0), pt(85, 0)]);
}

#[test]
fn samples_round_towards_segment_start() {
    let events = polyline(&[(0, 0), (0, -10)], false);
    let samples = path_to_samples(&events, 3).unwrap();
    assert_eq!(samples, vec![pt(0, 0), pt(0, -3), pt(0, -6)]);
}

#[test]
fn point_path_is_degenerate_for_any_count() {
    let events = vec![
        PathEvent::Begin { at: pt(3, 4) },
        PathEvent::End { last: pt(3, 4), first: pt(3, 4), close: true },
    ];
    for n in [0usize, 1, 2, 10240] {
        assert_eq!(path_to_samples(&events, n), Err(PathError::DegeneratePath));
    }
}

#[test]
fn zero_samples_is_rejected() {
    let events = polyline(&[(0, 0), (10, 0)], false);
    assert_eq!(path_to_samples(&events, 0), Err(PathError::InvalidSampleCount));
}

#[test]
fn unflattened_curve_is_malformed() {
    let events = vec![
        PathEvent::Begin { at: pt(0, 0) },
        PathEvent::Cubic { from: pt(0, 0), ctrl1: pt(1, 1), ctrl2: pt(2, 1), to: pt(3, 0) },
        PathEvent::End { last: pt(3, 0), first: pt(0, 0), close: false },
    ];
    assert_eq!(check_events(&events), Some(PathError::MalformedPath));
    assert_eq!(path_to_samples(&events, 4), Err(PathError::MalformedPath));
}

#[test]
fn missing_begin_or_end_is_malformed() {
    let no_begin = vec![
        PathEvent::Line { from: pt(0, 0), to: pt(1, 0) },
        PathEvent::End { last: pt(1, 0), first: pt(0, 0), close: true },
    ];
    let no_end = vec![PathEvent::Begin { at: pt(0, 0) }, PathEvent::Line { from: pt(0, 0), to: pt(1, 0) }];
    let two_contours = vec![
        PathEvent::Begin { at: pt(0, 0) },
        PathEvent::End { last: pt(0, 0), first: pt(0, 0), close: false },
        PathEvent::Begin { at: pt(5, 5) },
        PathEvent::End { last: pt(5, 5), first: pt(5, 5), close: false },
    ];
    assert_eq!(path_to_samples(&no_begin, 4), Err(PathError::MalformedPath));
    assert_eq!(path_to_samples(&no_end, 4), Err(PathError::MalformedPath));
    assert_eq!(path_to_samples(&vec![], 4), Err(PathError::MalformedPath));
    assert_eq!(path_to_samples(&two_contours, 4), Err(PathError::MalformedPath));
}

#[test]
fn far_coordinates_are_rejected() {
    let events = polyline(&[(0, 0), (0x2000_0001, 0)], false);
    assert_eq!(path_to_samples(&events, 4), Err(PathError::CoordinateOutOfRange));
    let edge = polyline(&[(-0x2000_0000, 0), (0x2000_0000, 0)], false);
    assert_eq!(path_to_samples(&edge, 2).unwrap(), vec![pt(-0x2000_0000, 0), pt(0, 0)]);
}

#[test]
fn path_length_adds_closing_segment() {
    let open = polyline(&[(0, 0), (3, 0), (3, 4)], false);
    let closed = polyline(&[(0, 0), (3, 0), (3, 4)], true);
    assert_eq!(compute_path_length(&open), 7);
    assert_eq!(compute_path_length(&closed), 12);
    assert_eq!(path_segments(&closed).len(), 3);
    assert_eq!(path_segments(&open).len(), 2);
}

#[test]
fn construct_sample_points_matches_pipeline() {
    let events = polyline(&[(0, 0), (30, 40), (30, 0)], true);
    let total = compute_path_length(&events);
    assert_eq!(total, 120);
    let direct = construct_sample_points(&events, total, 6);
    assert_eq!(direct, path_to_samples(&events, 6).unwrap());
    assert_eq!(direct[1], pt(12, 16));
    assert_eq!(direct[2], pt(24, 32));
    assert_eq!(direct[3], pt(30, 30));
    assert_eq!(direct[5], pt(20, 0));
}

#[test]
fn integer_square_root() {
    assert_eq!(isqrt(0), 0);
    assert_eq!(isqrt(1), 1);
    assert_eq!(isqrt(15), 3);
    assert_eq!(isqrt(16), 4);
    assert_eq!(isqrt(0x3FFF_FFFF_FFFF_FFFF), 0x7FFF_FFFF);
}

#[test]
fn segment_length_rounds_down() {
    assert_eq!(segment_length(Segment { from: pt(0, 0), to: pt(3, 4) }), 5);
    assert_eq!(segment_length(Segment { from: pt(0, 0), to: pt(1, 1) }), 1);
    assert_eq!(segment_length(Segment { from: pt(5, 5), to: pt(5, 5) }), 0);
    assert_eq!(segment_length(Segment { from: pt(-0x2000_0000, -0x2000_0000), to: pt(0x2000_0000, 0x2000_0000) }), 1518500249);
}

#[test]
fn interpolation_rounds_towards_start() {
    assert_eq!(lerp_coordinate(0, 10, 1, 3), 3);
    assert_eq!(lerp_coordinate(10, 0, 1, 3), 7);
    assert_eq!(lerp_coordinate(-4, 4, 3, 4), 2);
    assert_eq!(lerp_coordinate(7, 7, 1, 2), 7);
    assert_eq!(lerp_coordinate(2, 9, 5, 5), 9);
}
