use fourier_path::geometry::Point;
use fourier_path::path::{PathError, PathEvent};
use fourier_path::sampler::path_to_samples;
use fourier_path::spectrum::{clamp_wave_count, descriptor_order, Component};
use fourier_path::visualizer::HTMLVisualizer;
use rustfft::num_complex::Complex;
use rustfft::FftPlanner;

fn comp(frequency: i64, bin: usize) -> Component {
    Component { frequency, bin }
}

#[test]
fn default_wave_count_gives_hundred_pairs() {
    let order = descriptor_order(10240, 201).unwrap();
    assert_eq!(order.len(), 201);
    assert_eq!(order[0], comp(0, 0));
    for i in 1..=100usize {
        assert_eq!(order[2 * i - 1], comp(i as i64, i));
        assert_eq!(order[2 * i], comp(-(i as i64), 10240 - i));
    }
}

#[test]
fn even_wave_count_gives_half_as_many_pairs() {
    let order = descriptor_order(16, 10).unwrap();
    assert_eq!(
        order,
        vec![
            comp(0, 0),
            comp(1, 1),
            comp(-1, 15),
            comp(2, 2),
            comp(-2, 14),
            comp(3, 3),
            comp(-3, 13),
            comp(4, 4),
            comp(-4, 12),
            comp(5, 5),
            comp(-5, 11),
        ]
    );
    assert_eq!(descriptor_order(16, 11).unwrap(), order);
}

#[test]
fn wave_count_is_clamped_to_sample_count() {
    assert_eq!(clamp_wave_count(100, 4), 4);
    assert_eq!(clamp_wave_count(3, 4), 3);
    assert_eq!(clamp_wave_count(4, 4), 4);
    let order = descriptor_order(4, 100).unwrap();
    assert_eq!(order, vec![comp(0, 0), comp(1, 1), comp(-1, 3), comp(2, 2), comp(-2, 2)]);
}

#[test]
fn small_wave_counts_keep_only_constant_term() {
    assert_eq!(descriptor_order(8, 0).unwrap(), vec![comp(0, 0)]);
    assert_eq!(descriptor_order(8, 1).unwrap(), vec![comp(0, 0)]);
    assert_eq!(descriptor_order(1, 201).unwrap(), vec![comp(0, 0)]);
}

#[test]
fn no_samples_gives_no_order() {
    assert_eq!(descriptor_order(0, 201), Err(PathError::InvalidSampleCount));
}

fn spectrum_of(samples: &[Point]) -> Vec<Complex<f64>> {
    let n = samples.len();
    let mut buf: Vec<Complex<f64>> =
        samples.iter().map(|p| Complex { re: p.x as f64, im: p.y as f64 }).collect();
    let mut planner = FftPlanner::<f64>::new();
    planner.plan_fft_forward(n).process(&mut buf);
    buf.iter().map(|c| c / n as f64).collect()
}

fn square(half: i64) -> Vec<PathEvent> {
    let c = [(-half, -half), (half, -half), (half, half), (-half, half)];
    let p = |i: usize| Point { x: c[i].0, y: c[i].1 };
    vec![
        PathEvent::Begin { at: p(0) },
        PathEvent::Line { from: p(0), to: p(1) },
        PathEvent::Line { from: p(1), to: p(2) },
        PathEvent::Line { from: p(2), to: p(3) },
        PathEvent::End { last: p(3), first: p(0), close: true },
    ]
}

#[test]
fn centered_square_has_no_constant_term() {
    let samples = path_to_samples(&square(1000), 400).unwrap();
    let spectrum = spectrum_of(&samples);
    let order = descriptor_order(400, 201).unwrap();
    let dc = spectrum[order[0].bin];
    assert!(dc.norm() < 1e-6 * 1000.0);
}

#[test]
fn all_coefficients_sum_to_first_sample() {
    let events = vec![
        PathEvent::Begin { at: Point { x: 120, y: -40 } },
        PathEvent::Line { from: Point { x: 120, y: -40 }, to: Point { x: 700, y: 300 } },
        PathEvent::Line { from: Point { x: 700, y: 300 }, to: Point { x: -90, y: 510 } },
        PathEvent::End { last: Point { x: -90, y: 510 }, first: Point { x: 120, y: -40 }, close: true },
    ];
    let n = 97;
    let samples = path_to_samples(&events, n).unwrap();
    let spectrum = spectrum_of(&samples);
    let order = descriptor_order(n, n).unwrap();
    assert_eq!(order.len(), n);
    let mut sum = Complex { re: 0.0, im: 0.0 };
    for c in &order {
        sum += spectrum[c.bin];
    }
    assert!((sum.re - samples[0].x as f64).abs() < 1e-6);
    assert!((sum.im - samples[0].y as f64).abs() < 1e-6);
}

#[test]
fn visualizer_keeps_file_name() {
    let v = HTMLVisualizer::new("output.html".to_string());
    assert_eq!(v.file_name(), "output.html");
}
