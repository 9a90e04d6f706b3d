use schisma::tuning::{JiRatio, JiScale};

fn pythagorean_scale() -> JiScale {
    let ratio = |degree, num, den| JiRatio { degree, num, den };
    JiScale::new(vec![
        ratio(0, 1, 1),
        ratio(1, 9, 8),
        ratio(2, 5, 4),
        ratio(3, 4, 3),
        ratio(4, 3, 2),
        ratio(5, 5, 3),
        ratio(6, 15, 8),
    ])
}

/// The frequency of a degree as the host computes it from where it lands.
fn frequency_for_degree(scale: &JiScale, base: f64, degree: i32) -> f64 {
    match scale.locate(degree) {
        None => base,
        Some(step) => {
            let ratio = step.ratio.map(|r| r.num as f64 / r.den as f64).unwrap_or(1.0);
            base * ratio * 2.0_f64.powi(step.octave)
        }
    }
}

#[test]
fn test_unison() {
    let t = pythagorean_scale();
    assert!((frequency_for_degree(&t, 261.625, 0) - 261.625).abs() < 1e-6);
}

#[test]
fn test_perfect_fifth() {
    let t = pythagorean_scale();
    let expected = 261.625 * 3.0 / 2.0;
    assert!((frequency_for_degree(&t, 261.625, 4) - expected).abs() < 1e-6);
}

#[test]
fn test_octave_up() {
    let t = pythagorean_scale();
    let expected = 261.625 * 2.0;
    assert!((frequency_for_degree(&t, 261.625, 7) - expected).abs() < 1e-6);
}

#[test]
fn test_octave_down() {
    let t = pythagorean_scale();
    let expected = 261.625 / 2.0;
    assert!((frequency_for_degree(&t, 261.625, -7) - expected).abs() < 1e-6);
}

#[test]
fn test_negative_degree_ratio() {
    let t = pythagorean_scale();
    let expected = 261.625 * (3.0 / 2.0) / 2.0;
    assert!((frequency_for_degree(&t, 261.625, -3) - expected).abs() < 1e-6);
}

#[test]
fn ratios_are_sorted_stably_by_degree() {
    let scale = JiScale::new(vec![
        JiRatio { degree: 2, num: 5, den: 4 },
        JiRatio { degree: 0, num: 1, den: 1 },
        JiRatio { degree: 2, num: 6, den: 5 },
    ]);
    let degrees: Vec<(u32, u64)> = scale.ratios().iter().map(|r| (r.degree, r.num)).collect();
    assert_eq!(degrees, vec![(0, 1), (2, 5), (2, 6)]);
    assert_eq!(scale.scale_size(), 3);
    // Degree 2 takes the first ratio listed for it; degree 1 has none.
    let step = scale.locate(2).unwrap();
    assert_eq!(step.ratio, Some(JiRatio { degree: 2, num: 5, den: 4 }));
    assert_eq!(step.octave, 0);
    assert_eq!(scale.locate(1).unwrap().ratio, None);
    assert_eq!(scale.locate(-1).unwrap().octave, -1);
}

#[test]
fn an_empty_scale_plays_the_base_frequency() {
    let scale = JiScale::new(Vec::new());
    assert!(scale.locate(5).is_none());
    assert_eq!(frequency_for_degree(&scale, 440.0, 5), 440.0);
}
