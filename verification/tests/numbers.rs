use drone_detection_pipeline::number::{Real, Real64};
use drone_detection_pipeline::rank::rank;

fn num(x: f32) -> Real {
    Real { bits: x.to_bits() }
}

fn samples() -> Vec<f32> {
    vec![
        0.0, -0.0, 1.0, -1.0, 0.35, 0.3, 1.5e-45, -1.5e-45, f32::MIN_POSITIVE, f32::MAX, f32::MIN,
        f32::INFINITY, f32::NEG_INFINITY, f32::NAN, -f32::NAN, 640.0, 639.99994, -3.25,
    ]
}

#[test]
fn comparisons_agree_with_the_machine() {
    for a in samples() {
        for b in samples() {
            assert_eq!(num(a).less_than(num(b)), a < b, "{a} < {b}");
            assert_eq!(num(a).at_most(num(b)), a <= b, "{a} <= {b}");
        }
        assert_eq!(num(a).is_nan(), a.is_nan());
    }
}

#[test]
fn zero_is_positive_zero() {
    assert_eq!(Real::zero(), num(0.0));
}

#[test]
fn exactly_one_of_less_and_not_less_holds() {
    assert!(num(0.25).less_than(num(0.5)) && !num(0.5).at_most(num(0.25)));
    assert!(!num(0.5).less_than(num(0.5)) && num(0.5).at_most(num(0.5)));
}

#[test]
fn negation_agrees_with_the_machine() {
    for x in [0.0f64, -0.0, 48.117, -11.516, f64::INFINITY] {
        assert_eq!(Real64 { bits: x.to_bits() }.negated().bits, (-x).to_bits());
    }
}

#[test]
fn ranking_is_stable_and_best_first() {
    let scores: Vec<Real> = [0.5, 0.9, 0.5, 1.2, 0.9].iter().map(|s| num(*s)).collect();
    assert_eq!(rank(&scores), vec![3, 1, 4, 0, 2]);
    assert_eq!(rank(&Vec::new()), Vec::<usize>::new());
    assert_eq!(rank(&vec![num(f32::NAN)]), vec![0]);
}

#[test]
fn ranking_agrees_with_a_stable_sort() {
    let mut seed: u32 = 7;
    for n in 0..40usize {
        let mut values: Vec<f32> = Vec::new();
        for _ in 0..n {
            seed = seed.wrapping_mul(1664525).wrapping_add(1013904223);
            values.push(((seed >> 24) % 8) as f32 / 4.0);
        }
        let mut expected: Vec<usize> = (0..n).collect();
        expected.sort_by(|a, b| values[*b].partial_cmp(&values[*a]).unwrap());
        let scores: Vec<Real> = values.iter().map(|v| num(*v)).collect();
        assert_eq!(rank(&scores), expected);
    }
}
