use dsp_utils::filter::{ChamberlinApprox, Filter, FilterType, LowPassFilter};
use dsp_utils::Reals;

struct Float;

impl Reals<f32> for Float {
    fn from_index(index: usize) -> f32 {
        index as f32
    }

    fn half() -> f32 {
        0.5
    }

    fn pi() -> f32 {
        std::f32::consts::PI
    }

    fn sin(angle: f32) -> f32 {
        angle.sin()
    }

    fn cos(angle: f32) -> f32 {
        angle.cos()
    }

    fn powi(base: f32, n: i32) -> f32 {
        base.powi(n)
    }

    fn mul_add(a: f32, b: f32, c: f32) -> f32 {
        a.mul_add(b, c)
    }
}

#[test]
fn state_variable_filter_has_four_responses() {
    let mut filter: ChamberlinApprox<f32, Float> = ChamberlinApprox::new(44100.0, FilterType::LowPass);
    assert!(filter.set_type(FilterType::LowPass));
    assert!(filter.set_type(FilterType::HighPass));
    assert!(filter.set_type(FilterType::BandPass));
    assert!(filter.set_type(FilterType::Notch));
    assert!(!filter.set_type(FilterType::LowShelf));
    assert!(!filter.set_type(FilterType::HighShelf));
}

#[test]
fn a_response_the_filter_lacks_hands_the_sample_back() {
    let mut filter: ChamberlinApprox<f32, Float> =
        ChamberlinApprox::new(44100.0, FilterType::HighShelf);
    assert_eq!(filter.process(0.25, 1000.0, 1.0), 0.25);
    assert_eq!(filter.process(-3.0, 1000.0, 1.0), -3.0);
}

/// The first step of the filter from rest, written out.
fn first_step(sample: f32, cutoff: f32, fs: f32, q: f32) -> (f32, f32, f32, f32) {
    let f = 2.0 * (std::f32::consts::PI * cutoff / fs).sin();
    let low = f.mul_add(0.0, 0.0);
    let high = q.mul_add(-0.0, sample.mul_add(q, -low));
    let band = f.mul_add(high, 0.0);
    (low, high, band, low + high)
}

#[test]
fn first_step_from_rest() {
    let (low, high, band, notch) = first_step(1.0, 11025.0, 44100.0, 0.5);
    // f is twice the sine of forty-five degrees; from rest: high = q, band = f * q
    assert_eq!(low, 0.0);
    assert_eq!(high, 0.5);
    assert!((band - std::f32::consts::FRAC_1_SQRT_2).abs() < 1e-6);
    let run = |f_type: FilterType| {
        let mut filter: ChamberlinApprox<f32, Float> = ChamberlinApprox::new(44100.0, f_type);
        filter.process(1.0, 11025.0, 0.5)
    };
    assert_eq!(run(FilterType::LowPass), low);
    assert_eq!(run(FilterType::HighPass), high);
    assert_eq!(run(FilterType::BandPass), band);
    assert_eq!(run(FilterType::Notch), notch);
}

#[test]
fn low_pass_filter_settles_on_a_constant() {
    let mut filter: LowPassFilter<f32> = LowPassFilter::new::<Float>(4, 44100.0);
    let mut block = [1_f32; 4];
    let cutoff = [44100_f32 / (2.0 * std::f32::consts::PI); 4];
    filter.process(&mut block, &cutoff);
    // alpha times the cutoff is one, so each sample moves half of the way
    assert!((block[0] - 0.5).abs() < 1e-6);
    assert!((block[1] - 0.75).abs() < 1e-6);
    assert!((block[2] - 0.875).abs() < 1e-6);
    assert!((block[3] - 0.9375).abs() < 1e-6);
    let mut next = [1_f32; 1];
    filter.process(&mut next, &cutoff);
    assert!((next[0] - 0.96875).abs() < 1e-6);
}
