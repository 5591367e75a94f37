use dsp_utils::algorithms::Identity as Through;
use dsp_utils::{HannWindow, Process, Reals, SignalWindow, SineWindow, WindowedProcess};

struct Float;

impl Reals<f32> for Float {
    fn from_index(index: usize) -> f32 {
        index as f32
    }

    fn half() -> f32 {
        0.5
    }

    fn pi() -> f32 {
        std::f32::consts::PI
    }

    fn sin(angle: f32) -> f32 {
        angle.sin()
    }

    fn cos(angle: f32) -> f32 {
        angle.cos()
    }

    fn powi(base: f32, n: i32) -> f32 {
        base.powi(n)
    }

    fn mul_add(a: f32, b: f32, c: f32) -> f32 {
        a.mul_add(b, c)
    }
}

#[test]
fn hann_window_is_the_squared_sine() {
    let window: HannWindow<f32, Float> = HannWindow::new(4);
    let mut block = [1_f32; 8];
    window.apply(&mut block);
    assert_eq!(block[0], 0.0);
    // place 2 of 8: the sine of forty-five degrees, squared
    assert!((block[2] - 0.5).abs() < 1e-6);
    // place 4 of 8: the sine of ninety degrees, squared
    assert!((block[4] - 1.0).abs() < 1e-6);
    for i in 0..8 {
        let expected = (std::f32::consts::PI * i as f32 / 8.0).sin().powi(2);
        assert!((block[i] - expected).abs() < 1e-6);
    }
}

#[test]
fn the_halves_of_the_hann_window_add_up_to_one() {
    for &block_size in &[1_usize, 2, 4, 23, 64] {
        let window: HannWindow<f32, Float> = HannWindow::new(block_size);
        let mut block = vec![1_f32; 2 * block_size];
        window.apply(&mut block);
        for i in 0..block_size {
            assert!((block[i] + block[i + block_size] - 1.0).abs() < 1e-5);
        }
    }
}

#[test]
fn sine_window_is_the_sine() {
    let window: SineWindow<f32, Float> = SineWindow::new(4);
    let mut block = [2_f32; 8];
    window.apply(&mut block);
    // place 2 of 8: twice the sine of forty-five degrees
    assert!((block[2] - 2_f32.sqrt()).abs() < 1e-6);
    for i in 0..8 {
        let expected = 2.0 * (std::f32::consts::PI * i as f32 / 8.0).sin();
        assert!((block[i] - expected).abs() < 1e-6);
    }
}

#[test]
fn window_applies_to_a_shorter_block() {
    let window: HannWindow<f32, Float> = HannWindow::new(4);
    let mut block = [1_f32; 3];
    window.apply(&mut block);
    assert!((block[2] - 0.5).abs() < 1e-6);
}

#[test]
fn sine_window_before_and_after_gives_unity_gain() {
    let mut wrapper: WindowedProcess<f32, Through, SineWindow<f32, Float>> =
        WindowedProcess::new(16, true, true);
    let mut first = [5_f32; 16];
    wrapper.process(&mut first, &());
    for _ in 0..3 {
        let mut block = [5_f32; 16];
        wrapper.process(&mut block, &());
        for x in block.iter() {
            assert!((x - 5.0).abs() < 1e-4);
        }
    }
}

/// Leaves the window as it is and hands back the number of calls so far.
struct Identity {
    calls: u32,
}

impl Process<f32> for Identity {
    type Message = u32;
    type Data = ();

    fn new(_block_size: usize) -> Self {
        Identity { calls: 0 }
    }

    fn process(&mut self, _block: &mut [f32], _data: &()) -> u32 {
        self.calls += 1;
        self.calls
    }
}

/// Weights that add up to one across the two halves.
struct Ramp {
    weights: Vec<f32>,
}

impl SignalWindow<f32> for Ramp {
    fn new(block_size: usize) -> Self {
        let mut weights = Vec::new();
        for i in 0..block_size {
            weights.push(i as f32 / block_size as f32);
        }
        for i in 0..block_size {
            weights.push(1.0 - i as f32 / block_size as f32);
        }
        Ramp { weights }
    }

    fn apply(&self, block: &mut [f32]) {
        for i in 0..block.len() {
            block[i] *= self.weights[i];
        }
    }
}

#[test]
fn constant_signal_comes_back_from_the_second_block_on() {
    let mut wrapper: WindowedProcess<f32, Identity, Ramp> = WindowedProcess::new(4, true, false);
    let mut first = [8_f32; 4];
    assert_eq!(wrapper.process(&mut first, &()), 1);
    // the first block holds what the silence before it and its rising half give
    assert_eq!(first, [0.0; 4]);
    for call in 2..5 {
        let mut block = [8_f32; 4];
        assert_eq!(wrapper.process(&mut block, &()), call);
        assert_eq!(block, [8.0; 4]);
    }
}

#[test]
fn without_weights_the_block_before_comes_back_twice() {
    let mut wrapper: WindowedProcess<f32, Identity, Ramp> = WindowedProcess::new(2, false, false);
    let mut a = [1_f32, 2_f32];
    wrapper.process(&mut a, &());
    // window: silence then a; owed: silence
    assert_eq!(a, [0.0, 0.0]);
    let mut b = [10_f32, 20_f32];
    wrapper.process(&mut b, &());
    // window: a then b; owed: a
    assert_eq!(b, [2.0, 4.0]);
    let mut c = [100_f32, 200_f32];
    wrapper.process(&mut c, &());
    assert_eq!(c, [20.0, 40.0]);
}

#[test]
fn weights_before_and_after_are_both_applied() {
    let mut wrapper: WindowedProcess<f32, Identity, Ramp> = WindowedProcess::new(2, true, true);
    let mut a = [4_f32, 4_f32];
    wrapper.process(&mut a, &());
    let mut b = [4_f32, 4_f32];
    wrapper.process(&mut b, &());
    // weights 0, 1/2 | 1, 1/2, each squared: 4 * 0 + 4 * 1, 4 / 4 + 4 / 4
    assert_eq!(b, [4.0, 2.0]);
}

#[test]
fn the_identity_of_the_library_gives_unity_gain_too() {
    let mut wrapper: WindowedProcess<f32, Through, Ramp> = WindowedProcess::new(8, false, true);
    let mut first = [3_f32; 8];
    wrapper.process(&mut first, &());
    for _ in 0..3 {
        let mut block = [3_f32; 8];
        wrapper.process(&mut block, &());
        assert_eq!(block, [3.0; 8]);
    }
}
