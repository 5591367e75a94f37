use dsp_utils::{Reals, DCT, MDCT};

struct Float;

impl Reals<f32> for Float {
    fn from_index(index: usize) -> f32 {
        index as f32
    }

    fn half() -> f32 {
        0.5
    }

    fn pi() -> f32 {
        std::f32::consts::PI
    }

    fn sin(angle: f32) -> f32 {
        angle.sin()
    }

    fn cos(angle: f32) -> f32 {
        angle.cos()
    }

    fn powi(base: f32, n: i32) -> f32 {
        base.powi(n)
    }

    fn mul_add(a: f32, b: f32, c: f32) -> f32 {
        a.mul_add(b, c)
    }
}

fn get_test_case() -> [f32; 8] {
    [
        500_f32, 100_f32, -150_f32, 1500_f32, 1000_f32, 5000_f32, -1000_f32, 400_f32,
    ]
}

#[test]
fn test_dct_idct() {
    let data_orig: [f32; 8] = get_test_case();
    let mut data = data_orig.clone();
    let mut temp = [-100000000000_f32; 8];

    let dct: DCT<f32> = DCT::new::<Float>(8);

    dct.dct(data.as_mut_slice(), temp.as_mut_slice());
    dct.idct(data.as_mut_slice(), temp.as_mut_slice());
    for i in 0..8 {
        assert!((data[i] - data_orig[i]) < 0.01_f32);
    }
}

#[test]
fn round_trip_is_close_on_both_sides() {
    let data_orig: [f32; 8] = get_test_case();
    let mut data = data_orig;
    let mut temp = [0_f32; 8];
    let dct: DCT<f32> = DCT::new::<Float>(8);
    dct.dct(&mut data, &mut temp);
    dct.idct(&mut data, &mut temp);
    for i in 0..8 {
        assert!((data[i] - data_orig[i]).abs() < 0.01_f32);
    }
}

#[test]
fn round_trip_at_other_lengths() {
    for &n in &[2_usize, 4, 16, 64, 256] {
        let orig: Vec<f32> = (0..n).map(|i| ((i * 37 + 11) % 23) as f32 - 11.0).collect();
        let mut data = orig.clone();
        let mut temp = vec![0_f32; n];
        let dct: DCT<f32> = DCT::new::<Float>(n);
        dct.dct(&mut data, &mut temp);
        dct.idct(&mut data, &mut temp);
        for i in 0..n {
            assert!((data[i] - orig[i]).abs() < 0.01_f32);
        }
    }
}

/// The cosine sum that the forward transform stands for: the first term
/// halved, every term times two over the length.
fn cosine_sum(x: &[f32], k: usize) -> f64 {
    let n = x.len() as f64;
    let mut sum = 0_f64;
    for (i, v) in x.iter().enumerate() {
        sum += (*v as f64) * (std::f64::consts::PI * (i as f64 + 0.5) * (k as f64) / n).cos();
    }
    let scale = if k == 0 { 0.5 } else { 1.0 };
    sum * scale * 2.0 / n
}

#[test]
fn forward_transform_is_the_scaled_cosine_sum() {
    let orig = get_test_case();
    let mut data = orig;
    let mut temp = [0_f32; 8];
    let dct: DCT<f32> = DCT::new::<Float>(8);
    dct.dct(&mut data, &mut temp);
    for k in 0..8 {
        assert!((data[k] as f64 - cosine_sum(&orig, k)).abs() < 0.01);
    }
}

#[test]
fn forward_transform_of_two_samples() {
    let mut data = [1_f32, 3_f32];
    let mut temp = [0_f32; 2];
    let dct: DCT<f32> = DCT::new::<Float>(2);
    dct.dct(&mut data, &mut temp);
    assert_eq!(data[0], 2.0);
    assert!((data[1] + std::f32::consts::SQRT_2).abs() < 1e-6);
    dct.idct(&mut data, &mut temp);
    assert!((data[0] - 1.0).abs() < 1e-6);
    assert!((data[1] - 3.0).abs() < 1e-6);
}

#[test]
fn scratch_beyond_the_block_is_left_alone() {
    let mut data = [1_f32, 2_f32, 3_f32, 4_f32];
    let mut temp = [7_f32; 6];
    let dct: DCT<f32> = DCT::new::<Float>(4);
    dct.dct(&mut data, &mut temp);
    assert_eq!(temp[4..], [7.0, 7.0]);
}

#[test]
fn lapped_transform_gives_the_block_back_one_call_late() {
    let block_size = 4;
    let mut mdct: MDCT<f32> = MDCT::new::<Float>(block_size);
    let blocks = [
        vec![0_f32, 1_f32, -1_f32, 0_f32],
        vec![2_f32, 4_f32, 8_f32, 16_f32],
        vec![-3_f32, 5_f32, -7_f32, 9_f32],
    ];
    let mut before = vec![0_f32; block_size];
    for block in blocks.iter() {
        let mut lapped = vec![0_f32; 2 * block_size];
        mdct.mdct(block, &mut lapped);
        let mut out = vec![0_f32; block_size];
        mdct.imdct::<Float>(&mut lapped, &mut out);
        // The transform comes back as the block before and the block at hand.
        for i in 0..block_size {
            assert!((lapped[i] - before[i]).abs() < 1e-3);
            assert!((lapped[block_size + i] - block[i]).abs() < 1e-3);
        }
        // What comes out is the block before: the two halves of the window
        // add up to one.
        for i in 0..block_size {
            assert!((out[i] - before[i]).abs() < 1e-3);
        }
        before = block.clone();
    }
}

#[test]
fn lapped_transform_reads_the_first_block_only() {
    let mut a: MDCT<f32> = MDCT::new::<Float>(2);
    let mut b: MDCT<f32> = MDCT::new::<Float>(2);
    let mut out_a = vec![0_f32; 4];
    let mut out_b = vec![0_f32; 4];
    a.mdct(&[1.0, 2.0], &mut out_a);
    b.mdct(&[1.0, 2.0, 9.0, 9.0], &mut out_b);
    assert_eq!(out_a, out_b);
}
