use dsp_utils::algorithms::add_samples;
use dsp_utils::sample::{copy_samples, filled};
use dsp_utils::stream::{stage_block, swap_ranges};
use dsp_utils::window::apply_weights;
use dsp_utils::rescale_normalized_value;
use dsp_utils::Buffer;

#[test]
fn filled_repeats_the_value() {
    assert_eq!(filled(7_i32, 3), vec![7, 7, 7]);
    assert_eq!(filled(1.5_f32, 0), Vec::<f32>::new());
}

#[test]
fn copy_samples_writes_the_range_only() {
    let source = [1, 2, 3, 4, 5];
    let mut target = [0; 6];
    copy_samples(&source, 1, &mut target, 2, 3);
    assert_eq!(target, [0, 0, 2, 3, 4, 0]);
    copy_samples(&source, 5, &mut target, 6, 0);
    assert_eq!(target, [0, 0, 2, 3, 4, 0]);
}

#[test]
fn add_samples_adds_place_by_place() {
    let window = [1, 2, 3, 4];
    let owed = [10, 20];
    let mut block = [0, 0];
    add_samples(&window, &owed, &mut block);
    assert_eq!(block, [11, 22]);
}

#[test]
fn apply_weights_multiplies_place_by_place() {
    let weights = [2, 3, 4];
    let mut block = [5, 6];
    apply_weights(&weights, &mut block);
    assert_eq!(block, [10, 18]);
}

#[test]
fn stage_block_completes_a_block() {
    // two samples wait, two are owed
    let carry = [1, 2, 30, 40];
    let mut segment = [5, 6, 7, 8, 9];
    let mut block = [0; 4];
    stage_block(&carry, 2, &mut segment, 1, &mut block);
    assert_eq!(block, [1, 2, 6, 7]);
    assert_eq!(segment, [5, 30, 40, 8, 9]);
}

#[test]
fn stage_block_with_nothing_waiting() {
    let carry = [10, 20, 30];
    let mut segment = [1, 2, 3, 4];
    let mut block = [0; 3];
    stage_block(&carry, 0, &mut segment, 1, &mut block);
    assert_eq!(block, [2, 3, 4]);
    assert_eq!(segment, [1, 10, 20, 30]);
}

#[test]
fn swap_ranges_exchanges_the_ranges() {
    let mut carry = [1, 2, 3, 4];
    let mut segment = [10, 20, 30];
    swap_ranges(&mut carry, 1, &mut segment, 0, 2);
    assert_eq!(carry, [1, 10, 20, 4]);
    assert_eq!(segment, [2, 3, 30]);
}

#[test]
fn buffer_knows_its_shape() {
    let buffer = Buffer::from_channels(3, vec![vec![1, 2, 3], vec![4, 5, 6]]).unwrap();
    assert_eq!(buffer.samples(), 3);
    assert_eq!(buffer.channels(), 2);
    assert!(!buffer.is_empty());
    assert_eq!(buffer.as_slice_immutable()[1], vec![4, 5, 6]);
    assert_eq!(buffer.into_channels(), vec![vec![1, 2, 3], vec![4, 5, 6]]);

    let silent: Buffer<i32> = Buffer::from_channels(0, vec![vec![], vec![]]).unwrap();
    assert!(silent.is_empty());
    assert_eq!(silent.channels(), 2);

    let bare: Buffer<i32> = Buffer::from_channels(5, vec![]).unwrap();
    assert_eq!(bare.samples(), 5);
    assert_eq!(bare.channels(), 0);
}

#[test]
fn rescaling_takes_the_unit_range_to_the_given_range() {
    assert_eq!(rescale_normalized_value(0.0_f32, -30.0, 30.0), -30.0);
    assert_eq!(rescale_normalized_value(1.0_f32, -30.0, 30.0), 30.0);
    assert_eq!(rescale_normalized_value(0.25_f32, 2.0, 10.0), 4.0);
    assert_eq!(rescale_normalized_value(3_i32, 1, 5), 13);
}
