use std::sync::Arc;

use dsp_utils::{Buffer, DspCoreProcessor, ParamsBlock, ProcessStatus, SingleChannelProcessor};

struct ImplementsParams {}

struct Block {}

impl ParamsBlock for Block {
    type Params = ImplementsParams;

    fn new(_params: Arc<Self::Params>, _block_size: usize) -> Self {
        Self {}
    }

    fn from_params(&mut self) {}
}

struct Single {
    block_size: usize,
}

impl SingleChannelProcessor<f32> for Single {
    type ParamsBlock = Block;

    fn new(block_size: usize) -> Self {
        Self { block_size }
    }

    fn process(
        &mut self,
        block: &[f32],
        output: &mut [f32],
        _params_block: &Self::ParamsBlock,
    ) -> ProcessStatus {
        assert_eq!(self.block_size, block.len());
        assert_eq!(self.block_size, output.len());

        output.copy_from_slice(block);
        for i in 0..output.len() {
            output[i] += 1_f32;
        }
        ProcessStatus::Normal
    }
}

// Makes sure that every sample is processed once, in blocks of the block size.
#[test]
fn test_overflow_prevention_system() {
    let mut buffer = Buffer::from_channels(128, vec![vec![0_f32; 128]; 3]).unwrap();

    let mut proc: DspCoreProcessor<f32, Single> =
        DspCoreProcessor::new(Arc::new(ImplementsParams {}), 23, 3);

    proc.process(&mut buffer);

    // The first pass gives 23 samples of delay, so there should be that many zeros
    let mut expected = vec![0_f32; 23];
    expected.extend_from_slice(&[1_f32; 128 - 23]);

    assert_eq!(expected, buffer.as_slice_immutable()[0]);
    assert_eq!(expected, buffer.as_slice_immutable()[1]);
    assert_eq!(expected, buffer.as_slice_immutable()[2]);

    let mut buffer = Buffer::from_channels(128, vec![vec![0_f32; 128]; 3]).unwrap();

    proc.process(&mut buffer);

    let expected = [1_f32; 128];

    assert_eq!(expected.to_vec(), buffer.as_slice_immutable()[0]);
    assert_eq!(expected.to_vec(), buffer.as_slice_immutable()[1]);
    assert_eq!(expected.to_vec(), buffer.as_slice_immutable()[2]);
}

/// Counts the blocks it has seen and adds the count to every sample, so that
/// its output depends on the order and the content of the blocks.
struct Counting {
    block_size: usize,
    seen: i64,
    fail_at: i64,
}

impl SingleChannelProcessor<i64> for Counting {
    type ParamsBlock = Block;

    fn new(block_size: usize) -> Self {
        Self { block_size, seen: 0, fail_at: -1 }
    }

    fn process(
        &mut self,
        block: &[i64],
        output: &mut [i64],
        _params_block: &Self::ParamsBlock,
    ) -> ProcessStatus {
        assert_eq!(self.block_size, block.len());
        if self.seen == self.fail_at {
            return ProcessStatus::Error("refused");
        }
        self.seen += 1;
        for i in 0..block.len() {
            output[i] = block[i] * 10 + self.seen + (i as i64) * 1000;
        }
        ProcessStatus::Normal
    }
}

fn signal(channel: i64, len: usize) -> Vec<i64> {
    (0..len as i64).map(|i| channel * 100_000 + i + 1).collect()
}

fn run_chunks(block_size: usize, channels: usize, len: usize, chunks: &[usize]) -> Vec<Vec<i64>> {
    let mut proc: DspCoreProcessor<i64, Counting> =
        DspCoreProcessor::new(Arc::new(ImplementsParams {}), block_size, channels);
    let mut out: Vec<Vec<i64>> = vec![Vec::new(); channels];
    let mut at = 0;
    for &n in chunks {
        let data: Vec<Vec<i64>> =
            (0..channels).map(|c| signal(c as i64, len)[at..at + n].to_vec()).collect();
        let mut buffer = Buffer::from_channels(n, data).unwrap();
        assert_eq!(proc.process(&mut buffer), ProcessStatus::Normal);
        let back = buffer.into_channels();
        for c in 0..channels {
            assert_eq!(back[c].len(), n);
            out[c].extend_from_slice(&back[c]);
        }
        at += n;
    }
    assert_eq!(at, len);
    out
}

fn expected_stream(block_size: usize, channel: i64, len: usize) -> Vec<i64> {
    let input = signal(channel, len);
    let mut stream = vec![0_i64; block_size];
    let mut seen = 0;
    for block in input.chunks_exact(block_size) {
        seen += 1;
        for (i, x) in block.iter().enumerate() {
            stream.push(x * 10 + seen + (i as i64) * 1000);
        }
    }
    stream.truncate(len);
    stream
}

#[test]
fn chunking_does_not_change_the_output() {
    let whole = run_chunks(5, 2, 61, &[61]);
    let parts = run_chunks(5, 2, 61, &[7, 3, 50, 1]);
    assert_eq!(whole, parts);
    assert_eq!(whole[0], expected_stream(5, 0, 61));
    assert_eq!(whole[1], expected_stream(5, 1, 61));
}

#[test]
fn segments_shorter_than_the_missing_part_are_kept() {
    // With 23 samples to a block, 7 and then 3 samples do not complete one.
    let whole = run_chunks(23, 3, 61, &[61]);
    let parts = run_chunks(23, 3, 61, &[7, 3, 0, 50, 1]);
    assert_eq!(whole, parts);
    for c in 0..3 {
        assert_eq!(whole[c], expected_stream(23, c as i64, 61));
    }
}

#[test]
fn output_is_late_by_one_block() {
    let out = run_chunks(4, 1, 12, &[12]);
    assert_eq!(out[0][..4], [0, 0, 0, 0]);
    // block 1 is 1, 2, 3, 4: each times ten, plus the count 1, plus 1000 per place
    assert_eq!(out[0][4..8], [11, 1021, 2031, 3041]);
    assert_eq!(out[0][8..12], [52, 1062, 2072, 3082]);
}

#[test]
fn empty_segment_changes_nothing() {
    let a = run_chunks(4, 2, 10, &[3, 0, 7]);
    let b = run_chunks(4, 2, 10, &[3, 7]);
    assert_eq!(a, b);
}

#[test]
fn buffer_without_channels_is_an_error() {
    let mut proc: DspCoreProcessor<i64, Counting> =
        DspCoreProcessor::new(Arc::new(ImplementsParams {}), 4, 2);
    let mut buffer: Buffer<i64> = Buffer::from_channels(16, Vec::new()).unwrap();
    assert_eq!(proc.process(&mut buffer), ProcessStatus::Error("No channels"));
}

#[test]
fn extra_channels_are_left_untouched() {
    let mut proc: DspCoreProcessor<i64, Counting> =
        DspCoreProcessor::new(Arc::new(ImplementsParams {}), 4, 2);
    let data = vec![signal(0, 8), signal(1, 8), signal(2, 8)];
    let mut buffer = Buffer::from_channels(8, data).unwrap();
    assert_eq!(proc.process(&mut buffer), ProcessStatus::Normal);
    let back = buffer.into_channels();
    assert_eq!(back[0], expected_stream(4, 0, 8));
    assert_eq!(back[1], expected_stream(4, 1, 8));
    assert_eq!(back[2], signal(2, 8));
}

#[test]
fn channels_do_not_leak_into_each_other() {
    // The same two signals, given to the channels in either order.
    let run = |first: i64, second: i64| {
        let mut proc: DspCoreProcessor<i64, Counting> =
            DspCoreProcessor::new(Arc::new(ImplementsParams {}), 3, 2);
        let mut buffer =
            Buffer::from_channels(10, vec![signal(first, 10), signal(second, 10)]).unwrap();
        assert_eq!(proc.process(&mut buffer), ProcessStatus::Normal);
        buffer.into_channels()
    };
    let straight = run(4, 9);
    let crossed = run(9, 4);
    assert_eq!(straight[0], crossed[1]);
    assert_eq!(straight[1], crossed[0]);
}

#[test]
fn mismatched_channel_lengths_are_rejected() {
    assert!(Buffer::from_channels(4, vec![vec![0_i64; 4], vec![0_i64; 3]]).is_none());
    assert!(Buffer::from_channels(4, vec![vec![0_i64; 4], vec![0_i64; 4]]).is_some());
}

/// Fails on its second block.
struct Failing {
    seen: u32,
}

impl SingleChannelProcessor<i64> for Failing {
    type ParamsBlock = Block;

    fn new(_block_size: usize) -> Self {
        Self { seen: 0 }
    }

    fn process(
        &mut self,
        block: &[i64],
        output: &mut [i64],
        _params_block: &Self::ParamsBlock,
    ) -> ProcessStatus {
        self.seen += 1;
        if self.seen == 2 {
            return ProcessStatus::Error("second block");
        }
        output.copy_from_slice(block);
        ProcessStatus::Tail(3)
    }
}

#[test]
fn an_error_of_a_processor_is_handed_on() {
    let mut proc: DspCoreProcessor<i64, Failing> =
        DspCoreProcessor::new(Arc::new(ImplementsParams {}), 4, 2);
    // one block for each channel: every processor sees its first block
    let mut buffer = Buffer::from_channels(4, vec![signal(0, 4), signal(1, 4)]).unwrap();
    assert_eq!(proc.process(&mut buffer), ProcessStatus::Normal);
    // the next block is the second for each: the first channel fails
    let mut buffer = Buffer::from_channels(4, vec![signal(0, 4), signal(1, 4)]).unwrap();
    assert_eq!(proc.process(&mut buffer), ProcessStatus::Error("second block"));
    // the second channel was not reached: its part of the buffer is as it was
    assert_eq!(buffer.as_slice_immutable()[1], signal(1, 4));
}

/// Counts how often the parameter blocks are refreshed.
struct CountingBlock {
    refreshed: usize,
}

impl ParamsBlock for CountingBlock {
    type Params = ImplementsParams;

    fn new(_params: Arc<Self::Params>, _block_size: usize) -> Self {
        Self { refreshed: 0 }
    }

    fn from_params(&mut self) {
        self.refreshed += 1;
    }
}

/// Writes the number of refreshes so far to every sample.
struct Reporting {}

impl SingleChannelProcessor<i64> for Reporting {
    type ParamsBlock = CountingBlock;

    fn new(_block_size: usize) -> Self {
        Self {}
    }

    fn process(
        &mut self,
        _block: &[i64],
        output: &mut [i64],
        params_block: &Self::ParamsBlock,
    ) -> ProcessStatus {
        for x in output.iter_mut() {
            *x = params_block.refreshed as i64;
        }
        ProcessStatus::Normal
    }
}

#[test]
fn parameters_are_refreshed_before_each_block_of_each_channel() {
    let mut proc: DspCoreProcessor<i64, Reporting> =
        DspCoreProcessor::new(Arc::new(ImplementsParams {}), 2, 2);
    let mut buffer = Buffer::from_channels(6, vec![vec![0_i64; 6], vec![0_i64; 6]]).unwrap();
    assert_eq!(proc.process(&mut buffer), ProcessStatus::Normal);
    let back = buffer.into_channels();
    assert_eq!(back[0], [0, 0, 1, 1, 3, 3]);
    assert_eq!(back[1], [0, 0, 2, 2, 4, 4]);
    assert_eq!(proc.params_block_mut().refreshed, 6);
    assert_eq!(proc.get_block_size(), 2);
    assert_eq!(proc.get_channels(), 2);
}

#[test]
fn a_buffer_with_fewer_channels_serves_those_it_has() {
    let mut proc: DspCoreProcessor<i64, Counting> =
        DspCoreProcessor::new(Arc::new(ImplementsParams {}), 4, 3);
    let mut buffer = Buffer::from_channels(8, vec![signal(0, 8), signal(1, 8)]).unwrap();
    assert_eq!(proc.process(&mut buffer), ProcessStatus::Normal);
    let back = buffer.into_channels();
    assert_eq!(back.len(), 2);
    assert_eq!(back[0], expected_stream(4, 0, 8));
    assert_eq!(back[1], expected_stream(4, 1, 8));
}

#[test]
fn a_block_of_one_sample_is_late_by_one_sample() {
    let out = run_chunks(1, 1, 4, &[1, 3]);
    // sample 1 times ten plus the count 1, and so on
    assert_eq!(out[0], [0, 11, 22, 33]);
}

#[test]
fn every_way_of_cutting_a_signal_gives_the_same_output() {
    let len = 9;
    for block_size in 1..5 {
        let expected = [expected_stream(block_size, 0, len), expected_stream(block_size, 1, len)];
        // each of the eight places between samples is a cut or is none
        for cuts in 0..(1_u32 << (len - 1)) {
            let mut chunks = Vec::new();
            let mut run = 1;
            for place in 0..len - 1 {
                if cuts & (1 << place) != 0 {
                    chunks.push(run);
                    run = 1;
                } else {
                    run += 1;
                }
            }
            chunks.push(run);
            let out = run_chunks(block_size, 2, len, &chunks);
            assert_eq!(out[0], expected[0]);
            assert_eq!(out[1], expected[1]);
        }
    }
}
