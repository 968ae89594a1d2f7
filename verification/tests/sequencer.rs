use frame_sequencer::sequencer::{Frame, Sequencer, Trace, WINDOW_LENGTH};

fn feed_ok(seq: &mut Sequencer, timestamp: u64, samples: Vec<u16>) -> Vec<Frame> {
    seq.feed(&Trace { timestamp, samples }).expect("trace should be accepted")
}

#[test]
fn single_window_trace() {
    let mut seq = Sequencer::new();
    let frames = feed_ok(&mut seq, 0, vec![1, 2, 3]);
    assert_eq!(frames.len(), 1);
    assert_eq!(frames[0].frame_start, 0);
    assert_eq!(frames[0].data_offset, 0);
    assert_eq!(frames[0].data_size, 3);
    assert_eq!(frames[0].samples, vec![1, 2, 3]);
    assert_eq!(seq.watermark, 512);
}

#[test]
fn trace_split_across_boundary() {
    let mut seq = Sequencer::new();
    let frames = feed_ok(&mut seq, 510, vec![1, 2, 3, 4]);
    assert_eq!(frames.len(), 2);
    assert_eq!(frames[0].frame_start, 0);
    assert_eq!(frames[0].data_offset, 510);
    assert_eq!(frames[0].data_size, 2);
    assert_eq!(frames[0].samples, vec![1, 2]);
    assert_eq!(frames[1].frame_start, 512);
    assert_eq!(frames[1].data_offset, 0);
    assert_eq!(frames[1].data_size, 2);
    assert_eq!(frames[1].samples, vec![3, 4]);
    assert_eq!(seq.watermark, 1024);
}

#[test]
fn second_trace_in_same_window_dropped() {
    let mut seq = Sequencer::new();
    let frames = feed_ok(&mut seq, 0, vec![9]);
    assert_eq!(frames.len(), 1);
    let dropped = seq.feed(&Trace { timestamp: 5, samples: vec![1] });
    let diag = dropped.expect_err("overlapping trace should be dropped");
    assert_eq!(diag.timestamp, 5);
    assert_eq!(diag.watermark, 512);
    assert_eq!(seq.watermark, 512);
}

#[test]
fn empty_trace_far_in_future() {
    let mut seq = Sequencer::new();
    let frames = feed_ok(&mut seq, 1024, vec![]);
    assert_eq!(frames.len(), 3);
    for (i, f) in frames.iter().enumerate() {
        assert_eq!(f.frame_start, 512 * i as u64);
        assert_eq!(f.data_offset, 0);
        assert_eq!(f.data_size, 0);
        assert!(f.samples.is_empty());
    }
    assert_eq!(seq.watermark, 1536);
}

#[test]
fn rejection_leaves_state_unchanged() {
    let mut seq = Sequencer::new();
    feed_ok(&mut seq, 0, vec![1]);
    assert_eq!(seq.watermark, 512);
    assert!(seq.feed(&Trace { timestamp: 100, samples: vec![2] }).is_err());
    assert_eq!(seq.watermark, 512);
    // A later valid trace is processed normally after the rejection.
    let frames = feed_ok(&mut seq, 512, vec![7, 8]);
    assert_eq!(frames.len(), 1);
    assert_eq!(frames[0].frame_start, 512);
    assert_eq!(frames[0].data_offset, 0);
    assert_eq!(frames[0].samples, vec![7, 8]);
    assert_eq!(seq.watermark, 1024);
}

#[test]
fn gap_fill_count_is_timestamp_div_window() {
    let mut seq = Sequencer::new();
    let ts: u64 = 4 * WINDOW_LENGTH + 100;
    let frames = feed_ok(&mut seq, ts, vec![5]);
    // ts / WINDOW_LENGTH empty frames, then the frame holding the data.
    assert_eq!(frames.len(), 5);
    for (i, f) in frames.iter().take(4).enumerate() {
        assert_eq!(f.frame_start, WINDOW_LENGTH * i as u64);
        assert_eq!(f.data_size, 0);
        assert_eq!(f.data_offset, 0);
    }
    assert_eq!(frames[4].frame_start, 4 * WINDOW_LENGTH);
    assert_eq!(frames[4].data_offset, 100);
    assert_eq!(frames[4].samples, vec![5]);
}

#[test]
fn long_trace_fills_many_windows() {
    let mut seq = Sequencer::new();
    let samples: Vec<u16> = (0..1200).map(|i| i as u16).collect();
    let frames = feed_ok(&mut seq, 0, samples.clone());
    assert_eq!(frames.len(), 3);
    assert_eq!(frames[0].data_size, 512);
    assert_eq!(frames[1].data_size, 512);
    assert_eq!(frames[2].data_size, 176);
    for (i, f) in frames.iter().enumerate() {
        assert_eq!(f.frame_start, 512 * i as u64);
    }
    assert_eq!(frames[1].data_offset, 0);
    assert_eq!(frames[2].data_offset, 0);
    // Coverage: concatenated frame samples give back the trace exactly.
    let mut rebuilt: Vec<u16> = Vec::new();
    for f in &frames {
        rebuilt.extend(f.samples.iter().copied());
    }
    assert_eq!(rebuilt, samples);
    assert_eq!(seq.watermark, 3 * 512);
}

#[test]
fn only_head_frame_sits_at_nonzero_offset() {
    let mut seq = Sequencer::new();
    let samples: Vec<u16> = (0..900).map(|i| i as u16).collect();
    let frames = feed_ok(&mut seq, 2 * 512 + 100, samples.clone());
    assert_eq!(frames.len(), 4);
    // Two gap-fill frames at offset 0, then the head at timestamp % 512.
    for f in &frames[..2] {
        assert_eq!(f.data_offset, 0);
        assert_eq!(f.data_size, 0);
    }
    assert_eq!(frames[2].frame_start, 1024);
    assert_eq!(frames[2].data_offset, 100);
    assert_eq!(frames[2].data_size, 412);
    assert_eq!(frames[3].data_offset, 0);
    assert_eq!(frames[3].data_size, 488);
    // Every frame of the trace but the last fills its window to the end.
    assert_eq!(frames[2].data_offset as u32 + frames[2].data_size, 512);
    let mut rebuilt: Vec<u16> = Vec::new();
    for f in &frames {
        rebuilt.extend(f.samples.iter().copied());
    }
    assert_eq!(rebuilt, samples);
}

#[test]
fn trace_ending_exactly_on_boundary_is_single_window() {
    let mut seq = Sequencer::new();
    let frames = feed_ok(&mut seq, 510, vec![1, 2]);
    assert_eq!(frames.len(), 1);
    assert_eq!(frames[0].frame_start, 0);
    assert_eq!(frames[0].data_offset, 510);
    assert_eq!(frames[0].data_size, 2);
    assert_eq!(frames[0].samples, vec![1, 2]);
}

#[test]
fn empty_trace_at_nonzero_offset() {
    let mut seq = Sequencer::new();
    let frames = feed_ok(&mut seq, 100, vec![]);
    assert_eq!(frames.len(), 1);
    assert_eq!(frames[0].frame_start, 0);
    assert_eq!(frames[0].data_offset, 100);
    assert_eq!(frames[0].data_size, 0);
    assert!(frames[0].samples.is_empty());
}

#[test]
fn contiguity_across_many_traces() {
    let mut seq = Sequencer::new();
    let mut all: Vec<Frame> = Vec::new();
    all.extend(feed_ok(&mut seq, 700, vec![1, 2, 3]));
    all.extend(feed_ok(&mut seq, 2600, (0..600).map(|i| i as u16).collect()));
    all.extend(feed_ok(&mut seq, 4096, vec![]));
    for (i, f) in all.iter().enumerate() {
        assert_eq!(f.frame_start, 512 * i as u64);
        assert!(u64::from(f.data_offset) < 512);
        assert!(u64::from(f.data_offset) + u64::from(f.data_size) <= 512);
        assert_eq!(f.samples.len(), f.data_size as usize);
    }
    assert_eq!(seq.watermark, 512 * all.len() as u64);
}

#[test]
fn fresh_frame_is_empty() {
    let f = Frame::new(1024);
    assert_eq!(f.frame_start, 1024);
    assert_eq!(f.data_size, 0);
    assert_eq!(f.data_offset, 0);
    assert!(f.samples.is_empty());
}
