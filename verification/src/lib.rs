//! Turns an irregular stream of timestamped traces into a gapless stream of
//! fixed-duration frames.
//!
//! A trace is a burst of samples with a coarse start timestamp.  The
//! sequencer slices every trace into fixed 512-tick windows, emitting empty
//! frames for windows with no activity, so that the frame starts form the
//! arithmetic sequence 0, 512, 1024, ... with no gaps and no overlaps.
//! Traces that start before the current watermark are dropped with a
//! diagnostic.  The `source` module decodes traces from their flat binary
//! record layout; the `sink` module packs a frame into a ring item for
//! persistence.

pub mod sequencer;
pub mod sink;
pub mod source;
