//! The frame sequencer: a fold over the trace stream that carries one piece
//! of state, the watermark, and slices each trace into fixed-length windows.

use vstd::prelude::*;

verus! {

/// Ticks in one window; every frame covers exactly this long a time span.
pub const WINDOW_LENGTH: u64 = 512;

/// Ring item type tag identifying a waveform frame.
pub const TRACE_FRAME_ITEM_TYPE: u32 = 50;

/// One irregularly-timed burst of samples from the acquisition device.
#[derive(Debug)]
pub struct Trace {
    /// Coarse start time of the burst, in ticks.
    pub timestamp: u64,
    /// Raw sample values, in acquisition order.
    pub samples: Vec<u16>,
}

/// One fixed-duration slot of the output timeline, carrying at most one
/// trace's data for that slot.
#[derive(Debug)]
pub struct Frame {
    /// Coarse start time of the window; always a multiple of `WINDOW_LENGTH`.
    pub frame_start: u64,
    /// Number of samples carried in this frame.
    pub data_size: u32,
    /// Fine-time offset of the first sample within the window.
    pub data_offset: u16,
    /// Exactly `data_size` samples, a contiguous slice of some trace.
    pub samples: Vec<u16>,
}

/// The mathematical content of a frame: where its window starts, where the
/// data sits inside the window, and the data itself.
pub ghost struct FrameModel {
    pub start: int,
    pub offset: int,
    pub samples: Seq<u16>,
}

impl View for Frame {
    type V = FrameModel;

    open spec fn view(&self) -> FrameModel {
        FrameModel {
            start: self.frame_start as int,
            offset: self.data_offset as int,
            samples: self.samples@,
        }
    }
}

impl Frame {
    /// A frame is well formed when its size field matches its payload, the
    /// data lies inside the window, and its start is window-aligned.
    pub open spec fn wf(self) -> bool {
        &&& self.data_size as int == self.samples@.len()
        &&& (self.data_offset as int) < WINDOW_LENGTH as int
        &&& self.data_offset as int + self.samples@.len() <= WINDOW_LENGTH as int
        &&& self.frame_start % WINDOW_LENGTH == 0
    }

    /// A fresh, empty frame for the window starting at `start`; the size and
    /// offset fields are filled in by the sequencer.
    pub fn new(start: u64) -> (f: Frame)
        ensures
            f.frame_start == start,
            f.data_size == 0,
            f.data_offset == 0,
            f.samples@ == Seq::<u16>::empty(),
    {
        Frame { frame_start: start, data_size: 0, data_offset: 0, samples: Vec::new() }
    }
}

/// Frames produced when a trace's samples are laid down starting at fine
/// offset `off` inside the window at `w`: one frame if everything fits,
/// otherwise a head frame filling the window to its end followed by
/// continuation frames at offset 0.
pub open spec fn place_frames(w: int, off: int, data: Seq<u16>) -> Seq<FrameModel>
    decreases data.len(),
{
    if 0 <= off < WINDOW_LENGTH as int && off + data.len() > WINDOW_LENGTH as int {
        let head = WINDOW_LENGTH as int - off;
        seq![FrameModel { start: w, offset: off, samples: data.take(head) }]
            + place_frames(w + WINDOW_LENGTH as int, 0, data.skip(head))
    } else {
        seq![FrameModel { start: w, offset: off, samples: data }]
    }
}

/// All frames produced for one accepted trace when the watermark stands at
/// `w`: empty gap-fill frames until the trace's own window, then the placed
/// trace data.
pub open spec fn emit_frames(w: int, ts: int, data: Seq<u16>) -> Seq<FrameModel>
    decreases ts - w when w <= ts
{
    if ts >= w + WINDOW_LENGTH as int {
        seq![FrameModel { start: w, offset: 0, samples: Seq::empty() }]
            + emit_frames(w + WINDOW_LENGTH as int, ts, data)
    } else {
        place_frames(w, ts - w, data)
    }
}

/// The models of a sequence of emitted frames.
pub open spec fn frame_models(fs: Seq<Frame>) -> Seq<FrameModel> {
    fs.map_values(|f: Frame| f@)
}

/// The samples of a frame sequence, concatenated in frame order.
pub open spec fn concat_samples(fs: Seq<FrameModel>) -> Seq<u16>
    decreases fs.len(),
{
    if fs.len() == 0 {
        Seq::empty()
    } else {
        fs[0].samples + concat_samples(fs.skip(1))
    }
}

/// Concatenating samples distributes over prepending one frame.
proof fn lemma_concat_prepend(f: FrameModel, rest: Seq<FrameModel>)
    ensures
        concat_samples(seq![f] + rest) == f.samples + concat_samples(rest),
{
    let all = seq![f] + rest;
    assert(all[0] == f);
    assert(all.skip(1) =~= rest);
}

/// Bounds for placed frames: the fine offset lies inside the window and
/// offset plus sample count never exceeds the window length.
pub proof fn lemma_place_bounds(w: int, off: int, data: Seq<u16>)
    requires
        0 <= off < WINDOW_LENGTH as int,
    ensures
        forall|i: int| 0 <= i < place_frames(w, off, data).len() ==> {
            let f = #[trigger] place_frames(w, off, data)[i];
            0 <= f.offset < WINDOW_LENGTH as int
                && f.offset + f.samples.len() <= WINDOW_LENGTH as int
        },
    decreases data.len(),
{
    let fs = place_frames(w, off, data);
    if off + data.len() > WINDOW_LENGTH as int {
        let head = WINDOW_LENGTH as int - off;
        let rec = place_frames(w + WINDOW_LENGTH as int, 0, data.skip(head));
        lemma_place_bounds(w + WINDOW_LENGTH as int, 0, data.skip(head));
        assert forall|i: int| 0 <= i < fs.len() implies {
            let f = #[trigger] fs[i];
            0 <= f.offset < WINDOW_LENGTH as int
                && f.offset + f.samples.len() <= WINDOW_LENGTH as int
        } by {
            if i > 0 {
                assert(fs[i] == rec[i - 1]);
            }
        }
    }
}

/// Contiguity of placed frames: starts advance by exactly one window.
pub proof fn lemma_place_contiguity(w: int, off: int, data: Seq<u16>)
    requires
        0 <= off < WINDOW_LENGTH as int,
    ensures
        forall|i: int| 0 <= i < place_frames(w, off, data).len()
            ==> (#[trigger] place_frames(w, off, data)[i]).start
                == w + WINDOW_LENGTH as int * i,
    decreases data.len(),
{
    let fs = place_frames(w, off, data);
    if off + data.len() > WINDOW_LENGTH as int {
        let head = WINDOW_LENGTH as int - off;
        let rec = place_frames(w + WINDOW_LENGTH as int, 0, data.skip(head));
        lemma_place_contiguity(w + WINDOW_LENGTH as int, 0, data.skip(head));
        assert forall|i: int| 0 <= i < fs.len() implies (#[trigger] fs[i]).start
            == w + WINDOW_LENGTH as int * i by {
            if i > 0 {
                assert(fs[i] == rec[i - 1]);
                assert(rec[i - 1].start == w + WINDOW_LENGTH as int
                    + WINDOW_LENGTH as int * (i - 1));
            }
        }
    }
}

/// Coverage of placed frames: their samples, concatenated in frame order,
/// are exactly the trace's samples.
pub proof fn lemma_place_coverage(w: int, off: int, data: Seq<u16>)
    requires
        0 <= off < WINDOW_LENGTH as int,
    ensures
        concat_samples(place_frames(w, off, data)) == data,
    decreases data.len(),
{
    if off + data.len() > WINDOW_LENGTH as int {
        let head = WINDOW_LENGTH as int - off;
        let rec = place_frames(w + WINDOW_LENGTH as int, 0, data.skip(head));
        lemma_place_coverage(w + WINDOW_LENGTH as int, 0, data.skip(head));
        lemma_concat_prepend(
            FrameModel { start: w, offset: off, samples: data.take(head) },
            rec,
        );
        assert(data.take(head) + data.skip(head) =~= data);
    } else {
        lemma_concat_prepend(
            FrameModel { start: w, offset: off, samples: data },
            Seq::empty(),
        );
        assert(seq![FrameModel { start: w, offset: off, samples: data }]
            =~= seq![FrameModel { start: w, offset: off, samples: data }] + Seq::empty());
        assert(data + Seq::<u16>::empty() =~= data);
    }
}

/// Bounds for all emitted frames of one accepted trace.
pub proof fn lemma_emit_bounds(w: int, ts: int, data: Seq<u16>)
    requires
        w <= ts,
    ensures
        forall|i: int| 0 <= i < emit_frames(w, ts, data).len() ==> {
            let f = #[trigger] emit_frames(w, ts, data)[i];
            0 <= f.offset < WINDOW_LENGTH as int
                && f.offset + f.samples.len() <= WINDOW_LENGTH as int
        },
    decreases ts - w,
{
    let fs = emit_frames(w, ts, data);
    if ts >= w + WINDOW_LENGTH as int {
        let rec = emit_frames(w + WINDOW_LENGTH as int, ts, data);
        lemma_emit_bounds(w + WINDOW_LENGTH as int, ts, data);
        assert forall|i: int| 0 <= i < fs.len() implies {
            let f = #[trigger] fs[i];
            0 <= f.offset < WINDOW_LENGTH as int
                && f.offset + f.samples.len() <= WINDOW_LENGTH as int
        } by {
            if i > 0 {
                assert(fs[i] == rec[i - 1]);
            }
        }
    } else {
        lemma_place_bounds(w, ts - w, data);
    }
}

/// Contiguity of all emitted frames of one accepted trace: the starts form
/// the arithmetic sequence `w, w + WINDOW_LENGTH, w + 2 * WINDOW_LENGTH, ...`
/// with no repeats and no gaps.
pub proof fn lemma_emit_contiguity(w: int, ts: int, data: Seq<u16>)
    requires
        w <= ts,
    ensures
        forall|i: int| 0 <= i < emit_frames(w, ts, data).len()
            ==> (#[trigger] emit_frames(w, ts, data)[i]).start
                == w + WINDOW_LENGTH as int * i,
    decreases ts - w,
{
    let fs = emit_frames(w, ts, data);
    if ts >= w + WINDOW_LENGTH as int {
        let rec = emit_frames(w + WINDOW_LENGTH as int, ts, data);
        lemma_emit_contiguity(w + WINDOW_LENGTH as int, ts, data);
        assert forall|i: int| 0 <= i < fs.len() implies (#[trigger] fs[i]).start
            == w + WINDOW_LENGTH as int * i by {
            if i > 0 {
                assert(fs[i] == rec[i - 1]);
                assert(rec[i - 1].start == w + WINDOW_LENGTH as int
                    + WINDOW_LENGTH as int * (i - 1));
            }
        }
    } else {
        lemma_place_contiguity(w, ts - w, data);
    }
}

/// Coverage of all emitted frames of one accepted trace: the gap-fill
/// frames carry nothing, so the concatenation of all emitted samples is
/// exactly the trace's sample sequence — no reordering, duplication, or
/// loss.
pub proof fn lemma_emit_coverage(w: int, ts: int, data: Seq<u16>)
    requires
        w <= ts,
    ensures
        concat_samples(emit_frames(w, ts, data)) == data,
    decreases ts - w,
{
    if ts >= w + WINDOW_LENGTH as int {
        lemma_emit_coverage(w + WINDOW_LENGTH as int, ts, data);
        lemma_concat_prepend(
            FrameModel { start: w, offset: 0, samples: Seq::empty() },
            emit_frames(w + WINDOW_LENGTH as int, ts, data),
        );
        assert(Seq::<u16>::empty() + data =~= data);
    } else {
        lemma_place_coverage(w, ts - w, data);
    }
}

/// Gap filling is exact: an accepted trace is preceded by exactly
/// `(ts - w) / WINDOW_LENGTH` empty frames, one per whole window between
/// the watermark and the trace's start, and the trace's own frames follow
/// directly after them.
pub proof fn lemma_emit_gap_fill(w: int, ts: int, data: Seq<u16>)
    requires
        w <= ts,
    ensures
        ({
            let k = (ts - w) / WINDOW_LENGTH as int;
            emit_frames(w, ts, data) == Seq::new(
                k as nat,
                |i: int| FrameModel {
                    start: w + WINDOW_LENGTH as int * i,
                    offset: 0,
                    samples: Seq::empty(),
                },
            ) + place_frames(
                w + WINDOW_LENGTH as int * k,
                ts - w - WINDOW_LENGTH as int * k,
                data,
            )
        }),
    decreases ts - w,
{
    let wl = WINDOW_LENGTH as int;
    let k = (ts - w) / wl;
    if ts >= w + wl {
        vstd::arithmetic::div_mod::lemma_div_plus_one(ts - w - wl, wl);
        assert(k == 1 + (ts - (w + wl)) / wl);
        lemma_emit_gap_fill(w + wl, ts, data);
        let rec_empties = Seq::new(
            (k - 1) as nat,
            |i: int| FrameModel {
                start: w + wl + wl * i,
                offset: 0,
                samples: Seq::empty(),
            },
        );
        let empties = Seq::new(
            k as nat,
            |i: int| FrameModel { start: w + wl * i, offset: 0, samples: Seq::empty() },
        );
        let placed = place_frames(w + wl * k, ts - w - wl * k, data);
        assert(emit_frames(w + wl, ts, data) == rec_empties + placed);
        assert(seq![FrameModel { start: w, offset: 0, samples: Seq::empty() }]
            + (rec_empties + placed) =~= empties + placed);
    } else {
        vstd::arithmetic::div_mod::lemma_basic_div(ts - w, wl);
        assert(k == 0);
        assert(Seq::new(0, |i: int| FrameModel {
            start: w + wl * i,
            offset: 0,
            samples: Seq::empty(),
        }) + place_frames(w, ts - w, data) =~= place_frames(w, ts - w, data));
    }
}

/// Shape of the frames carrying one trace: there is at least one, only the
/// first may sit at a nonzero fine offset, and every one but the last
/// fills its window to the very end.
pub proof fn lemma_place_shape(w: int, off: int, data: Seq<u16>)
    requires
        0 <= off < WINDOW_LENGTH as int,
    ensures
        place_frames(w, off, data).len() >= 1,
        place_frames(w, off, data)[0].offset == off,
        forall|i: int| 1 <= i < place_frames(w, off, data).len()
            ==> (#[trigger] place_frames(w, off, data)[i]).offset == 0,
        forall|i: int| 0 <= i < place_frames(w, off, data).len() - 1 ==> {
            let f = #[trigger] place_frames(w, off, data)[i];
            f.offset + f.samples.len() == WINDOW_LENGTH as int
        },
    decreases data.len(),
{
    let fs = place_frames(w, off, data);
    if off + data.len() > WINDOW_LENGTH as int {
        let head = WINDOW_LENGTH as int - off;
        let rec = place_frames(w + WINDOW_LENGTH as int, 0, data.skip(head));
        lemma_place_shape(w + WINDOW_LENGTH as int, 0, data.skip(head));
        assert forall|i: int| 1 <= i < fs.len() implies (#[trigger] fs[i]).offset == 0 by {
            assert(fs[i] == rec[i - 1]);
        }
        assert forall|i: int| 0 <= i < fs.len() - 1 implies {
            let f = #[trigger] fs[i];
            f.offset + f.samples.len() == WINDOW_LENGTH as int
        } by {
            if i > 0 {
                assert(fs[i] == rec[i - 1]);
            }
        }
    }
}

/// Offsets over a whole emission from a window-aligned watermark: the
/// gap-fill frames and every continuation sit at offset 0; the one frame
/// where the trace's data begins — frame number `(ts - w) / WINDOW_LENGTH`
/// — sits at offset `ts % WINDOW_LENGTH`; and each of the trace's frames
/// except the last fills its window to the very end.
pub proof fn lemma_emit_offsets(w: int, ts: int, data: Seq<u16>)
    requires
        w <= ts,
        w % WINDOW_LENGTH as int == 0,
    ensures
        ({
            let fs = emit_frames(w, ts, data);
            let k = (ts - w) / WINDOW_LENGTH as int;
            &&& 0 <= k < fs.len()
            &&& forall|i: int| 0 <= i < fs.len() && i != k ==> (#[trigger] fs[i]).offset == 0
            &&& fs[k].offset == ts % WINDOW_LENGTH as int
            &&& forall|i: int| k <= i < fs.len() - 1 ==> {
                let f = #[trigger] fs[i];
                f.offset + f.samples.len() == WINDOW_LENGTH as int
            }
        }),
{
    let wl = WINDOW_LENGTH as int;
    let fs = emit_frames(w, ts, data);
    let k = (ts - w) / wl;
    lemma_emit_gap_fill(w, ts, data);
    let off = ts - w - wl * k;
    vstd::arithmetic::div_mod::lemma_fundamental_div_mod(ts - w, wl);
    vstd::arithmetic::div_mod::lemma_mod_division_less_than_divisor(ts - w, wl);
    vstd::arithmetic::div_mod::lemma_div_pos_is_pos(ts - w, wl);
    assert(off == (ts - w) % wl);
    assert(0 <= off < wl);
    vstd::arithmetic::div_mod::lemma_fundamental_div_mod(w, wl);
    assert(ts == wl * (w / wl) + (ts - w));
    vstd::arithmetic::div_mod::lemma_mod_multiples_vanish(w / wl, ts - w, wl);
    assert(ts % wl == (ts - w) % wl);
    let empties = Seq::new(
        k as nat,
        |i: int| FrameModel { start: w + wl * i, offset: 0, samples: Seq::empty() },
    );
    let placed = place_frames(w + wl * k, off, data);
    lemma_place_shape(w + wl * k, off, data);
    assert(fs == empties + placed);
    assert(fs[k] == placed[0]);
    assert forall|i: int| 0 <= i < fs.len() && i != k implies (#[trigger] fs[i]).offset
        == 0 by {
        if i < k {
            assert(fs[i] == empties[i]);
        } else {
            assert(fs[i] == placed[i - k]);
        }
    }
    assert forall|i: int| k <= i < fs.len() - 1 implies {
        let f = #[trigger] fs[i];
        f.offset + f.samples.len() == WINDOW_LENGTH as int
    } by {
        assert(fs[i] == placed[i - k]);
    }
}

/// Contiguity carries across consecutive accepted traces: when a second
/// trace is accepted at the watermark the first one left behind, the
/// combined frame sequence still has starts forming one unbroken
/// arithmetic progression with step `WINDOW_LENGTH`.
pub proof fn lemma_contiguity_across_feeds(
    w: int,
    ts1: int,
    data1: Seq<u16>,
    ts2: int,
    data2: Seq<u16>,
)
    requires
        w <= ts1,
        w + WINDOW_LENGTH as int * emit_frames(w, ts1, data1).len() <= ts2,
    ensures
        ({
            let first = emit_frames(w, ts1, data1);
            let w2 = w + WINDOW_LENGTH as int * first.len();
            let all = first + emit_frames(w2, ts2, data2);
            forall|i: int| 0 <= i < all.len()
                ==> (#[trigger] all[i]).start == w + WINDOW_LENGTH as int * i
        }),
{
    let wl = WINDOW_LENGTH as int;
    let first = emit_frames(w, ts1, data1);
    let w2 = w + wl * first.len();
    let second = emit_frames(w2, ts2, data2);
    let all = first + second;
    lemma_emit_contiguity(w, ts1, data1);
    lemma_emit_contiguity(w2, ts2, data2);
    assert forall|i: int| 0 <= i < all.len() implies (#[trigger] all[i]).start
        == w + wl * i by {
        if i < first.len() {
            assert(all[i] == first[i]);
        } else {
            assert(all[i] == second[i - first.len()]);
            assert(second[i - first.len()].start == w2 + wl * (i - first.len()));
            assert(w2 + wl * (i - first.len()) == w + wl * i) by (nonlinear_arith)
                requires w2 == w + wl * first.len();
        }
    }
}

/// Diagnostic surfaced for a rejected trace: it started before the window
/// the sequencer was about to fill.
#[derive(Debug)]
pub struct DroppedTrace {
    /// Start time of the trace that was dropped.
    pub timestamp: u64,
    /// The watermark the trace fell behind.
    pub watermark: u64,
}

/// The stateful core: consumes one trace at a time and emits the frames
/// covering the timeline up to and including that trace.
#[derive(Debug)]
pub struct Sequencer {
    /// Start of the next not-yet-closed window; begins at 0 and only grows.
    pub watermark: u64,
}

/// Copies `src[from..to]` into a fresh vector.
fn copy_range(src: &Vec<u16>, from: usize, to: usize) -> (out: Vec<u16>)
    requires
        from <= to <= src@.len(),
    ensures
        out@ == src@.subrange(from as int, to as int),
{
    let mut out: Vec<u16> = Vec::new();
    let mut i: usize = from;
    while i < to
        invariant
            from <= i <= to <= src@.len(),
            out@ == src@.subrange(from as int, i as int),
        decreases to - i,
    {
        out.push(src[i]);
        proof {
            assert(out@ =~= src@.subrange(from as int, i + 1 as int));
        }
        i += 1;
    }
    out
}

impl Sequencer {
    /// The watermark only ever advances in whole windows.
    pub open spec fn wf(self) -> bool {
        self.watermark % WINDOW_LENGTH == 0
    }

    /// A sequencer at the start of the timeline.
    pub fn new() -> (s: Sequencer)
        ensures
            s.watermark == 0,
            s.wf(),
    {
        Sequencer { watermark: 0 }
    }

    /// Consumes one trace and returns the frames it gives rise to, in
    /// emission order: gap-filling empty frames first, then the frames
    /// holding the trace's samples.  A trace that starts before the
    /// watermark is rejected: no frames, no state change, a diagnostic.
    pub fn feed(&mut self, trace: &Trace) -> (r: Result<Vec<Frame>, DroppedTrace>)
        requires
            old(self).wf(),
            trace.timestamp >= old(self).watermark ==> trace.timestamp as int
                + trace.samples@.len() + WINDOW_LENGTH as int <= u64::MAX as int,
        ensures
            final(self).wf(),
            trace.timestamp < old(self).watermark ==> (r matches Err(d)
                && d.timestamp == trace.timestamp
                && d.watermark == old(self).watermark
                && *final(self) == *old(self)),
            trace.timestamp >= old(self).watermark ==> (r matches Ok(frames) && {
                &&& frame_models(frames@) == emit_frames(
                    old(self).watermark as int,
                    trace.timestamp as int,
                    trace.samples@,
                )
                &&& final(self).watermark as int == old(self).watermark as int
                    + WINDOW_LENGTH as int * frames@.len()
                &&& forall|i: int| 0 <= i < frames@.len() ==> (#[trigger] frames@[i]).wf()
            }),
    {
        if trace.timestamp < self.watermark {
            return Err(DroppedTrace { timestamp: trace.timestamp, watermark: self.watermark });
        }
        let ghost w0 = self.watermark as int;
        let ghost ts = trace.timestamp as int;
        let ghost data = trace.samples@;
        let mut frames: Vec<Frame> = Vec::new();

        // Gap filling: emit empty frames until the trace starts inside the
        // current window.
        while trace.timestamp >= self.watermark + WINDOW_LENGTH
            invariant
                self.watermark % WINDOW_LENGTH == 0,
                w0 <= self.watermark as int <= ts,
                ts == trace.timestamp as int,
                data == trace.samples@,
                ts + data.len() + WINDOW_LENGTH as int <= u64::MAX as int,
                self.watermark as int == w0 + WINDOW_LENGTH as int * frames@.len(),
                emit_frames(w0, ts, data) == frame_models(frames@)
                    + emit_frames(self.watermark as int, ts, data),
                forall|i: int| 0 <= i < frames@.len() ==> (#[trigger] frames@[i]).wf(),
            decreases ts - self.watermark as int,
        {
            let f = Frame::new(self.watermark);
            let ghost wm = self.watermark as int;
            proof {
                assert(emit_frames(wm, ts, data) == seq![
                    FrameModel { start: wm, offset: 0, samples: Seq::empty() },
                ] + emit_frames(wm + WINDOW_LENGTH as int, ts, data));
                assert(f@ == (FrameModel { start: wm, offset: 0, samples: Seq::empty() }));
            }
            frames.push(f);
            proof {
                assert(frame_models(frames@) =~= frame_models(frames@.drop_last()) + seq![f@]);
                assert(emit_frames(w0, ts, data) =~= frame_models(frames@)
                    + emit_frames(wm + WINDOW_LENGTH as int, ts, data));
            }
            self.watermark = self.watermark + WINDOW_LENGTH;
        }

        // The trace starts inside the current window.
        let offset = trace.timestamp - self.watermark;
        let ghost wm = self.watermark as int;
        assert(0 <= offset < WINDOW_LENGTH);
        assert(emit_frames(wm, ts, data) == place_frames(wm, ts - wm, data));

        if trace.samples.len() as u64 <= WINDOW_LENGTH - offset {
            // Single-window case: the whole trace fits.
            let mut f = Frame::new(self.watermark);
            f.data_size = trace.samples.len() as u32;
            f.data_offset = offset as u16;
            f.samples = copy_range(&trace.samples, 0, trace.samples.len());
            proof {
                assert(f.samples@ =~= data);
                assert(place_frames(wm, ts - wm, data) == seq![
                    FrameModel { start: wm, offset: ts - wm, samples: data },
                ]);
                assert(f@ == (FrameModel { start: wm, offset: ts - wm, samples: data }));
            }
            frames.push(f);
            proof {
                assert(frame_models(frames@) =~= frame_models(frames@.drop_last()) + seq![f@]);
                assert(frame_models(frames@) =~= emit_frames(w0, ts, data));
            }
            self.watermark = self.watermark + WINDOW_LENGTH;
        } else {
            // Multi-window case: a head frame fills the window from the
            // offset to its end, then continuation frames at offset 0.
            let head = (WINDOW_LENGTH - offset) as usize;
            let mut f = Frame::new(self.watermark);
            f.data_offset = offset as u16;
            f.data_size = head as u32;
            f.samples = copy_range(&trace.samples, 0, head);
            proof {
                assert(f.samples@ =~= data.take(head as int));
                assert(place_frames(wm, ts - wm, data) == seq![
                    FrameModel { start: wm, offset: ts - wm, samples: data.take(head as int) },
                ] + place_frames(wm + WINDOW_LENGTH as int, 0, data.skip(head as int)));
                assert(f@ == (FrameModel {
                    start: wm,
                    offset: ts - wm,
                    samples: data.take(head as int),
                }));
            }
            frames.push(f);
            proof {
                assert(frame_models(frames@) =~= frame_models(frames@.drop_last()) + seq![f@]);
                assert(emit_frames(w0, ts, data) =~= frame_models(frames@)
                    + place_frames(wm + WINDOW_LENGTH as int, 0, data.skip(head as int)));
            }
            self.watermark = self.watermark + WINDOW_LENGTH;
            let mut cursor: usize = head;

            while cursor < trace.samples.len()
                invariant
                    self.watermark % WINDOW_LENGTH == 0,
                    ts == trace.timestamp as int,
                    data == trace.samples@,
                    ts + data.len() + WINDOW_LENGTH as int <= u64::MAX as int,
                    0 < cursor <= data.len(),
                    self.watermark as int == w0 + WINDOW_LENGTH as int * frames@.len(),
                    cursor < data.len() ==> self.watermark as int == ts + cursor,
                    cursor < data.len() ==> emit_frames(w0, ts, data) == frame_models(frames@)
                        + place_frames(self.watermark as int, 0, data.skip(cursor as int)),
                    cursor >= data.len() ==> emit_frames(w0, ts, data) == frame_models(frames@),
                    forall|i: int| 0 <= i < frames@.len() ==> (#[trigger] frames@[i]).wf(),
                decreases data.len() - cursor,
            {
                let remaining = trace.samples.len() - cursor;
                let chunk = if remaining > WINDOW_LENGTH as usize {
                    WINDOW_LENGTH as usize
                } else {
                    remaining
                };
                let ghost wc = self.watermark as int;
                let mut f = Frame::new(self.watermark);
                f.data_offset = 0;
                f.data_size = chunk as u32;
                f.samples = copy_range(&trace.samples, cursor, cursor + chunk);
                proof {
                    let rest = data.skip(cursor as int);
                    assert(f.samples@ =~= rest.take(chunk as int));
                    if remaining > WINDOW_LENGTH as usize {
                        assert(place_frames(wc, 0, rest) == seq![
                            FrameModel { start: wc, offset: 0, samples: rest.take(512) },
                        ] + place_frames(wc + WINDOW_LENGTH as int, 0, rest.skip(512)));
                        assert(rest.skip(512) =~= data.skip(cursor + 512 as int));
                    } else {
                        assert(rest.take(chunk as int) =~= rest);
                        assert(place_frames(wc, 0, rest) == seq![
                            FrameModel { start: wc, offset: 0, samples: rest },
                        ]);
                    }
                    assert(f@ == (FrameModel {
                        start: wc,
                        offset: 0,
                        samples: rest.take(chunk as int),
                    }));
                }
                frames.push(f);
                proof {
                    assert(frame_models(frames@) =~= frame_models(frames@.drop_last())
                        + seq![f@]);
                    if remaining > WINDOW_LENGTH as usize {
                        assert(emit_frames(w0, ts, data) =~= frame_models(frames@)
                            + place_frames(wc + WINDOW_LENGTH as int, 0,
                                data.skip(cursor + 512 as int)));
                    } else {
                        assert(emit_frames(w0, ts, data) =~= frame_models(frames@));
                    }
                }
                self.watermark = self.watermark + WINDOW_LENGTH;
                cursor = cursor + chunk;
            }
        }
        Ok(frames)
    }
}

} // verus!
