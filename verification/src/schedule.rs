//! Deterministic multi-view window schedule.

use vstd::prelude::*;

verus! {

/// Why a window schedule cannot be planned.
#[derive(Debug, Clone, Copy, PartialEq, Eq, Structural)]
pub enum ScheduleError {
    /// The chunk size is below two.
    ChunkTooSmall,
    /// The overlap is not smaller than the chunk size.
    OverlapTooLarge,
}

impl ScheduleError {
    /// The human-readable reason.
    pub fn message(&self) -> (text: &'static str)
        ensures
            text@ == (match self {
                ScheduleError::ChunkTooSmall => "chunk size must be at least 2"@,
                ScheduleError::OverlapTooLarge => "overlap must be smaller than chunk size"@,
            }),
    {
        match self {
            ScheduleError::ChunkTooSmall => "chunk size must be at least 2",
            ScheduleError::OverlapTooLarge => "overlap must be smaller than chunk size",
        }
    }
}

/// How many frames a window holds and how many it shares with its successor.
#[derive(Debug, Clone, Copy, PartialEq, Eq, Structural)]
pub struct WindowSettings {
    pub chunk_size: usize,
    pub overlap: usize,
}

impl WindowSettings {
    /// The settings describe a schedule that advances.
    pub open spec fn valid(self) -> bool {
        self.chunk_size >= 2 && self.overlap < self.chunk_size
    }

    /// Distance between the starts of consecutive windows.
    pub open spec fn step(self) -> int {
        self.chunk_size - self.overlap
    }
}

impl Default for WindowSettings {
    fn default() -> (settings: Self)
        ensures
            settings.chunk_size == 12,
            settings.overlap == 3,
    {
        WindowSettings { chunk_size: 12, overlap: 3 }
    }
}

/// A half-open range of source frames handled by one multi-view pass.
#[derive(Debug, Clone, Copy, PartialEq, Eq, Structural)]
pub struct FrameWindow {
    pub index: usize,
    pub start: usize,
    pub end: usize,
}

impl FrameWindow {
    /// Number of frames in the window.
    pub fn len(self) -> (count: usize)
        requires
            self.start <= self.end,
        ensures
            count == self.end - self.start,
    {
        self.end - self.start
    }

    /// Whether the window holds no frame.
    pub fn is_empty(self) -> (empty: bool)
        ensures
            empty == (self.start == self.end),
    {
        self.start == self.end
    }
}

/// Number of windows of a schedule: one that covers everything, or one more
/// than the steps needed to move the first chunk's end to the last frame.
pub open spec fn window_count(frame_count: int, settings: WindowSettings) -> int {
    if frame_count <= 0 {
        0
    } else if frame_count <= settings.chunk_size {
        1
    } else {
        1 + (frame_count - settings.chunk_size + settings.step() - 1) / settings.step()
    }
}

/// First frame of window `index`.
pub open spec fn window_start(index: int, settings: WindowSettings) -> int {
    index * settings.step()
}

/// One past the last frame of window `index`.
pub open spec fn window_end(index: int, frame_count: int, settings: WindowSettings) -> int {
    let reach = window_start(index, settings) + settings.chunk_size;
    if reach < frame_count {
        reach
    } else {
        frame_count
    }
}

/// The windows of a schedule are exactly the planned ones, in order.
pub open spec fn is_schedule(
    windows: Seq<FrameWindow>,
    frame_count: int,
    settings: WindowSettings,
) -> bool {
    &&& windows.len() == window_count(frame_count, settings)
    &&& forall|k: int| #![trigger windows[k]]
        0 <= k < windows.len() ==> {
            &&& windows[k].index == k
            &&& windows[k].start == window_start(k, settings)
            &&& windows[k].end == window_end(k, frame_count, settings)
        }
}

/// Some window of the schedule holds the frame.
pub open spec fn covers(windows: Seq<FrameWindow>, frame: int) -> bool {
    exists|k: int| #![trigger windows[k]]
        0 <= k < windows.len() && windows[k].start <= frame < windows[k].end
}

/// A window is the terminal one exactly when its chunk reaches the last frame.
pub proof fn lemma_terminal_window(index: int, frame_count: int, settings: WindowSettings)
    requires
        settings.valid(),
        frame_count > 0,
        index >= 0,
    ensures
        window_start(index, settings) + settings.chunk_size >= frame_count <==> index + 1
            >= window_count(frame_count, settings),
{
    let step = settings.step();
    let gap = frame_count - settings.chunk_size;
    if gap > 0 {
        let q = (gap + step - 1) / step;
        assert(q * step <= gap + step - 1 < q * step + step) by (nonlinear_arith)
            requires
                q == (gap + step - 1) / step,
                step > 0,
        ;
        assert(index * step >= gap <==> index >= q) by (nonlinear_arith)
            requires
                q * step <= gap + step - 1 < q * step + step,
                step > 0,
        ;
    } else {
        assert(index * step >= 0) by (nonlinear_arith)
            requires
                index >= 0,
                step > 0,
        ;
    }
}

/// Plans `[0, chunk)`, `[step, step + chunk)`, and so on. A window that reaches
/// the final source frame is terminal; no trailing overlap-only window follows.
pub fn plan_windows(frame_count: usize, settings: WindowSettings) -> (result: Result<
    Vec<FrameWindow>,
    ScheduleError,
>)
    ensures
        match result {
            Ok(windows) => settings.valid() && is_schedule(windows@, frame_count as int, settings),
            Err(ScheduleError::ChunkTooSmall) => settings.chunk_size < 2,
            Err(ScheduleError::OverlapTooLarge) => settings.chunk_size >= 2 && settings.overlap
                >= settings.chunk_size,
        },
{
    if settings.chunk_size < 2 {
        return Err(ScheduleError::ChunkTooSmall);
    }
    if settings.overlap >= settings.chunk_size {
        return Err(ScheduleError::OverlapTooLarge);
    }
    let step: usize = settings.chunk_size - settings.overlap;
    let mut windows: Vec<FrameWindow> = Vec::new();
    if frame_count == 0 {
        return Ok(windows);
    }
    let mut start: usize = 0;
    loop
        invariant
            settings.valid(),
            step == settings.step(),
            start < frame_count,
            start == window_start(windows@.len() as int, settings),
            windows@.len() < window_count(frame_count as int, settings),
            windows@.len() <= start,
            forall|k: int| #![trigger windows@[k]]
                0 <= k < windows@.len() ==> {
                    &&& windows@[k].index == k
                    &&& windows@[k].start == window_start(k, settings)
                    &&& windows@[k].end == window_end(k, frame_count as int, settings)
                },
        decreases frame_count - start,
    {
        let last: bool = settings.chunk_size >= frame_count - start;
        let end: usize = if last {
            frame_count
        } else {
            start + settings.chunk_size
        };
        let index: usize = windows.len();
        proof {
            lemma_terminal_window(index as int, frame_count as int, settings);
        }
        windows.push(FrameWindow { index, start, end });
        if last {
            return Ok(windows);
        }
        proof {
            assert(window_start(index + 1, settings) == start + step) by (nonlinear_arith)
                requires
                    start == window_start(index as int, settings),
                    step == settings.step(),
            ;
        }
        start = start + step;
    }
}

/// A planned schedule covers every source frame, starts at the first one, ends
/// at the last one, and consecutive windows share exactly the overlap.
pub proof fn law_schedule_covers_every_frame(
    windows: Seq<FrameWindow>,
    frame_count: int,
    settings: WindowSettings,
)
    requires
        settings.valid(),
        frame_count > 0,
        is_schedule(windows, frame_count, settings),
    ensures
        windows.len() > 0,
        windows[0].start == 0,
        windows.last().end == frame_count,
        forall|k: int| #![trigger windows[k]]
            0 <= k < windows.len() ==> windows[k].start < windows[k].end <= frame_count,
        forall|k: int| #![trigger windows[k]]
            0 <= k < windows.len() - 1 ==> windows[k].end - windows[k + 1].start
                == settings.overlap,
        forall|frame: int| 0 <= frame < frame_count ==> #[trigger] covers(windows, frame),
{
    let step = settings.step();
    assert(window_start(0, settings) == 0);
    assert forall|k: int| #![trigger windows[k]] 0 <= k < windows.len() implies windows[k].start
        < windows[k].end <= frame_count by {
        if k > 0 {
            lemma_terminal_window(k - 1, frame_count, settings);
            assert(k * step == (k - 1) * step + step) by (nonlinear_arith);
        }
    }
    lemma_terminal_window(windows.len() - 1, frame_count, settings);
    assert forall|k: int| #![trigger windows[k]] 0 <= k < windows.len() - 1 implies windows[k].end
        - windows[k + 1].start == settings.overlap by {
        lemma_terminal_window(k, frame_count, settings);
        assert((k + 1) * step == k * step + step) by (nonlinear_arith);
        let next = windows[k + 1];
    }
    assert forall|frame: int| 0 <= frame < frame_count implies #[trigger] covers(
        windows,
        frame,
    ) by {
        let q = frame / step;
        assert(q * step <= frame < q * step + step) by (nonlinear_arith)
            requires
                q == frame / step,
                step > 0,
        ;
        let k = if q < windows.len() {
            q
        } else {
            windows.len() - 1
        };
        if q >= windows.len() {
            assert(k * step <= q * step) by (nonlinear_arith)
                requires
                    k <= q,
                    step > 0,
            ;
        }
        assert(q >= 0) by (nonlinear_arith)
            requires
                q == frame / step,
                frame >= 0,
                step > 0,
        ;
        let window = windows[k];
        assert(window.start <= frame < window.end);
    }
}

/// Every window but the last is full, the last one holds no more, only the last one
/// reaches the last frame, and windows are numbered in order.
pub proof fn law_windows_are_full(
    windows: Seq<FrameWindow>,
    frame_count: int,
    settings: WindowSettings,
    k: int,
)
    requires
        settings.valid(),
        frame_count > 0,
        is_schedule(windows, frame_count, settings),
        0 <= k < windows.len(),
    ensures
        windows[k].index == k,
        k < windows.len() - 1 ==> windows[k].end - windows[k].start == settings.chunk_size
            && windows[k].end < frame_count && windows[k + 1].start - windows[k].start
            == settings.chunk_size - settings.overlap,
        windows[k].end - windows[k].start <= settings.chunk_size,
{
    let step = settings.step();
    lemma_terminal_window(k, frame_count, settings);
    assert((k + 1) * step == k * step + step) by (nonlinear_arith);
    assert(windows[k].start == window_start(k, settings));
    if k < windows.len() - 1 {
        assert(windows[k + 1].start == window_start(k + 1, settings));
    }
}

} // verus!
