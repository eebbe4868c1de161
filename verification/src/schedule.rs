//! The pace of playback.
//!
//! Each frame has a budget of time. A frame that uses its budget up makes the
//! player drop the drawing of the next one, and only of that one; a frame that
//! stays within it is followed by a pause for what is left.

use crate::canvas::{
    all_in_bounds, blank_canvas, canvas_background, canvas_cells, canvas_size, canvas_wf,
    cell_index, clear_canvas, cleared, in_bounds, plot_all, Cell, Tint, WrapPolicy,
    MAX_CANVAS_CELLS,
};
use crate::frame::{blit_image_to, lemma_blit_result, Raster};
use crate::Video;
use gemini_engine::elements;
use vstd::prelude::*;

verus! {

/// A frame rate as a fraction: `frames` frames in `seconds` seconds.
#[derive(Clone, Copy, Debug, PartialEq, Eq, Structural)]
pub struct FrameRate {
    pub frames: u32,
    pub seconds: u32,
}

/// The nanoseconds in a second.
pub const NANOS_PER_SECOND: u64 = 1_000_000_000;

impl FrameRate {
    /// A rate is a positive number of frames in a positive time.
    pub open spec fn wf(self) -> bool {
        self.frames > 0 && self.seconds > 0
    }

    /// The time allotted to one frame, in whole nanoseconds.
    pub open spec fn budget(self) -> nat {
        (NANOS_PER_SECOND * self.seconds / self.frames as int) as nat
    }

    /// Makes a rate of `frames` frames in `seconds` seconds, if both are
    /// positive.
    pub fn new(frames: u32, seconds: u32) -> (r: Option<FrameRate>)
        ensures
            r == if frames > 0 && seconds > 0 {
                Some(FrameRate { frames, seconds })
            } else {
                None
            },
    {
        if frames > 0 && seconds > 0 {
            Some(FrameRate { frames, seconds })
        } else {
            None
        }
    }

    /// The time allotted to one frame, in whole nanoseconds.
    pub fn frame_budget(self) -> (nanos: u64)
        requires
            self.wf(),
        ensures
            nanos == self.budget(),
    {
        NANOS_PER_SECOND * (self.seconds as u64) / (self.frames as u64)
    }
}

/// What the player does with the frame it has come to.
#[derive(Clone, Copy, Debug, PartialEq, Eq, Structural)]
pub enum PlaybackState {
    /// Draw it and show it.
    Render,
    /// Pass over it.
    Skip,
}

/// The state that follows a frame which took `elapsed` of a budget of
/// `budget`: the next frame is skipped just when the budget was used up.
pub open spec fn state_after(elapsed: nat, budget: nat) -> PlaybackState {
    if elapsed >= budget {
        PlaybackState::Skip
    } else {
        PlaybackState::Render
    }
}

/// The pause that follows such a frame: what is left of the budget, or none
/// where nothing is left.
pub open spec fn pause_after(elapsed: nat, budget: nat) -> Option<nat> {
    if elapsed >= budget {
        None
    } else {
        Some((budget - elapsed) as nat)
    }
}

/// Where playback stands: the place of the frame it has come to, and what to
/// do with it.
#[derive(Clone, Copy, Debug, PartialEq, Eq, Structural)]
pub struct Scheduler {
    pub state: PlaybackState,
    pub position: usize,
}

impl Scheduler {
    /// Where playback starts: at the first frame, which is drawn.
    pub open spec fn start() -> Scheduler {
        Scheduler { state: PlaybackState::Render, position: 0 }
    }

    /// Playback starts at the first frame, which is drawn.
    pub fn new() -> (r: Scheduler)
        ensures
            r == Scheduler::start(),
    {
        Scheduler { state: PlaybackState::Render, position: 0 }
    }

    /// Tells whether every one of `frame_count` frames has been passed.
    pub fn finished(&self, frame_count: usize) -> (r: bool)
        ensures
            r == (self.position >= frame_count),
    {
        self.position >= frame_count
    }

    /// The scheduler after one more frame, which took `elapsed`.
    pub open spec fn step(self, elapsed: nat, budget: nat) -> Scheduler {
        Scheduler { state: state_after(elapsed, budget), position: (self.position + 1) as usize }
    }

    /// The scheduler after a run of frames that took the times in `elapsed`.
    pub open spec fn after(self, elapsed: Seq<nat>, budget: nat) -> Scheduler
        decreases elapsed.len(),
    {
        if elapsed.len() == 0 {
            self
        } else {
            self.after(elapsed.drop_last(), budget).step(elapsed.last(), budget)
        }
    }

    /// Ends the frame, which took `elapsed_nanos` of a budget of
    /// `budget_nanos`: moves on to the next frame, decides whether it is
    /// skipped, and tells how long to pause before it, if at all.
    pub fn pace(&mut self, elapsed_nanos: u128, budget_nanos: u64) -> (pause: Option<u64>)
        requires
            old(self).position < usize::MAX,
        ensures
            *final(self) == old(self).step(elapsed_nanos as nat, budget_nanos as nat),
            match pause {
                Some(nanos) => pause_after(elapsed_nanos as nat, budget_nanos as nat) == Some(
                    nanos as nat,
                ),
                None => pause_after(elapsed_nanos as nat, budget_nanos as nat).is_none(),
            },
    {
        self.position = self.position + 1;
        if elapsed_nanos >= budget_nanos as u128 {
            self.state = PlaybackState::Skip;
            None
        } else {
            self.state = PlaybackState::Render;
            Some(budget_nanos - elapsed_nanos as u64)
        }
    }
}

/// Whether a canvas is right for a video: twice as wide, and as high.
pub open spec fn canvas_fits(view: elements::View, video: &Video) -> bool {
    canvas_wf(view) && canvas_size(view) == ((2 * video.width) as nat, video.height as nat)
}

/// Makes the canvas for a video: two cells wide for each pixel, one high,
/// and blank. There is none for a video without pixels, or with more than a
/// canvas holds.
pub fn canvas_for(video: &Video) -> (r: Option<elements::View>)
    ensures
        match r {
            Some(view) => {
                &&& canvas_fits(view, video)
                &&& canvas_background(view) == (Cell { glyph: ' ', tint: Tint::Plain })
                &&& canvas_cells(view) == cleared(
                    (2 * video.width) as nat,
                    video.height as nat,
                    canvas_background(view),
                )
            },
            None => video.width == 0 || video.height == 0 || 2 * video.width * video.height
                > MAX_CANVAS_CELLS,
        },
{
    if video.width == 0 || video.height == 0 {
        return None;
    }
    if video.width > MAX_CANVAS_CELLS / 2 {
        assert(2 * video.width * video.height > MAX_CANVAS_CELLS) by (nonlinear_arith)
            requires
                2 * video.width > MAX_CANVAS_CELLS,
                video.height >= 1,
        ;
        return None;
    }
    let width = 2 * video.width;
    if video.height > MAX_CANVAS_CELLS / width {
        assert(width * video.height > MAX_CANVAS_CELLS) by (nonlinear_arith)
            requires
                video.height > MAX_CANVAS_CELLS as int / width as int,
                width > 0,
        ;
        return None;
    }
    assert(width * video.height <= MAX_CANVAS_CELLS) by (nonlinear_arith)
        requires
            video.height <= MAX_CANVAS_CELLS as int / width as int,
            width > 0,
    ;
    let view = blank_canvas(width, video.height);
    Some(view)
}

impl Scheduler {
    /// Begins the frame that playback has come to: clears the canvas and,
    /// unless the frame is skipped, draws it. Tells whether the canvas is to
    /// be shown.
    ///
    /// Under `WrapPolicy::Panic` the canvas must hold the whole frame.
    pub fn draw(
        &self,
        video: &Video,
        view: &mut elements::View,
        pixel_char: char,
        wrapping: WrapPolicy,
    ) -> (show: bool)
        requires
            video.wf(),
            self.position < video.frames.len(),
            canvas_wf(*old(view)),
            wrapping == WrapPolicy::Panic && self.state == PlaybackState::Render ==> all_in_bounds(
                canvas_size(*old(view)).0,
                canvas_size(*old(view)).1,
                video.frames[self.position as int]@.writes(pixel_char),
            ),
        ensures
            show == (self.state == PlaybackState::Render),
            canvas_wf(*final(view)),
            canvas_size(*final(view)) == canvas_size(*old(view)),
            canvas_background(*final(view)) == canvas_background(*old(view)),
            canvas_cells(*final(view)) == match self.state {
                PlaybackState::Render => plot_all(
                    cleared(
                        canvas_size(*old(view)).0,
                        canvas_size(*old(view)).1,
                        canvas_background(*old(view)),
                    ),
                    canvas_size(*old(view)).0,
                    canvas_size(*old(view)).1,
                    video.frames[self.position as int]@.writes(pixel_char),
                    wrapping,
                ),
                PlaybackState::Skip => cleared(
                    canvas_size(*old(view)).0,
                    canvas_size(*old(view)).1,
                    canvas_background(*old(view)),
                ),
            },
    {
        clear_canvas(view);
        match self.state {
            PlaybackState::Render => {
                blit_image_to(view, &video.frames[self.position], pixel_char, wrapping);
                true
            },
            PlaybackState::Skip => false,
        }
    }
}

/// On a cleared canvas made for it, twice as wide and as high, a drawn frame
/// fills every cell with what it `shows` there. Nothing of the background,
/// and so nothing of any earlier frame, is left.
pub proof fn lemma_drawn_frame_fills_canvas(
    raster: Raster,
    glyph: char,
    background: Cell,
    policy: WrapPolicy,
)
    requires
        raster.placeable(),
    ensures
        forall|col: int, row: int|
            in_bounds(2 * raster.width, raster.height, col, row) ==> #[trigger] plot_all(
                cleared(2 * raster.width, raster.height, background),
                2 * raster.width,
                raster.height,
                raster.writes(glyph),
                policy,
            )[cell_index(2 * raster.width, col, row)] == raster.shows(col, row, glyph),
{
    lemma_blit_result(
        raster,
        glyph,
        cleared(2 * raster.width, raster.height, background),
        2 * raster.width,
        raster.height,
        policy,
    );
}

/// On the canvas made for a video whose frames all have its size, every write
/// of every frame lands on the canvas: nothing is dropped or wrapped, and the
/// frames may be drawn under `WrapPolicy::Panic`.
pub proof fn lemma_frames_fit_canvas(video: Video, view: elements::View, k: int, glyph: char)
    requires
        video.wf(),
        video.uniform(),
        canvas_fits(view, &video),
        0 <= k < video.frames.len(),
    ensures
        all_in_bounds(canvas_size(view).0, canvas_size(view).1, video.frames[k]@.writes(glyph)),
{
    let raster = video.frames[k]@;
    lemma_blit_result(
        raster,
        glyph,
        canvas_cells(view),
        canvas_size(view).0,
        canvas_size(view).1,
        WrapPolicy::Panic,
    );
}

/// What to do with frame `k` of a run whose earlier frames took the times in
/// `elapsed`: the first frame is drawn, and each later one is skipped just
/// when the one before it used its budget up.
pub open spec fn state_at(elapsed: Seq<nat>, budget: nat, k: int) -> PlaybackState {
    if k <= 0 {
        PlaybackState::Render
    } else {
        state_after(elapsed[k - 1], budget)
    }
}

/// After `k` frames the scheduler stands at frame `k`, in the state that
/// `state_at` tells: what is done with a frame hangs on the frame before it
/// and on nothing earlier.
pub proof fn lemma_scheduler_run(elapsed: Seq<nat>, budget: nat, k: int)
    requires
        0 <= k <= elapsed.len(),
        k <= usize::MAX,
    ensures
        Scheduler::start().after(elapsed.take(k), budget).state == state_at(elapsed, budget, k),
        Scheduler::start().after(elapsed.take(k), budget).position == k,
    decreases k,
{
    if k > 0 {
        lemma_scheduler_run(elapsed, budget, k - 1);
        assert(elapsed.take(k).drop_last() =~= elapsed.take(k - 1));
        assert(elapsed.take(k).last() == elapsed[k - 1]);
    }
}

/// While every frame stays within its budget, every frame is drawn: none is
/// skipped, let alone two in a row.
pub proof fn lemma_on_time_renders_all(elapsed: Seq<nat>, budget: nat)
    requires
        elapsed.len() <= usize::MAX,
        forall|k: int| 0 <= k < elapsed.len() ==> (#[trigger] elapsed[k]) < budget,
    ensures
        forall|k: int|
            0 <= k <= elapsed.len() ==> Scheduler::start().after(
                #[trigger] elapsed.take(k),
                budget,
            ).state == PlaybackState::Render,
{
    assert forall|k: int| 0 <= k <= elapsed.len() implies Scheduler::start().after(
        #[trigger] elapsed.take(k),
        budget,
    ).state == PlaybackState::Render by {
        lemma_scheduler_run(elapsed, budget, k);
        if k > 0 {
            assert(elapsed[k - 1] < budget);
        }
    }
}

/// A late frame costs the next frame its drawing and no other: whatever was
/// done with a frame, the next one is skipped just when this one used its
/// budget up. So the frame after a skipped one that stayed within its budget
/// is drawn, and two skips in a row take two late frames in a row.
pub proof fn lemma_skip_is_single(scheduler: Scheduler, elapsed: nat, budget: nat)
    ensures
        scheduler.step(elapsed, budget).state == PlaybackState::Skip <==> elapsed >= budget,
        scheduler.state == PlaybackState::Skip && elapsed < budget ==> scheduler.step(
            elapsed,
            budget,
        ).state == PlaybackState::Render,
{
}

/// A frame that stays within its budget and the pause after it fill the
/// budget exactly: frames that are on time follow each other at the rate.
pub proof fn lemma_pause_fills_budget(elapsed: nat, budget: nat)
    requires
        elapsed < budget,
    ensures
        pause_after(elapsed, budget) == Some((budget - elapsed) as nat),
        elapsed + pause_after(elapsed, budget).unwrap() == budget,
{
}

} // verus!
