//! Plays a video as coloured terminal frames.
//!
//! The library holds the two pieces with real design decisions: the mapping of
//! a raster image onto double-wide terminal cells, and the scheduler that paces
//! frames against a frame rate and drops the drawing of a frame after a late
//! one. Reading files, running the transcoder, the clock and the terminal stay
//! with the caller.

use crate::canvas::WrapPolicy;
use crate::codec::{decode_still, decoded_still, is_resizable, resizable, resized, Decoded};
use crate::frame::{resized_img_and_size, Frame, Raster};
use crate::order::{
    check_numbering, frame_order, is_frame_order, lemma_frame_order_exists,
    lemma_frame_order_unique, names_of, numbers_ascend, well_numbered_at, Still,
};
use crate::schedule::FrameRate;
use image::ImageError;
use vstd::prelude::*;

pub mod canvas;
pub mod codec;
pub mod frame;
pub mod order;
pub mod schedule;
pub mod transcode;

verus! {

/// The ways a run can fail.
#[derive(Clone, Copy, Debug, PartialEq, Eq, Structural)]
pub enum ErrorKind {
    /// Wrong number of command-line arguments.
    Usage,
    /// The source video is missing or unreadable.
    Path,
    /// The transcoder failed, produced no stills, or numbered them badly.
    Extraction,
    /// The directory of stills is unreadable.
    Directory,
    /// A still could not be decoded into a usable frame.
    Decode,
    /// The terminal refused the rendered frame.
    Render,
}

/// The argument vector of a run names exactly one video: the program's own
/// name, then the path.
pub open spec fn names_one_video(args: Seq<String>) -> bool {
    args.len() == 2
}

/// Picks the video's path out of the argument vector.
///
/// Whether the file can be opened is for the caller to find out.
pub fn get_video_filepath(args: &[String]) -> (r: Result<&str, ErrorKind>)
    ensures
        match r {
            Ok(path) => names_one_video(args@) && path@ == args@[1]@,
            Err(kind) => !names_one_video(args@) && kind == ErrorKind::Usage,
        },
{
    if args.len() != 2 {
        return Err(ErrorKind::Usage);
    }
    Ok(args[1].as_str())
}

/// What a run is set up with: the size that frames are fitted into, the frame
/// rate, the glyph that cells are filled with, and what becomes of writes
/// that fall outside the canvas.
#[derive(Clone, Copy, Debug, PartialEq, Eq, Structural)]
pub struct Settings {
    pub width: u32,
    pub height: u32,
    pub fps: FrameRate,
    pub pixel_char: char,
    pub wrapping: WrapPolicy,
}

impl Settings {
    /// The settings of a run that is given none: frames fitted into 350 by 90
    /// pixels, 60 frames a second, cells filled with a full block, writes
    /// outside the canvas dropped.
    pub open spec fn standard() -> Settings {
        Settings {
            width: 350,
            height: 90,
            fps: FrameRate { frames: 60, seconds: 1 },
            pixel_char: '\u{2588}',
            wrapping: WrapPolicy::Ignore,
        }
    }
}

impl Default for Settings {
    fn default() -> (r: Settings)
        ensures
            r == Settings::standard(),
    {
        Settings {
            width: 350,
            height: 90,
            fps: FrameRate { frames: 60, seconds: 1 },
            pixel_char: '\u{2588}',
            wrapping: WrapPolicy::Ignore,
        }
    }
}

/// Why a still cannot be made into a frame.
#[derive(Clone, Copy, Debug, PartialEq, Eq, Structural)]
pub enum StillFault {
    /// Its bytes are not an image that the decoder can read.
    Malformed,
    /// It is an image, but not one of 8-bit red, green and blue samples.
    NotRgb,
    /// It cannot be resized to a frame that can be drawn: it has no pixels or
    /// not the samples of its pixels, or it or the frame would be too large to
    /// handle.
    Unfit,
}

/// Why the stills cannot be made into a video.
#[derive(Clone, Copy, Debug, PartialEq, Eq, Structural)]
pub enum LoadError {
    /// There are no stills.
    NoFrames,
    /// The still at this place among those given has no number in its name,
    /// or one that does not follow that of the still played before it.
    Misnumbered { still: usize },
    /// The still at this place among those given cannot be made into a frame.
    Unusable { still: usize, fault: StillFault },
}

impl LoadError {
    /// The kind of failure that this is for the run as a whole.
    pub open spec fn spec_kind(self) -> ErrorKind {
        match self {
            LoadError::NoFrames => ErrorKind::Extraction,
            LoadError::Misnumbered { .. } => ErrorKind::Extraction,
            LoadError::Unusable { .. } => ErrorKind::Decode,
        }
    }

    /// The kind of failure that this is for the run as a whole: stills that
    /// are missing or badly numbered are the transcoder's doing, a still that
    /// cannot be used is a failure to decode.
    #[verifier::when_used_as_spec(spec_kind)]
    pub fn kind(self) -> (r: ErrorKind)
        ensures
            r == self.spec_kind(),
    {
        match self {
            LoadError::NoFrames => ErrorKind::Extraction,
            LoadError::Misnumbered { .. } => ErrorKind::Extraction,
            LoadError::Unusable { .. } => ErrorKind::Decode,
        }
    }
}

/// What a decoded still becomes when it is resized to fit into `width` by
/// `height`: the resized raster, if the still can be resized and the result
/// can be drawn.
pub open spec fn fitted(source: Raster, width: u32, height: u32) -> Result<Raster, StillFault> {
    if resizable(source, width, height) && resized(source, width, height).placeable() {
        Ok(resized(source, width, height))
    } else {
        Err(StillFault::Unfit)
    }
}

/// What the bytes of a still become when they are loaded as a frame that fits
/// into `width` by `height`.
pub open spec fn loaded_frame(data: Seq<u8>, width: u32, height: u32) -> Result<
    Raster,
    StillFault,
> {
    match decoded_still(data) {
        Decoded::Malformed => Err(StillFault::Malformed),
        Decoded::NotRgb => Err(StillFault::NotRgb),
        Decoded::Rgb(source) => fitted(source, width, height),
    }
}

/// Makes a frame that fits into `width` by `height` of what the decoder gave
/// for a still.
pub fn frame_of_decoded(decoded: Result<Option<Frame>, ImageError>, width: u32, height: u32) -> (r:
    Result<Frame, StillFault>)
    ensures
        match decoded {
            Ok(Some(source)) => match r {
                Ok(frame) => fitted(source@, width, height) == Ok::<Raster, StillFault>(frame@)
                    && frame.drawable(),
                Err(fault) => fitted(source@, width, height) == Err::<Raster, StillFault>(fault),
            },
            Ok(None) => r == Err::<Frame, StillFault>(StillFault::NotRgb),
            Err(_) => r == Err::<Frame, StillFault>(StillFault::Malformed),
        },
{
    match decoded {
        Ok(Some(source)) => {
            if !is_resizable(&source, width, height) {
                return Err(StillFault::Unfit);
            }
            let (frame, _, _) = resized_img_and_size(source, width, height);
            if frame.is_drawable() {
                Ok(frame)
            } else {
                Err(StillFault::Unfit)
            }
        },
        Ok(None) => Err(StillFault::NotRgb),
        Err(_) => Err(StillFault::Malformed),
    }
}

/// Decodes the bytes of a still and resizes the image to fit into `width` by
/// `height`.
pub fn load_frame(data: &Vec<u8>, width: u32, height: u32) -> (r: Result<Frame, StillFault>)
    ensures
        match r {
            Ok(frame) => loaded_frame(data@, width, height) == Ok::<Raster, StillFault>(frame@)
                && frame.drawable(),
            Err(fault) => loaded_frame(data@, width, height) == Err::<Raster, StillFault>(fault),
        },
{
    frame_of_decoded(decode_still(data), width, height)
}

/// The order in which stills with these names are played.
pub open spec fn play_order(names: Seq<Seq<u8>>) -> Seq<usize> {
    choose|order: Seq<usize>| is_frame_order(names, order)
}

/// A video ready to be played: its frames in order, the size at which it is
/// shown and its frame rate.
#[derive(Debug)]
pub struct Video {
    pub frames: Vec<Frame>,
    pub width: usize,
    pub height: usize,
    pub fps: FrameRate,
}

impl Video {
    /// The video can be played: its rate is one, every frame can be drawn, and
    /// its size is that of its first frame.
    pub open spec fn wf(&self) -> bool {
        &&& self.fps.wf()
        &&& forall|k: int| 0 <= k < self.frames.len() ==> (#[trigger] self.frames[k]).drawable()
        &&& self.frames.len() > 0 ==> self.width == self.frames[0].width && self.height
            == self.frames[0].height
    }

    /// Every frame has the size of the video.
    pub open spec fn uniform(&self) -> bool {
        forall|k: int|
            0 <= k < self.frames.len() ==> (#[trigger] self.frames[k]).width == self.width
                && self.frames[k].height == self.height
    }

    /// The video is what loading makes of the stills: as many frames as
    /// stills, frame `k` made of the still that is played at place `k`.
    pub open spec fn is_loaded_from(&self, stills: Seq<Still>, width: u32, height: u32) -> bool {
        let order = play_order(names_of(stills));
        &&& self.frames.len() == stills.len()
        &&& forall|k: int|
            0 <= k < stills.len() ==> loaded_frame(stills[order[k] as int].data@, width, height)
                == Ok::<Raster, StillFault>((#[trigger] self.frames[k])@)
    }

    /// Makes a video of frames that are in order. Its size is that of the
    /// first frame.
    pub fn assemble(frames: Vec<Frame>, fps: FrameRate) -> (video: Video)
        ensures
            video.frames == frames,
            video.fps == fps,
            frames.len() > 0 ==> video.width == frames[0].width && video.height == frames[0].height,
            frames.len() == 0 ==> video.width == 0 && video.height == 0,
    {
        let (width, height) = if frames.len() > 0 {
            (frames[0].width, frames[0].height)
        } else {
            (0, 0)
        };
        Video { frames, width, height, fps }
    }

    /// Loads a video from the stills that the transcoder left: sorts them by
    /// name, checks that their numbers ascend in that order, and decodes and
    /// resizes each to fit into `width` by `height`.
    ///
    /// The first thing that is wrong ends the load: no stills; else a still
    /// whose number is missing or out of order, the first in the order of
    /// play; else a still that cannot be made into a frame, again the first.
    /// A caller who would rather pass over a bad still than give up can load
    /// the stills one by one with `load_frame` and `assemble` what is good.
    pub fn new(width: u32, height: u32, fps: FrameRate, stills: &Vec<Still>) -> (r: Result<
        Video,
        LoadError,
    >)
        requires
            fps.wf(),
        ensures
            match r {
                Ok(video) => {
                    &&& stills.len() > 0
                    &&& numbers_ascend(names_of(stills@), play_order(names_of(stills@)))
                    &&& video.is_loaded_from(stills@, width, height)
                    &&& video.fps == fps
                    &&& video.wf()
                },
                Err(LoadError::NoFrames) => stills.len() == 0,
                Err(LoadError::Misnumbered { still }) => {
                    let order = play_order(names_of(stills@));
                    exists|k: int|
                        {
                            &&& 0 <= k < stills.len()
                            &&& #[trigger] order[k] == still
                            &&& !well_numbered_at(names_of(stills@), order, k)
                            &&& forall|j: int|
                                0 <= j < k ==> well_numbered_at(names_of(stills@), order, j)
                        }
                },
                Err(LoadError::Unusable { still, fault }) => {
                    let order = play_order(names_of(stills@));
                    &&& numbers_ascend(names_of(stills@), order)
                    &&& exists|k: int|
                        {
                            &&& 0 <= k < stills.len()
                            &&& #[trigger] order[k] == still
                            &&& loaded_frame(stills[still as int].data@, width, height) == Err::<
                                Raster,
                                StillFault,
                            >(fault)
                            &&& forall|j: int|
                                0 <= j < k ==> loaded_frame(
                                    stills[(#[trigger] order[j]) as int].data@,
                                    width,
                                    height,
                                ).is_ok()
                        }
                },
            },
    {
        if stills.len() == 0 {
            return Err(LoadError::NoFrames);
        }
        let order = frame_order(stills);
        let ghost names = names_of(stills@);
        proof {
            lemma_frame_order_unique(names, order@, play_order(names));
        }
        match check_numbering(stills, &order) {
            Ok(_) => {},
            Err(place) => {
                return Err(LoadError::Misnumbered { still: order[place] });
            },
        }
        let mut frames: Vec<Frame> = Vec::new();
        let mut k: usize = 0;
        while k < order.len()
            invariant
                order@ == play_order(names_of(stills@)),
                is_frame_order(names_of(stills@), order@),
                numbers_ascend(names_of(stills@), order@),
                stills.len() > 0,
                k <= order.len(),
                frames.len() == k,
                forall|j: int| 0 <= j < k ==> (#[trigger] frames[j]).drawable(),
                forall|j: int|
                    0 <= j < k ==> loaded_frame(stills[order@[j] as int].data@, width, height)
                        == Ok::<Raster, StillFault>((#[trigger] frames[j])@),
            decreases order.len() - k,
        {
            let still = order[k];
            assert(names_of(stills@).len() == stills.len());
            match load_frame(&stills[still].data, width, height) {
                Ok(frame) => {
                    frames.push(frame);
                },
                Err(fault) => {
                    assert forall|j: int| 0 <= j < k implies loaded_frame(
                        stills[(#[trigger] order@[j]) as int].data@,
                        width,
                        height,
                    ).is_ok() by {
                        assert(loaded_frame(stills[order@[j] as int].data@, width, height)
                            == Ok::<Raster, StillFault>(frames[j]@));
                    }
                    assert(order@[k as int] == still);
                    return Err(LoadError::Unusable { still, fault });
                },
            }
            k += 1;
        }
        assert(names_of(stills@).len() == stills.len());
        Ok(Video::assemble(frames, fps))
    }
}

/// Whether two decoded stills, where both are images of RGB samples, have one
/// size.
pub open spec fn same_size(a: Decoded, b: Decoded) -> bool {
    match (a, b) {
        (Decoded::Rgb(x), Decoded::Rgb(y)) => x.width == y.width && x.height == y.height,
        _ => true,
    }
}

/// The order of play is an order of play: it lists every still, each before
/// all that play after it.
pub proof fn lemma_play_order(names: Seq<Seq<u8>>)
    requires
        names.len() <= usize::MAX,
    ensures
        is_frame_order(names, play_order(names)),
{
    lemma_frame_order_exists(names);
}

/// Loading keeps the count: a loaded video has one frame for each still.
pub proof fn lemma_count_preserved(video: Video, stills: Seq<Still>, width: u32, height: u32)
    requires
        video.is_loaded_from(stills, width, height),
    ensures
        video.frames.len() == stills.len(),
{
}

/// Where all the stills are images of one size, every frame of the loaded
/// video has the size of the video.
pub proof fn lemma_uniform_dimensions(video: Video, stills: Seq<Still>, width: u32, height: u32)
    requires
        stills.len() <= usize::MAX,
        video.wf(),
        video.is_loaded_from(stills, width, height),
        forall|i: int, j: int|
            0 <= i < stills.len() && 0 <= j < stills.len() ==> same_size(
                decoded_still((#[trigger] stills[i]).data@),
                decoded_still((#[trigger] stills[j]).data@),
            ),
    ensures
        video.uniform(),
{
    let names = names_of(stills);
    let order = play_order(names);
    lemma_play_order(names);
    assert forall|k: int| 0 <= k < video.frames.len() implies (#[trigger] video.frames[k]).width
        == video.width && video.frames[k].height == video.height by {
        let first = stills[order[0] as int];
        let this = stills[order[k] as int];
        assert(loaded_frame(first.data@, width, height) == Ok::<Raster, StillFault>(
            video.frames[0]@,
        ));
        assert(loaded_frame(this.data@, width, height) == Ok::<Raster, StillFault>(
            video.frames[k]@,
        ));
        assert(same_size(decoded_still(this.data@), decoded_still(first.data@)));
    }
}

} // verus!
