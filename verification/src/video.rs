//! Video ingestion rules: settings, crop, decode cache and capture quality.

use vstd::prelude::*;

use crate::ieee;
use crate::json::{put_number, put_text};
use crate::pose::RasterCrop;
use crate::ppm::{OwnedFrame, PpmProblem};
use crate::text;
use crate::text::parse_usize;

verus! {

/// The bit pattern of binary32 `0.002`.
pub const STATIC_LUMA_DELTA: u32 = 0x3b03_126f;

/// The bit pattern of binary32 `0.01`.
pub const WEAK_LUMA_DELTA: u32 = 0x3c23_d70a;

/// What a capture is fit for.
#[derive(Debug, Clone, Copy, PartialEq, Eq, Structural)]
pub enum CaptureDisposition {
    Ready,
    Review,
    Recapture,
}

/// A capture-risk indicator; it makes no claim about geometry.
#[derive(Debug, Clone, Copy, PartialEq, Eq, Structural)]
pub struct CaptureQuality {
    pub disposition: CaptureDisposition,
    pub frame_count: usize,
    /// Mean absolute luma change between neighbouring frames, a binary32
    /// pattern.
    pub mean_adjacent_luma_delta: u32,
}

/// How a video is decoded.
#[derive(Debug, Clone, Copy, PartialEq, Eq, Structural)]
pub struct VideoExtractionSettings {
    pub width: usize,
    pub height: usize,
    /// Candidate frames per second, a binary64 pattern. This is a rate, not a
    /// total, so a long capture does not become sparse.
    pub candidate_fps: u64,
    /// Safety ceiling for a single capture.
    pub max_frames: usize,
}

impl Default for VideoExtractionSettings {
    fn default() -> (settings: Self)
        ensures
            settings.width == 504,
            settings.height == 336,
            settings.candidate_fps == 0x4020_0000_0000_0000,
            settings.max_frames == 1800,
    {
        VideoExtractionSettings {
            width: 504,
            height: 336,
            candidate_fps: 0x4020_0000_0000_0000,
            max_frames: 1800,
        }
    }
}

/// What is wrong with a decode cache.
#[derive(Debug, Clone, Copy, PartialEq, Eq, Structural)]
pub enum CacheProblem {
    MissingDirectory,
    FrameCount,
    Raster,
}

/// What is wrong with probed dimensions.
#[derive(Debug, Clone, Copy, PartialEq, Eq, Structural)]
pub enum ProbeProblem {
    NoDimensions,
    InvalidDimensions,
}

/// Why a video cannot be used.
#[derive(Debug, Clone, PartialEq, Eq)]
pub enum VideoInputError {
    InvalidSettings,
    Probe(String),
    Dimensions(ProbeProblem),
    InvalidDuration,
    PortraitCapture { width: usize, height: usize },
    Decode(String),
    ExistingOutput(String),
    InvalidCache(CacheProblem),
    Ppm(PpmProblem),
    Io(String),
}

/// The decoded frames of a video.
#[derive(Debug, Clone)]
pub struct VideoFrames {
    /// A binary64 pattern.
    pub duration_seconds: u64,
    pub frames: Vec<OwnedFrame>,
    pub decoded_directory: String,
    pub capture_quality: CaptureQuality,
}

/// Source and crop geometry of the decoded rasters.
#[derive(Debug, Clone, Copy, PartialEq, Eq, Structural)]
pub struct VideoRasterMetadata {
    /// A binary64 pattern.
    pub duration_seconds: u64,
    pub source_width: usize,
    pub source_height: usize,
    pub crop: RasterCrop,
}

/// Dimensions of a source video.
#[derive(Debug, Clone, Copy, PartialEq, Eq, Structural)]
pub struct VideoGeometry {
    pub width: usize,
    pub height: usize,
}

/// A raster has pixels and at least one frame is allowed.
pub open spec fn raster_settings_sound(settings: VideoExtractionSettings) -> bool {
    settings.width > 0 && settings.height > 0 && settings.max_frames > 0
}

/// A raster can be decoded at a finite positive rate.
pub open spec fn decode_settings_sound(settings: VideoExtractionSettings) -> bool {
    &&& raster_settings_sound(settings)
    &&& ieee::f64_finite(settings.candidate_fps)
    &&& ieee::f64_less(0, settings.candidate_fps)
}

/// Checks settings for reuse of a decode cache.
pub fn check_raster_settings(settings: &VideoExtractionSettings) -> (result: Result<
    (),
    VideoInputError,
>)
    ensures
        match result {
            Ok(_) => raster_settings_sound(*settings),
            Err(e) => !raster_settings_sound(*settings) && e == VideoInputError::InvalidSettings,
        },
{
    if settings.width == 0 || settings.height == 0 || settings.max_frames == 0 {
        return Err(VideoInputError::InvalidSettings);
    }
    Ok(())
}

/// Checks settings for decoding.
pub fn check_decode_settings(settings: &VideoExtractionSettings) -> (result: Result<
    (),
    VideoInputError,
>)
    ensures
        match result {
            Ok(_) => decode_settings_sound(*settings),
            Err(e) => !decode_settings_sound(*settings) && e == VideoInputError::InvalidSettings,
        },
{
    if settings.width == 0 || settings.height == 0 || settings.max_frames == 0
        || !ieee::f64_is_finite(settings.candidate_fps) || ieee::f64_le(
        settings.candidate_fps,
        0,
    ) {
        return Err(VideoInputError::InvalidSettings);
    }
    Ok(())
}

/// Accepts a probed duration: none where the probe printed no number.
pub fn check_duration(duration: Option<u64>) -> (result: Result<u64, VideoInputError>)
    ensures
        match result {
            Ok(bits) => duration == Some(bits) && ieee::f64_finite(bits) && ieee::f64_less(0, bits),
            Err(e) => e == VideoInputError::InvalidDuration && !(duration matches Some(bits)
                && ieee::f64_finite(bits) && ieee::f64_less(0, bits)),
        },
{
    match duration {
        Some(bits) => {
            if ieee::f64_is_finite(bits) && ieee::f64_lt(0, bits) {
                Ok(bits)
            } else {
                Err(VideoInputError::InvalidDuration)
            }
        },
        None => Err(VideoInputError::InvalidDuration),
    }
}

/// Accepts a capture that is not upright.
pub fn check_orientation(geometry: VideoGeometry) -> (result: Result<(), VideoInputError>)
    ensures
        match result {
            Ok(_) => geometry.width >= geometry.height,
            Err(e) => geometry.width < geometry.height && e == (VideoInputError::PortraitCapture {
                width: geometry.width,
                height: geometry.height,
            }),
        },
{
    if geometry.width < geometry.height {
        return Err(
            VideoInputError::PortraitCapture { width: geometry.width, height: geometry.height },
        );
    }
    Ok(())
}

/// The source is at least as wide as the wanted aspect ratio.
pub open spec fn is_wide(settings: VideoExtractionSettings, geometry: VideoGeometry) -> bool {
    geometry.width * settings.height >= geometry.height * settings.width
}

/// Width of the largest centred part with the wanted aspect ratio.
pub open spec fn crop_width(settings: VideoExtractionSettings, geometry: VideoGeometry) -> int {
    if is_wide(settings, geometry) {
        (geometry.height * settings.width) / (settings.height as int)
    } else {
        geometry.width as int
    }
}

/// Height of the largest centred part with the wanted aspect ratio.
pub open spec fn crop_height(settings: VideoExtractionSettings, geometry: VideoGeometry) -> int {
    if is_wide(settings, geometry) {
        geometry.height as int
    } else {
        (geometry.width * settings.height) / (settings.width as int)
    }
}

/// The crop is the largest centred part with the wanted aspect ratio.
pub open spec fn is_crop(
    settings: VideoExtractionSettings,
    geometry: VideoGeometry,
    crop: RasterCrop,
) -> bool {
    &&& crop.width == crop_width(settings, geometry)
    &&& crop.height == crop_height(settings, geometry)
    &&& crop.x == (geometry.width - crop.width) / 2
    &&& crop.y == (geometry.height - crop.height) / 2
}

proof fn lemma_crop_fits(settings: VideoExtractionSettings, geometry: VideoGeometry)
    requires
        settings.width > 0,
        settings.height > 0,
    ensures
        0 <= crop_width(settings, geometry) <= geometry.width,
        0 <= crop_height(settings, geometry) <= geometry.height,
{
    let gw = geometry.width as int;
    let gh = geometry.height as int;
    let sw = settings.width as int;
    let sh = settings.height as int;
    if is_wide(settings, geometry) {
        assert(0 <= (gh * sw) / sh <= gw) by (nonlinear_arith)
            requires
                gw * sh >= gh * sw,
                sh > 0,
                sw > 0,
                gh >= 0,
                gw >= 0,
        ;
    } else {
        assert(0 <= (gw * sh) / sw <= gh) by (nonlinear_arith)
            requires
                gw * sh < gh * sw,
                sh > 0,
                sw > 0,
                gh >= 0,
                gw >= 0,
        ;
    }
}

/// Crops a source around its centre to the wanted aspect ratio. Fails where
/// nothing would be left.
pub fn crop_geometry(settings: &VideoExtractionSettings, geometry: VideoGeometry) -> (result: Result<
    RasterCrop,
    VideoInputError,
>)
    requires
        settings.width > 0,
        settings.height > 0,
    ensures
        match result {
            Ok(crop) => is_crop(*settings, geometry, crop) && crop.width > 0 && crop.height > 0,
            Err(e) => (crop_width(*settings, geometry) == 0 || crop_height(*settings, geometry)
                == 0) && e == VideoInputError::InvalidSettings,
        },
{
    let gw: u128 = geometry.width as u128;
    let gh: u128 = geometry.height as u128;
    let sw: u128 = settings.width as u128;
    let sh: u128 = settings.height as u128;
    proof {
        lemma_crop_fits(*settings, geometry);
        assert(gw * sh <= 0xffff_ffff_ffff_ffff * 0xffff_ffff_ffff_ffff && gh * sw
            <= 0xffff_ffff_ffff_ffff * 0xffff_ffff_ffff_ffff) by (nonlinear_arith)
            requires
                gw <= 0xffff_ffff_ffff_ffff,
                gh <= 0xffff_ffff_ffff_ffff,
                sw <= 0xffff_ffff_ffff_ffff,
                sh <= 0xffff_ffff_ffff_ffff,
        ;
    }
    let (width, height): (usize, usize) = if gw * sh >= gh * sw {
        ((gh * sw / sh) as usize, geometry.height)
    } else {
        (geometry.width, (gw * sh / sw) as usize)
    };
    if width == 0 || height == 0 {
        return Err(VideoInputError::InvalidSettings);
    }
    Ok(
        RasterCrop {
            x: (geometry.width - width) / 2,
            y: (geometry.height - height) / 2,
            width,
            height,
        },
    )
}

/// A crop lies inside its source, is centred to within a pixel, and keeps one
/// whole side of it.
pub proof fn law_crop_is_centred(
    settings: VideoExtractionSettings,
    geometry: VideoGeometry,
    crop: RasterCrop,
)
    requires
        settings.width > 0,
        settings.height > 0,
        is_crop(settings, geometry, crop),
    ensures
        crop.x + crop.width <= geometry.width,
        crop.y + crop.height <= geometry.height,
        0 <= geometry.width - crop.width - 2 * crop.x <= 1,
        0 <= geometry.height - crop.height - 2 * crop.y <= 1,
        crop.width == geometry.width || crop.height == geometry.height,
{
    lemma_crop_fits(settings, geometry);
}

/// The decode filter: the candidate rate, the crop and the target size.
pub open spec fn filter_text(
    fps: Seq<char>,
    crop: RasterCrop,
    settings: VideoExtractionSettings,
) -> Seq<u8> {
    text::utf8("fps="@) + text::utf8(fps) + text::utf8(",crop="@) + text::decimal(
        crop.width as int,
    ) + text::utf8(":"@) + text::decimal(crop.height as int) + text::utf8(":"@) + text::decimal(
        crop.x as int,
    ) + text::utf8(":"@) + text::decimal(crop.y as int) + text::utf8(",scale="@) + text::decimal(
        settings.width as int,
    ) + text::utf8(":"@) + text::decimal(settings.height as int) + text::utf8(":flags=lanczos"@)
}

/// Builds the locked image transform: crop around the centre to the raster's
/// aspect ratio, then resize. `fps` spells the candidate rate.
pub fn center_crop_filter(
    fps: &str,
    settings: &VideoExtractionSettings,
    geometry: VideoGeometry,
) -> (result: Result<Vec<u8>, VideoInputError>)
    requires
        settings.width > 0,
        settings.height > 0,
    ensures
        match result {
            Ok(filter) => exists|crop: RasterCrop| #[trigger]
                is_crop(*settings, geometry, crop) && crop.width > 0 && crop.height > 0 && filter@
                    == filter_text(fps@, crop, *settings),
            Err(e) => (crop_width(*settings, geometry) == 0 || crop_height(*settings, geometry)
                == 0) && e == VideoInputError::InvalidSettings,
        },
{
    let crop: RasterCrop = crop_geometry(settings, geometry)?;
    let mut filter: Vec<u8> = Vec::new();
    put_text(&mut filter, "fps=");
    put_text(&mut filter, fps);
    put_text(&mut filter, ",crop=");
    put_number(&mut filter, crop.width as u64);
    put_text(&mut filter, ":");
    put_number(&mut filter, crop.height as u64);
    put_text(&mut filter, ":");
    put_number(&mut filter, crop.x as u64);
    put_text(&mut filter, ":");
    put_number(&mut filter, crop.y as u64);
    put_text(&mut filter, ",scale=");
    put_number(&mut filter, settings.width as u64);
    put_text(&mut filter, ":");
    put_number(&mut filter, settings.height as u64);
    put_text(&mut filter, ":flags=lanczos");
    assert(filter@ =~= filter_text(fps@, crop, *settings));
    Ok(filter)
}

/// The contract between a video and its rasters, once the video was probed.
pub fn video_raster_metadata(
    settings: &VideoExtractionSettings,
    duration_seconds: u64,
    geometry: VideoGeometry,
) -> (result: Result<VideoRasterMetadata, VideoInputError>)
    ensures
        match result {
            Ok(metadata) => {
                &&& raster_settings_sound(*settings)
                &&& geometry.width >= geometry.height
                &&& metadata.duration_seconds == duration_seconds
                &&& metadata.source_width == geometry.width
                &&& metadata.source_height == geometry.height
                &&& is_crop(*settings, geometry, metadata.crop)
                &&& metadata.crop.width > 0 && metadata.crop.height > 0
            },
            Err(e) => if !raster_settings_sound(*settings) {
                e == VideoInputError::InvalidSettings
            } else if geometry.width < geometry.height {
                e == (VideoInputError::PortraitCapture {
                    width: geometry.width,
                    height: geometry.height,
                })
            } else {
                (crop_width(*settings, geometry) == 0 || crop_height(*settings, geometry) == 0)
                    && e == VideoInputError::InvalidSettings
            },
        },
{
    check_raster_settings(settings)?;
    check_orientation(geometry)?;
    let crop: RasterCrop = crop_geometry(settings, geometry)?;
    Ok(
        VideoRasterMetadata {
            duration_seconds,
            source_width: geometry.width,
            source_height: geometry.height,
            crop,
        },
    )
}

/// A positive number that a text spells.
pub open spec fn positive_number(bytes: Seq<u8>) -> Option<int> {
    match text::decimal_up_to(bytes, usize::MAX as int) {
        Some(value) => if value > 0 {
            Some(value)
        } else {
            None
        },
        None => None,
    }
}

/// What a probe printed, without surrounding white space: two positive numbers
/// with an `x` between them.
pub open spec fn parse_dimensions(printed: Seq<u8>) -> Result<(int, int), ProbeProblem> {
    let at = text::next_byte(printed, 0, 0x78);
    if at >= printed.len() {
        Err(ProbeProblem::NoDimensions)
    } else {
        match (
            positive_number(printed.take(at)),
            positive_number(printed.skip(at + 1)),
        ) {
            (Some(width), Some(height)) => Ok((width, height)),
            _ => Err(ProbeProblem::InvalidDimensions),
        }
    }
}

fn read_positive(bytes: &[u8]) -> (number: Option<usize>)
    ensures
        match number {
            Some(value) => positive_number(bytes@) == Some(value as int),
            None => positive_number(bytes@) is None,
        },
{
    match parse_usize(bytes) {
        Some(value) => if value > 0 {
            Some(value)
        } else {
            None
        },
        None => None,
    }
}

/// Reads the dimensions that a probe printed. `printed` has no surrounding
/// white space.
pub fn probe_geometry(printed: &str) -> (result: Result<VideoGeometry, VideoInputError>)
    ensures
        match parse_dimensions(text::utf8(printed@)) {
            Ok((width, height)) => result matches Ok(geometry) && geometry.width == width
                && geometry.height == height,
            Err(problem) => result == Err::<VideoGeometry, VideoInputError>(
                VideoInputError::Dimensions(problem),
            ),
        },
{
    let bytes: &[u8] = printed.as_bytes();
    let mut at: usize = 0;
    while at < bytes.len() && bytes[at] != 0x78
        invariant
            at <= bytes@.len(),
            text::next_byte(bytes@, 0, 0x78) == text::next_byte(bytes@, at as int, 0x78),
        decreases bytes@.len() - at,
    {
        at = at + 1;
    }
    if at == bytes.len() {
        return Err(VideoInputError::Dimensions(ProbeProblem::NoDimensions));
    }
    let left: Vec<u8> = text::slice(bytes, 0, at);
    let right: Vec<u8> = text::slice(bytes, at + 1, bytes.len());
    assert(left@ =~= bytes@.take(at as int));
    assert(right@ =~= bytes@.skip(at + 1));
    match (read_positive(left.as_slice()), read_positive(right.as_slice())) {
        (Some(width), Some(height)) => Ok(VideoGeometry { width, height }),
        _ => Err(VideoInputError::Dimensions(ProbeProblem::InvalidDimensions)),
    }
}

/// Every frame has the requested size.
pub open spec fn all_sized(frames: Seq<OwnedFrame>, width: usize, height: usize) -> bool {
    forall|i: int| #![trigger frames[i]]
        0 <= i < frames.len() ==> frames[i].width == width && frames[i].height == height
}

/// What is wrong with the frames of a decode cache, if anything is.
pub open spec fn cache_problem(frames: Seq<OwnedFrame>, settings: VideoExtractionSettings) -> Option<
    CacheProblem,
> {
    if frames.len() == 0 || frames.len() > settings.max_frames {
        Some(CacheProblem::FrameCount)
    } else if !all_sized(frames, settings.width, settings.height) {
        Some(CacheProblem::Raster)
    } else {
        None
    }
}

/// Checks the frames of a decode cache against the requested raster.
pub fn load_decoded_rgb24_cache(
    frames: Vec<OwnedFrame>,
    settings: &VideoExtractionSettings,
) -> (result: Result<Vec<OwnedFrame>, VideoInputError>)
    ensures
        match cache_problem(frames@, *settings) {
            None => result == Ok::<Vec<OwnedFrame>, VideoInputError>(frames),
            Some(problem) => result == Err::<Vec<OwnedFrame>, VideoInputError>(
                VideoInputError::InvalidCache(problem),
            ),
        },
{
    if frames.len() == 0 || frames.len() > settings.max_frames {
        return Err(VideoInputError::InvalidCache(CacheProblem::FrameCount));
    }
    for i in 0..frames.len()
        invariant
            0 < frames@.len() <= settings.max_frames,
            forall|j: int| #![trigger frames@[j]]
                0 <= j < i ==> frames@[j].width == settings.width && frames@[j].height
                    == settings.height,
    {
        if frames[i].width != settings.width || frames[i].height != settings.height {
            assert(!(frames@[i as int].width == settings.width && frames@[i as int].height
                == settings.height));
            return Err(VideoInputError::InvalidCache(CacheProblem::Raster));
        }
    }
    Ok(frames)
}

/// At least two frames, all of one size.
pub open spec fn comparable(frames: Seq<OwnedFrame>) -> bool {
    &&& frames.len() >= 2
    &&& forall|i: int, j: int| #![trigger frames[i], frames[j]]
        0 <= i < frames.len() && 0 <= j < frames.len() ==> frames[i].width == frames[j].width
            && frames[i].height == frames[j].height
}

/// What a mean luma change says of a capture.
pub open spec fn disposition_of(mean: u32) -> CaptureDisposition {
    if ieee::f32_less(mean, STATIC_LUMA_DELTA) {
        CaptureDisposition::Recapture
    } else if ieee::f32_less(mean, WEAK_LUMA_DELTA) {
        CaptureDisposition::Review
    } else {
        CaptureDisposition::Ready
    }
}

/// Whether neighbouring frames can be compared at all.
pub fn frames_are_comparable(frames: &Vec<OwnedFrame>) -> (answer: bool)
    ensures
        answer == comparable(frames@),
{
    if frames.len() < 2 {
        return false;
    }
    for i in 1..frames.len()
        invariant
            frames@.len() >= 2,
            forall|j: int| #![trigger frames@[j]]
                0 <= j < i ==> frames@[j].width == frames@[0].width && frames@[j].height
                    == frames@[0].height,
    {
        if frames[i - 1].width != frames[i].width || frames[i - 1].height != frames[i].height {
            let ghost left = frames@[i - 1];
            let ghost right = frames@[i as int];
            assert(!(left.width == right.width && left.height == right.height));
            return false;
        }
    }
    true
}

/// Rates a capture before expensive work. `mean` is the mean absolute luma
/// change between neighbouring frames; it counts only where frames can be
/// compared. A capture that cannot be compared is to be recaptured.
pub fn assess_capture_quality(frames: &Vec<OwnedFrame>, mean: u32) -> (quality: CaptureQuality)
    ensures
        quality.frame_count == frames@.len(),
        if comparable(frames@) {
            quality.disposition == disposition_of(mean) && quality.mean_adjacent_luma_delta == mean
        } else {
            quality.disposition == CaptureDisposition::Recapture
                && quality.mean_adjacent_luma_delta == 0
        },
{
    if !frames_are_comparable(frames) {
        return CaptureQuality {
            disposition: CaptureDisposition::Recapture,
            frame_count: frames.len(),
            mean_adjacent_luma_delta: 0,
        };
    }
    let disposition: CaptureDisposition = if ieee::f32_lt(mean, STATIC_LUMA_DELTA) {
        CaptureDisposition::Recapture
    } else if ieee::f32_lt(mean, WEAK_LUMA_DELTA) {
        CaptureDisposition::Review
    } else {
        CaptureDisposition::Ready
    };
    CaptureQuality { disposition, frame_count: frames.len(), mean_adjacent_luma_delta: mean }
}

/// A crop is the largest with the aspect ratio of the raster: a source that is too wide
/// keeps its height and loses width, any other keeps its width and loses height, and one
/// pixel more on the side that loses would be too much.
pub proof fn law_crop_is_the_largest_of_its_shape(
    settings: VideoExtractionSettings,
    geometry: VideoGeometry,
    crop: RasterCrop,
)
    requires
        settings.width > 0,
        settings.height > 0,
        is_crop(settings, geometry, crop),
    ensures
        geometry.width * settings.height >= geometry.height * settings.width ==> crop.height
            == geometry.height && crop.width * settings.height <= crop.height * settings.width < (
        crop.width + 1) * settings.height,
        geometry.width * settings.height < geometry.height * settings.width ==> crop.width
            == geometry.width && crop.height * settings.width <= crop.width * settings.height < (
        crop.height + 1) * settings.width,
{
    let wide = geometry.height * settings.width;
    let high = geometry.width * settings.height;
    let w = settings.width as int;
    let h = settings.height as int;
    assert((wide / h) * h <= wide < (wide / h + 1) * h) by (nonlinear_arith)
        requires
            h > 0,
    ;
    assert((high / w) * w <= high < (high / w + 1) * w) by (nonlinear_arith)
        requires
            w > 0,
    ;
}

/// A probe that prints a width, an `x` and a height is read as these.
pub proof fn law_printed_dimensions_are_read(width: int, height: int)
    requires
        0 <= width <= usize::MAX,
        0 <= height <= usize::MAX,
    ensures
        ({
            let printed = text::decimal(width).push(0x78) + text::decimal(height);
            if width > 0 && height > 0 {
                parse_dimensions(printed) == Ok::<(int, int), ProbeProblem>((width, height))
            } else {
                parse_dimensions(printed) == Err::<(int, int), ProbeProblem>(
                    ProbeProblem::InvalidDimensions,
                )
            }
        }),
{
    let printed = text::decimal(width).push(0x78) + text::decimal(height);
    let at = text::decimal(width).len() as int;
    text::lemma_decimal_is_digits(width);
    text::law_decimal_round_trip(width, usize::MAX as int);
    text::law_decimal_round_trip(height, usize::MAX as int);
    text::lemma_next_byte(printed, 0, 0x78);
    let found = text::next_byte(printed, 0, 0x78);
    assert(printed[at] == 0x78);
    if found < at {
        assert(printed[found] == text::decimal(width)[found]);
    }
    assert(found == at);
    assert(printed.take(at) =~= text::decimal(width));
    assert(printed.skip(at + 1) =~= text::decimal(height));
}

/// A capture is retaken where its mean change is below two thousandths, looked at where
/// it is below one hundredth, and ready otherwise; a mean that is no number is ready.
pub proof fn law_capture_is_judged_by_its_change(mean: u32)
    ensures
        disposition_of(mean) is Recapture <==> !ieee::f32_nan(mean) && ieee::f32_rank(mean)
            < 0x3b03_126f,
        disposition_of(mean) is Review <==> 0x3b03_126f <= ieee::f32_rank(mean) < 0x3c23_d70a,
        disposition_of(mean) is Ready <==> ieee::f32_nan(mean) || ieee::f32_rank(mean)
            >= 0x3c23_d70a,
{
}

/// A cache is usable where it holds at least one frame, no more than the maximum, and
/// every one of them has the size of the raster.
pub proof fn law_usable_cache_has_one_size(
    frames: Seq<OwnedFrame>,
    settings: VideoExtractionSettings,
)
    ensures
        cache_problem(frames, settings) is None <==> 1 <= frames.len() <= settings.max_frames
            && forall|i: int|
            0 <= i < frames.len() ==> (#[trigger] frames[i]).width == settings.width
                && frames[i].height == settings.height,
        cache_problem(frames, settings) == Some(CacheProblem::FrameCount) <==> !(1 <= frames.len()
            <= settings.max_frames),
{
}

/// Settings can decode where the raster has an extent, a frame is asked for and the
/// candidate rate is a finite number above zero.
pub proof fn law_decoding_needs_a_rate(settings: VideoExtractionSettings)
    ensures
        decode_settings_sound(settings) <==> settings.width >= 1 && settings.height >= 1
            && settings.max_frames >= 1 && 0 < ieee::f64_rank(settings.candidate_fps)
            < 0x7ff0_0000_0000_0000,
        raster_settings_sound(settings) <==> settings.width >= 1 && settings.height >= 1
            && settings.max_frames >= 1,
{
}

} // verus!
