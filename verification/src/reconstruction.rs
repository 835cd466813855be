//! From multi-view inference to durable measured windows: resuming from
//! checkpoints, colours at the inference raster and the gates around a global
//! pose solution.

use std::collections::HashMap;

use vstd::prelude::*;

use crate::geometry::{
    BackprojectionError, BackprojectionSettings, CameraCalibration, MeasuredFrameChunk,
    MeasuredPoint, WindowMeasuredChunk,
};
use crate::ieee;
use crate::order;
use crate::pose::PoseFrame;
use crate::ppm::OwnedFrame;
use crate::revisit;
use crate::revisit::{window_camera_path, CameraCentreDirection, CameraHeading, WindowCameraPath};
use crate::scene::SceneBundleError;
use crate::schedule;
use crate::schedule::{plan_windows, FrameWindow, ScheduleError, WindowSettings};
use crate::stitch::StitchError;
use crate::tsdf::TsdfSettings;
use crate::world::SimilarityTransform;

verus! {

broadcast use vstd::std_specs::hash::group_hash_axioms;

/// How a capture is measured.
#[derive(Debug, Clone, Copy, PartialEq, Eq)]
pub struct ReconstructionSettings {
    pub windows: WindowSettings,
    pub backprojection: BackprojectionSettings,
    /// Keep dense raw evidence with the confidence percentile of each window.
    pub cpp_pr2_relative_capture: bool,
}

impl Default for ReconstructionSettings {
    fn default() -> (settings: Self)
        ensures
            settings.windows == (WindowSettings { chunk_size: 12, overlap: 3 }),
            settings.backprojection == (BackprojectionSettings {
                minimum_confidence: ieee::F32_ONE,
                pixel_stride: 1,
                surfel_radius_pixels: ieee::F32_ONE,
            }),
            !settings.cpp_pr2_relative_capture,
    {
        ReconstructionSettings {
            windows: WindowSettings::default(),
            backprojection: BackprojectionSettings::default(),
            cpp_pr2_relative_capture: false,
        }
    }
}

/// What became of one window.
#[derive(Debug, Clone, PartialEq, Eq)]
pub struct ReconstructionProgress {
    pub window: FrameWindow,
    pub chunk_hash: String,
    pub measured_points: usize,
    /// A complete checkpoint was there and no inference was run.
    pub reused: bool,
}

/// A published world.
#[derive(Debug, Clone, PartialEq, Eq)]
pub struct FusionProgress {
    pub chunk_hash: String,
    pub aligned_windows: usize,
    pub points: usize,
}

/// Gates of a world in the frame of a global pose solution.
#[derive(Debug, Clone, Copy, PartialEq, Eq)]
pub struct GlobalPoseFusionSettings {
    pub minimum_registered_cameras_per_window: usize,
    /// Camera-centre fit error over the extent of the camera path.
    pub maximum_normalized_camera_rms: u32,
    pub tsdf: Option<TsdfSettings>,
}

impl Default for GlobalPoseFusionSettings {
    fn default() -> (settings: Self)
        ensures
            settings.minimum_registered_cameras_per_window == 6,
            settings.maximum_normalized_camera_rms == 0x3e19_999a,
            settings.tsdf == Some(
                TsdfSettings {
                    voxel_fraction: 0x3b83_126f,
                    voxel_size: None,
                    truncation_multiple: 0x4080_0000,
                    normal_radius: None,
                    minimum_hits: 2,
                },
            ),
    {
        GlobalPoseFusionSettings {
            minimum_registered_cameras_per_window: 6,
            maximum_normalized_camera_rms: 0x3e19_999a,
            tsdf: Some(TsdfSettings::default()),
        }
    }
}

/// Why a reconstruction stops.
#[allow(inconsistent_fields)]
#[derive(Debug, Clone, PartialEq, Eq)]
pub enum ReconstructionError {
    Engine(String),
    Geometry(BackprojectionError),
    Scene(SceneBundleError),
    ViewCount { expected: usize, actual: usize },
    Schedule(ScheduleError),
    Stitch(StitchError),
    OracleOutputShape,
    MissingCppPr2CaptureProfile,
    MissingGlobalCameraEvidence { window_index: usize },
    InsufficientGlobalCameraEvidence { window_index: usize, actual: usize, minimum: usize },
    GlobalCameraFitQuality { window_index: usize, normalized_rms: u32, maximum: u32 },
    CheckpointConflict { window_index: usize },
}

/// A measured window of the bundle under its hash.
#[derive(Debug, Clone, PartialEq, Eq)]
pub struct StoredWindow {
    pub hash: String,
    pub chunk: WindowMeasuredChunk,
}

/// Window `i` has the index of an earlier one.
pub open spec fn repeats(stored: Seq<StoredWindow>, i: int) -> bool {
    exists|k: int|
        0 <= k < i && (#[trigger] stored[k]).chunk.window.index == stored[i].chunk.window.index
}

/// The first repeated window from place `start` on.
pub open spec fn first_repeat(stored: Seq<StoredWindow>, start: int) -> Option<int>
    decreases stored.len() - start,
{
    if start >= stored.len() {
        None
    } else if repeats(stored, start) {
        Some(start)
    } else {
        first_repeat(stored, start + 1)
    }
}

/// Refuses a bundle that holds two windows of one index.
pub fn check_checkpoints(stored: &Vec<StoredWindow>) -> (result: Result<(), ReconstructionError>)
    ensures
        match result {
            Ok(_) => first_repeat(stored@, 0) is None,
            Err(e) => first_repeat(stored@, 0) matches Some(i) && e == (
            ReconstructionError::CheckpointConflict {
                window_index: stored@[i].chunk.window.index,
            }),
        },
{
    let mut seen: HashMap<usize, bool> = HashMap::new();
    for i in 0..stored.len()
        invariant
            first_repeat(stored@, 0) == first_repeat(stored@, i as int),
            forall|index: usize| #[trigger]
                seen@.contains_key(index) <==> exists|k: int|
                    0 <= k < i && (#[trigger] stored@[k]).chunk.window.index == index,
    {
        let window_index: usize = stored[i].chunk.window.index;
        let ghost before = seen@;
        let earlier: Option<bool> = seen.insert(window_index, true);
        if earlier.is_some() {
            assert(before.contains_key(window_index));
            assert(repeats(stored@, i as int));
            return Err(ReconstructionError::CheckpointConflict { window_index });
        }
        assert(!before.contains_key(window_index));
        assert(!repeats(stored@, i as int));
        assert forall|index: usize| #[trigger] seen@.contains_key(index) <==> exists|k: int|
            0 <= k < i + 1 && (#[trigger] stored@[k]).chunk.window.index == index by {
            assert(before.contains_key(index) <==> exists|k: int|
                0 <= k < i && (#[trigger] stored@[k]).chunk.window.index == index);
            if index == window_index {
                assert(stored@[i as int].chunk.window.index == index);
            }
        }
    }
    Ok(())
}

/// The views of a chunk are exactly the frames of the window, in order.
pub open spec fn covers_window(window: FrameWindow, chunk: WindowMeasuredChunk) -> bool {
    &&& chunk.window == window
    &&& chunk.views@.len() == (if window.end >= window.start {
        window.end - window.start
    } else {
        0
    })
    &&& forall|i: int|
        0 <= i < chunk.views@.len() ==> (#[trigger] chunk.views@[i]).frame_index == window.start + i
}

/// The points of the first `count` views.
pub open spec fn points_among(chunk: WindowMeasuredChunk, count: int) -> nat
    decreases count,
{
    if count <= 0 {
        0
    } else {
        points_among(chunk, count - 1) + chunk.views@[count - 1].points@.len()
    }
}

proof fn lemma_points_grow(chunk: WindowMeasuredChunk, count: int, end: int)
    requires
        count <= end,
    ensures
        points_among(chunk, count) <= points_among(chunk, end),
    decreases end - count,
{
    if count < end {
        lemma_points_grow(chunk, count, end - 1);
    }
}

/// Reuses a checkpoint that fits the schedule, and refuses one that does not.
pub fn validated_checkpoint_progress(
    window: FrameWindow,
    checkpoint: &WindowMeasuredChunk,
    chunk_hash: String,
) -> (result: Result<ReconstructionProgress, ReconstructionError>)
    requires
        points_among(*checkpoint, checkpoint.views@.len() as int) <= usize::MAX,
    ensures
        match result {
            Ok(progress) => {
                &&& covers_window(window, *checkpoint)
                &&& progress.window == window
                &&& progress.chunk_hash@ == chunk_hash@
                &&& progress.measured_points == points_among(
                    *checkpoint,
                    checkpoint.views@.len() as int,
                )
                &&& progress.reused
            },
            Err(e) => !covers_window(window, *checkpoint) && e == (
            ReconstructionError::CheckpointConflict { window_index: window.index }),
        },
{
    let expected: usize = if window.end >= window.start {
        window.end - window.start
    } else {
        0
    };
    let conflict = ReconstructionError::CheckpointConflict { window_index: window.index };
    if checkpoint.window.index != window.index || checkpoint.window.start != window.start
        || checkpoint.window.end != window.end || checkpoint.views.len() != expected {
        return Err(conflict);
    }
    let mut measured_points: usize = 0;
    for i in 0..checkpoint.views.len()
        invariant
            points_among(*checkpoint, checkpoint.views@.len() as int) <= usize::MAX,
            checkpoint.views@.len() == expected,
            expected == (if window.end >= window.start {
                window.end - window.start
            } else {
                0
            }),
            conflict == (ReconstructionError::CheckpointConflict { window_index: window.index }),
            measured_points == points_among(*checkpoint, i as int),
            forall|k: int|
                0 <= k < i ==> (#[trigger] checkpoint.views@[k]).frame_index == window.start + k,
    {
        if checkpoint.views[i].frame_index != window.start + i {
            return Err(conflict);
        }
        proof {
            lemma_points_grow(*checkpoint, i + 1, checkpoint.views@.len() as int);
        }
        measured_points = measured_points + checkpoint.views[i].points.len();
    }
    Ok(ReconstructionProgress { window, chunk_hash, measured_points, reused: true })
}

/// The stored window of an index, from place `start` on.
pub open spec fn stored_at(stored: Seq<StoredWindow>, index: usize, start: int) -> Option<int>
    decreases stored.len() - start,
{
    if start >= stored.len() {
        None
    } else if stored[start].chunk.window.index == index {
        Some(start)
    } else {
        stored_at(stored, index, start + 1)
    }
}

/// Where the checkpoint of a window stands, if there is one.
pub fn find_checkpoint(stored: &Vec<StoredWindow>, window: FrameWindow) -> (found: Option<usize>)
    ensures
        match found {
            None => stored_at(stored@, window.index, 0) is None,
            Some(i) => i < stored@.len() && stored_at(stored@, window.index, 0) == Some(i as int),
        },
{
    for i in 0..stored.len()
        invariant
            stored_at(stored@, window.index, 0) == stored_at(stored@, window.index, i as int),
    {
        if stored[i].chunk.window.index == window.index {
            return Some(i);
        }
    }
    None
}

/// What a scheduled window needs.
#[derive(Debug, Clone, PartialEq, Eq)]
pub enum WindowStep {
    /// A complete checkpoint stands in for inference.
    Reuse(ReconstructionProgress),
    /// The frames of the window have to be measured.
    Infer,
}

/// Reuses the checkpoint of a window where there is one, refuses one that does
/// not fit the schedule, and asks for inference where there is none.
pub fn next_window_step(stored: &Vec<StoredWindow>, window: FrameWindow) -> (result: Result<
    WindowStep,
    ReconstructionError,
>)
    requires
        forall|i: int|
            0 <= i < stored@.len() ==> points_among(
                (#[trigger] stored@[i]).chunk,
                stored@[i].chunk.views@.len() as int,
            ) <= usize::MAX,
    ensures
        match stored_at(stored@, window.index, 0) {
            None => result matches Ok(WindowStep::Infer),
            Some(i) => if covers_window(window, stored@[i].chunk) {
                &&& result matches Ok(WindowStep::Reuse(progress))
                &&& progress.window == window
                &&& progress.chunk_hash@ == stored@[i].hash@
                &&& progress.measured_points == points_among(
                    stored@[i].chunk,
                    stored@[i].chunk.views@.len() as int,
                )
                &&& progress.reused
            } else {
                result matches Err(e) && e == (ReconstructionError::CheckpointConflict {
                    window_index: window.index,
                })
            },
        },
{
    match find_checkpoint(stored, window) {
        None => Ok(WindowStep::Infer),
        Some(place) => {
            let checkpoint = &stored[place];
            match validated_checkpoint_progress(
                window,
                &checkpoint.chunk,
                checkpoint.hash.clone(),
            ) {
                Ok(progress) => Ok(WindowStep::Reuse(progress)),
                Err(error) => Err(error),
            }
        },
    }
}

/// The progress of a window that was measured and published.
pub fn measured_progress(chunk: &WindowMeasuredChunk, chunk_hash: String) -> (progress:
    ReconstructionProgress)
    requires
        points_among(*chunk, chunk.views@.len() as int) <= usize::MAX,
    ensures
        progress.window == chunk.window,
        progress.chunk_hash@ == chunk_hash@,
        progress.measured_points == points_among(*chunk, chunk.views@.len() as int),
        !progress.reused,
{
    let mut measured_points: usize = 0;
    for i in 0..chunk.views.len()
        invariant
            points_among(*chunk, chunk.views@.len() as int) <= usize::MAX,
            measured_points == points_among(*chunk, i as int),
    {
        proof {
            lemma_points_grow(*chunk, i + 1, chunk.views@.len() as int);
        }
        measured_points = measured_points + chunk.views[i].points.len();
    }
    ReconstructionProgress { window: chunk.window, chunk_hash, measured_points, reused: false }
}

/// A window that was measured and published is reused by the next run: its
/// chunk covers it, so the step for it asks for no inference.
pub proof fn law_published_window_is_reused(
    stored: Seq<StoredWindow>,
    window: FrameWindow,
    chunk: WindowMeasuredChunk,
    hash: String,
)
    requires
        stored_at(stored, window.index, 0) is None,
        covers_window(window, chunk),
    ensures
        stored_at(
            stored.push(StoredWindow { hash, chunk }),
            window.index,
            0,
        ) == Some(stored.len() as int),
{
    lemma_stored_at_push(stored, window.index, StoredWindow { hash, chunk }, 0);
}

proof fn lemma_stored_at_push(
    stored: Seq<StoredWindow>,
    index: usize,
    next: StoredWindow,
    start: int,
)
    requires
        0 <= start <= stored.len(),
        stored_at(stored, index, start) is None,
        next.chunk.window.index == index,
    ensures
        stored_at(stored.push(next), index, start) == Some(stored.len() as int),
    decreases stored.len() - start,
{
    let longer = stored.push(next);
    if start < stored.len() {
        assert(longer[start] == stored[start]);
        lemma_stored_at_push(stored, index, next, start + 1);
    } else {
        assert(longer[start] == next);
    }
}

/// The engine returned one view per frame.
pub fn check_view_count(expected: usize, actual: usize) -> (result: Result<
    (),
    ReconstructionError,
>)
    ensures
        result is Ok <==> expected == actual,
        result matches Err(e) ==> e == (ReconstructionError::ViewCount { expected, actual }),
{
    if expected == actual {
        Ok(())
    } else {
        Err(ReconstructionError::ViewCount { expected, actual })
    }
}

/// All windows of a capture have the raster of the first one.
pub fn check_raster(first: Option<(usize, usize)>, width: usize, height: usize) -> (result: Result<
    (usize, usize),
    ReconstructionError,
>)
    ensures
        match result {
            Ok(raster) => raster == (width, height) && (first is None || first == Some(
                (width, height),
            )),
            Err(e) => first is Some && first != Some((width, height)) && e is OracleOutputShape,
        },
{
    match first {
        None => Ok((width, height)),
        Some((w, h)) => if w == width && h == height {
            Ok((width, height))
        } else {
            Err(ReconstructionError::OracleOutputShape)
        },
    }
}

/// The evidence profile of a capture: a relative capture keeps every pixel
/// with finite positive depth, whatever its confidence.
pub fn capture_profile(settings: &ReconstructionSettings) -> (profile: BackprojectionSettings)
    ensures
        profile == (if settings.cpp_pr2_relative_capture {
            BackprojectionSettings {
                minimum_confidence: ieee::F32_MIN,
                pixel_stride: 1,
                surfel_radius_pixels: ieee::F32_ONE,
            }
        } else {
            settings.backprojection
        }),
{
    if settings.cpp_pr2_relative_capture {
        BackprojectionSettings {
            minimum_confidence: ieee::F32_MIN,
            pixel_stride: 1,
            surfel_radius_pixels: ieee::F32_ONE,
        }
    } else {
        settings.backprojection
    }
}

/// The source line or column of a destination one: the nearest below.
pub open spec fn source_of(place: int, size: int, source_size: int) -> int {
    (place * source_size) / size
}

/// The colours of the first `count` pixels of destination row `y`.
pub open spec fn row_colors(
    frame: OwnedFrame,
    width: int,
    height: int,
    y: int,
    count: int,
) -> Seq<u8>
    decreases count,
{
    if count <= 0 {
        Seq::empty()
    } else {
        let source = (source_of(y, height, frame.height as int) * frame.width + source_of(
            count - 1,
            width,
            frame.width as int,
        )) * 3;
        row_colors(frame, width, height, y, count - 1).push(frame.rgb_hwc_u8@[source]).push(
            frame.rgb_hwc_u8@[source + 1],
        ).push(frame.rgb_hwc_u8@[source + 2])
    }
}

/// The colours of the first `rows` destination rows.
pub open spec fn raster_colors(frame: OwnedFrame, width: int, height: int, rows: int) -> Seq<u8>
    decreases rows,
{
    if rows <= 0 {
        Seq::empty()
    } else {
        raster_colors(frame, width, height, rows - 1) + row_colors(
            frame,
            width,
            height,
            rows - 1,
            width,
        )
    }
}

/// The frame at another raster. Every colour is that of one captured pixel.
pub open spec fn resampled(frame: OwnedFrame, width: int, height: int) -> Seq<u8> {
    if frame.width == width && frame.height == height {
        frame.rgb_hwc_u8@
    } else {
        raster_colors(frame, width, height, height)
    }
}

fn source_place(place: usize, size: usize, source_size: usize) -> (source: usize)
    requires
        place < size,
        source_size > 0,
    ensures
        source == source_of(place as int, size as int, source_size as int),
        source < source_size,
{
    assert(place * source_size <= 0xffff_ffff_ffff_ffff * 0xffff_ffff_ffff_ffff)
        by (nonlinear_arith)
        requires
            place <= 0xffff_ffff_ffff_ffff,
            source_size <= 0xffff_ffff_ffff_ffff,
    ;
    assert((place * source_size) / (size as int) < source_size) by (nonlinear_arith)
        requires
            0 <= place < size,
            0 < source_size,
    ;
    let scaled: u128 = place as u128 * source_size as u128 / size as u128;
    scaled as usize
}

/// Maps source colours to the inference raster. A nearest source sample is
/// used rather than interpolation, so no colour is invented.
pub fn rgb_at_inference_resolution(frame: &OwnedFrame, width: usize, height: usize) -> (rgb: Vec<u8>)
    requires
        (frame.width == width && frame.height == height) || width == 0 || height == 0 || (
        frame.width > 0 && frame.height > 0 && frame.rgb_hwc_u8@.len() >= frame.width
            * frame.height * 3),
    ensures
        rgb@ == resampled(*frame, width as int, height as int),
{
    if frame.width == width && frame.height == height {
        let mut copy: Vec<u8> = Vec::new();
        for i in 0..frame.rgb_hwc_u8.len()
            invariant
                copy@ == frame.rgb_hwc_u8@.take(i as int),
        {
            copy.push(frame.rgb_hwc_u8[i]);
            assert(copy@ =~= frame.rgb_hwc_u8@.take(i + 1));
        }
        assert(copy@ =~= frame.rgb_hwc_u8@);
        return copy;
    }
    let _count: usize = frame.rgb_hwc_u8.len();
    let mut rgb: Vec<u8> = Vec::new();
    for y in 0..height
        invariant
            width == 0 || height == 0 || (frame.width > 0 && frame.height > 0
                && frame.rgb_hwc_u8@.len() >= frame.width * frame.height * 3),
            frame.rgb_hwc_u8@.len() <= usize::MAX,
            rgb@ == raster_colors(*frame, width as int, height as int, y as int),
    {
        let ghost start = rgb@;
        assert(start + row_colors(*frame, width as int, height as int, y as int, 0) =~= start);
        for x in 0..width
            invariant
                y < height,
                width == 0 || (frame.width > 0 && frame.height > 0 && frame.rgb_hwc_u8@.len()
                    >= frame.width * frame.height * 3),
                frame.rgb_hwc_u8@.len() <= usize::MAX,
                rgb@ == start + row_colors(
                    *frame,
                    width as int,
                    height as int,
                    y as int,
                    x as int,
                ),
        {
            let source_y: usize = source_place(y, height, frame.height);
            let source_x: usize = source_place(x, width, frame.width);
            assert(0 <= source_y * frame.width && source_y * frame.width + source_x < frame.width
                * frame.height) by (nonlinear_arith)
                requires
                    0 <= source_x < frame.width,
                    0 <= source_y < frame.height,
            ;
            let source: usize = (source_y * frame.width + source_x) * 3;
            rgb.push(frame.rgb_hwc_u8[source]);
            rgb.push(frame.rgb_hwc_u8[source + 1]);
            rgb.push(frame.rgb_hwc_u8[source + 2]);
            assert(rgb@ =~= start + row_colors(
                *frame,
                width as int,
                height as int,
                y as int,
                x + 1,
            ));
        }
    }
    rgb
}

proof fn lemma_row_length(frame: OwnedFrame, width: int, height: int, y: int, count: int)
    requires
        0 <= count,
    ensures
        row_colors(frame, width, height, y, count).len() == count * 3,
    decreases count,
{
    if count > 0 {
        lemma_row_length(frame, width, height, y, count - 1);
    }
}

/// A resampled raster has three bytes per destination pixel.
pub proof fn law_resampled_raster_is_full(frame: OwnedFrame, width: int, height: int, rows: int)
    requires
        0 <= width,
        0 <= rows,
    ensures
        raster_colors(frame, width, height, rows).len() == rows * width * 3,
    decreases rows,
{
    if rows > 0 {
        law_resampled_raster_is_full(frame, width, height, rows - 1);
        lemma_row_length(frame, width, height, rows - 1, width);
        assert((rows - 1) * width * 3 + width * 3 == rows * width * 3) by (nonlinear_arith);
    } else {
        assert(rows * width * 3 == 0) by (nonlinear_arith)
            requires
                rows == 0,
        ;
    }
}

/// The window indices of a list of chunks.
pub open spec fn window_keys(windows: Seq<WindowMeasuredChunk>) -> Seq<i128> {
    Seq::new(windows.len(), |i: int| windows[i].window.index as i128)
}

/// The places of the windows in schedule order, whatever order they were
/// stored in.
pub fn schedule_order(windows: &Vec<WindowMeasuredChunk>) -> (places: Vec<usize>)
    ensures
        order::is_order(window_keys(windows@), places@),
{
    let mut keys: Vec<i128> = Vec::new();
    for i in 0..windows.len()
        invariant
            keys@ == window_keys(windows@).take(i as int),
    {
        keys.push(windows[i].window.index as i128);
        assert(keys@ =~= window_keys(windows@).take(i + 1));
    }
    assert(keys@ =~= window_keys(windows@));
    order::stable_order(&keys)
}

/// Every window carries its emission threshold.
pub open spec fn profile_present(windows: Seq<WindowMeasuredChunk>) -> bool {
    forall|i: int|
        0 <= i < windows.len() ==> (
        #[trigger] windows[i]).cpp_pr2_emission_confidence_threshold is Some
}

/// Refuses windows that were not captured with the evidence profile that a
/// relative fusion needs.
pub fn check_capture_profile(windows: &Vec<WindowMeasuredChunk>) -> (result: Result<
    (),
    ReconstructionError,
>)
    ensures
        result is Ok <==> profile_present(windows@),
        result matches Err(e) ==> e is MissingCppPr2CaptureProfile,
{
    for i in 0..windows.len()
        invariant
            forall|k: int|
                0 <= k < i ==> (
                #[trigger] windows@[k]).cpp_pr2_emission_confidence_threshold is Some,
    {
        if windows[i].cpp_pr2_emission_confidence_threshold.is_none() {
            return Err(ReconstructionError::MissingCppPr2CaptureProfile);
        }
    }
    Ok(())
}

/// How many frames window `i` shares with the next one.
pub open spec fn seam_overlap(windows: Seq<WindowMeasuredChunk>, i: int) -> int {
    let shared = windows[i].window.end - windows[i + 1].window.start;
    if shared > 0 {
        shared
    } else {
        0
    }
}

/// `overlap` is the least overlap of neighbouring windows, zero where there is
/// only one window.
pub open spec fn is_least_overlap(windows: Seq<WindowMeasuredChunk>, overlap: int) -> bool {
    if windows.len() <= 1 {
        overlap == 0
    } else {
        &&& exists|i: int| 0 <= i < windows.len() - 1 && #[trigger] seam_overlap(windows, i) == overlap
        &&& forall|i: int|
            0 <= i < windows.len() - 1 ==> overlap <= #[trigger] seam_overlap(windows, i)
    }
}

/// The least overlap of neighbouring windows.
pub fn least_overlap(windows: &Vec<WindowMeasuredChunk>) -> (overlap: usize)
    ensures
        is_least_overlap(windows@, overlap as int),
{
    if windows.len() <= 1 {
        return 0;
    }
    let mut overlap: usize = if windows[0].window.end > windows[1].window.start {
        windows[0].window.end - windows[1].window.start
    } else {
        0
    };
    assert(seam_overlap(windows@, 0) == overlap);
    for i in 1..windows.len() - 1
        invariant
            windows@.len() > 1,
            exists|k: int| 0 <= k < i && #[trigger] seam_overlap(windows@, k) == overlap,
            forall|k: int| 0 <= k < i ==> overlap <= #[trigger] seam_overlap(windows@, k),
    {
        let shared: usize = if windows[i].window.end > windows[i + 1].window.start {
            windows[i].window.end - windows[i + 1].window.start
        } else {
            0
        };
        assert(seam_overlap(windows@, i as int) == shared);
        if shared < overlap {
            overlap = shared;
        }
    }
    overlap
}

/// The last registered pose of a frame among the first `count`. A pose that was
/// not registered is no evidence.
pub open spec fn last_pose(frames: Seq<PoseFrame>, frame_index: usize, count: int) -> Option<int>
    decreases count,
{
    if count <= 0 {
        None
    } else if frames[count - 1].registered && frames[count - 1].frame_index == frame_index {
        Some(count - 1)
    } else {
        last_pose(frames, frame_index, count - 1)
    }
}

/// A camera of a window and the registered pose of its frame, by their places.
#[derive(Debug, Clone, Copy, PartialEq, Eq, Structural)]
pub struct CameraPairing {
    pub camera: usize,
    pub pose: usize,
}

/// The pairings of the first `count` cameras.
pub open spec fn pairings(
    cameras: Seq<usize>,
    frames: Seq<PoseFrame>,
    count: int,
) -> Seq<CameraPairing>
    decreases count,
{
    if count <= 0 {
        Seq::empty()
    } else {
        let rest = pairings(cameras, frames, count - 1);
        match last_pose(frames, cameras[count - 1], frames.len() as int) {
            None => rest,
            Some(pose) => rest.push(
                CameraPairing { camera: (count - 1) as usize, pose: pose as usize },
            ),
        }
    }
}

fn find_last_pose(frames: &Vec<PoseFrame>, frame_index: usize) -> (found: Option<usize>)
    ensures
        match found {
            None => last_pose(frames@, frame_index, frames@.len() as int) is None,
            Some(i) => last_pose(frames@, frame_index, frames@.len() as int) == Some(i as int),
        },
{
    let mut left: usize = frames.len();
    while left > 0
        invariant
            left <= frames@.len(),
            last_pose(frames@, frame_index, frames@.len() as int) == last_pose(
                frames@,
                frame_index,
                left as int,
            ),
        decreases left,
    {
        if frames[left - 1].registered && frames[left - 1].frame_index == frame_index {
            return Some(left - 1);
        }
        left = left - 1;
    }
    None
}

/// Pairs the cameras of a window, given by their frames, with the registered
/// poses of a global solution.
pub fn pair_cameras(cameras: &Vec<usize>, frames: &Vec<PoseFrame>) -> (pairs: Vec<CameraPairing>)
    ensures
        pairs@ == pairings(cameras@, frames@, cameras@.len() as int),
{
    let mut pairs: Vec<CameraPairing> = Vec::new();
    for i in 0..cameras.len()
        invariant
            pairs@ == pairings(cameras@, frames@, i as int),
    {
        if let Some(pose) = find_last_pose(frames, cameras[i]) {
            pairs.push(CameraPairing { camera: i, pose });
        }
    }
    pairs
}

/// Why a window cannot be fitted to a global solution, before anything is
/// fitted.
pub open spec fn pairing_fault(
    window_index: usize,
    pairs: usize,
    settings: GlobalPoseFusionSettings,
) -> Option<ReconstructionError> {
    if pairs == 0 {
        Some(ReconstructionError::MissingGlobalCameraEvidence { window_index })
    } else if pairs < settings.minimum_registered_cameras_per_window {
        Some(
            ReconstructionError::InsufficientGlobalCameraEvidence {
                window_index,
                actual: pairs,
                minimum: settings.minimum_registered_cameras_per_window,
            },
        )
    } else {
        None
    }
}

/// A window needs several registered cameras before it is fitted.
pub fn check_pairings(window_index: usize, pairs: usize, settings: &GlobalPoseFusionSettings) -> (result:
    Result<(), ReconstructionError>)
    ensures
        match result {
            Ok(_) => pairing_fault(window_index, pairs, *settings) is None,
            Err(e) => pairing_fault(window_index, pairs, *settings) == Some(e),
        },
{
    if pairs == 0 {
        Err(ReconstructionError::MissingGlobalCameraEvidence { window_index })
    } else if pairs < settings.minimum_registered_cameras_per_window {
        Err(
            ReconstructionError::InsufficientGlobalCameraEvidence {
                window_index,
                actual: pairs,
                minimum: settings.minimum_registered_cameras_per_window,
            },
        )
    } else {
        Ok(())
    }
}

/// The fit of a window is good enough.
pub fn check_camera_fit(
    window_index: usize,
    normalized_rms: u32,
    settings: &GlobalPoseFusionSettings,
) -> (result: Result<(), ReconstructionError>)
    ensures
        result is Ok <==> ieee::f32_finite(normalized_rms) && !ieee::f32_less(
            settings.maximum_normalized_camera_rms,
            normalized_rms,
        ),
        result matches Err(e) ==> e == (ReconstructionError::GlobalCameraFitQuality {
            window_index,
            normalized_rms,
            maximum: settings.maximum_normalized_camera_rms,
        }),
{
    if !ieee::f32_is_finite(normalized_rms) || ieee::f32_lt(
        settings.maximum_normalized_camera_rms,
        normalized_rms,
    ) {
        Err(
            ReconstructionError::GlobalCameraFitQuality {
                window_index,
                normalized_rms,
                maximum: settings.maximum_normalized_camera_rms,
            },
        )
    } else {
        Ok(())
    }
}

/// What inference measured of one frame.
#[derive(Debug, Clone, PartialEq, Eq)]
pub struct ViewEvidence {
    pub camera: CameraCalibration,
    pub points: Vec<MeasuredPoint>,
}

/// The measured window of a schedule entry: one view per frame, under the frame's
/// own index. Inference that gave another number of views is refused.
pub fn measured_window(
    window: FrameWindow,
    views: Vec<ViewEvidence>,
    threshold: Option<u32>,
) -> (result: Result<WindowMeasuredChunk, ReconstructionError>)
    requires
        window.start <= window.end,
    ensures
        match result {
            Ok(chunk) => {
                &&& views@.len() == window.end - window.start
                &&& covers_window(window, chunk)
                &&& forall|i: int|
                    0 <= i < views@.len() ==> (#[trigger] chunk.views@[i]).camera
                        == views@[i].camera && chunk.views@[i].points == views@[i].points
                &&& chunk.cpp_pr2_emission_confidence_threshold == threshold
            },
            Err(e) => views@.len() != window.end - window.start && e == (
            ReconstructionError::ViewCount {
                expected: (window.end - window.start) as usize,
                actual: views@.len() as usize,
            }),
        },
{
    match check_view_count(window.end - window.start, views.len()) {
        Ok(_) => {},
        Err(error) => {
            return Err(error);
        },
    }
    let ghost given = views@;
    let mut left: Vec<ViewEvidence> = views;
    let mut measured: Vec<MeasuredFrameChunk> = Vec::new();
    while left.len() > 0
        invariant
            given.len() == window.end - window.start,
            measured@.len() + left@.len() == given.len(),
            left@ == given.skip(measured@.len() as int),
            forall|i: int|
                0 <= i < measured@.len() ==> {
                    let view = #[trigger] measured@[i];
                    &&& view.frame_index == window.start + i
                    &&& view.camera == given[i].camera
                    &&& view.points == given[i].points
                },
        decreases left@.len(),
    {
        let view: ViewEvidence = left.remove(0);
        assert(view == given[measured@.len() as int]);
        measured.push(
            MeasuredFrameChunk {
                frame_index: window.start + measured.len(),
                camera: view.camera,
                points: view.points,
            },
        );
        assert(left@ =~= given.skip(measured@.len() as int));
    }
    Ok(
        WindowMeasuredChunk {
            window,
            views: measured,
            cpp_pr2_emission_confidence_threshold: threshold,
        },
    )
}

/// A reconstruction under way: its schedule, and the progress of the windows that
/// are done, in order.
#[derive(Debug, Clone, PartialEq, Eq)]
pub struct ReconstructionRun {
    pub windows: Vec<FrameWindow>,
    pub progress: Vec<ReconstructionProgress>,
}

/// The windows that are done are the first ones of the schedule.
pub open spec fn run_sound(
    run: ReconstructionRun,
    frame_count: int,
    settings: WindowSettings,
) -> bool {
    &&& settings.valid()
    &&& schedule::is_schedule(run.windows@, frame_count, settings)
    &&& run_in_order(run)
}

/// The progress follows the windows one by one.
pub open spec fn run_in_order(run: ReconstructionRun) -> bool {
    &&& run.progress@.len() <= run.windows@.len()
    &&& forall|i: int|
        0 <= i < run.progress@.len() ==> (#[trigger] run.progress@[i]).window == run.windows@[i]
}

/// Begins a reconstruction: the schedule has to be possible, and no two
/// checkpoints may claim one window.
pub fn begin_reconstruction(
    frame_count: usize,
    settings: WindowSettings,
    stored: &Vec<StoredWindow>,
) -> (result: Result<ReconstructionRun, ReconstructionError>)
    ensures
        match result {
            Ok(run) => {
                &&& run_sound(run, frame_count as int, settings)
                &&& run.progress@.len() == 0
                &&& first_repeat(stored@, 0) is None
            },
            Err(ReconstructionError::Schedule(e)) => !settings.valid() && (e is ChunkTooSmall
                <==> settings.chunk_size < 2),
            Err(e) => {
                &&& settings.valid()
                &&& first_repeat(stored@, 0) matches Some(i)
                &&& e == (ReconstructionError::CheckpointConflict {
                    window_index: stored@[i].chunk.window.index,
                })
            },
        },
{
    let windows: Vec<FrameWindow> = match plan_windows(frame_count, settings) {
        Ok(windows) => windows,
        Err(error) => {
            return Err(ReconstructionError::Schedule(error));
        },
    };
    match check_checkpoints(stored) {
        Ok(_) => Ok(ReconstructionRun { windows, progress: Vec::new() }),
        Err(error) => Err(error),
    }
}

/// The progress of a window that a checkpoint stands in for.
pub open spec fn is_reuse(
    stored: Seq<StoredWindow>,
    window: FrameWindow,
    progress: ReconstructionProgress,
) -> bool {
    match stored_at(stored, window.index, 0) {
        None => false,
        Some(i) => {
            &&& covers_window(window, stored[i].chunk)
            &&& progress.window == window
            &&& progress.chunk_hash@ == stored[i].hash@
            &&& progress.measured_points == points_among(
                stored[i].chunk,
                stored[i].chunk.views@.len() as int,
            )
            &&& progress.reused
        },
    }
}

/// What a reconstruction needs next.
#[derive(Debug, Clone, Copy, PartialEq, Eq, Structural)]
pub enum RunStep {
    /// The frames of this window have to be measured.
    Infer(FrameWindow),
    /// Every window is done.
    Done,
}

/// Goes on as far as checkpoints reach: to the next window without one, to the
/// end, or to a checkpoint that does not fit its window, which is refused.
pub fn advance_run(run: &mut ReconstructionRun, stored: &Vec<StoredWindow>) -> (result: Result<
    RunStep,
    ReconstructionError,
>)
    requires
        run_in_order(*old(run)),
        forall|i: int|
            0 <= i < stored@.len() ==> points_among(
                (#[trigger] stored@[i]).chunk,
                stored@[i].chunk.views@.len() as int,
            ) <= usize::MAX,
    ensures
        run_in_order(*final(run)),
        final(run).windows@ == old(run).windows@,
        old(run).progress@.len() <= final(run).progress@.len(),
        final(run).progress@.take(old(run).progress@.len() as int) == old(run).progress@,
        forall|i: int|
            old(run).progress@.len() <= i < final(run).progress@.len() ==> is_reuse(
                stored@,
                final(run).windows@[i],
                #[trigger] final(run).progress@[i],
            ),
        ({
            let done = final(run).progress@.len() as int;
            match result {
                Ok(RunStep::Done) => done == final(run).windows@.len(),
                Ok(RunStep::Infer(window)) => {
                    &&& done < final(run).windows@.len()
                    &&& window == final(run).windows@[done]
                    &&& stored_at(stored@, window.index, 0) is None
                },
                Err(e) => {
                    &&& done < final(run).windows@.len()
                    &&& stored_at(stored@, final(run).windows@[done].index, 0) matches Some(i)
                    &&& !covers_window(final(run).windows@[done], stored@[i].chunk)
                    &&& e == (ReconstructionError::CheckpointConflict {
                        window_index: final(run).windows@[done].index,
                    })
                },
            }
        }),
{
    let ghost start = run.progress@;
    let ghost windows = run.windows@;
    assert(run.progress@.take(start.len() as int) =~= start);
    while run.progress.len() < run.windows.len()
        invariant
            start == old(run).progress@,
            windows == old(run).windows@,
            run_in_order(*run),
            run.windows@ == windows,
            start.len() <= run.progress@.len(),
            run.progress@.take(start.len() as int) == start,
            forall|i: int|
                start.len() <= i < run.progress@.len() ==> is_reuse(
                    stored@,
                    windows[i],
                    #[trigger] run.progress@[i],
                ),
            forall|i: int|
                0 <= i < stored@.len() ==> points_among(
                    (#[trigger] stored@[i]).chunk,
                    stored@[i].chunk.views@.len() as int,
                ) <= usize::MAX,
        decreases run.windows@.len() - run.progress@.len(),
    {
        let window: FrameWindow = run.windows[run.progress.len()];
        match next_window_step(stored, window) {
            Ok(WindowStep::Reuse(step)) => {
                let ghost before = run.progress@;
                run.progress.push(step);
                assert(run.progress@.take(start.len() as int) =~= before.take(start.len() as int));
            },
            Ok(WindowStep::Infer) => {
                return Ok(RunStep::Infer(window));
            },
            Err(error) => {
                return Err(error);
            },
        }
    }
    Ok(RunStep::Done)
}

/// Takes a measured window, once it is published under its hash.
pub fn record_window(run: &mut ReconstructionRun, chunk: &WindowMeasuredChunk, chunk_hash: String)
    requires
        run_in_order(*old(run)),
        old(run).progress@.len() < old(run).windows@.len(),
        chunk.window == old(run).windows@[old(run).progress@.len() as int],
        points_among(*chunk, chunk.views@.len() as int) <= usize::MAX,
    ensures
        run_in_order(*final(run)),
        final(run).windows@ == old(run).windows@,
        final(run).progress@.len() == old(run).progress@.len() + 1,
        final(run).progress@.drop_last() == old(run).progress@,
        ({
            let step = final(run).progress@.last();
            &&& step.window == chunk.window
            &&& step.chunk_hash@ == chunk_hash@
            &&& step.measured_points == points_among(*chunk, chunk.views@.len() as int)
            &&& !step.reused
        }),
{
    let ghost before = run.progress@;
    run.progress.push(measured_progress(chunk, chunk_hash));
    assert(run.progress@.drop_last() =~= before);
}

/// A finished reconstruction has measured every frame: some finished window holds
/// it.
pub proof fn law_finished_run_covers_every_frame(
    run: ReconstructionRun,
    frame_count: int,
    settings: WindowSettings,
    frame: int,
)
    requires
        run_sound(run, frame_count, settings),
        run.progress@.len() == run.windows@.len(),
        0 <= frame < frame_count,
    ensures
        exists|i: int|
            0 <= i < run.progress@.len() && (#[trigger] run.progress@[i]).window.start <= frame
                < run.progress@[i].window.end,
{
    schedule::law_schedule_covers_every_frame(run.windows@, frame_count, settings);
    assert(schedule::covers(run.windows@, frame));
    let k = choose|k: int|
        #![trigger run.windows@[k]]
        0 <= k < run.windows@.len() && run.windows@[k].start <= frame < run.windows@[k].end;
    assert(run.progress@[k].window == run.windows@[k]);
}

/// A similarity from the cameras of a window to those of a global solution,
/// with its error over the extent of the window's camera path.
#[derive(Debug, Clone, Copy, PartialEq, Eq)]
pub struct CameraFit {
    pub transform: SimilarityTransform,
    pub normalized_rms: u32,
}

/// How a window fits a global solution: centre and direction of each of its
/// cameras, and what the fit of the cameras that pair up gives.
#[derive(Debug, PartialEq, Eq)]
pub struct WindowFit {
    pub headings: Vec<CameraHeading>,
    pub fit: Result<CameraFit, StitchError>,
}

/// The frames of a list of cameras.
pub open spec fn frames_of(cameras: Seq<CameraCentreDirection>) -> Seq<usize> {
    Seq::new(cameras.len(), |i: int| cameras[i].frame_index)
}

/// The valid cameras of a window, paired with the registered poses of their
/// frames.
pub open spec fn window_pairings(
    window: WindowMeasuredChunk,
    headings: Seq<CameraHeading>,
    frames: Seq<PoseFrame>,
) -> Seq<CameraPairing> {
    let cameras = frames_of(
        revisit::valid_cameras(window, headings, window.views@.len() as int),
    );
    pairings(cameras, frames, cameras.len() as int)
}

/// Pairs the valid cameras of a window with the registered poses of their frames.
pub fn pair_window(
    window: &WindowMeasuredChunk,
    headings: &Vec<CameraHeading>,
    frames: &Vec<PoseFrame>,
) -> (pairs: Vec<CameraPairing>)
    requires
        headings@.len() == window.views@.len(),
    ensures
        pairs@ == window_pairings(*window, headings@, frames@),
{
    let path: WindowCameraPath = window_camera_path(window, headings);
    let mut cameras: Vec<usize> = Vec::new();
    for i in 0..path.cameras.len()
        invariant
            cameras@ == frames_of(path.cameras@).take(i as int),
    {
        cameras.push(path.cameras[i].frame_index);
        assert(cameras@ =~= frames_of(path.cameras@).take(i + 1));
    }
    assert(cameras@ =~= frames_of(path.cameras@));
    pair_cameras(&cameras, frames)
}

/// An error over the path that is finite and at most the allowed one.
pub open spec fn fit_passes(fit: CameraFit, settings: GlobalPoseFusionSettings) -> bool {
    ieee::f32_finite(fit.normalized_rms) && !ieee::f32_less(
        settings.maximum_normalized_camera_rms,
        fit.normalized_rms,
    )
}

/// The pose of a window in a global solution, or why it has none: too few
/// pairs, then no fit, then a poor one.
pub open spec fn window_pose(
    window: WindowMeasuredChunk,
    frames: Seq<PoseFrame>,
    evidence: WindowFit,
    settings: GlobalPoseFusionSettings,
) -> Result<SimilarityTransform, ReconstructionError> {
    let window_index = window.window.index;
    let pairs = window_pairings(window, evidence.headings@, frames).len() as usize;
    match pairing_fault(window_index, pairs, settings) {
        Some(fault) => Err(fault),
        None => match evidence.fit {
            Err(error) => Err(ReconstructionError::Stitch(error)),
            Ok(fit) => if fit_passes(fit, settings) {
                Ok(fit.transform)
            } else {
                Err(
                    ReconstructionError::GlobalCameraFitQuality {
                        window_index,
                        normalized_rms: fit.normalized_rms,
                        maximum: settings.maximum_normalized_camera_rms,
                    },
                )
            },
        },
    }
}

/// The pose of a window in a global solution.
pub fn fit_window_to_global_pose(
    window: &WindowMeasuredChunk,
    frames: &Vec<PoseFrame>,
    evidence: &WindowFit,
    settings: &GlobalPoseFusionSettings,
) -> (result: Result<SimilarityTransform, ReconstructionError>)
    requires
        evidence.headings@.len() == window.views@.len(),
    ensures
        result == window_pose(*window, frames@, *evidence, *settings),
{
    let window_index: usize = window.window.index;
    let pairs: Vec<CameraPairing> = pair_window(window, &evidence.headings, frames);
    match check_pairings(window_index, pairs.len(), settings) {
        Ok(_) => {},
        Err(error) => {
            return Err(error);
        },
    }
    match evidence.fit {
        Err(error) => Err(ReconstructionError::Stitch(error)),
        Ok(fit) => match check_camera_fit(window_index, fit.normalized_rms, settings) {
            Ok(_) => Ok(fit.transform),
            Err(error) => Err(error),
        },
    }
}

/// A camera whose frame was not registered is no evidence: a window of which no
/// frame was registered is refused for missing evidence, whatever was fitted.
pub proof fn law_unregistered_cameras_are_no_evidence(
    window: WindowMeasuredChunk,
    frames: Seq<PoseFrame>,
    evidence: WindowFit,
    settings: GlobalPoseFusionSettings,
)
    requires
        forall|v: int, k: int|
            0 <= v < window.views@.len() && 0 <= k < frames.len() && (
            #[trigger] frames[k]).frame_index == (#[trigger] window.views@[v]).frame_index
                ==> !frames[k].registered,
    ensures
        window_pose(window, frames, evidence, settings) == Err::<
            SimilarityTransform,
            ReconstructionError,
        >(
            ReconstructionError::MissingGlobalCameraEvidence {
                window_index: window.window.index,
            },
        ),
{
    let count = window.views@.len() as int;
    let cameras = revisit::valid_cameras(window, evidence.headings@, count);
    revisit::lemma_valid_cameras(window, evidence.headings@, count);
    assert forall|i: int| 0 <= i < cameras.len() implies last_pose(
        frames,
        #[trigger] frames_of(cameras)[i],
        frames.len() as int,
    ) is None by {
        let v = choose|v: int|
            0 <= v < count && (#[trigger] window.views@[v]).frame_index == cameras[i].frame_index;
        assert forall|k: int|
            0 <= k < frames.len() && (#[trigger] frames[k]).frame_index
                == cameras[i].frame_index implies !frames[k].registered by {
            assert(frames[k].frame_index == window.views@[v].frame_index);
        }
        lemma_no_pose(frames, cameras[i].frame_index, frames.len() as int);
    }
    lemma_no_pairings(frames_of(cameras), frames, cameras.len() as int);
}

proof fn lemma_no_pose(frames: Seq<PoseFrame>, frame_index: usize, count: int)
    requires
        0 <= count <= frames.len(),
        forall|k: int|
            0 <= k < frames.len() && (#[trigger] frames[k]).frame_index == frame_index
                ==> !frames[k].registered,
    ensures
        last_pose(frames, frame_index, count) is None,
    decreases count,
{
    if count > 0 {
        lemma_no_pose(frames, frame_index, count - 1);
    }
}

proof fn lemma_no_pairings(cameras: Seq<usize>, frames: Seq<PoseFrame>, count: int)
    requires
        0 <= count <= cameras.len(),
        forall|i: int|
            0 <= i < cameras.len() ==> last_pose(
                frames,
                #[trigger] cameras[i],
                frames.len() as int,
            ) is None,
    ensures
        pairings(cameras, frames, count).len() == 0,
    decreases count,
{
    if count > 0 {
        lemma_no_pairings(cameras, frames, count - 1);
        assert(last_pose(frames, cameras[count - 1], frames.len() as int) is None);
    }
}

/// The poses of all windows in a global solution, or the first reason why one of
/// them has none. No window is left out.
pub fn global_window_poses(
    windows: &Vec<WindowMeasuredChunk>,
    frames: &Vec<PoseFrame>,
    fits: &Vec<WindowFit>,
    settings: &GlobalPoseFusionSettings,
) -> (result: Result<Vec<SimilarityTransform>, ReconstructionError>)
    requires
        fits@.len() == windows@.len(),
        forall|i: int|
            0 <= i < windows@.len() ==> (#[trigger] fits@[i]).headings@.len()
                == windows@[i].views@.len(),
    ensures
        match result {
            Ok(poses) => {
                &&& poses@.len() == windows@.len()
                &&& forall|i: int|
                    0 <= i < windows@.len() ==> window_pose(
                        windows@[i],
                        frames@,
                        fits@[i],
                        *settings,
                    ) == Ok::<SimilarityTransform, ReconstructionError>(#[trigger] poses@[i])
            },
            Err(e) => exists|k: int|
                {
                    &&& 0 <= k < windows@.len()
                    &&& #[trigger] window_pose(windows@[k], frames@, fits@[k], *settings)
                        == Err::<SimilarityTransform, ReconstructionError>(e)
                    &&& forall|i: int|
                        0 <= i < k ==> #[trigger] window_pose(
                            windows@[i],
                            frames@,
                            fits@[i],
                            *settings,
                        ) is Ok
                },
        },
{
    let mut poses: Vec<SimilarityTransform> = Vec::new();
    for i in 0..windows.len()
        invariant
            fits@.len() == windows@.len(),
            forall|i: int|
                0 <= i < windows@.len() ==> (#[trigger] fits@[i]).headings@.len()
                    == windows@[i].views@.len(),
            poses@.len() == i,
            forall|k: int|
                0 <= k < i ==> window_pose(windows@[k], frames@, fits@[k], *settings) == Ok::<
                    SimilarityTransform,
                    ReconstructionError,
                >(#[trigger] poses@[k]),
            forall|k: int|
                0 <= k < i ==> #[trigger] window_pose(
                    windows@[k],
                    frames@,
                    fits@[k],
                    *settings,
                ) is Ok,
    {
        let window = &windows[i];
        assert(fits@[i as int].headings@.len() == window.views@.len());
        match fit_window_to_global_pose(window, frames, &fits[i], settings) {
            Ok(pose) => {
                poses.push(pose);
            },
            Err(error) => {
                assert(window_pose(windows@[i as int], frames@, fits@[i as int], *settings)
                    == Err::<SimilarityTransform, ReconstructionError>(error));
                return Err(error);
            },
        }
    }
    Ok(poses)
}

proof fn lemma_row_color(
    frame: OwnedFrame,
    width: int,
    height: int,
    y: int,
    count: int,
    x: int,
    c: int,
)
    requires
        0 <= x < count,
        0 <= c < 3,
    ensures
        row_colors(frame, width, height, y, count)[3 * x + c] == frame.rgb_hwc_u8@[(((y
            * frame.height) / height) * frame.width + (x * frame.width) / width) * 3 + c],
        row_colors(frame, width, height, y, count).len() == 3 * count,
    decreases count,
{
    let before = row_colors(frame, width, height, y, count - 1);
    lemma_row_length(frame, width, height, y, count - 1);
    lemma_row_length(frame, width, height, y, count);
    let source = (source_of(y, height, frame.height as int) * frame.width + source_of(
        count - 1,
        width,
        frame.width as int,
    )) * 3;
    if x < count - 1 {
        lemma_row_color(frame, width, height, y, count - 1, x, c);
        assert(row_colors(frame, width, height, y, count)[3 * x + c] == before[3 * x + c]);
    } else {
        assert(before.len() == 3 * x);
        assert(row_colors(frame, width, height, y, count)[3 * x + c] == frame.rgb_hwc_u8@[source
            + c]);
    }
}

/// A resampled raster takes every colour from the source pixel at the same share of the
/// width and of the height, and invents none.
pub proof fn law_resampled_colors_are_source_colors(
    frame: OwnedFrame,
    width: int,
    height: int,
    rows: int,
    x: int,
    y: int,
    c: int,
)
    requires
        0 < width,
        0 <= x < width,
        0 <= y < rows,
        0 <= c < 3,
    ensures
        raster_colors(frame, width, height, rows)[3 * (y * width + x) + c]
            == frame.rgb_hwc_u8@[(((y * frame.height) / height) * frame.width + (x * frame.width)
            / width) * 3 + c],
    decreases rows,
{
    let before = raster_colors(frame, width, height, rows - 1);
    let row = row_colors(frame, width, height, rows - 1, width);
    law_resampled_raster_is_full(frame, width, height, rows - 1);
    lemma_row_length(frame, width, height, rows - 1, width);
    let at = 3 * (y * width + x) + c;
    assert(3 * ((rows - 1) * width) == (rows - 1) * width * 3) by (nonlinear_arith);
    if y < rows - 1 {
        law_resampled_colors_are_source_colors(frame, width, height, rows - 1, x, y, c);
        assert(0 <= at < 3 * ((rows - 1) * width)) by (nonlinear_arith)
            requires
                at == 3 * (y * width + x) + c,
                0 <= x < width,
                0 <= y < rows - 1,
                0 <= c < 3,
        ;
        assert((before + row)[at] == before[at]);
    } else {
        lemma_row_color(frame, width, height, y, width, x, c);
        assert(at - before.len() == 3 * x + c);
        assert((before + row)[at] == row[3 * x + c]);
    }
}

/// A raster of the wanted size is taken as it is.
pub proof fn law_fitting_raster_is_taken(frame: OwnedFrame)
    ensures
        resampled(frame, frame.width as int, frame.height as int) == frame.rgb_hwc_u8@,
{
}

/// The points of a window are those of all its views.
pub proof fn law_points_are_counted(chunk: WindowMeasuredChunk, count: int)
    requires
        0 <= count <= chunk.views@.len(),
    ensures
        points_among(chunk, count) == order::total(
            Seq::new(count as nat, |i: int| chunk.views@[i].points@.len()),
        ),
    decreases count,
{
    let counts = Seq::new(count as nat, |i: int| chunk.views@[i].points@.len());
    if count > 0 {
        law_points_are_counted(chunk, count - 1);
        assert(counts.drop_last() =~= Seq::new(
            (count - 1) as nat,
            |i: int| chunk.views@[i].points@.len(),
        ));
    }
}

/// A stored window is found by its index: the first one of the index, where there is one.
pub proof fn law_stored_window_is_found(stored: Seq<StoredWindow>, index: usize, start: int)
    requires
        0 <= start <= stored.len(),
    ensures
        match stored_at(stored, index, start) {
            Some(i) => {
                &&& start <= i < stored.len()
                &&& stored[i].chunk.window.index == index
                &&& forall|k: int|
                    start <= k < i ==> (#[trigger] stored[k]).chunk.window.index != index
            },
            None => forall|k: int|
                start <= k < stored.len() ==> (#[trigger] stored[k]).chunk.window.index != index,
        },
    decreases stored.len() - start,
{
    if start < stored.len() && stored[start].chunk.window.index != index {
        law_stored_window_is_found(stored, index, start + 1);
    }
}

/// A reused window is one that was stored complete: under the index of the scheduled
/// window, with the same range, one view per frame of it and in order.
pub proof fn law_only_complete_windows_are_reused(
    stored: Seq<StoredWindow>,
    window: FrameWindow,
    progress: ReconstructionProgress,
)
    requires
        is_reuse(stored, window, progress),
        window.start <= window.end,
    ensures
        exists|i: int|
            {
                let chunk = (#[trigger] stored[i]).chunk;
                &&& 0 <= i < stored.len()
                &&& chunk.window == window
                &&& chunk.views@.len() == window.end - window.start
                &&& forall|k: int|
                    0 <= k < chunk.views@.len() ==> (#[trigger] chunk.views@[k]).frame_index
                        == window.start + k
                &&& progress.chunk_hash@ == stored[i].hash@
                &&& progress.reused && progress.window == window
                &&& progress.measured_points == order::total(
                    Seq::new(chunk.views@.len(), |k: int| chunk.views@[k].points@.len()),
                )
            },
{
    law_stored_window_is_found(stored, window.index, 0);
    let i = stored_at(stored, window.index, 0).unwrap();
    law_points_are_counted(stored[i].chunk, stored[i].chunk.views@.len() as int);
    assert(covers_window(window, stored[i].chunk));
}

proof fn lemma_last_pose(frames: Seq<PoseFrame>, frame_index: usize, count: int)
    requires
        0 <= count <= frames.len(),
    ensures
        match last_pose(frames, frame_index, count) {
            Some(i) => {
                &&& 0 <= i < count
                &&& frames[i].registered && frames[i].frame_index == frame_index
                &&& forall|k: int|
                    i < k < count ==> !((#[trigger] frames[k]).registered && frames[k].frame_index
                        == frame_index)
            },
            None => forall|k: int|
                0 <= k < count ==> !((#[trigger] frames[k]).registered && frames[k].frame_index
                    == frame_index),
        },
    decreases count,
{
    if count > 0 {
        lemma_last_pose(frames, frame_index, count - 1);
    }
}

/// A camera is paired exactly where its frame was registered, with the last registered
/// pose of the frame; the pairs come in the order of the cameras, one per camera.
pub proof fn law_cameras_pair_with_registered_poses(
    cameras: Seq<usize>,
    frames: Seq<PoseFrame>,
    count: int,
)
    requires
        0 <= count <= cameras.len() <= usize::MAX,
        frames.len() <= usize::MAX,
    ensures
        ({
            let pairs = pairings(cameras, frames, count);
            &&& forall|c: usize, p: usize| #[trigger]
                pairs.contains(CameraPairing { camera: c, pose: p }) <==> {
                    &&& c < count && p < frames.len()
                    &&& frames[p as int].registered && frames[p as int].frame_index
                        == cameras[c as int]
                    &&& forall|k: int|
                        p < k < frames.len() ==> !((#[trigger] frames[k]).registered
                            && frames[k].frame_index == cameras[c as int])
                }
            &&& forall|i: int, j: int|
                0 <= i < j < pairs.len() ==> pairs[i].camera < pairs[j].camera
            &&& forall|i: int| 0 <= i < pairs.len() ==> (#[trigger] pairs[i]).camera < count
        }),
    decreases count,
{
    let pairs = pairings(cameras, frames, count);
    if count > 0 {
        law_cameras_pair_with_registered_poses(cameras, frames, count - 1);
        let rest = pairings(cameras, frames, count - 1);
        lemma_last_pose(frames, cameras[count - 1], frames.len() as int);
        let found = last_pose(frames, cameras[count - 1], frames.len() as int);
        assert forall|c: usize, p: usize| #[trigger]
            pairs.contains(CameraPairing { camera: c, pose: p }) <==> {
                &&& c < count && p < frames.len()
                &&& frames[p as int].registered && frames[p as int].frame_index
                    == cameras[c as int]
                &&& forall|k: int|
                    p < k < frames.len() ==> !((#[trigger] frames[k]).registered
                        && frames[k].frame_index == cameras[c as int])
            } by {
            let pair = CameraPairing { camera: c, pose: p };
            if let Some(pose) = found {
                vstd::seq_lib::lemma_seq_contains_after_push(
                    rest,
                    CameraPairing { camera: (count - 1) as usize, pose: pose as usize },
                    pair,
                );
            }
            assert(rest.contains(pair) ==> c < count - 1);
        }
    } else {
        assert(pairs =~= Seq::empty());
    }
}

/// A window has a global pose exactly where enough of its cameras were paired and the fit
/// of the pairs exists and is numerically within the allowed error; it is then the pose
/// that was fitted.
pub proof fn law_global_poses_are_fitted(
    window: WindowMeasuredChunk,
    frames: Seq<PoseFrame>,
    evidence: WindowFit,
    settings: GlobalPoseFusionSettings,
)
    requires
        window_pairings(window, evidence.headings@, frames).len() <= usize::MAX,
        !ieee::f32_nan(settings.maximum_normalized_camera_rms),
    ensures
        ({
            let pairs = window_pairings(window, evidence.headings@, frames).len();
            let pose = window_pose(window, frames, evidence, settings);
            &&& pose is Ok <==> {
                &&& pairs > 0 && pairs >= settings.minimum_registered_cameras_per_window
                &&& evidence.fit matches Ok(fit) && ieee::f32_magnitude(fit.normalized_rms)
                    < 0x7f80_0000 && ieee::f32_rank(fit.normalized_rms) <= ieee::f32_rank(
                    settings.maximum_normalized_camera_rms,
                )
            }
            &&& pose is Ok ==> Ok::<SimilarityTransform, StitchError>(pose->Ok_0) == (
            match evidence.fit {
                Ok(fit) => Ok::<SimilarityTransform, StitchError>(fit.transform),
                Err(error) => Err::<SimilarityTransform, StitchError>(error),
            })
        }),
{
}

/// Neighbouring windows share the frames that both of them hold.
pub proof fn law_overlap_is_shared_frames(windows: Seq<WindowMeasuredChunk>, i: int, frame: int)
    requires
        0 <= i < windows.len() - 1,
        windows[i].window.start <= windows[i + 1].window.start,
        windows[i].window.end <= windows[i + 1].window.end,
    ensures
        windows[i + 1].window.start <= frame < windows[i + 1].window.start + seam_overlap(windows, i)
            <==> windows[i].window.start <= frame < windows[i].window.end
            && windows[i + 1].window.start <= frame < windows[i + 1].window.end,
        seam_overlap(windows, i) >= 0,
{
}

/// The first stored window whose index an earlier one has too; otherwise all indices are
/// different from those before.
pub proof fn law_first_repetition_is_found(stored: Seq<StoredWindow>, start: int)
    requires
        0 <= start,
    ensures
        match first_repeat(stored, start) {
            Some(k) => {
                &&& start <= k < stored.len()
                &&& exists|i: int|
                    0 <= i < k && (#[trigger] stored[i]).chunk.window.index
                        == stored[k].chunk.window.index
                &&& forall|i: int, j: int|
                    0 <= i < j && start <= j < k ==> (#[trigger] stored[i]).chunk.window.index != (
                    #[trigger] stored[j]).chunk.window.index
            },
            None => forall|i: int, j: int|
                0 <= i < j && start <= j < stored.len() ==> (
                #[trigger] stored[i]).chunk.window.index != (
                #[trigger] stored[j]).chunk.window.index,
        },
    decreases stored.len() - start,
{
    if start < stored.len() && !repeats(stored, start) {
        law_first_repetition_is_found(stored, start + 1);
    }
}

/// A window is fitted where it has enough pairs of cameras, and one at least; without a
/// pair it lacks evidence, and with fewer than the minimum it has too little.
pub proof fn law_fitting_needs_camera_pairs(
    window_index: usize,
    pairs: usize,
    settings: GlobalPoseFusionSettings,
)
    ensures
        pairing_fault(window_index, pairs, settings) is None <==> pairs >= 1 && pairs
            >= settings.minimum_registered_cameras_per_window,
        pairs == 0 <==> pairing_fault(window_index, pairs, settings) == Some(
            ReconstructionError::MissingGlobalCameraEvidence { window_index },
        ),
        1 <= pairs < settings.minimum_registered_cameras_per_window ==> pairing_fault(
            window_index,
            pairs,
            settings,
        ) == Some(
            ReconstructionError::InsufficientGlobalCameraEvidence {
                window_index,
                actual: pairs,
                minimum: settings.minimum_registered_cameras_per_window,
            },
        ),
{
}

/// A fit passes where its error is finite and no more than the maximum, numerically.
pub proof fn law_passing_fits_are_close(fit: CameraFit, settings: GlobalPoseFusionSettings)
    ensures
        fit_passes(fit, settings) <==> ieee::f32_magnitude(fit.normalized_rms) < 0x7f80_0000 && (
        ieee::f32_nan(settings.maximum_normalized_camera_rms) || ieee::f32_rank(fit.normalized_rms)
            <= ieee::f32_rank(settings.maximum_normalized_camera_rms)),
{
}

/// The overlap of a capture is the least of its seams, and none without a seam.
pub proof fn law_least_overlap_is_least(windows: Seq<WindowMeasuredChunk>, overlap: int)
    requires
        is_least_overlap(windows, overlap),
    ensures
        windows.len() <= 1 ==> overlap == 0,
        forall|i: int|
            0 <= i && i + 1 < windows.len() ==> #[trigger] seam_overlap(windows, i) >= overlap,
        windows.len() >= 2 ==> exists|i: int|
            0 <= i && i + 1 < windows.len() && #[trigger] seam_overlap(windows, i) == overlap,
{
}

/// A resampled line or column is that of the source which it falls on: the last one whose
/// beginning is not behind it.
pub proof fn law_source_lines_are_the_nearest_below(place: int, size: int, source_size: int)
    requires
        0 <= place < size,
        0 < source_size,
    ensures
        0 <= source_of(place, size, source_size) < source_size,
        source_of(place, size, source_size) * size <= place * source_size < (source_of(
            place,
            size,
            source_size,
        ) + 1) * size,
{
    let source = source_of(place, size, source_size);
    assert(0 <= source < source_size && source * size <= place * source_size < (source + 1) * size)
        by (nonlinear_arith)
        requires
            source == (place * source_size) / size,
            0 <= place < size,
            0 < source_size,
    ;
}

} // verus!
