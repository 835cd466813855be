//! `VPO1`, `CPS1` and `MVO1`: what the streaming oracle hands back.

use vstd::prelude::*;

use crate::oracle;
use crate::oracle::{
    read_f32_vec, read_i32, read_i32_vec, read_intrinsics, read_magic, read_u32, read_u8_vec,
    read_world_to_camera, window_lengths, CppPr2OracleError, OracleFault, CAPI_STREAM_VERSION,
    MULTIVIEW_VERSION, OUTPUT_VERSION,
};
use crate::schedule;
use crate::schedule::WindowSettings;
use crate::text;
use crate::wire;
use crate::wire::ByteReader;

verus! {

/// The raw cloud of the stitcher, before any voxel or surface processing.
#[derive(Debug, Clone, PartialEq)]
pub struct CppPr2StreamOutput {
    pub frame_count: usize,
    pub width: usize,
    pub height: usize,
    pub warnings: i32,
    pub loops_found: i32,
    pub metric_scale: u32,
    pub xyz: Vec<u32>,
    pub rgb: Vec<u8>,
    pub radius: Vec<u32>,
    pub counts: Vec<i32>,
    pub window_pos: Vec<u32>,
    pub window_mid_frame: Vec<i32>,
    pub frame_pos: Vec<u32>,
    pub frame_fwd: Vec<u32>,
}

/// The contents of a [`CppPr2StreamOutput`].
#[verifier::ext_equal]
pub struct StreamModel {
    pub frame_count: int,
    pub width: int,
    pub height: int,
    pub warnings: i32,
    pub loops_found: i32,
    pub metric_scale: u32,
    pub xyz: Seq<u32>,
    pub rgb: Seq<u8>,
    pub radius: Seq<u32>,
    pub counts: Seq<i32>,
    pub window_pos: Seq<u32>,
    pub window_mid_frame: Seq<i32>,
    pub frame_pos: Seq<u32>,
    pub frame_fwd: Seq<u32>,
}

impl View for CppPr2StreamOutput {
    type V = StreamModel;

    open spec fn view(&self) -> StreamModel {
        StreamModel {
            frame_count: self.frame_count as int,
            width: self.width as int,
            height: self.height as int,
            warnings: self.warnings,
            loops_found: self.loops_found,
            metric_scale: self.metric_scale,
            xyz: self.xyz@,
            rgb: self.rgb@,
            radius: self.radius@,
            counts: self.counts@,
            window_pos: self.window_pos@,
            window_mid_frame: self.window_mid_frame@,
            frame_pos: self.frame_pos@,
            frame_fwd: self.frame_fwd@,
        }
    }
}

/// Bytes of a `VPO1` artifact up to the per-window section: a header of 40,
/// then 19 per point and 4 per frame.
pub open spec fn vpo1_windows_place(frames: int, points: int) -> int {
    40 + 19 * points + 4 * frames
}

/// Bytes of a complete `VPO1` artifact.
pub open spec fn vpo1_size(frames: int, points: int, windows: int) -> int {
    vpo1_windows_place(frames, points) + 16 * windows + 24 * frames
}

/// The contents of a complete `VPO1` artifact.
pub open spec fn vpo1_at(bytes: Seq<u8>) -> StreamModel {
    let frames = wire::u32_at(bytes, 8) as int;
    let points = wire::u32_at(bytes, 20) as int;
    let windows = wire::u32_at(bytes, 24) as int;
    let place = vpo1_windows_place(frames, points);
    StreamModel {
        frame_count: frames,
        height: wire::u32_at(bytes, 12) as int,
        width: wire::u32_at(bytes, 16) as int,
        warnings: wire::i32_of(wire::u32_at(bytes, 28)),
        loops_found: wire::i32_of(wire::u32_at(bytes, 32)),
        metric_scale: wire::u32_at(bytes, 36),
        xyz: wire::u32s_at(bytes, 40, 3 * points),
        rgb: bytes.subrange(40 + 12 * points, 40 + 15 * points),
        radius: wire::u32s_at(bytes, 40 + 15 * points, points),
        counts: wire::i32s_at(bytes, 40 + 19 * points, frames),
        window_pos: wire::u32s_at(bytes, place, 3 * windows),
        window_mid_frame: wire::i32s_at(bytes, place + 12 * windows, windows),
        frame_pos: wire::u32s_at(bytes, place + 16 * windows, 3 * frames),
        frame_fwd: wire::u32s_at(bytes, place + 16 * windows + 12 * frames, 3 * frames),
    }
}

/// What a byte sequence is as a `VPO1` artifact.
pub open spec fn parse_vpo1(bytes: Seq<u8>) -> Result<StreamModel, OracleFault> {
    let version = wire::u32_at(bytes, 4);
    let frames = wire::u32_at(bytes, 8) as int;
    let height = wire::u32_at(bytes, 12) as int;
    let width = wire::u32_at(bytes, 16) as int;
    let points = wire::u32_at(bytes, 20) as int;
    let windows = wire::u32_at(bytes, 24) as int;
    if bytes.len() < 4 {
        Err(oracle::truncated())
    } else if bytes.take(4) != oracle::output_magic() {
        Err(OracleFault::Magic)
    } else if bytes.len() < 8 {
        Err(oracle::truncated())
    } else if version != OUTPUT_VERSION {
        Err(OracleFault::Version(version))
    } else if bytes.len() < 40 {
        Err(oracle::truncated())
    } else if frames == 0 || width == 0 || height == 0 || width * height > usize::MAX || 3 * points
        > usize::MAX {
        Err(OracleFault::InvalidHeader)
    } else if bytes.len() < vpo1_windows_place(frames, points) {
        Err(oracle::truncated())
    } else if 3 * windows > usize::MAX {
        Err(OracleFault::InvalidHeader)
    } else if bytes.len() < vpo1_size(frames, points, windows) {
        Err(oracle::truncated())
    } else if bytes.len() > vpo1_size(frames, points, windows) {
        Err(OracleFault::TrailingBytes)
    } else {
        Ok(vpo1_at(bytes))
    }
}

/// Three times a count, where that can be addressed.
fn triple(count: usize) -> (result: Result<usize, CppPr2OracleError>)
    ensures
        match result {
            Ok(value) => value == 3 * count,
            Err(e) => 3 * count > usize::MAX && e@ == OracleFault::InvalidHeader,
        },
{
    match count.checked_mul(3) {
        Some(value) => Ok(value),
        None => Err(CppPr2OracleError::InvalidHeader),
    }
}

impl CppPr2StreamOutput {
    /// Reads a complete `VPO1` artifact; an interrupted or longer one is
    /// refused.
    pub fn read_vpo1(bytes: &[u8]) -> (result: Result<Self, CppPr2OracleError>)
        ensures
            match parse_vpo1(bytes@) {
                Ok(model) => result matches Ok(output) && output@ == model,
                Err(fault) => result matches Err(e) && e@ == fault,
            },
    {
        let mut reader = ByteReader::new(bytes);
        read_magic(&mut reader, 0x56, 0x50, 0x4f, 0x31)?;
        let version: u32 = read_u32(&mut reader)?;
        if version != OUTPUT_VERSION {
            return Err(CppPr2OracleError::Version(version));
        }
        let frame_count: usize = read_u32(&mut reader)? as usize;
        let height: usize = read_u32(&mut reader)? as usize;
        let width: usize = read_u32(&mut reader)? as usize;
        let point_count: usize = read_u32(&mut reader)? as usize;
        let window_count: usize = read_u32(&mut reader)? as usize;
        let warnings: i32 = read_i32(&mut reader)?;
        let loops_found: i32 = read_i32(&mut reader)?;
        let metric_scale: u32 = read_u32(&mut reader)?;
        if frame_count == 0 || width == 0 || height == 0 || width.checked_mul(height).is_none() {
            return Err(CppPr2OracleError::InvalidHeader);
        }
        let point_values: usize = triple(point_count)?;
        let xyz = read_f32_vec(&mut reader, point_values)?;
        let rgb = read_u8_vec(&mut reader, point_values)?;
        let radius = read_f32_vec(&mut reader, point_count)?;
        let counts = read_i32_vec(&mut reader, frame_count)?;
        let window_values: usize = triple(window_count)?;
        let window_pos = read_f32_vec(&mut reader, window_values)?;
        let window_mid_frame = read_i32_vec(&mut reader, window_count)?;
        let frame_values: usize = triple(frame_count)?;
        let frame_pos = read_f32_vec(&mut reader, frame_values)?;
        let frame_fwd = read_f32_vec(&mut reader, frame_values)?;
        if !reader.at_end() {
            return Err(CppPr2OracleError::TrailingBytes);
        }
        Ok(
            CppPr2StreamOutput {
                frame_count,
                width,
                height,
                warnings,
                loops_found,
                metric_scale,
                xyz,
                rgb,
                radius,
                counts,
                window_pos,
                window_mid_frame,
                frame_pos,
                frame_fwd,
            },
        )
    }
}

/// The public cloud and camera trajectory of a whole model run.
#[derive(Debug, Clone, PartialEq)]
pub struct CppPr2CapiStreamOutput {
    pub frame_count: usize,
    pub xyz: Vec<u32>,
    pub rgb: Vec<u8>,
    pub radius: Vec<u32>,
    pub counts: Vec<i32>,
    pub frame_pos: Vec<u32>,
    pub frame_fwd: Vec<u32>,
}

/// The contents of a [`CppPr2CapiStreamOutput`].
#[verifier::ext_equal]
pub struct CapiModel {
    pub frame_count: int,
    pub xyz: Seq<u32>,
    pub rgb: Seq<u8>,
    pub radius: Seq<u32>,
    pub counts: Seq<i32>,
    pub frame_pos: Seq<u32>,
    pub frame_fwd: Seq<u32>,
}

impl View for CppPr2CapiStreamOutput {
    type V = CapiModel;

    open spec fn view(&self) -> CapiModel {
        CapiModel {
            frame_count: self.frame_count as int,
            xyz: self.xyz@,
            rgb: self.rgb@,
            radius: self.radius@,
            counts: self.counts@,
            frame_pos: self.frame_pos@,
            frame_fwd: self.frame_fwd@,
        }
    }
}

/// Sum of the first `count` per-frame point counts.
pub open spec fn count_sum(counts: Seq<i32>, count: int) -> int
    decreases count,
{
    if count <= 0 {
        0
    } else {
        count_sum(counts, count - 1) + counts[count - 1]
    }
}

/// Every frame owns a non-negative number of points, and together all of them.
pub open spec fn counts_partition(counts: Seq<i32>, points: int) -> bool {
    &&& forall|i: int| 0 <= i < counts.len() ==> #[trigger] counts[i] >= 0
    &&& count_sum(counts, counts.len() as int) == points
}

/// What a byte sequence is as a `CPS1` artifact.
pub open spec fn parse_cps1(bytes: Seq<u8>) -> Result<CapiModel, OracleFault> {
    let version = wire::u32_at(bytes, 4);
    let frames = wire::u32_at(bytes, 8) as int;
    let points = wire::u32_at(bytes, 12) as int;
    let poses = wire::u32_at(bytes, 16) as int;
    let counts = wire::i32s_at(bytes, 20, frames);
    let place = 20 + 4 * frames;
    let size = place + 19 * points + 24 * poses;
    if bytes.len() < 4 {
        Err(oracle::truncated())
    } else if bytes.take(4) != oracle::capi_stream_magic() {
        Err(OracleFault::Magic)
    } else if bytes.len() < 8 {
        Err(oracle::truncated())
    } else if version != CAPI_STREAM_VERSION {
        Err(OracleFault::Version(version))
    } else if bytes.len() < 20 {
        Err(oracle::truncated())
    } else if frames == 0 || poses > frames {
        Err(OracleFault::InvalidHeader)
    } else if bytes.len() < place {
        Err(oracle::truncated())
    } else if !counts_partition(counts, points) {
        Err(OracleFault::InconsistentPayload)
    } else if 3 * points > usize::MAX {
        Err(OracleFault::InvalidHeader)
    } else if bytes.len() < size {
        Err(oracle::truncated())
    } else if bytes.len() > size {
        Err(OracleFault::TrailingBytes)
    } else {
        Ok(
            CapiModel {
                frame_count: frames,
                xyz: wire::u32s_at(bytes, place, 3 * points),
                rgb: bytes.subrange(place + 12 * points, place + 15 * points),
                radius: wire::u32s_at(bytes, place + 15 * points, points),
                counts,
                frame_pos: wire::u32s_at(bytes, place + 19 * points, 3 * poses),
                frame_fwd: wire::u32s_at(bytes, place + 19 * points + 12 * poses, 3 * poses),
            },
        )
    }
}

/// Whether per-frame counts are non-negative and add up to the point count.
fn counts_add_up(counts: &Vec<i32>, points: usize) -> (holds: bool)
    requires
        counts@.len() <= u32::MAX,
        points <= u32::MAX,
    ensures
        holds == counts_partition(counts@, points as int),
{
    let mut sum: u64 = 0;
    for i in 0..counts.len()
        invariant
            counts@.len() <= u32::MAX,
            sum == count_sum(counts@, i as int),
            sum <= i * 0x7fff_ffff,
            forall|j: int| 0 <= j < i ==> #[trigger] counts@[j] >= 0,
    {
        let count: i32 = counts[i];
        if count < 0 {
            return false;
        }
        sum = sum + count as u64;
    }
    sum == points as u64
}

impl CppPr2CapiStreamOutput {
    /// Reads a complete `CPS1` artifact; an interrupted or longer one is
    /// refused, and so are counts that do not partition the points.
    pub fn read_cps1(bytes: &[u8]) -> (result: Result<Self, CppPr2OracleError>)
        ensures
            match parse_cps1(bytes@) {
                Ok(model) => result matches Ok(output) && output@ == model,
                Err(fault) => result matches Err(e) && e@ == fault,
            },
    {
        let mut reader = ByteReader::new(bytes);
        read_magic(&mut reader, 0x43, 0x50, 0x53, 0x31)?;
        let version: u32 = read_u32(&mut reader)?;
        if version != CAPI_STREAM_VERSION {
            return Err(CppPr2OracleError::Version(version));
        }
        let frame_count: usize = read_u32(&mut reader)? as usize;
        let point_count: usize = read_u32(&mut reader)? as usize;
        let pose_frames: usize = read_u32(&mut reader)? as usize;
        if frame_count == 0 || pose_frames > frame_count {
            return Err(CppPr2OracleError::InvalidHeader);
        }
        let counts = read_i32_vec(&mut reader, frame_count)?;
        if !counts_add_up(&counts, point_count) {
            return Err(CppPr2OracleError::InconsistentPayload);
        }
        let point_values: usize = triple(point_count)?;
        let xyz = read_f32_vec(&mut reader, point_values)?;
        let rgb = read_u8_vec(&mut reader, point_values)?;
        let radius = read_f32_vec(&mut reader, point_count)?;
        let pose_values: usize = triple(pose_frames)?;
        let frame_pos = read_f32_vec(&mut reader, pose_values)?;
        let frame_fwd = read_f32_vec(&mut reader, pose_values)?;
        if !reader.at_end() {
            return Err(CppPr2OracleError::TrailingBytes);
        }
        Ok(CppPr2CapiStreamOutput { frame_count, xyz, rgb, radius, counts, frame_pos, frame_fwd })
    }
}

/// One view of the multi-view model, before any geometry work.
#[derive(Debug, Clone, PartialEq)]
pub struct CppPr2MultiViewView {
    pub depth: Vec<u32>,
    pub confidence: Vec<u32>,
    pub world_to_camera: [u32; 12],
    pub intrinsics: [u32; 9],
}

/// The contents of a [`CppPr2MultiViewView`].
#[verifier::ext_equal]
pub struct MultiViewModel {
    pub depth: Seq<u32>,
    pub confidence: Seq<u32>,
    pub world_to_camera: Seq<u32>,
    pub intrinsics: Seq<u32>,
}

impl View for CppPr2MultiViewView {
    type V = MultiViewModel;

    open spec fn view(&self) -> MultiViewModel {
        MultiViewModel {
            depth: self.depth@,
            confidence: self.confidence@,
            world_to_camera: self.world_to_camera@,
            intrinsics: self.intrinsics@,
        }
    }
}

/// Every window of the multi-view model.
#[derive(Debug, Clone, PartialEq)]
pub struct CppPr2MultiViewOutput {
    pub frame_count: usize,
    pub windows: WindowSettings,
    pub views: Vec<Vec<CppPr2MultiViewView>>,
    pub width: usize,
    pub height: usize,
}

/// The contents of the views of one window.
pub open spec fn multiviews_model(views: Seq<CppPr2MultiViewView>) -> Seq<MultiViewModel> {
    Seq::new(views.len(), |i: int| views[i]@)
}

/// The contents of the views of every window.
pub open spec fn multiview_windows_model(windows: Seq<Vec<CppPr2MultiViewView>>) -> Seq<
    Seq<MultiViewModel>,
> {
    Seq::new(windows.len(), |k: int| multiviews_model(windows[k]@))
}

/// Bytes of one view of `pixels` pixels.
pub open spec fn multiview_size(pixels: int) -> int {
    84 + 8 * pixels
}

/// The view that stands at a place of an artifact.
pub open spec fn multiview_at(bytes: Seq<u8>, at: int, pixels: int) -> MultiViewModel {
    MultiViewModel {
        depth: wire::u32s_at(bytes, at, pixels),
        confidence: wire::u32s_at(bytes, at + 4 * pixels, pixels),
        world_to_camera: wire::u32s_at(bytes, at + 8 * pixels, 12),
        intrinsics: wire::u32s_at(bytes, at + 8 * pixels + 48, 9),
    }
}

/// The views of a window of which all bytes are present.
pub open spec fn multiviews_at(bytes: Seq<u8>, at: int, count: int, pixels: int) -> Seq<
    MultiViewModel,
> {
    Seq::new(count as nat, |v: int| multiview_at(bytes, at + v * multiview_size(pixels), pixels))
}

/// What has been read of the windows of an `MVO1` artifact.
#[verifier::ext_equal]
pub struct MultiViewProgress {
    pub windows: Seq<Seq<MultiViewModel>>,
    /// Width and height of every window so far.
    pub dimensions: Option<(int, int)>,
    pub place: int,
}

/// The first `count` windows of an `MVO1` artifact: each is led by its start,
/// view count, height and width.
pub open spec fn parse_multiview_windows(
    bytes: Seq<u8>,
    frame_count: int,
    settings: WindowSettings,
    count: int,
) -> Result<MultiViewProgress, OracleFault>
    decreases count,
{
    if count <= 0 {
        Ok(MultiViewProgress { windows: Seq::empty(), dimensions: None, place: 24 })
    } else {
        match parse_multiview_windows(bytes, frame_count, settings, count - 1) {
            Err(fault) => Err(fault),
            Ok(done) => {
                let start = wire::u32_at(bytes, done.place) as int;
                let views = wire::u32_at(bytes, done.place + 4) as int;
                let height = wire::u32_at(bytes, done.place + 8) as int;
                let width = wire::u32_at(bytes, done.place + 12) as int;
                let pixels = height * width;
                let end = done.place + 16 + views * multiview_size(pixels);
                if bytes.len() < done.place + 16 {
                    Err(oracle::truncated())
                } else if pixels > usize::MAX {
                    Err(OracleFault::InvalidHeader)
                } else if start != schedule::window_start(count - 1, settings) || views
                    != oracle::lengths_of(frame_count, settings)[count - 1] || pixels == 0 {
                    Err(OracleFault::InconsistentPayload)
                } else if done.dimensions is Some && done.dimensions != Some((width, height)) {
                    Err(OracleFault::InconsistentPayload)
                } else if bytes.len() < end {
                    Err(oracle::truncated())
                } else {
                    Ok(
                        MultiViewProgress {
                            windows: done.windows.push(
                                multiviews_at(bytes, done.place + 16, views, pixels),
                            ),
                            dimensions: Some((width, height)),
                            place: end,
                        },
                    )
                }
            },
        }
    }
}

/// The contents of a [`CppPr2MultiViewOutput`].
#[verifier::ext_equal]
pub struct MultiViewOutputModel {
    pub frame_count: int,
    pub windows: WindowSettings,
    pub views: Seq<Seq<MultiViewModel>>,
    pub width: int,
    pub height: int,
}

impl View for CppPr2MultiViewOutput {
    type V = MultiViewOutputModel;

    open spec fn view(&self) -> MultiViewOutputModel {
        MultiViewOutputModel {
            frame_count: self.frame_count as int,
            windows: self.windows,
            views: multiview_windows_model(self.views@),
            width: self.width as int,
            height: self.height as int,
        }
    }
}

/// What a byte sequence is as an `MVO1` artifact.
pub open spec fn parse_mvo1(bytes: Seq<u8>) -> Result<MultiViewOutputModel, OracleFault> {
    let version = wire::u32_at(bytes, 4);
    let frames = wire::u32_at(bytes, 8) as int;
    let settings = WindowSettings {
        chunk_size: wire::u32_at(bytes, 12) as usize,
        overlap: wire::u32_at(bytes, 16) as usize,
    };
    let count = wire::u32_at(bytes, 20) as int;
    if bytes.len() < 4 {
        Err(oracle::truncated())
    } else if bytes.take(4) != oracle::multiview_magic() {
        Err(OracleFault::Magic)
    } else if bytes.len() < 8 {
        Err(oracle::truncated())
    } else if version != MULTIVIEW_VERSION {
        Err(OracleFault::Version(version))
    } else if bytes.len() < 24 {
        Err(oracle::truncated())
    } else if frames == 0 || !settings.valid() || count == 0 {
        Err(OracleFault::InvalidHeader)
    } else if schedule::window_count(frames, settings) != count {
        Err(OracleFault::InconsistentPayload)
    } else {
        match parse_multiview_windows(bytes, frames, settings, count) {
            Err(fault) => Err(fault),
            Ok(done) => if bytes.len() > done.place {
                Err(OracleFault::TrailingBytes)
            } else {
                Ok(
                    MultiViewOutputModel {
                        frame_count: frames,
                        windows: settings,
                        views: done.windows,
                        width: done.dimensions.unwrap().0,
                        height: done.dimensions.unwrap().1,
                    },
                )
            },
        }
    }
}

proof fn lemma_multiview_fault_persists(
    bytes: Seq<u8>,
    frame_count: int,
    settings: WindowSettings,
    few: int,
    many: int,
)
    requires
        few <= many,
        parse_multiview_windows(bytes, frame_count, settings, few) is Err,
    ensures
        parse_multiview_windows(bytes, frame_count, settings, many) == parse_multiview_windows(
            bytes,
            frame_count,
            settings,
            few,
        ),
    decreases many,
{
    if few < many {
        lemma_multiview_fault_persists(bytes, frame_count, settings, few, many - 1);
    }
}

/// Reads the views of one window.
fn read_multiviews(reader: &mut ByteReader<'_>, count: usize, pixels: usize) -> (result: Result<
    Vec<CppPr2MultiViewView>,
    CppPr2OracleError,
>)
    requires
        old(reader).valid(),
    ensures
        final(reader).valid(),
        match result {
            Ok(views) => {
                &&& old(reader).position + count * multiview_size(pixels as int) <= old(
                    reader,
                ).bytes@.len()
                &&& multiviews_model(views@) == multiviews_at(
                    old(reader).bytes@,
                    old(reader).position as int,
                    count as int,
                    pixels as int,
                )
                &&& final(reader).advanced(*old(reader), count * multiview_size(pixels as int))
            },
            Err(e) => old(reader).position + count * multiview_size(pixels as int) > old(
                reader,
            ).bytes@.len() && e@ == oracle::truncated(),
        },
{
    let ghost start = *reader;
    let ghost size = multiview_size(pixels as int);
    let mut views: Vec<CppPr2MultiViewView> = Vec::new();
    assert(0 * size == 0) by (nonlinear_arith);
    assert(multiviews_model(views@) =~= multiviews_at(
        start.bytes@,
        start.position as int,
        0,
        pixels as int,
    ));
    for i in 0..count
        invariant
            start == *old(reader),
            size == multiview_size(pixels as int),
            reader.valid(),
            reader.advanced(start, i * size),
            multiviews_model(views@) == multiviews_at(
                start.bytes@,
                start.position as int,
                i as int,
                pixels as int,
            ),
    {
        proof {
            assert((i + 1) * size <= count * size && (i + 1) * size == i * size + size)
                by (nonlinear_arith)
                requires
                    i + 1 <= count,
                    size >= 0,
            ;
        }
        let ghost before = multiviews_model(views@);
        let depth = read_f32_vec(reader, pixels)?;
        let confidence = read_f32_vec(reader, pixels)?;
        let world_to_camera = read_world_to_camera(reader)?;
        let intrinsics = read_intrinsics(reader)?;
        let view = CppPr2MultiViewView { depth, confidence, world_to_camera, intrinsics };
        views.push(view);
        assert(view@ == multiview_at(start.bytes@, start.position + i * size, pixels as int));
        assert(multiviews_model(views@) =~= before.push(view@));
        assert(multiviews_model(views@) =~= multiviews_at(
            start.bytes@,
            start.position as int,
            i + 1,
            pixels as int,
        ));
    }
    Ok(views)
}

impl CppPr2MultiViewOutput {
    /// Reads a complete `MVO1` artifact. A mismatched schedule or tensor shape
    /// means that two runs did not perform the same workload, and is refused.
    pub fn read_mvo1(bytes: &[u8]) -> (result: Result<Self, CppPr2OracleError>)
        ensures
            match parse_mvo1(bytes@) {
                Ok(model) => result matches Ok(output) && output@ == model,
                Err(fault) => result matches Err(e) && e@ == fault,
            },
    {
        let mut reader = ByteReader::new(bytes);
        read_magic(&mut reader, 0x4d, 0x56, 0x4f, 0x31)?;
        let version: u32 = read_u32(&mut reader)?;
        if version != MULTIVIEW_VERSION {
            return Err(CppPr2OracleError::Version(version));
        }
        let frame_count: usize = read_u32(&mut reader)? as usize;
        let chunk_size: usize = read_u32(&mut reader)? as usize;
        let overlap: usize = read_u32(&mut reader)? as usize;
        let window_count: usize = read_u32(&mut reader)? as usize;
        if frame_count == 0 || chunk_size < 2 || overlap >= chunk_size || window_count == 0 {
            return Err(CppPr2OracleError::InvalidHeader);
        }
        let windows = WindowSettings { chunk_size, overlap };
        let expected: Vec<usize> = window_lengths(frame_count, windows);
        if expected.len() != window_count {
            return Err(CppPr2OracleError::InconsistentPayload);
        }
        let ghost frames = frame_count as int;
        let mut views: Vec<Vec<CppPr2MultiViewView>> = Vec::new();
        let mut width: usize = 0;
        let mut height: usize = 0;
        let mut expected_start: usize = 0;
        assert(multiview_windows_model(views@) =~= Seq::empty());
        for k in 0..expected.len()
            invariant
                reader.valid(),
                reader.bytes == bytes,
                frames == frame_count,
                windows.valid(),
                windows.chunk_size == chunk_size,
                windows.overlap == overlap,
                expected@.len() == schedule::window_count(frames, windows),
                expected@.len() == oracle::lengths_of(frames, windows).len(),
                forall|j: int|
                    0 <= j < expected@.len() ==> #[trigger] expected@[j] == oracle::lengths_of(
                        frames,
                        windows,
                    )[j],
                k < expected@.len() ==> expected_start == schedule::window_start(
                    k as int,
                    windows,
                ),
                parse_multiview_windows(bytes@, frames, windows, k as int) == Ok::<
                    MultiViewProgress,
                    OracleFault,
                >(
                    (MultiViewProgress {
                        windows: multiview_windows_model(views@),
                        dimensions: if k == 0 {
                            None
                        } else {
                            Some((width as int, height as int))
                        },
                        place: reader.position as int,
                    }),
                ),
                parse_multiview_windows(bytes@, frames, windows, expected@.len() as int) matches Err(
                    fault,
                ) ==> parse_mvo1(bytes@) == Err::<MultiViewOutputModel, OracleFault>(fault),
        {
            proof {
                if parse_multiview_windows(bytes@, frames, windows, k + 1) is Err {
                    lemma_multiview_fault_persists(
                        bytes@,
                        frames,
                        windows,
                        k + 1,
                        expected@.len() as int,
                    );
                }
            }
            let ghost before = multiview_windows_model(views@);
            let start: usize = read_u32(&mut reader)? as usize;
            let view_count: usize = read_u32(&mut reader)? as usize;
            let rows: usize = read_u32(&mut reader)? as usize;
            let columns: usize = read_u32(&mut reader)? as usize;
            let pixels: usize = match rows.checked_mul(columns) {
                Some(pixels) => pixels,
                None => return Err(CppPr2OracleError::InvalidHeader),
            };
            if start != expected_start || view_count != expected[k] || pixels == 0 {
                return Err(CppPr2OracleError::InconsistentPayload);
            }
            if k > 0 && (width != columns || height != rows) {
                return Err(CppPr2OracleError::InconsistentPayload);
            }
            width = columns;
            height = rows;
            let window_views = read_multiviews(&mut reader, view_count, pixels)?;
            views.push(window_views);
            assert(multiview_windows_model(views@) =~= before.push(
                multiviews_model(window_views@),
            ));
            if k + 1 < expected.len() {
                proof {
                    schedule::lemma_terminal_window(k as int, frames, windows);
                    assert(schedule::window_start(k + 1, windows) == expected_start
                        + windows.step()) by (nonlinear_arith)
                        requires
                            expected_start == schedule::window_start(k as int, windows),
                    ;
                }
                expected_start = expected_start + (chunk_size - overlap);
            }
        }
        if !reader.at_end() {
            return Err(CppPr2OracleError::TrailingBytes);
        }
        Ok(CppPr2MultiViewOutput { frame_count, windows, views, width, height })
    }
}

/// A complete `CPS1` artifact gives every point to exactly one frame: the
/// per-frame counts are non-negative, and three coordinates, three colour
/// bytes and one radius stand for each counted point.
pub proof fn law_capi_points_are_owned(bytes: Seq<u8>)
    requires
        parse_cps1(bytes) is Ok,
    ensures
        ({
            let output = parse_cps1(bytes)->Ok_0;
            let points = output.radius.len() as int;
            &&& output.counts.len() == output.frame_count
            &&& counts_partition(output.counts, points)
            &&& output.xyz.len() == 3 * points
            &&& output.rgb.len() == 3 * points
            &&& output.frame_pos.len() == output.frame_fwd.len()
            &&& output.frame_pos.len() <= 3 * output.frame_count
        }),
{
}

/// An output has its header at fixed places, and behind it, one list after the other,
/// places, colours and radii of its points, the points of each frame, places and middle
/// frames of its windows, and places and directions of its frames.
pub proof fn law_output_lists_follow_each_other(bytes: Seq<u8>, i: int)
    requires
        parse_vpo1(bytes) is Ok,
        0 <= i,
    ensures
        ({
            let output = parse_vpo1(bytes)->Ok_0;
            let points = output.radius.len() as int;
            let windows = output.window_mid_frame.len() as int;
            let frames = output.frame_count;
            let colors = 40 + 12 * points;
            let radii = colors + 3 * points;
            let counts = radii + 4 * points;
            let places = counts + 4 * frames;
            let middles = places + 12 * windows;
            let cameras = middles + 4 * windows;
            let directions = cameras + 12 * frames;
            &&& bytes.len() == directions + 12 * frames
            &&& bytes.take(4) == text::utf8("VPO1"@)
            &&& output.frame_count == wire::u32_at(bytes, 8)
            &&& output.height == wire::u32_at(bytes, 12)
            &&& output.width == wire::u32_at(bytes, 16)
            &&& points == wire::u32_at(bytes, 20)
            &&& windows == wire::u32_at(bytes, 24)
            &&& output.warnings == wire::i32_of(wire::u32_at(bytes, 28))
            &&& output.loops_found == wire::i32_of(wire::u32_at(bytes, 32))
            &&& output.metric_scale == wire::u32_at(bytes, 36)
            &&& output.xyz.len() == 3 * points
            &&& i < 3 * points ==> output.xyz[i] == wire::u32_at(bytes, 40 + 4 * i)
            &&& output.rgb.len() == 3 * points
            &&& i < 3 * points ==> output.rgb[i] == bytes[colors + i]
            &&& i < points ==> output.radius[i] == wire::u32_at(bytes, radii + 4 * i)
            &&& output.counts.len() == frames
            &&& i < frames ==> output.counts[i] == wire::i32_of(
                wire::u32_at(bytes, counts + 4 * i),
            )
            &&& output.window_pos.len() == 3 * windows
            &&& i < 3 * windows ==> output.window_pos[i] == wire::u32_at(bytes, places + 4 * i)
            &&& i < windows ==> output.window_mid_frame[i] == wire::i32_of(
                wire::u32_at(bytes, middles + 4 * i),
            )
            &&& output.frame_pos.len() == 3 * frames
            &&& i < 3 * frames ==> output.frame_pos[i] == wire::u32_at(bytes, cameras + 4 * i)
            &&& output.frame_fwd.len() == 3 * frames
            &&& i < 3 * frames ==> output.frame_fwd[i] == wire::u32_at(bytes, directions + 4 * i)
        }),
{
    reveal_strlit("VPO1");
    vstd::utf8::is_ascii_chars_encode_utf8("VPO1"@);
    assert(oracle::output_magic() =~= text::utf8("VPO1"@));
}

/// A stream of the C interface has the points of each frame behind its header, and behind
/// these, one list after the other, places, colours and radii of its points, and places
/// and directions of its cameras. The points of the frames are all of its points.
pub proof fn law_capi_lists_follow_each_other(bytes: Seq<u8>, i: int)
    requires
        parse_cps1(bytes) is Ok,
        0 <= i,
    ensures
        ({
            let output = parse_cps1(bytes)->Ok_0;
            let points = output.radius.len() as int;
            let frames = output.frame_count;
            let cameras = wire::u32_at(bytes, 16) as int;
            let places = 20 + 4 * frames;
            let colors = places + 12 * points;
            let radii = colors + 3 * points;
            let stands = radii + 4 * points;
            let directions = stands + 12 * cameras;
            &&& bytes.len() == directions + 12 * cameras
            &&& bytes.take(4) == text::utf8("CPS1"@)
            &&& output.frame_count == wire::u32_at(bytes, 8)
            &&& points == wire::u32_at(bytes, 12)
            &&& cameras <= frames
            &&& output.counts.len() == frames
            &&& i < frames ==> output.counts[i] == wire::i32_of(wire::u32_at(bytes, 20 + 4 * i))
                && output.counts[i] >= 0
            &&& output.xyz.len() == 3 * points
            &&& i < 3 * points ==> output.xyz[i] == wire::u32_at(bytes, places + 4 * i)
            &&& output.rgb.len() == 3 * points
            &&& i < 3 * points ==> output.rgb[i] == bytes[colors + i]
            &&& i < points ==> output.radius[i] == wire::u32_at(bytes, radii + 4 * i)
            &&& output.frame_pos.len() == 3 * cameras
            &&& i < 3 * cameras ==> output.frame_pos[i] == wire::u32_at(bytes, stands + 4 * i)
            &&& output.frame_fwd.len() == 3 * cameras
            &&& i < 3 * cameras ==> output.frame_fwd[i] == wire::u32_at(bytes, directions + 4 * i)
            &&& output.counts.fold_left(0int, |sum: int, count: i32| sum + count) == points
        }),
{
    reveal_strlit("CPS1");
    vstd::utf8::is_ascii_chars_encode_utf8("CPS1"@);
    assert(oracle::capi_stream_magic() =~= text::utf8("CPS1"@));
    let output = parse_cps1(bytes)->Ok_0;
    lemma_counts_fold(output.counts, output.counts.len() as int);
    assert(output.counts.take(output.counts.len() as int) =~= output.counts);
}

proof fn lemma_counts_fold(counts: Seq<i32>, count: int)
    requires
        0 <= count <= counts.len(),
    ensures
        count_sum(counts, count) == counts.take(count).fold_left(
            0int,
            |sum: int, count: i32| sum + count,
        ),
    decreases count,
{
    if count > 0 {
        lemma_counts_fold(counts, count - 1);
        assert(counts.take(count).drop_last() =~= counts.take(count - 1));
    }
}

/// A view of a multi-view output has depth and confidence of all pixels, the twelve values
/// of its pose and nine intrinsics, one tensor after the other, and the next view follows
/// at once.
pub proof fn law_multiview_tensors_have_places(
    bytes: Seq<u8>,
    at: int,
    count: int,
    pixels: int,
    v: int,
    i: int,
)
    requires
        0 <= i,
        0 <= v < count,
        0 <= pixels,
    ensures
        ({
            let view = multiviews_at(bytes, at, count, pixels)[v];
            let start = at + v * (4 * pixels + 4 * pixels + 48 + 36);
            &&& multiviews_at(bytes, at, count, pixels).len() == count
            &&& view.depth.len() == pixels
            &&& i < pixels ==> view.depth[i] == wire::u32_at(bytes, start + 4 * i)
            &&& view.confidence.len() == pixels
            &&& i < pixels ==> view.confidence[i] == wire::u32_at(
                bytes,
                start + 4 * pixels + 4 * i,
            )
            &&& view.world_to_camera.len() == 12
            &&& i < 12 ==> view.world_to_camera[i] == wire::u32_at(
                bytes,
                start + 4 * pixels + 4 * pixels + 4 * i,
            )
            &&& view.intrinsics.len() == 9
            &&& i < 9 ==> view.intrinsics[i] == wire::u32_at(
                bytes,
                start + 4 * pixels + 4 * pixels + 48 + 4 * i,
            )
        }),
{
    assert(multiview_size(pixels) == 4 * pixels + 4 * pixels + 48 + 36);
}

/// The windows of a multi-view output follow each other: behind the place of each stand its
/// first frame, the number of its views, their height and width, and the views.
pub open spec fn windows_placed(
    bytes: Seq<u8>,
    output: MultiViewOutputModel,
    places: Seq<int>,
    count: int,
) -> bool {
    let pixels = output.height * output.width;
    &&& places.len() == count + 1
    &&& places[0] == 24
    &&& forall|k: int|
        0 <= k < count ==> {
            &&& wire::u32_at(bytes, #[trigger] places[k]) == k * (output.windows.chunk_size
                - output.windows.overlap)
            &&& wire::u32_at(bytes, places[k] + 4) == output.views[k].len()
            &&& wire::u32_at(bytes, places[k] + 8) == output.height
            &&& wire::u32_at(bytes, places[k] + 12) == output.width
            &&& output.views[k] == multiviews_at(
                bytes,
                places[k] + 16,
                output.views[k].len() as int,
                pixels,
            )
            &&& places[k + 1] == places[k] + 16 + output.views[k].len() * (84 + 8 * pixels)
        }
}

proof fn lemma_windows_placed(
    bytes: Seq<u8>,
    frames: int,
    settings: WindowSettings,
    output: MultiViewOutputModel,
    count: int,
) -> (places: Seq<int>)
    requires
        0 <= count <= output.views.len(),
        output.windows == settings,
        parse_multiview_windows(bytes, frames, settings, count) matches Ok(done) ==> {
            &&& done.windows == output.views.take(count)
            &&& count > 0 ==> done.dimensions == Some((output.width, output.height))
        },
        parse_multiview_windows(bytes, frames, settings, count) is Ok,
    ensures
        windows_placed(bytes, output, places, count),
        places.last() == parse_multiview_windows(bytes, frames, settings, count)->Ok_0.place,
    decreases count,
{
    if count <= 0 {
        seq![24int]
    } else {
        let done = parse_multiview_windows(bytes, frames, settings, count)->Ok_0;
        let before = parse_multiview_windows(bytes, frames, settings, count - 1)->Ok_0;
        assert(before.windows =~= done.windows.drop_last());
        assert(output.views.take(count - 1) =~= output.views.take(count).drop_last());
        assert(done.windows.last() == output.views[count - 1]);
        if count - 1 > 0 {
            lemma_dimensions_known(bytes, frames, settings, count - 1);
        }
        let places = lemma_windows_placed(bytes, frames, settings, output, count - 1);
        let longer = places.push(done.place);
        assert(places[count - 1] == before.place);
        assert forall|k: int| 0 <= k < count implies {
            let pixels = output.height * output.width;
            &&& wire::u32_at(bytes, #[trigger] longer[k]) == k * (output.windows.chunk_size
                - output.windows.overlap)
            &&& wire::u32_at(bytes, longer[k] + 4) == output.views[k].len()
            &&& wire::u32_at(bytes, longer[k] + 8) == output.height
            &&& wire::u32_at(bytes, longer[k] + 12) == output.width
            &&& output.views[k] == multiviews_at(
                bytes,
                longer[k] + 16,
                output.views[k].len() as int,
                pixels,
            )
            &&& longer[k + 1] == longer[k] + 16 + output.views[k].len() * (84 + 8 * pixels)
        } by {
            assert(longer[k] == places[k]);
            if k < count - 1 {
                assert(longer[k + 1] == places[k + 1]);
            }
        }
        longer
    }
}

proof fn lemma_dimensions_known(bytes: Seq<u8>, frames: int, settings: WindowSettings, count: int)
    requires
        count > 0,
        parse_multiview_windows(bytes, frames, settings, count) is Ok,
    ensures
        parse_multiview_windows(bytes, frames, settings, count)->Ok_0.dimensions is Some,
{
}

/// A multi-view output has its frames and its schedule in its header, and its windows, as
/// many as the header says, follow each other up to its end, all of one size.
pub proof fn law_multiview_windows_follow_each_other(bytes: Seq<u8>)
    requires
        parse_mvo1(bytes) is Ok,
    ensures
        ({
            let output = parse_mvo1(bytes)->Ok_0;
            &&& bytes.take(4) == text::utf8("MVO1"@)
            &&& output.frame_count == wire::u32_at(bytes, 8)
            &&& output.windows.chunk_size == wire::u32_at(bytes, 12)
            &&& output.windows.overlap == wire::u32_at(bytes, 16)
            &&& output.views.len() == wire::u32_at(bytes, 20)
            &&& exists|places: Seq<int>| #[trigger]
                windows_placed(bytes, output, places, output.views.len() as int) && places.last()
                    == bytes.len()
        }),
{
    reveal_strlit("MVO1");
    vstd::utf8::is_ascii_chars_encode_utf8("MVO1"@);
    assert(oracle::multiview_magic() =~= text::utf8("MVO1"@));
    let output = parse_mvo1(bytes)->Ok_0;
    let frames = wire::u32_at(bytes, 8) as int;
    let count = wire::u32_at(bytes, 20) as int;
    let settings = output.windows;
    lemma_window_total(bytes, frames, settings, count);
    assert(output.views.take(count) =~= output.views);
    lemma_dimensions_known(bytes, frames, settings, count);
    let places = lemma_windows_placed(bytes, frames, settings, output, count);
    assert(windows_placed(bytes, output, places, count));
}

proof fn lemma_window_total(bytes: Seq<u8>, frames: int, settings: WindowSettings, count: int)
    requires
        0 <= count,
        parse_multiview_windows(bytes, frames, settings, count) is Ok,
    ensures
        parse_multiview_windows(bytes, frames, settings, count)->Ok_0.windows.len() == count,
        count > 0 ==> parse_multiview_windows(bytes, frames, settings, count)->Ok_0.place
            <= bytes.len(),
    decreases count,
{
    if count > 0 {
        lemma_window_total(bytes, frames, settings, count - 1);
    }
}

} // verus!
