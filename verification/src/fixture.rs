//! `VPS1`: window-scoped model evidence handed to the streaming oracle.

use vstd::prelude::*;

use crate::ieee;
use crate::oracle;
use crate::oracle::{
    expected_window_lengths, read_f32_vec, read_f64, read_intrinsics, read_magic, read_u32,
    read_u8_vec, read_world_to_camera, CppPr2OracleError, CppPr2StreamBranches, OracleFault,
    FIXTURE_VERSION, LEGACY_FIXTURE_VERSION,
};
use crate::schedule;
use crate::schedule::WindowSettings;
use crate::wire;
use crate::wire::{put_bytes, put_u32, put_u32s, put_u64, ByteReader};

verus! {

/// One inferred view: calibration, depth, confidence and colour of a raster.
#[derive(Debug, Clone, PartialEq)]
pub struct CppPr2Frame {
    pub intrinsics: [u32; 9],
    /// Row-major world-to-camera 3x4 matrix.
    pub world_to_camera: [u32; 12],
    pub depth: Vec<u32>,
    pub confidence: Vec<u32>,
    pub rgb_hwc_u8: Vec<u8>,
}

/// The contents of a [`CppPr2Frame`].
#[verifier::ext_equal]
pub struct FrameModel {
    pub intrinsics: Seq<u32>,
    pub world_to_camera: Seq<u32>,
    pub depth: Seq<u32>,
    pub confidence: Seq<u32>,
    pub rgb: Seq<u8>,
}

impl View for CppPr2Frame {
    type V = FrameModel;

    open spec fn view(&self) -> FrameModel {
        FrameModel {
            intrinsics: self.intrinsics@,
            world_to_camera: self.world_to_camera@,
            depth: self.depth@,
            confidence: self.confidence@,
            rgb: self.rgb_hwc_u8@,
        }
    }
}

/// A complete fixture. Overlap views are repeated: each window is inferred on
/// its own.
#[derive(Debug, Clone, PartialEq)]
pub struct CppPr2Fixture {
    pub frame_count: usize,
    pub width: usize,
    pub height: usize,
    pub windows: WindowSettings,
    pub confidence_percentile: u64,
    pub point_size: u32,
    pub minimum_overlap_points: usize,
    pub branches: CppPr2StreamBranches,
    pub window_views: Vec<Vec<CppPr2Frame>>,
}

/// The contents of a [`CppPr2Fixture`].
#[verifier::ext_equal]
pub struct FixtureModel {
    pub frame_count: int,
    pub width: int,
    pub height: int,
    pub windows: WindowSettings,
    pub confidence_percentile: u64,
    pub point_size: u32,
    pub minimum_overlap_points: int,
    pub branches: CppPr2StreamBranches,
    pub window_views: Seq<Seq<FrameModel>>,
}

/// The contents of the views of one window.
pub open spec fn frames_model(views: Seq<CppPr2Frame>) -> Seq<FrameModel> {
    Seq::new(views.len(), |i: int| views[i]@)
}

/// The contents of the views of every window.
pub open spec fn windows_model(windows: Seq<Vec<CppPr2Frame>>) -> Seq<Seq<FrameModel>> {
    Seq::new(windows.len(), |k: int| frames_model(windows[k]@))
}

impl View for CppPr2Fixture {
    type V = FixtureModel;

    open spec fn view(&self) -> FixtureModel {
        FixtureModel {
            frame_count: self.frame_count as int,
            width: self.width as int,
            height: self.height as int,
            windows: self.windows,
            confidence_percentile: self.confidence_percentile,
            point_size: self.point_size,
            minimum_overlap_points: self.minimum_overlap_points as int,
            branches: self.branches,
            window_views: windows_model(self.window_views@),
        }
    }
}

/// A 3x3 intrinsics matrix and a 3x4 world-to-camera matrix.
pub open spec fn frame_shaped(frame: FrameModel) -> bool {
    frame.intrinsics.len() == 9 && frame.world_to_camera.len() == 12
}

/// A raster of `plane` pixels with finite evidence throughout.
pub open spec fn frame_sound(frame: FrameModel, plane: int) -> bool {
    &&& frame_shaped(frame)
    &&& frame.depth.len() == plane
    &&& frame.confidence.len() == plane
    &&& frame.rgb.len() == plane * 3
    &&& ieee::f32_all_finite(frame.intrinsics)
    &&& ieee::f32_all_finite(frame.world_to_camera)
    &&& ieee::f32_all_finite(frame.depth)
    &&& ieee::f32_all_finite(frame.confidence)
}

/// Every view of every window is sound.
pub open spec fn frames_sound(windows: Seq<Seq<FrameModel>>, plane: int) -> bool {
    forall|k: int, v: int|
        0 <= k < windows.len() && 0 <= v < windows[k].len() ==> frame_sound(
            #[trigger] windows[k][v],
            plane,
        )
}

impl FixtureModel {
    /// Pixels of one raster.
    pub open spec fn plane(self) -> int {
        self.width * self.height
    }

    /// Dimensions, schedule and parameters are in range and fit the format.
    pub open spec fn header_sound(self) -> bool {
        &&& self.plane() * 3 <= usize::MAX
        &&& self.frame_count > 0
        &&& self.windows.valid()
        &&& ieee::f64_finite(self.confidence_percentile)
        &&& ieee::f64_at_most(0, self.confidence_percentile)
        &&& ieee::f64_at_most(self.confidence_percentile, ieee::F64_HUNDRED)
        &&& ieee::f32_finite(self.point_size)
        &&& ieee::f32_less(0, self.point_size)
        &&& self.minimum_overlap_points <= u32::MAX
        &&& self.width <= u32::MAX
        &&& self.height <= u32::MAX
        &&& self.frame_count <= u32::MAX
        &&& self.window_views.len() <= u32::MAX
        &&& self.windows.chunk_size <= u32::MAX
        &&& self.windows.overlap <= u32::MAX
    }

    /// The windows hold as many views as the schedule says.
    pub open spec fn counts_sound(self) -> bool {
        let lengths = oracle::lengths_of(self.frame_count, self.windows);
        &&& self.window_views.len() == lengths.len()
        &&& forall|k: int|
            0 <= k < lengths.len() ==> (#[trigger] self.window_views[k]).len() == lengths[k]
    }

    /// The payload agrees with the header.
    pub open spec fn payload_sound(self) -> bool {
        self.counts_sound() && frames_sound(self.window_views, self.plane())
    }

    /// What a fixture must be to be written, and what a read one is.
    pub open spec fn sound(self) -> bool {
        self.header_sound() && self.payload_sound()
    }
}

/// Bytes of one view of a raster of `plane` pixels.
pub open spec fn frame_size(plane: int) -> int {
    84 + 11 * plane
}

/// The view that stands at a place of an artifact.
pub open spec fn frame_at(bytes: Seq<u8>, at: int, plane: int) -> FrameModel {
    FrameModel {
        intrinsics: wire::u32s_at(bytes, at, 9),
        world_to_camera: wire::u32s_at(bytes, at + 36, 12),
        depth: wire::u32s_at(bytes, at + 84, plane),
        confidence: wire::u32s_at(bytes, at + 84 + 4 * plane, plane),
        rgb: bytes.subrange(at + 84 + 8 * plane, at + 84 + 11 * plane),
    }
}

/// The first `count` views from a place on, and the place behind them.
pub open spec fn parse_frames(bytes: Seq<u8>, at: int, count: int, plane: int) -> Result<
    (Seq<FrameModel>, int),
    OracleFault,
>
    decreases count,
{
    if count <= 0 {
        Ok((Seq::empty(), at))
    } else {
        match parse_frames(bytes, at, count - 1, plane) {
            Err(fault) => Err(fault),
            Ok((frames, place)) => if bytes.len() < place + frame_size(plane) {
                Err(oracle::truncated())
            } else {
                Ok((frames.push(frame_at(bytes, place, plane)), place + frame_size(plane)))
            },
        }
    }
}

/// The first `count` windows from a place on, each led by its view count, and
/// the place behind them.
pub open spec fn parse_windows(
    bytes: Seq<u8>,
    at: int,
    lengths: Seq<int>,
    count: int,
    plane: int,
) -> Result<(Seq<Seq<FrameModel>>, int), OracleFault>
    decreases count,
{
    if count <= 0 {
        Ok((Seq::empty(), at))
    } else {
        match parse_windows(bytes, at, lengths, count - 1, plane) {
            Err(fault) => Err(fault),
            Ok((windows, place)) => if bytes.len() < place + 4 {
                Err(oracle::truncated())
            } else if wire::u32_at(bytes, place) != lengths[count - 1] {
                Err(OracleFault::InconsistentPayload)
            } else {
                match parse_frames(bytes, place + 4, lengths[count - 1], plane) {
                    Err(fault) => Err(fault),
                    Ok((frames, end)) => Ok((windows.push(frames), end)),
                }
            },
        }
    }
}

/// Bytes before the first window.
pub open spec fn header_size(version: u32) -> int {
    if version == FIXTURE_VERSION {
        52
    } else {
        48
    }
}

/// The header fields of an artifact, with no windows yet.
pub open spec fn header_at(bytes: Seq<u8>, version: u32) -> FixtureModel {
    FixtureModel {
        frame_count: wire::u32_at(bytes, 8) as int,
        height: wire::u32_at(bytes, 12) as int,
        width: wire::u32_at(bytes, 16) as int,
        windows: WindowSettings {
            chunk_size: wire::u32_at(bytes, 20) as usize,
            overlap: wire::u32_at(bytes, 24) as usize,
        },
        confidence_percentile: wire::u64_at(bytes, 28),
        point_size: wire::u32_at(bytes, 36),
        minimum_overlap_points: wire::u32_at(bytes, 40) as int,
        branches: if version == FIXTURE_VERSION {
            oracle::branches_of(wire::u32_at(bytes, 44))
        } else {
            oracle::no_branches()
        },
        window_views: Seq::empty(),
    }
}

/// The dimensions of a header admit a payload, and its window count is the
/// scheduled one.
pub open spec fn header_plausible(header: FixtureModel, window_count: int) -> bool {
    &&& header.frame_count > 0
    &&& header.width > 0
    &&& header.height > 0
    &&& oracle::lengths_of(header.frame_count, header.windows).len() == window_count
    &&& header.plane() * 3 <= usize::MAX
}

/// What a byte sequence is as a fixture.
pub open spec fn parse_vps1(bytes: Seq<u8>) -> Result<FixtureModel, OracleFault> {
    let version = wire::u32_at(bytes, 4);
    let header = header_at(bytes, version);
    let lengths = oracle::lengths_of(header.frame_count, header.windows);
    if bytes.len() < 4 {
        Err(oracle::truncated())
    } else if bytes.take(4) != oracle::fixture_magic() {
        Err(OracleFault::Magic)
    } else if bytes.len() < 8 {
        Err(oracle::truncated())
    } else if version != FIXTURE_VERSION && version != LEGACY_FIXTURE_VERSION {
        Err(OracleFault::Version(version))
    } else if version == FIXTURE_VERSION && bytes.len() >= 48 && wire::u32_at(bytes, 44) > 3 {
        Err(OracleFault::InvalidHeader)
    } else if bytes.len() < header_size(version) {
        Err(oracle::truncated())
    } else if !header_plausible(header, wire::u32_at(bytes, header_size(version) - 4) as int) {
        Err(OracleFault::InvalidHeader)
    } else {
        match parse_windows(
            bytes,
            header_size(version),
            lengths,
            lengths.len() as int,
            header.plane(),
        ) {
            Err(fault) => Err(fault),
            Ok((windows, end)) => {
                let fixture = FixtureModel { window_views: windows, ..header };
                if end < bytes.len() {
                    Err(OracleFault::TrailingBytes)
                } else if !fixture.header_sound() {
                    Err(OracleFault::InvalidHeader)
                } else if !fixture.payload_sound() {
                    Err(OracleFault::InconsistentPayload)
                } else {
                    Ok(fixture)
                }
            },
        }
    }
}

/// The bytes of one view.
pub open spec fn frame_bytes(frame: FrameModel) -> Seq<u8> {
    wire::u32s_bytes(frame.intrinsics) + wire::u32s_bytes(frame.world_to_camera)
        + wire::u32s_bytes(frame.depth) + wire::u32s_bytes(frame.confidence) + frame.rgb
}

/// The bytes of the first `count` views.
pub open spec fn frames_bytes(frames: Seq<FrameModel>, count: int) -> Seq<u8>
    decreases count,
{
    if count <= 0 {
        Seq::empty()
    } else {
        frames_bytes(frames, count - 1) + frame_bytes(frames[count - 1])
    }
}

/// The bytes of the first `count` windows.
pub open spec fn windows_bytes(windows: Seq<Seq<FrameModel>>, count: int) -> Seq<u8>
    decreases count,
{
    if count <= 0 {
        Seq::empty()
    } else {
        windows_bytes(windows, count - 1) + (wire::u32_bytes(windows[count - 1].len() as u32)
            + frames_bytes(windows[count - 1], windows[count - 1].len() as int))
    }
}

/// The header fields that both versions share.
pub open spec fn common_header_bytes(fixture: FixtureModel) -> Seq<u8> {
    wire::u32_bytes(fixture.frame_count as u32) + wire::u32_bytes(fixture.height as u32)
        + wire::u32_bytes(fixture.width as u32) + wire::u32_bytes(fixture.windows.chunk_size as u32)
        + wire::u32_bytes(fixture.windows.overlap as u32) + wire::u64_bytes(
        fixture.confidence_percentile,
    ) + wire::u32_bytes(fixture.point_size) + wire::u32_bytes(fixture.minimum_overlap_points as u32)
}

/// A fixture in the current version.
pub open spec fn encode_vps1(fixture: FixtureModel) -> Seq<u8> {
    oracle::fixture_magic() + wire::u32_bytes(FIXTURE_VERSION) + common_header_bytes(fixture)
        + wire::u32_bytes(oracle::branch_bits(fixture.branches)) + wire::u32_bytes(
        fixture.window_views.len() as u32,
    ) + windows_bytes(fixture.window_views, fixture.window_views.len() as int)
}

/// A fixture in the version that knew no optional phases.
pub open spec fn encode_legacy(fixture: FixtureModel) -> Seq<u8> {
    oracle::fixture_magic() + wire::u32_bytes(LEGACY_FIXTURE_VERSION) + common_header_bytes(fixture)
        + wire::u32_bytes(fixture.window_views.len() as u32) + windows_bytes(
        fixture.window_views,
        fixture.window_views.len() as int,
    )
}

proof fn lemma_frames_fault_persists(bytes: Seq<u8>, at: int, few: int, many: int, plane: int)
    requires
        few <= many,
        parse_frames(bytes, at, few, plane) is Err,
    ensures
        parse_frames(bytes, at, many, plane) == parse_frames(bytes, at, few, plane),
    decreases many,
{
    if few < many {
        lemma_frames_fault_persists(bytes, at, few, many - 1, plane);
    }
}

proof fn lemma_windows_fault_persists(
    bytes: Seq<u8>,
    at: int,
    lengths: Seq<int>,
    few: int,
    many: int,
    plane: int,
)
    requires
        few <= many,
        parse_windows(bytes, at, lengths, few, plane) is Err,
    ensures
        parse_windows(bytes, at, lengths, many, plane) == parse_windows(
            bytes,
            at,
            lengths,
            few,
            plane,
        ),
    decreases many,
{
    if few < many {
        lemma_windows_fault_persists(bytes, at, lengths, few, many - 1, plane);
    }
}

/// Reads one view.
fn read_frame(reader: &mut ByteReader<'_>, plane: usize) -> (result: Result<
    CppPr2Frame,
    CppPr2OracleError,
>)
    requires
        old(reader).valid(),
        plane * 3 <= usize::MAX,
    ensures
        final(reader).valid(),
        match result {
            Ok(frame) => {
                &&& old(reader).position + frame_size(plane as int) <= old(reader).bytes@.len()
                &&& frame@ == frame_at(
                    old(reader).bytes@,
                    old(reader).position as int,
                    plane as int,
                )
                &&& final(reader).advanced(*old(reader), frame_size(plane as int))
            },
            Err(e) => old(reader).position + frame_size(plane as int) > old(reader).bytes@.len()
                && e@ == oracle::truncated(),
        },
{
    let intrinsics = read_intrinsics(reader)?;
    let world_to_camera = read_world_to_camera(reader)?;
    let depth = read_f32_vec(reader, plane)?;
    let confidence = read_f32_vec(reader, plane)?;
    let rgb_hwc_u8 = read_u8_vec(reader, plane * 3)?;
    Ok(CppPr2Frame { intrinsics, world_to_camera, depth, confidence, rgb_hwc_u8 })
}

/// Reads `count` views.
fn read_frames(reader: &mut ByteReader<'_>, count: usize, plane: usize) -> (result: Result<
    Vec<CppPr2Frame>,
    CppPr2OracleError,
>)
    requires
        old(reader).valid(),
        plane * 3 <= usize::MAX,
    ensures
        final(reader).valid(),
        final(reader).bytes == old(reader).bytes || result is Err,
        match parse_frames(
            old(reader).bytes@,
            old(reader).position as int,
            count as int,
            plane as int,
        ) {
            Ok((frames, end)) => result matches Ok(views) && frames_model(views@) == frames
                && final(reader).position == end,
            Err(fault) => result matches Err(e) && e@ == fault,
        },
{
    let ghost start = *reader;
    let mut views: Vec<CppPr2Frame> = Vec::new();
    assert(frames_model(views@) =~= Seq::empty());
    for i in 0..count
        invariant
            start == *old(reader),
            reader.valid(),
            reader.bytes == start.bytes,
            plane * 3 <= usize::MAX,
            parse_frames(start.bytes@, start.position as int, i as int, plane as int) == Ok::<
                (Seq<FrameModel>, int),
                OracleFault,
            >((frames_model(views@), reader.position as int)),
    {
        let ghost place = reader.position as int;
        match read_frame(reader, plane) {
            Ok(frame) => {
                let ghost before = frames_model(views@);
                views.push(frame);
                assert(frames_model(views@) =~= before.push(
                    frame_at(start.bytes@, place, plane as int),
                ));
            },
            Err(e) => {
                proof {
                    lemma_frames_fault_persists(
                        start.bytes@,
                        start.position as int,
                        i + 1,
                        count as int,
                        plane as int,
                    );
                }
                return Err(e);
            },
        }
    }
    Ok(views)
}

impl CppPr2Fixture {
    /// Reads a complete fixture of either version. Every refusal names the
    /// first thing found wrong from the front of the artifact on.
    pub fn read_vps1(bytes: &[u8]) -> (result: Result<Self, CppPr2OracleError>)
        ensures
            match parse_vps1(bytes@) {
                Ok(model) => result matches Ok(fixture) && fixture@ == model,
                Err(fault) => result matches Err(e) && e@ == fault,
            },
    {
        let mut reader = ByteReader::new(bytes);
        read_magic(&mut reader, 0x56, 0x50, 0x53, 0x31)?;
        let version: u32 = read_u32(&mut reader)?;
        if version != FIXTURE_VERSION && version != LEGACY_FIXTURE_VERSION {
            return Err(CppPr2OracleError::Version(version));
        }
        let frame_count: usize = read_u32(&mut reader)? as usize;
        let height: usize = read_u32(&mut reader)? as usize;
        let width: usize = read_u32(&mut reader)? as usize;
        let chunk_size: usize = read_u32(&mut reader)? as usize;
        let overlap: usize = read_u32(&mut reader)? as usize;
        let confidence_percentile: u64 = read_f64(&mut reader)?;
        let point_size: u32 = crate::oracle::read_u32(&mut reader)?;
        let minimum_overlap_points: usize = read_u32(&mut reader)? as usize;
        let branches: CppPr2StreamBranches = if version == FIXTURE_VERSION {
            CppPr2StreamBranches::from_bits(read_u32(&mut reader)?)?
        } else {
            CppPr2StreamBranches { icp_refine: false, loop_close: false }
        };
        let window_count: usize = read_u32(&mut reader)? as usize;
        let windows = WindowSettings { chunk_size, overlap };
        let expected_lengths: Vec<usize> = expected_window_lengths(frame_count, windows);
        if frame_count == 0 || width == 0 || height == 0 || expected_lengths.len()
            != window_count {
            return Err(CppPr2OracleError::InvalidHeader);
        }
        let plane: usize = match width.checked_mul(height) {
            Some(plane) => plane,
            None => return Err(CppPr2OracleError::InvalidHeader),
        };
        if plane.checked_mul(3).is_none() {
            return Err(CppPr2OracleError::InvalidHeader);
        }
        let ghost lengths = oracle::lengths_of(frame_count as int, windows);
        let ghost first = reader.position as int;
        let mut window_views: Vec<Vec<CppPr2Frame>> = Vec::new();
        assert(windows_model(window_views@) =~= Seq::empty());
        for k in 0..expected_lengths.len()
            invariant
                reader.valid(),
                reader.bytes == bytes,
                plane * 3 <= usize::MAX,
                expected_lengths@.len() == lengths.len(),
                forall|j: int|
                    0 <= j < lengths.len() ==> #[trigger] expected_lengths@[j] == lengths[j],
                parse_windows(bytes@, first, lengths, k as int, plane as int) == Ok::<
                    (Seq<Seq<FrameModel>>, int),
                    OracleFault,
                >((windows_model(window_views@), reader.position as int)),
                parse_vps1(bytes@) matches Err(fault) ==> parse_windows(
                    bytes@,
                    first,
                    lengths,
                    lengths.len() as int,
                    plane as int,
                ) matches Err(other) ==> fault == other,
                parse_vps1(bytes@) is Ok ==> parse_windows(
                    bytes@,
                    first,
                    lengths,
                    lengths.len() as int,
                    plane as int,
                ) is Ok,
        {
            proof {
                if parse_windows(bytes@, first, lengths, k + 1, plane as int) is Err {
                    lemma_windows_fault_persists(
                        bytes@,
                        first,
                        lengths,
                        k + 1,
                        lengths.len() as int,
                        plane as int,
                    );
                }
            }
            let view_count: usize = read_u32(&mut reader)? as usize;
            if view_count != expected_lengths[k] {
                return Err(CppPr2OracleError::InconsistentPayload);
            }
            let views = read_frames(&mut reader, view_count, plane)?;
            let ghost before = windows_model(window_views@);
            window_views.push(views);
            assert(windows_model(window_views@) =~= before.push(frames_model(views@)));
        }
        if !reader.at_end() {
            return Err(CppPr2OracleError::TrailingBytes);
        }
        let fixture = CppPr2Fixture {
            frame_count,
            width,
            height,
            windows,
            confidence_percentile,
            point_size,
            minimum_overlap_points,
            branches,
            window_views,
        };
        fixture.validate()?;
        Ok(fixture)
    }

    /// Checks a fixture: first its header, then its payload.
    pub fn validate(&self) -> (result: Result<(), CppPr2OracleError>)
        ensures
            match result {
                Ok(_) => self@.sound(),
                Err(e) => if !self@.header_sound() {
                    e@ == OracleFault::InvalidHeader
                } else {
                    !self@.payload_sound() && e@ == OracleFault::InconsistentPayload
                },
            },
    {
        let ghost model = self@;
        let plane: usize = match self.width.checked_mul(self.height) {
            Some(plane) => plane,
            None => {
                assert(model.plane() * 3 > usize::MAX) by (nonlinear_arith)
                    requires
                        model.plane() > usize::MAX,
                ;
                return Err(CppPr2OracleError::InvalidHeader);
            },
        };
        let limit: usize = u32::MAX as usize;
        if self.frame_count == 0 || self.windows.chunk_size < 2 || self.windows.overlap
            >= self.windows.chunk_size || !ieee::f64_is_finite(self.confidence_percentile)
            || !ieee::f64_le(0, self.confidence_percentile) || !ieee::f64_le(
            self.confidence_percentile,
            ieee::F64_HUNDRED,
        ) || !ieee::f32_is_finite(self.point_size) || ieee::f32_le(self.point_size, 0)
            || self.minimum_overlap_points > limit || self.width > limit || self.height > limit
            || self.frame_count > limit || self.window_views.len() > limit
            || self.windows.chunk_size > limit || self.windows.overlap > limit
            || plane.checked_mul(3).is_none() {
            return Err(CppPr2OracleError::InvalidHeader);
        }
        assert(model.header_sound());
        let expected: Vec<usize> = expected_window_lengths(self.frame_count, self.windows);
        let ghost lengths = oracle::lengths_of(model.frame_count, model.windows);
        if self.window_views.len() != expected.len() {
            return Err(CppPr2OracleError::InconsistentPayload);
        }
        for k in 0..expected.len()
            invariant
                model == self@,
                self.window_views@.len() == expected@.len(),
                expected@.len() == lengths.len(),
                lengths == oracle::lengths_of(model.frame_count, model.windows),
                model.header_sound(),
                forall|j: int| 0 <= j < lengths.len() ==> #[trigger] expected@[j] == lengths[j],
                forall|j: int|
                    0 <= j < k ==> (#[trigger] model.window_views[j]).len() == lengths[j],
        {
            let ghost views = model.window_views[k as int];
            if self.window_views[k].len() != expected[k] {
                return Err(CppPr2OracleError::InconsistentPayload);
            }
        }
        for k in 0..self.window_views.len()
            invariant
                model == self@,
                plane == model.plane(),
                plane * 3 <= usize::MAX,
                model.header_sound(),
                model.counts_sound(),
                forall|j: int, v: int|
                    0 <= j < k && 0 <= v < model.window_views[j].len() ==> frame_sound(
                        #[trigger] model.window_views[j][v],
                        plane as int,
                    ),
        {
            let views: &Vec<CppPr2Frame> = &self.window_views[k];
            assert(model.window_views[k as int] == frames_model(views@));
            for v in 0..views.len()
                invariant
                    model == self@,
                    plane == model.plane(),
                    plane * 3 <= usize::MAX,
                    model.header_sound(),
                    k < model.window_views.len(),
                    model.window_views[k as int] == frames_model(views@),
                    forall|w: int|
                        0 <= w < v ==> frame_sound(
                            #[trigger] model.window_views[k as int][w],
                            plane as int,
                        ),
            {
                let frame: &CppPr2Frame = &views[v];
                assert(model.window_views[k as int][v as int] == frame@);
                if frame.depth.len() != plane || frame.confidence.len() != plane
                    || frame.rgb_hwc_u8.len() != plane * 3 || !ieee::f32s_are_finite(
                    &frame.intrinsics,
                ) || !ieee::f32s_are_finite(&frame.world_to_camera) || !ieee::f32s_are_finite(
                    frame.depth.as_slice(),
                ) || !ieee::f32s_are_finite(frame.confidence.as_slice()) {
                    assert(!frame_sound(model.window_views[k as int][v as int], plane as int));
                    return Err(CppPr2OracleError::InconsistentPayload);
                }
            }
        }
        Ok(())
    }

    /// Writes a fixture in the current version, or refuses it as
    /// [`CppPr2Fixture::validate`] does.
    pub fn write_vps1(&self) -> (result: Result<Vec<u8>, CppPr2OracleError>)
        ensures
            match result {
                Ok(bytes) => self@.sound() && bytes@ == encode_vps1(self@),
                Err(e) => if !self@.header_sound() {
                    e@ == OracleFault::InvalidHeader
                } else {
                    !self@.payload_sound() && e@ == OracleFault::InconsistentPayload
                },
            },
    {
        self.validate()?;
        let ghost model = self@;
        let mut out: Vec<u8> = Vec::new();
        put_bytes(&mut out, &[0x56, 0x50, 0x53, 0x31]);
        assert(out@ =~= oracle::fixture_magic());
        put_u32(&mut out, FIXTURE_VERSION);
        put_u32(&mut out, self.frame_count as u32);
        put_u32(&mut out, self.height as u32);
        put_u32(&mut out, self.width as u32);
        put_u32(&mut out, self.windows.chunk_size as u32);
        put_u32(&mut out, self.windows.overlap as u32);
        put_u64(&mut out, self.confidence_percentile);
        put_u32(&mut out, self.point_size);
        put_u32(&mut out, self.minimum_overlap_points as u32);
        assert(out@ =~= oracle::fixture_magic() + wire::u32_bytes(FIXTURE_VERSION)
            + common_header_bytes(model));
        put_u32(&mut out, self.branches.bits());
        put_u32(&mut out, self.window_views.len() as u32);
        let ghost head = out@;
        for k in 0..self.window_views.len()
            invariant
                model == self@,
                model.sound(),
                out@ == head + windows_bytes(model.window_views, k as int),
        {
            let views: &Vec<CppPr2Frame> = &self.window_views[k];
            let ghost frames = model.window_views[k as int];
            assert(frames == frames_model(views@));
            let ghost lead = out@ + wire::u32_bytes(frames.len() as u32);
            put_u32(&mut out, views.len() as u32);
            assert(lead =~= lead + frames_bytes(frames, 0));
            for v in 0..views.len()
                invariant
                    frames == frames_model(views@),
                    out@ == lead + frames_bytes(frames, v as int),
            {
                let frame: &CppPr2Frame = &views[v];
                assert(frames[v as int] == frame@);
                let ghost before = out@;
                put_u32s(&mut out, &frame.intrinsics);
                put_u32s(&mut out, &frame.world_to_camera);
                put_u32s(&mut out, frame.depth.as_slice());
                put_u32s(&mut out, frame.confidence.as_slice());
                put_bytes(&mut out, frame.rgb_hwc_u8.as_slice());
                assert(out@ =~= before + frame_bytes(frame@));
                assert(out@ =~= lead + frames_bytes(frames, v + 1));
            }
            assert(out@ =~= head + windows_bytes(model.window_views, k + 1));
        }
        assert(out@ =~= encode_vps1(model));
        Ok(out)
    }
}

proof fn lemma_frame_round_trip(bytes: Seq<u8>, at: int, frame: FrameModel, plane: int)
    requires
        0 <= at,
        0 <= plane,
        at + frame_size(plane) <= bytes.len(),
        frame_shaped(frame),
        frame.depth.len() == plane,
        frame.confidence.len() == plane,
        frame.rgb.len() == plane * 3,
        bytes.subrange(at, at + frame_size(plane)) == frame_bytes(frame),
    ensures
        frame_at(bytes, at, plane) == frame,
{
    let whole = frame_bytes(frame);
    assert forall|from: int, to: int|
        0 <= from <= to <= frame_size(plane) implies #[trigger] bytes.subrange(at + from, at + to)
        == whole.subrange(from, to) by {
        assert(bytes.subrange(at + from, at + to) =~= whole.subrange(from, to));
    }
    assert(whole.subrange(0, 36) =~= wire::u32s_bytes(frame.intrinsics));
    assert(whole.subrange(36, 84) =~= wire::u32s_bytes(frame.world_to_camera));
    assert(whole.subrange(84, 84 + 4 * plane) =~= wire::u32s_bytes(frame.depth));
    assert(whole.subrange(84 + 4 * plane, 84 + 8 * plane) =~= wire::u32s_bytes(frame.confidence));
    assert(whole.subrange(84 + 8 * plane, 84 + 11 * plane) =~= frame.rgb);
    assert(bytes.subrange(at + 0, at + 36) == whole.subrange(0, 36));
    assert(bytes.subrange(at + 36, at + 84) == whole.subrange(36, 84));
    assert(bytes.subrange(at + 84, at + (84 + 4 * plane)) == whole.subrange(84, 84 + 4 * plane));
    assert(bytes.subrange(at + (84 + 4 * plane), at + (84 + 8 * plane)) == whole.subrange(
        84 + 4 * plane,
        84 + 8 * plane,
    ));
    assert(bytes.subrange(at + (84 + 8 * plane), at + (84 + 11 * plane)) == whole.subrange(
        84 + 8 * plane,
        84 + 11 * plane,
    ));
    wire::lemma_u32s_round_trip(bytes, at, frame.intrinsics);
    wire::lemma_u32s_round_trip(bytes, at + 36, frame.world_to_camera);
    wire::lemma_u32s_round_trip(bytes, at + 84, frame.depth);
    wire::lemma_u32s_round_trip(bytes, at + 84 + 4 * plane, frame.confidence);
    assert(frame_at(bytes, at, plane) =~= frame);
}

proof fn lemma_frame_bytes_at(bytes: Seq<u8>, at: int, plane: int)
    requires
        0 <= at,
        0 <= plane,
        at + frame_size(plane) <= bytes.len(),
    ensures
        bytes.subrange(at, at + frame_size(plane)) == frame_bytes(frame_at(bytes, at, plane)),
{
    wire::lemma_u32s_bytes_at(bytes, at, 9);
    wire::lemma_u32s_bytes_at(bytes, at + 36, 12);
    wire::lemma_u32s_bytes_at(bytes, at + 84, plane);
    wire::lemma_u32s_bytes_at(bytes, at + 84 + 4 * plane, plane);
    assert(bytes.subrange(at, at + frame_size(plane)) =~= bytes.subrange(at, at + 36)
        + bytes.subrange(at + 36, at + 84) + bytes.subrange(at + 84, at + 84 + 4 * plane)
        + bytes.subrange(at + 84 + 4 * plane, at + 84 + 8 * plane) + bytes.subrange(
        at + 84 + 8 * plane,
        at + 84 + 11 * plane,
    ));
}

proof fn lemma_frame_at_prefix(bytes: Seq<u8>, more: Seq<u8>, at: int, plane: int)
    requires
        0 <= at,
        0 <= plane,
        at + frame_size(plane) <= bytes.len(),
    ensures
        frame_at(bytes + more, at, plane) == frame_at(bytes, at, plane),
{
    lemma_frame_bytes_at(bytes, at, plane);
    assert((bytes + more).subrange(at, at + frame_size(plane)) =~= bytes.subrange(
        at,
        at + frame_size(plane),
    ));
    lemma_frame_round_trip(bytes + more, at, frame_at(bytes, at, plane), plane);
}

/// Every view of a list has the shape of a raster of `plane` pixels.
spec fn frames_shaped(frames: Seq<FrameModel>, plane: int) -> bool {
    forall|v: int| #![trigger frames[v]]
        0 <= v < frames.len() ==> {
            &&& frame_shaped(frames[v])
            &&& frames[v].depth.len() == plane
            &&& frames[v].confidence.len() == plane
            &&& frames[v].rgb.len() == plane * 3
        }
}

proof fn lemma_frames_round_trip(
    bytes: Seq<u8>,
    at: int,
    frames: Seq<FrameModel>,
    count: int,
    plane: int,
)
    requires
        0 <= at,
        0 <= plane,
        0 <= count <= frames.len(),
        frames_shaped(frames, plane),
        at + frames_bytes(frames, count).len() <= bytes.len(),
        bytes.subrange(at, at + frames_bytes(frames, count).len()) == frames_bytes(frames, count),
    ensures
        parse_frames(bytes, at, count, plane) == Ok::<(Seq<FrameModel>, int), OracleFault>(
            (frames.take(count), at + frames_bytes(frames, count).len()),
        ),
    decreases count,
{
    if count == 0 {
        assert(frames.take(0) =~= Seq::empty());
    } else {
        let head = frames_bytes(frames, count - 1);
        let last = frame_bytes(frames[count - 1]);
        let place = at + head.len();
        let whole = bytes.subrange(at, at + frames_bytes(frames, count).len());
        assert(last.len() == frame_size(plane));
        assert(bytes.subrange(at, place) =~= whole.subrange(0, head.len() as int));
        assert(bytes.subrange(at, place) =~= head);
        assert(bytes.subrange(place, place + frame_size(plane)) =~= whole.subrange(
            head.len() as int,
            whole.len() as int,
        ));
        assert(bytes.subrange(place, place + frame_size(plane)) =~= last);
        lemma_frames_round_trip(bytes, at, frames, count - 1, plane);
        lemma_frame_round_trip(bytes, place, frames[count - 1], plane);
        assert(frames.take(count) =~= frames.take(count - 1).push(frames[count - 1]));
    }
}

proof fn lemma_frames_unique(bytes: Seq<u8>, at: int, count: int, plane: int)
    requires
        0 <= at <= bytes.len(),
        0 <= plane,
        0 <= count,
        parse_frames(bytes, at, count, plane) is Ok,
    ensures
        ({
            let (frames, end) = parse_frames(bytes, at, count, plane)->Ok_0;
            &&& at <= end <= bytes.len()
            &&& frames.len() == count
            &&& frames_shaped(frames, plane)
            &&& bytes.subrange(at, end) == frames_bytes(frames, count)
        }),
    decreases count,
{
    let (frames, end) = parse_frames(bytes, at, count, plane)->Ok_0;
    if count == 0 {
        assert(bytes.subrange(at, end) =~= Seq::empty());
    } else {
        lemma_frames_unique(bytes, at, count - 1, plane);
        let (head, place) = parse_frames(bytes, at, count - 1, plane)->Ok_0;
        lemma_frame_bytes_at(bytes, place, plane);
        lemma_frames_bytes_prefix(frames, head, count - 1);
        assert(bytes.subrange(at, end) =~= bytes.subrange(at, place) + bytes.subrange(place, end));
    }
}

proof fn lemma_frames_bytes_prefix(a: Seq<FrameModel>, b: Seq<FrameModel>, count: int)
    requires
        count <= a.len(),
        count <= b.len(),
        forall|i: int| 0 <= i < count ==> #[trigger] a[i] == b[i],
    ensures
        frames_bytes(a, count) == frames_bytes(b, count),
    decreases count,
{
    if count > 0 {
        lemma_frames_bytes_prefix(a, b, count - 1);
    }
}

proof fn lemma_frames_extended(bytes: Seq<u8>, more: Seq<u8>, at: int, count: int, plane: int)
    requires
        0 <= at <= bytes.len(),
        0 <= plane,
        0 <= count,
        parse_frames(bytes, at, count, plane) is Ok,
    ensures
        parse_frames(bytes + more, at, count, plane) == parse_frames(bytes, at, count, plane),
    decreases count,
{
    if count > 0 {
        lemma_frames_extended(bytes, more, at, count - 1, plane);
        lemma_frames_unique(bytes, at, count - 1, plane);
        let (head, place) = parse_frames(bytes, at, count - 1, plane)->Ok_0;
        lemma_frame_at_prefix(bytes, more, place, plane);
    }
}

proof fn lemma_windows_round_trip(
    bytes: Seq<u8>,
    at: int,
    windows: Seq<Seq<FrameModel>>,
    lengths: Seq<int>,
    count: int,
    plane: int,
)
    requires
        0 <= at,
        0 <= plane,
        0 <= count <= windows.len(),
        windows.len() == lengths.len(),
        forall|k: int| #![trigger windows[k]]
            0 <= k < windows.len() ==> {
                &&& windows[k].len() == lengths[k]
                &&& lengths[k] <= u32::MAX
                &&& frames_shaped(windows[k], plane)
            },
        at + windows_bytes(windows, count).len() <= bytes.len(),
        bytes.subrange(at, at + windows_bytes(windows, count).len()) == windows_bytes(
            windows,
            count,
        ),
    ensures
        parse_windows(bytes, at, lengths, count, plane) == Ok::<
            (Seq<Seq<FrameModel>>, int),
            OracleFault,
        >((windows.take(count), at + windows_bytes(windows, count).len())),
    decreases count,
{
    if count == 0 {
        assert(windows.take(0) =~= Seq::empty());
    } else {
        let head = windows_bytes(windows, count - 1);
        let frames = windows[count - 1];
        let lead = wire::u32_bytes(frames.len() as u32);
        let body = frames_bytes(frames, frames.len() as int);
        let place = at + head.len();
        let whole = bytes.subrange(at, at + windows_bytes(windows, count).len());
        assert(bytes.subrange(at, place) =~= whole.subrange(0, head.len() as int));
        assert(bytes.subrange(at, place) =~= head);
        assert(bytes.subrange(place, place + 4) =~= whole.subrange(
            head.len() as int,
            (head.len() + 4) as int,
        ));
        assert(bytes.subrange(place, place + 4) =~= lead);
        assert(bytes.subrange(place + 4, place + 4 + body.len()) =~= whole.subrange(
            (head.len() + 4) as int,
            whole.len() as int,
        ));
        assert(bytes.subrange(place + 4, place + 4 + body.len()) =~= body);
        lemma_windows_round_trip(bytes, at, windows, lengths, count - 1, plane);
        wire::lemma_u32_placed(bytes, place, frames.len() as u32);
        lemma_frames_round_trip(bytes, place + 4, frames, frames.len() as int, plane);
        assert(frames.take(frames.len() as int) =~= frames);
        assert(windows.take(count) =~= windows.take(count - 1).push(frames));
    }
}

proof fn lemma_windows_bytes_prefix(
    a: Seq<Seq<FrameModel>>,
    b: Seq<Seq<FrameModel>>,
    count: int,
)
    requires
        count <= a.len(),
        count <= b.len(),
        forall|i: int| 0 <= i < count ==> #[trigger] a[i] == b[i],
    ensures
        windows_bytes(a, count) == windows_bytes(b, count),
    decreases count,
{
    if count > 0 {
        lemma_windows_bytes_prefix(a, b, count - 1);
    }
}

proof fn lemma_windows_unique(
    bytes: Seq<u8>,
    at: int,
    lengths: Seq<int>,
    count: int,
    plane: int,
)
    requires
        0 <= at <= bytes.len(),
        0 <= plane,
        0 <= count <= lengths.len(),
        forall|k: int| 0 <= k < lengths.len() ==> #[trigger] lengths[k] >= 0,
        parse_windows(bytes, at, lengths, count, plane) is Ok,
    ensures
        ({
            let (windows, end) = parse_windows(bytes, at, lengths, count, plane)->Ok_0;
            &&& at <= end <= bytes.len()
            &&& windows.len() == count
            &&& forall|k: int|
                0 <= k < count ==> (#[trigger] windows[k]).len() == lengths[k] && frames_shaped(
                    windows[k],
                    plane,
                )
            &&& bytes.subrange(at, end) == windows_bytes(windows, count)
        }),
    decreases count,
{
    let (windows, end) = parse_windows(bytes, at, lengths, count, plane)->Ok_0;
    if count == 0 {
        assert(bytes.subrange(at, end) =~= Seq::empty());
    } else {
        lemma_windows_unique(bytes, at, lengths, count - 1, plane);
        let (head, place) = parse_windows(bytes, at, lengths, count - 1, plane)->Ok_0;
        lemma_frames_unique(bytes, place + 4, lengths[count - 1], plane);
        wire::lemma_u32_bytes_at(bytes, place);
        lemma_windows_bytes_prefix(windows, head, count - 1);
        let frames = windows[count - 1];
        assert(frames.len() as u32 == wire::u32_at(bytes, place));
        assert(bytes.subrange(at, end) =~= bytes.subrange(at, place) + (bytes.subrange(
            place,
            place + 4,
        ) + bytes.subrange(place + 4, end)));
    }
}

proof fn lemma_windows_extended(
    bytes: Seq<u8>,
    more: Seq<u8>,
    at: int,
    lengths: Seq<int>,
    count: int,
    plane: int,
)
    requires
        0 <= at <= bytes.len(),
        0 <= plane,
        0 <= count <= lengths.len(),
        forall|k: int| 0 <= k < lengths.len() ==> #[trigger] lengths[k] >= 0,
        parse_windows(bytes, at, lengths, count, plane) is Ok,
    ensures
        parse_windows(bytes + more, at, lengths, count, plane) == parse_windows(
            bytes,
            at,
            lengths,
            count,
            plane,
        ),
    decreases count,
{
    if count > 0 {
        lemma_windows_extended(bytes, more, at, lengths, count - 1, plane);
        lemma_windows_unique(bytes, at, lengths, count - 1, plane);
        let (head, place) = parse_windows(bytes, at, lengths, count - 1, plane)->Ok_0;
        wire::lemma_u32_at_frame(bytes + more, place, bytes, place);
        lemma_frames_extended(bytes, more, place + 4, lengths[count - 1], plane);
    }
}

proof fn lemma_lengths_bounded(frame_count: int, settings: WindowSettings)
    requires
        frame_count > 0,
        settings.valid(),
    ensures
        forall|k: int| #![trigger oracle::lengths_of(frame_count, settings)[k]]
            0 <= k < oracle::lengths_of(frame_count, settings).len() ==> 0
                <= oracle::lengths_of(frame_count, settings)[k] <= frame_count,
{
    let lengths = oracle::lengths_of(frame_count, settings);
    let step = settings.step();
    assert forall|k: int| #![trigger lengths[k]] 0 <= k < lengths.len() implies 0 <= lengths[k]
        <= frame_count by {
        assert(k * step >= 0) by (nonlinear_arith)
            requires
                k >= 0,
                step > 0,
        ;
        if k > 0 {
            schedule::lemma_terminal_window(k - 1, frame_count, settings);
            assert(k * step == (k - 1) * step + step) by (nonlinear_arith);
        }
    }
}

/// The fields behind the version of either artifact, read from its bytes.
proof fn lemma_common_header(bytes: Seq<u8>, fixture: FixtureModel)
    requires
        fixture.header_sound(),
        fixture.width >= 0,
        fixture.height >= 0,
        fixture.minimum_overlap_points >= 0,
        bytes.len() >= 44,
        bytes.subrange(8, 44) == common_header_bytes(fixture),
    ensures
        wire::u32_at(bytes, 8) == fixture.frame_count,
        wire::u32_at(bytes, 12) == fixture.height,
        wire::u32_at(bytes, 16) == fixture.width,
        wire::u32_at(bytes, 20) == fixture.windows.chunk_size,
        wire::u32_at(bytes, 24) == fixture.windows.overlap,
        wire::u64_at(bytes, 28) == fixture.confidence_percentile,
        wire::u32_at(bytes, 36) == fixture.point_size,
        wire::u32_at(bytes, 40) == fixture.minimum_overlap_points,
{
    let common = common_header_bytes(fixture);
    assert forall|from: int, to: int| 8 <= from <= to <= 44 implies #[trigger] bytes.subrange(
        from,
        to,
    ) == common.subrange(from - 8, to - 8) by {
        assert(bytes.subrange(from, to) =~= common.subrange(from - 8, to - 8));
    }
    assert(common.subrange(0, 4) =~= wire::u32_bytes(fixture.frame_count as u32));
    assert(common.subrange(4, 8) =~= wire::u32_bytes(fixture.height as u32));
    assert(common.subrange(8, 12) =~= wire::u32_bytes(fixture.width as u32));
    assert(common.subrange(12, 16) =~= wire::u32_bytes(fixture.windows.chunk_size as u32));
    assert(common.subrange(16, 20) =~= wire::u32_bytes(fixture.windows.overlap as u32));
    assert(common.subrange(20, 28) =~= wire::u64_bytes(fixture.confidence_percentile));
    assert(common.subrange(28, 32) =~= wire::u32_bytes(fixture.point_size));
    assert(common.subrange(32, 36) =~= wire::u32_bytes(fixture.minimum_overlap_points as u32));
    assert(bytes.subrange(8, 12) == common.subrange(0, 4));
    assert(bytes.subrange(12, 16) == common.subrange(4, 8));
    assert(bytes.subrange(16, 20) == common.subrange(8, 12));
    assert(bytes.subrange(20, 24) == common.subrange(12, 16));
    assert(bytes.subrange(24, 28) == common.subrange(16, 20));
    assert(bytes.subrange(28, 36) == common.subrange(20, 28));
    assert(bytes.subrange(36, 40) == common.subrange(28, 32));
    assert(bytes.subrange(40, 44) == common.subrange(32, 36));
    wire::lemma_u32_placed(bytes, 8, fixture.frame_count as u32);
    wire::lemma_u32_placed(bytes, 12, fixture.height as u32);
    wire::lemma_u32_placed(bytes, 16, fixture.width as u32);
    wire::lemma_u32_placed(bytes, 20, fixture.windows.chunk_size as u32);
    wire::lemma_u32_placed(bytes, 24, fixture.windows.overlap as u32);
    wire::lemma_u64_placed(bytes, 28, fixture.confidence_percentile);
    wire::lemma_u32_placed(bytes, 36, fixture.point_size);
    wire::lemma_u32_placed(bytes, 40, fixture.minimum_overlap_points as u32);
}

/// What the windows of a sound fixture contribute to its artifact, from their
/// place on, is read back as the windows.
proof fn lemma_payload_round_trip(bytes: Seq<u8>, at: int, fixture: FixtureModel)
    requires
        fixture.sound(),
        fixture.width > 0,
        fixture.height > 0,
        0 <= at <= bytes.len(),
        bytes.subrange(at, bytes.len() as int) == windows_bytes(
            fixture.window_views,
            fixture.window_views.len() as int,
        ),
    ensures
        ({
            let lengths = oracle::lengths_of(fixture.frame_count, fixture.windows);
            parse_windows(bytes, at, lengths, lengths.len() as int, fixture.plane()) == Ok::<
                (Seq<Seq<FrameModel>>, int),
                OracleFault,
            >((fixture.window_views, bytes.len() as int))
        }),
{
    let plane = fixture.plane();
    assert(plane >= 0) by (nonlinear_arith)
        requires
            plane == fixture.width * fixture.height,
            fixture.width > 0,
            fixture.height > 0,
    ;
    let windows = fixture.window_views;
    let lengths = oracle::lengths_of(fixture.frame_count, fixture.windows);
    lemma_lengths_bounded(fixture.frame_count, fixture.windows);
    assert forall|k: int| #![trigger windows[k]] 0 <= k < windows.len() implies {
        &&& windows[k].len() == lengths[k]
        &&& lengths[k] <= u32::MAX
        &&& frames_shaped(windows[k], plane)
    } by {
        assert(lengths[k] <= fixture.frame_count);
        assert forall|v: int| #![trigger windows[k][v]] 0 <= v < windows[k].len() implies {
            &&& frame_shaped(windows[k][v])
            &&& windows[k][v].depth.len() == plane
            &&& windows[k][v].confidence.len() == plane
            &&& windows[k][v].rgb.len() == plane * 3
        } by {
            assert(frame_sound(windows[k][v], plane));
        }
    }
    lemma_windows_round_trip(bytes, at, windows, lengths, windows.len() as int, plane);
    assert(windows.take(windows.len() as int) =~= windows);
}

/// Reading what was written gives the fixture back, with its branches.
pub proof fn law_vps1_round_trip(fixture: FixtureModel)
    requires
        fixture.sound(),
        fixture.width > 0,
        fixture.height > 0,
        fixture.minimum_overlap_points >= 0,
    ensures
        parse_vps1(encode_vps1(fixture)) == Ok::<FixtureModel, OracleFault>(fixture),
{
    let bytes = encode_vps1(fixture);
    let count = fixture.window_views.len() as u32;
    assert(bytes.take(4) =~= oracle::fixture_magic());
    assert(bytes.subrange(4, 8) =~= wire::u32_bytes(FIXTURE_VERSION));
    assert(bytes.subrange(8, 44) =~= common_header_bytes(fixture));
    assert(bytes.subrange(44, 48) =~= wire::u32_bytes(oracle::branch_bits(fixture.branches)));
    assert(bytes.subrange(48, 52) =~= wire::u32_bytes(count));
    assert(bytes.subrange(52, bytes.len() as int) =~= windows_bytes(
        fixture.window_views,
        fixture.window_views.len() as int,
    ));
    wire::lemma_u32_placed(bytes, 4, FIXTURE_VERSION);
    wire::lemma_u32_placed(bytes, 44, oracle::branch_bits(fixture.branches));
    wire::lemma_u32_placed(bytes, 48, count);
    lemma_common_header(bytes, fixture);
    lemma_payload_round_trip(bytes, 52, fixture);
    let header = header_at(bytes, FIXTURE_VERSION);
    assert(FixtureModel { window_views: fixture.window_views, ..header } =~= fixture);
}

/// An artifact of the version without branches reads as the same fixture with
/// no optional phase.
#[verifier::rlimit(40)]
pub proof fn law_legacy_artifact_has_no_branches(fixture: FixtureModel)
    requires
        fixture.sound(),
        fixture.width > 0,
        fixture.height > 0,
        fixture.minimum_overlap_points >= 0,
    ensures
        parse_vps1(encode_legacy(fixture)) == Ok::<FixtureModel, OracleFault>(
            FixtureModel { branches: oracle::no_branches(), ..fixture },
        ),
{
    let bytes = encode_legacy(fixture);
    let count = fixture.window_views.len() as u32;
    let plain = FixtureModel { branches: oracle::no_branches(), ..fixture };
    assert(bytes.take(4) =~= oracle::fixture_magic());
    assert(bytes.subrange(4, 8) =~= wire::u32_bytes(LEGACY_FIXTURE_VERSION));
    assert(bytes.subrange(8, 44) =~= common_header_bytes(fixture));
    assert(bytes.subrange(44, 48) =~= wire::u32_bytes(count));
    assert(bytes.subrange(48, bytes.len() as int) =~= windows_bytes(
        fixture.window_views,
        fixture.window_views.len() as int,
    ));
    wire::lemma_u32_placed(bytes, 4, LEGACY_FIXTURE_VERSION);
    wire::lemma_u32_placed(bytes, 44, count);
    lemma_common_header(bytes, fixture);
    lemma_payload_round_trip(bytes, 48, fixture);
    let header = header_at(bytes, LEGACY_FIXTURE_VERSION);
    assert(FixtureModel { window_views: fixture.window_views, ..header } =~= plain);
}

/// The reader accepts nothing but what a writer of one of the two versions
/// produces: an accepted artifact is the encoding of the fixture it reads as.
pub proof fn law_vps1_accepts_only_encodings(bytes: Seq<u8>)
    requires
        parse_vps1(bytes) is Ok,
    ensures
        ({
            let fixture = parse_vps1(bytes)->Ok_0;
            &&& fixture.sound()
            &&& bytes == encode_vps1(fixture) || bytes == encode_legacy(fixture)
        }),
{
    let fixture = parse_vps1(bytes)->Ok_0;
    let version = wire::u32_at(bytes, 4);
    let size = header_size(version);
    let lengths = oracle::lengths_of(fixture.frame_count, fixture.windows);
    let plane = fixture.plane();
    assert(plane >= 0) by (nonlinear_arith)
        requires
            plane == fixture.width * fixture.height,
            fixture.width > 0,
            fixture.height > 0,
    ;
    lemma_lengths_bounded(fixture.frame_count, fixture.windows);
    lemma_windows_unique(bytes, size, lengths, lengths.len() as int, plane);
    wire::lemma_u32_bytes_at(bytes, 4);
    wire::lemma_u32_bytes_at(bytes, 8);
    wire::lemma_u32_bytes_at(bytes, 12);
    wire::lemma_u32_bytes_at(bytes, 16);
    wire::lemma_u32_bytes_at(bytes, 20);
    wire::lemma_u32_bytes_at(bytes, 24);
    wire::lemma_u64_bytes_at(bytes, 28);
    wire::lemma_u32_bytes_at(bytes, 36);
    wire::lemma_u32_bytes_at(bytes, 40);
    wire::lemma_u32_bytes_at(bytes, size - 4);
    let common = common_header_bytes(fixture);
    assert(bytes.subrange(8, 44) =~= common) by {
        assert(bytes.subrange(8, 44) =~= bytes.subrange(8, 12) + bytes.subrange(12, 16)
            + bytes.subrange(16, 20) + bytes.subrange(20, 24) + bytes.subrange(24, 28)
            + bytes.subrange(28, 36) + bytes.subrange(36, 40) + bytes.subrange(40, 44));
    }
    let payload = bytes.subrange(size, bytes.len() as int);
    assert(payload == windows_bytes(fixture.window_views, fixture.window_views.len() as int));
    if version == FIXTURE_VERSION {
        wire::lemma_u32_bytes_at(bytes, 44);
        assert(oracle::branch_bits(fixture.branches) == wire::u32_at(bytes, 44));
        assert(bytes =~= bytes.take(4) + bytes.subrange(4, 8) + bytes.subrange(8, 44)
            + bytes.subrange(44, 48) + bytes.subrange(48, 52) + payload);
        assert(bytes =~= encode_vps1(fixture));
    } else {
        assert(bytes =~= bytes.take(4) + bytes.subrange(4, 8) + bytes.subrange(8, 44)
            + bytes.subrange(44, 48) + payload);
        assert(bytes =~= encode_legacy(fixture));
    }
}

/// An accepted artifact with anything appended is refused for its trailing
/// bytes.
pub proof fn law_appended_artifact_is_refused(bytes: Seq<u8>, more: Seq<u8>)
    requires
        parse_vps1(bytes) is Ok,
        more.len() > 0,
    ensures
        parse_vps1(bytes + more) == Err::<FixtureModel, OracleFault>(OracleFault::TrailingBytes),
{
    let fixture = parse_vps1(bytes)->Ok_0;
    let longer = bytes + more;
    let version = wire::u32_at(bytes, 4);
    let size = header_size(version);
    let lengths = oracle::lengths_of(fixture.frame_count, fixture.windows);
    let plane = fixture.plane();
    assert(plane >= 0) by (nonlinear_arith)
        requires
            plane == fixture.width * fixture.height,
            fixture.width > 0,
            fixture.height > 0,
    ;
    lemma_lengths_bounded(fixture.frame_count, fixture.windows);
    lemma_windows_unique(bytes, size, lengths, lengths.len() as int, plane);
    lemma_windows_extended(bytes, more, size, lengths, lengths.len() as int, plane);
    assert(longer.take(4) =~= bytes.take(4));
    assert forall|at: int| 0 <= at && at + 4 <= bytes.len() implies #[trigger] wire::u32_at(
        longer,
        at,
    ) == wire::u32_at(bytes, at) by {
        wire::lemma_u32_at_frame(longer, at, bytes, at);
    }
    assert(wire::u32_at(longer, 4) == version);
    assert(wire::u64_at(longer, 28) == wire::u64_at(bytes, 28));
    assert(header_at(longer, version) =~= header_at(bytes, version));
    assert(wire::u32_at(longer, size - 4) == wire::u32_at(bytes, size - 4));
}

/// The views of a prefix are those of the whole, or it ends before them.
proof fn lemma_frames_truncated(bytes: Seq<u8>, length: int, at: int, count: int, plane: int)
    requires
        0 <= at <= length <= bytes.len(),
        0 <= plane,
        0 <= count,
        parse_frames(bytes, at, count, plane) is Ok,
    ensures
        parse_frames(bytes.take(length), at, count, plane) == parse_frames(bytes, at, count, plane)
            || parse_frames(bytes.take(length), at, count, plane) == Err::<
            (Seq<FrameModel>, int),
            OracleFault,
        >(oracle::truncated()),
    decreases count,
{
    let prefix = bytes.take(length);
    if count > 0 {
        lemma_frames_truncated(bytes, length, at, count - 1, plane);
        if parse_frames(prefix, at, count - 1, plane) is Ok {
            let (head, place) = parse_frames(bytes, at, count - 1, plane)->Ok_0;
            lemma_frames_unique(bytes, at, count - 1, plane);
            if prefix.len() >= place + frame_size(plane) {
                lemma_frame_at_prefix(prefix, bytes.skip(length), place, plane);
                assert(prefix + bytes.skip(length) =~= bytes);
            }
        }
    }
}

/// The windows of a prefix are those of the whole, or it ends before them.
proof fn lemma_windows_truncated(
    bytes: Seq<u8>,
    length: int,
    at: int,
    lengths: Seq<int>,
    count: int,
    plane: int,
)
    requires
        0 <= at <= length <= bytes.len(),
        0 <= plane,
        0 <= count <= lengths.len(),
        forall|k: int| 0 <= k < lengths.len() ==> #[trigger] lengths[k] >= 0,
        parse_windows(bytes, at, lengths, count, plane) is Ok,
    ensures
        parse_windows(bytes.take(length), at, lengths, count, plane) == parse_windows(
            bytes,
            at,
            lengths,
            count,
            plane,
        ) || parse_windows(bytes.take(length), at, lengths, count, plane) == Err::<
            (Seq<Seq<FrameModel>>, int),
            OracleFault,
        >(oracle::truncated()),
    decreases count,
{
    let prefix = bytes.take(length);
    if count > 0 {
        lemma_windows_truncated(bytes, length, at, lengths, count - 1, plane);
        if parse_windows(prefix, at, lengths, count - 1, plane) is Ok {
            lemma_windows_unique(bytes, at, lengths, count - 1, plane);
            let (head, place) = parse_windows(bytes, at, lengths, count - 1, plane)->Ok_0;
            if prefix.len() >= place + 4 {
                wire::lemma_u32_at_frame(prefix, place, bytes, place);
                lemma_frames_truncated(bytes, length, place + 4, lengths[count - 1], plane);
            }
        }
    }
}

/// A proper prefix of an accepted artifact is refused as truncated.
pub proof fn law_truncated_artifact_is_refused(bytes: Seq<u8>, length: int)
    requires
        parse_vps1(bytes) is Ok,
        0 <= length < bytes.len(),
    ensures
        parse_vps1(bytes.take(length)) == Err::<FixtureModel, OracleFault>(oracle::truncated()),
{
    let fixture = parse_vps1(bytes)->Ok_0;
    let prefix = bytes.take(length);
    let version = wire::u32_at(bytes, 4);
    let size = header_size(version);
    let lengths = oracle::lengths_of(fixture.frame_count, fixture.windows);
    let plane = fixture.plane();
    assert(plane >= 0) by (nonlinear_arith)
        requires
            plane == fixture.width * fixture.height,
            fixture.width > 0,
            fixture.height > 0,
    ;
    assert forall|at: int| 0 <= at && at + 4 <= length implies #[trigger] wire::u32_at(prefix, at)
        == wire::u32_at(bytes, at) by {
        wire::lemma_u32_at_frame(prefix, at, bytes, at);
    }
    if length >= 4 {
        assert(prefix.take(4) =~= bytes.take(4));
    }
    if length >= size {
        lemma_lengths_bounded(fixture.frame_count, fixture.windows);
        lemma_windows_unique(bytes, size, lengths, lengths.len() as int, plane);
        assert(wire::u64_at(prefix, 28) == wire::u64_at(bytes, 28));
        assert(header_at(prefix, version) =~= header_at(bytes, version));
        lemma_windows_truncated(bytes, length, size, lengths, lengths.len() as int, plane);
        if parse_windows(prefix, size, lengths, lengths.len() as int, plane) is Ok {
            lemma_windows_unique(prefix, size, lengths, lengths.len() as int, plane);
        }
    }
}

/// A branch word and the phases it stands for determine each other.
pub proof fn law_branch_bits_round_trip(branches: CppPr2StreamBranches, bits: u32)
    ensures
        oracle::branches_of(oracle::branch_bits(branches)) == branches,
        bits <= 3 ==> oracle::branch_bits(oracle::branches_of(bits)) == bits,
{
}

/// An encoded artifact begins with `VPS1` and its version, and has its counts, extents
/// and settings at fixed places behind.
pub proof fn law_vps1_fields_have_places(fixture: FixtureModel)
    requires
        fixture.header_sound(),
        fixture.width >= 0,
        fixture.height >= 0,
        fixture.minimum_overlap_points >= 0,
    ensures
        ({
            let bytes = encode_vps1(fixture);
            &&& bytes.take(4) == seq![0x56u8, 0x50u8, 0x53u8, 0x31u8]
            &&& wire::u32_at(bytes, 4) == 3
            &&& wire::u32_at(bytes, 8) == fixture.frame_count
            &&& wire::u32_at(bytes, 12) == fixture.height
            &&& wire::u32_at(bytes, 16) == fixture.width
            &&& wire::u32_at(bytes, 20) == fixture.windows.chunk_size
            &&& wire::u32_at(bytes, 24) == fixture.windows.overlap
            &&& wire::u64_at(bytes, 28) == fixture.confidence_percentile
            &&& wire::u32_at(bytes, 36) == fixture.point_size
            &&& wire::u32_at(bytes, 40) == fixture.minimum_overlap_points
            &&& wire::u32_at(bytes, 44) % 2 == 1 <==> fixture.branches.icp_refine
            &&& wire::u32_at(bytes, 44) >= 2 <==> fixture.branches.loop_close
            &&& wire::u32_at(bytes, 44) < 4
            &&& wire::u32_at(bytes, 48) == fixture.window_views.len()
        }),
{
    let bytes = encode_vps1(fixture);
    assert(bytes.take(4) =~= seq![0x56u8, 0x50u8, 0x53u8, 0x31u8]);
    assert(bytes.subrange(4, 8) =~= wire::u32_bytes(3));
    assert(bytes.subrange(8, 44) =~= common_header_bytes(fixture));
    assert(bytes.subrange(44, 48) =~= wire::u32_bytes(oracle::branch_bits(fixture.branches)));
    assert(bytes.subrange(48, 52) =~= wire::u32_bytes(fixture.window_views.len() as u32));
    wire::lemma_u32_placed(bytes, 4, 3);
    lemma_common_header(bytes, fixture);
    wire::lemma_u32_placed(bytes, 44, oracle::branch_bits(fixture.branches));
    wire::lemma_u32_placed(bytes, 48, fixture.window_views.len() as u32);
}

/// A view has its tensors at fixed places: nine intrinsics, the twelve values of its
/// pose, then depth, confidence and colour of all pixels, one tensor after the other.
pub proof fn law_view_tensors_have_places(bytes: Seq<u8>, at: int, plane: int, i: int)
    requires
        0 <= i,
        0 <= at,
        0 <= plane,
        at + frame_size(plane) <= bytes.len(),
    ensures
        ({
            let frame = frame_at(bytes, at, plane);
            &&& frame_size(plane) == 36 + 48 + 4 * plane + 4 * plane + 3 * plane
            &&& i < 9 ==> frame.intrinsics[i] == wire::u32_at(bytes, at + 4 * i)
            &&& i < 12 ==> frame.world_to_camera[i] == wire::u32_at(bytes, at + 36 + 4 * i)
            &&& i < plane ==> frame.depth[i] == wire::u32_at(bytes, at + 36 + 48 + 4 * i)
            &&& i < plane ==> frame.confidence[i] == wire::u32_at(
                bytes,
                at + 36 + 48 + 4 * plane + 4 * i,
            )
            &&& i < 3 * plane ==> frame.rgb[i] == bytes[at + 36 + 48 + 4 * plane + 4 * plane + i]
            &&& frame.intrinsics.len() == 9
            &&& frame.world_to_camera.len() == 12
            &&& frame.depth.len() == plane
            &&& frame.confidence.len() == plane
            &&& frame.rgb.len() == 3 * plane
        }),
{
}

/// A fixture has a sound header where it has frames and a sound schedule, a percentile
/// from zero to one hundred, a point size above zero, and numbers that fit their places.
pub proof fn law_sound_header_is_in_range(fixture: FixtureModel)
    ensures
        fixture.header_sound() <==> {
            &&& fixture.width * fixture.height * 3 <= usize::MAX
            &&& 1 <= fixture.frame_count <= 0xffff_ffff
            &&& fixture.windows.valid()
            &&& 0 <= ieee::f64_rank(fixture.confidence_percentile) <= 0x4059_0000_0000_0000
            &&& 0 < ieee::f32_rank(fixture.point_size) < 0x7f80_0000
            &&& fixture.minimum_overlap_points <= 0xffff_ffff
            &&& fixture.width <= 0xffff_ffff
            &&& fixture.height <= 0xffff_ffff
            &&& fixture.window_views.len() <= 0xffff_ffff
            &&& fixture.windows.chunk_size <= 0xffff_ffff
            &&& fixture.windows.overlap <= 0xffff_ffff
        },
{
}

/// A view is sound where it has nine intrinsics, twelve values of a pose, one depth, one
/// confidence and three levels of colour for each pixel, and every number is finite.
pub proof fn law_sound_view_is_full(frame: FrameModel, plane: int)
    requires
        frame_sound(frame, plane),
    ensures
        frame.intrinsics.len() == 9,
        frame.world_to_camera.len() == 12,
        frame.depth.len() == plane,
        frame.confidence.len() == plane,
        frame.rgb.len() == 3 * plane,
        forall|i: int|
            0 <= i < 9 ==> ieee::f32_magnitude(#[trigger] frame.intrinsics[i]) < 0x7f80_0000,
        forall|i: int|
            0 <= i < 12 ==> ieee::f32_magnitude(#[trigger] frame.world_to_camera[i]) < 0x7f80_0000,
        forall|i: int|
            0 <= i < plane ==> ieee::f32_magnitude(#[trigger] frame.depth[i]) < 0x7f80_0000,
        forall|i: int|
            0 <= i < plane ==> ieee::f32_magnitude(#[trigger] frame.confidence[i]) < 0x7f80_0000,
{
    assert forall|i: int| 0 <= i < 9 implies ieee::f32_magnitude(#[trigger] frame.intrinsics[i])
        < 0x7f80_0000 by {
        assert(ieee::f32_finite(frame.intrinsics[i]));
    }
    assert forall|i: int| 0 <= i < 12 implies ieee::f32_magnitude(
        #[trigger] frame.world_to_camera[i],
    ) < 0x7f80_0000 by {
        assert(ieee::f32_finite(frame.world_to_camera[i]));
    }
    assert forall|i: int| 0 <= i < plane implies ieee::f32_magnitude(#[trigger] frame.depth[i])
        < 0x7f80_0000 by {
        assert(ieee::f32_finite(frame.depth[i]));
    }
    assert forall|i: int| 0 <= i < plane implies ieee::f32_magnitude(
        #[trigger] frame.confidence[i],
    ) < 0x7f80_0000 by {
        assert(ieee::f32_finite(frame.confidence[i]));
    }
}

} // verus!
