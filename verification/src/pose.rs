//! Durable global-pose provider contracts.
//!
//! A pose provider may improve a derived world, but it cannot rewrite a
//! decoded raster or a measured window: every solution is bound to the exact
//! raster it was made for.

use vstd::prelude::*;

use crate::digest;
use crate::digest::sha256_hex;
use crate::ieee;
use crate::json;
use crate::json::{put_number, put_string, put_text};
use crate::order;
use crate::text;
use crate::text::{same_text, split_fields, split_lines};

verus! {

/// The bit pattern of binary64 `0.001`.
pub const RIGID_TOLERANCE: u64 = 0x3f50_624d_d2f1_a9fc;

/// The part of a source image that was kept.
#[derive(Debug, Clone, Copy, PartialEq, Eq, Structural)]
pub struct RasterCrop {
    pub x: usize,
    pub y: usize,
    pub width: usize,
    pub height: usize,
}

/// One decoded raster.
#[derive(Debug, Clone, PartialEq, Eq)]
pub struct RasterFrame {
    pub frame_index: usize,
    pub file_name: String,
    pub sha256: String,
    /// The exact video timestamp represented by this decoded raster.
    pub timestamp_millis: u64,
}

/// The decoded rasters of a video and how they were made.
#[derive(Debug, Clone, PartialEq, Eq)]
pub struct RasterManifest {
    pub schema: String,
    pub source_sha256: String,
    /// A binary64 pattern.
    pub duration_seconds: u64,
    pub source_width: usize,
    pub source_height: usize,
    pub crop: RasterCrop,
    pub output_width: usize,
    pub output_height: usize,
    pub frames: Vec<RasterFrame>,
    pub raster_fingerprint: String,
}

/// A global trajectory for the rasters of one manifest.
#[derive(Debug, Clone, PartialEq, Eq)]
pub struct PoseSolution {
    pub schema: String,
    pub provider: PoseProvider,
    pub raster_fingerprint: String,
    pub coordinate_convention: String,
    pub frames: Vec<PoseFrame>,
    pub diagnostics: PoseDiagnostics,
}

/// Who made a trajectory, and how.
#[derive(Debug, Clone, PartialEq, Eq)]
pub struct PoseProvider {
    pub kind: String,
    pub version: String,
    pub settings_fingerprint: String,
}

/// The pose of one raster.
#[derive(Debug, Clone, PartialEq, Eq)]
pub struct PoseFrame {
    pub frame_index: usize,
    pub image_name: String,
    pub registered: bool,
    /// Row-major 3x4 world-to-camera matrix of binary64 patterns.
    pub world_to_camera: [u64; 12],
}

/// Counts a provider reports.
#[derive(Debug, Clone, Copy, PartialEq, Eq, Structural)]
pub struct PoseDiagnostics {
    pub input_frames: usize,
    pub registered_frames: usize,
    pub duplicate_images: usize,
}

/// What is wrong with a raster manifest.
#[derive(Debug, Clone, Copy, PartialEq, Eq, Structural)]
pub enum RasterProblem {
    Dimensions,
    FrameNames,
    Fingerprint,
    ZeroQuaternion,
}

/// What is wrong with a pose solution.
#[derive(Debug, Clone, Copy, PartialEq, Eq, Structural)]
pub enum SolutionProblem {
    Schema,
    RasterFingerprint,
    Provider,
    Convention,
    MissingIdentity,
    InputFrameCount,
    UnknownFrame(usize),
    WrongRaster(usize),
    DuplicateFrame(usize),
    RegisteredFrameCount,
    NonFinite,
    NotNormalized,
    NotOrthogonal,
    NotRightHanded,
}

/// What is wrong with a line of a text model.
#[derive(Debug, Clone, Copy, PartialEq, Eq, Structural)]
pub enum ColmapProblem {
    TooFewFields,
    /// The number in this field, counted from zero, cannot be read.
    NotANumber(usize),
    NonFinite,
}

/// Why a raster or a trajectory is refused.
#[derive(Debug, Clone, PartialEq, Eq)]
pub enum PoseError {
    ColmapLine { line: usize, reason: ColmapProblem },
    UnknownRaster { image_name: Vec<u8> },
    DuplicateRaster { image_name: Vec<u8> },
    Raster(RasterProblem),
    Solution(SolutionProblem),
}

/// The meaning of a [`PoseError`].
pub enum PoseFault {
    ColmapLine { line: int, reason: ColmapProblem },
    UnknownRaster { image_name: Seq<u8> },
    DuplicateRaster { image_name: Seq<u8> },
    Raster(RasterProblem),
    Solution(SolutionProblem),
}

impl View for PoseError {
    type V = PoseFault;

    open spec fn view(&self) -> PoseFault {
        match self {
            PoseError::ColmapLine { line, reason } => PoseFault::ColmapLine {
                line: *line as int,
                reason: *reason,
            },
            PoseError::UnknownRaster { image_name } => PoseFault::UnknownRaster {
                image_name: image_name@,
            },
            PoseError::DuplicateRaster { image_name } => PoseFault::DuplicateRaster {
                image_name: image_name@,
            },
            PoseError::Raster(problem) => PoseFault::Raster(*problem),
            PoseError::Solution(problem) => PoseFault::Solution(*problem),
        }
    }
}

/// The canonical spelling of a crop.
pub open spec fn crop_json(crop: RasterCrop) -> Seq<u8> {
    text::utf8("{\"height\":"@) + text::decimal(crop.height as int) + text::utf8(",\"width\":"@)
        + text::decimal(crop.width as int) + text::utf8(",\"x\":"@) + text::decimal(crop.x as int)
        + text::utf8(",\"y\":"@) + text::decimal(crop.y as int) + text::utf8("}"@)
}

/// The canonical spelling of a raster.
pub open spec fn frame_json(frame: RasterFrame) -> Seq<u8> {
    text::utf8("{\"file_name\":"@) + json::string_of(frame.file_name@) + text::utf8(
        ",\"frame_index\":"@,
    ) + text::decimal(frame.frame_index as int) + text::utf8(",\"sha256\":"@) + json::string_of(
        frame.sha256@,
    ) + text::utf8(",\"timestamp_millis\":"@) + text::decimal(frame.timestamp_millis as int)
        + text::utf8("}"@)
}

/// The canonical spellings of the first `count` rasters, with commas between.
pub open spec fn frames_json(frames: Seq<RasterFrame>, count: int) -> Seq<u8>
    decreases count,
{
    if count <= 0 {
        Seq::empty()
    } else if count == 1 {
        frame_json(frames[0])
    } else {
        frames_json(frames, count - 1) + text::utf8(","@) + frame_json(frames[count - 1])
    }
}

/// The fields of a canonical manifest in front of its rasters.
pub open spec fn canonical_front(manifest: RasterManifest, duration: Seq<char>) -> Seq<u8> {
    text::utf8("{\"crop\":"@) + crop_json(manifest.crop) + text::utf8(",\"duration_seconds\":"@)
        + text::utf8(duration) + text::utf8(",\"frames\":["@)
}

/// The fields of a canonical manifest behind its rasters.
pub open spec fn canonical_back(manifest: RasterManifest) -> Seq<u8> {
    text::utf8("],\"output_height\":"@) + text::decimal(manifest.output_height as int)
        + text::utf8(",\"output_width\":"@) + text::decimal(manifest.output_width as int)
        + text::utf8(",\"source_height\":"@) + text::decimal(manifest.source_height as int)
        + text::utf8(",\"source_sha256\":"@) + json::string_of(manifest.source_sha256@)
        + text::utf8(",\"source_width\":"@) + text::decimal(manifest.source_width as int)
        + text::utf8("}"@)
}

/// The canonical JSON of a manifest: everything but its schema and its
/// fingerprint, with sorted keys. `duration` is the JSON spelling of its
/// duration.
pub open spec fn canonical(manifest: RasterManifest, duration: Seq<char>) -> Seq<u8> {
    canonical_front(manifest, duration) + frames_json(
        manifest.frames@,
        manifest.frames@.len() as int,
    ) + canonical_back(manifest)
}

fn put_crop(out: &mut Vec<u8>, crop: &RasterCrop)
    ensures
        final(out)@ == old(out)@ + crop_json(*crop),
{
    put_text(out, "{\"height\":");
    put_number(out, crop.height as u64);
    put_text(out, ",\"width\":");
    put_number(out, crop.width as u64);
    put_text(out, ",\"x\":");
    put_number(out, crop.x as u64);
    put_text(out, ",\"y\":");
    put_number(out, crop.y as u64);
    put_text(out, "}");
    assert(out@ =~= old(out)@ + crop_json(*crop));
}

fn put_frame(out: &mut Vec<u8>, frame: &RasterFrame)
    ensures
        final(out)@ == old(out)@ + frame_json(*frame),
{
    put_text(out, "{\"file_name\":");
    put_string(out, frame.file_name.as_str());
    put_text(out, ",\"frame_index\":");
    put_number(out, frame.frame_index as u64);
    put_text(out, ",\"sha256\":");
    put_string(out, frame.sha256.as_str());
    put_text(out, ",\"timestamp_millis\":");
    put_number(out, frame.timestamp_millis);
    put_text(out, "}");
    assert(out@ =~= old(out)@ + frame_json(*frame));
}

fn put_front(out: &mut Vec<u8>, manifest: &RasterManifest, duration: &str)
    ensures
        final(out)@ == old(out)@ + canonical_front(*manifest, duration@),
{
    put_text(out, "{\"crop\":");
    put_crop(out, &manifest.crop);
    put_text(out, ",\"duration_seconds\":");
    put_text(out, duration);
    put_text(out, ",\"frames\":[");
    assert(out@ =~= old(out)@ + canonical_front(*manifest, duration@));
}

fn put_back(out: &mut Vec<u8>, manifest: &RasterManifest)
    ensures
        final(out)@ == old(out)@ + canonical_back(*manifest),
{
    put_text(out, "],\"output_height\":");
    put_number(out, manifest.output_height as u64);
    put_text(out, ",\"output_width\":");
    put_number(out, manifest.output_width as u64);
    put_text(out, ",\"source_height\":");
    put_number(out, manifest.source_height as u64);
    put_text(out, ",\"source_sha256\":");
    put_string(out, manifest.source_sha256.as_str());
    put_text(out, ",\"source_width\":");
    put_number(out, manifest.source_width as u64);
    put_text(out, "}");
    assert(out@ =~= old(out)@ + canonical_back(*manifest));
}

/// Spells a manifest canonically.
pub fn canonical_raster(manifest: &RasterManifest, duration: &str) -> (bytes: Vec<u8>)
    ensures
        bytes@ == canonical(*manifest, duration@),
{
    let mut out: Vec<u8> = Vec::new();
    put_front(&mut out, manifest, duration);
    let ghost front = out@;
    assert(front =~= canonical_front(*manifest, duration@));
    assert(front =~= front + frames_json(manifest.frames@, 0));
    for i in 0..manifest.frames.len()
        invariant
            out@ == front + frames_json(manifest.frames@, i as int),
    {
        if i > 0 {
            put_text(&mut out, ",");
        }
        put_frame(&mut out, &manifest.frames[i]);
        assert(out@ =~= front + frames_json(manifest.frames@, i + 1));
    }
    put_back(&mut out, manifest);
    out
}

/// The fingerprint of a manifest: the digest of its canonical spelling.
pub open spec fn fingerprint_of(manifest: RasterManifest, duration: Seq<char>) -> Seq<char> {
    digest::hex_digest(canonical(manifest, duration))
}

/// Computes the fingerprint of a manifest. `duration` is the JSON spelling of
/// its duration.
pub fn raster_fingerprint(manifest: &RasterManifest, duration: &str) -> (fingerprint: String)
    ensures
        fingerprint@ == fingerprint_of(*manifest, duration@),
{
    let bytes: Vec<u8> = canonical_raster(manifest, duration);
    sha256_hex(bytes.as_slice())
}

/// Known schema, a finite positive duration, and no empty raster or crop.
pub open spec fn dimensions_sound(manifest: RasterManifest) -> bool {
    &&& manifest.schema@ == "vestra.raster/v1"@
    &&& ieee::f64_finite(manifest.duration_seconds)
    &&& ieee::f64_less(0, manifest.duration_seconds)
    &&& manifest.output_width > 0
    &&& manifest.output_height > 0
    &&& manifest.crop.width > 0
    &&& manifest.crop.height > 0
}

/// Every raster has a name, and no two share one.
pub open spec fn names_sound(frames: Seq<RasterFrame>) -> bool {
    &&& forall|i: int| 0 <= i < frames.len() ==> (#[trigger] frames[i]).file_name@.len() > 0
    &&& forall|i: int, j: int| #![trigger frames[i], frames[j]]
        0 <= i < j < frames.len() ==> frames[i].file_name@ != frames[j].file_name@
}

/// What is wrong with a manifest, if anything is.
pub open spec fn raster_problem(manifest: RasterManifest, duration: Seq<char>) -> Option<
    RasterProblem,
> {
    if !dimensions_sound(manifest) {
        Some(RasterProblem::Dimensions)
    } else if !names_sound(manifest.frames@) {
        Some(RasterProblem::FrameNames)
    } else if manifest.raster_fingerprint@ != fingerprint_of(manifest, duration) {
        Some(RasterProblem::Fingerprint)
    } else {
        None
    }
}

fn names_are_sound(frames: &Vec<RasterFrame>) -> (sound: bool)
    ensures
        sound == names_sound(frames@),
{
    for i in 0..frames.len()
        invariant
            forall|k: int| 0 <= k < i ==> (#[trigger] frames@[k]).file_name@.len() > 0,
            forall|k: int, l: int| #![trigger frames@[k], frames@[l]]
                0 <= k < l < i ==> frames@[k].file_name@ != frames@[l].file_name@,
    {
        if frames[i].file_name.as_str().is_empty() {
            assert(frames@[i as int].file_name@.len() == 0);
            return false;
        }
        for j in 0..i
            invariant
                i < frames@.len(),
                forall|k: int| 0 <= k < j ==> (#[trigger] frames@[k]).file_name@
                    != frames@[i as int].file_name@,
        {
            if same_text(frames[j].file_name.as_str(), frames[i].file_name.as_str()) {
                assert(frames@[j as int].file_name@ == frames@[i as int].file_name@);
                return false;
            }
        }
    }
    true
}

impl RasterManifest {
    /// The recorded fingerprint.
    pub fn fingerprint(&self) -> (fingerprint: String)
        ensures
            fingerprint@ == self.raster_fingerprint@,
    {
        self.raster_fingerprint.clone()
    }

    /// Checks dimensions, raster names and the fingerprint. `duration` is the
    /// JSON spelling of the manifest's duration.
    pub fn validate(&self, duration: &str) -> (result: Result<(), PoseError>)
        ensures
            match raster_problem(*self, duration@) {
                None => result is Ok,
                Some(problem) => result matches Err(e) && e@ == PoseFault::Raster(problem),
            },
    {
        if !same_text(self.schema.as_str(), "vestra.raster/v1") || !ieee::f64_is_finite(
            self.duration_seconds,
        ) || ieee::f64_le(self.duration_seconds, 0) || self.output_width == 0
            || self.output_height == 0 || self.crop.width == 0 || self.crop.height == 0 {
            return Err(PoseError::Raster(RasterProblem::Dimensions));
        }
        if !names_are_sound(&self.frames) {
            return Err(PoseError::Raster(RasterProblem::FrameNames));
        }
        let expected: String = raster_fingerprint(self, duration);
        if !same_text(self.raster_fingerprint.as_str(), expected.as_str()) {
            return Err(PoseError::Raster(RasterProblem::Fingerprint));
        }
        Ok(())
    }
}

/// Gives a new manifest its schema and its fingerprint.
pub fn finalized_raster_manifest(manifest: RasterManifest, duration: &str) -> (finalized:
    RasterManifest)
    ensures
        finalized.schema@ == "vestra.raster/v1"@,
        finalized.raster_fingerprint@ == fingerprint_of(manifest, duration@),
        finalized.source_sha256 == manifest.source_sha256,
        finalized.duration_seconds == manifest.duration_seconds,
        finalized.source_width == manifest.source_width,
        finalized.source_height == manifest.source_height,
        finalized.crop == manifest.crop,
        finalized.output_width == manifest.output_width,
        finalized.output_height == manifest.output_height,
        finalized.frames == manifest.frames,
{
    let fingerprint: String = raster_fingerprint(&manifest, duration);
    RasterManifest {
        schema: "vestra.raster/v1".to_owned(),
        source_sha256: manifest.source_sha256,
        duration_seconds: manifest.duration_seconds,
        source_width: manifest.source_width,
        source_height: manifest.source_height,
        crop: manifest.crop,
        output_width: manifest.output_width,
        output_height: manifest.output_height,
        frames: manifest.frames,
        raster_fingerprint: fingerprint,
    }
}

/// A finalized manifest has the fingerprint that validation expects of it: the
/// fingerprint does not depend on the schema or on itself.
pub proof fn law_finalized_fingerprint_is_stable(
    manifest: RasterManifest,
    finalized: RasterManifest,
    duration: Seq<char>,
)
    requires
        finalized.source_sha256 == manifest.source_sha256,
        finalized.source_width == manifest.source_width,
        finalized.source_height == manifest.source_height,
        finalized.crop == manifest.crop,
        finalized.output_width == manifest.output_width,
        finalized.output_height == manifest.output_height,
        finalized.frames == manifest.frames,
    ensures
        fingerprint_of(finalized, duration) == fingerprint_of(manifest, duration),
{
}

/// How far the rotation part of a matrix is from a rotation: how far the norm
/// of each row is from one, the size of the product of each two rows (first
/// and second, first and third, second and third), and how far the determinant
/// is from one. All are binary64 patterns.
#[derive(Debug, Clone, Copy, PartialEq, Eq)]
pub struct RigidDeviations {
    pub norms: [u64; 3],
    pub products: [u64; 3],
    pub determinant: u64,
}

/// Some deviation exceeds the tolerance.
pub open spec fn any_beyond(deviations: Seq<u64>) -> bool {
    exists|i: int|
        0 <= i < deviations.len() && ieee::f64_less(RIGID_TOLERANCE, #[trigger] deviations[i])
}

/// What keeps a matrix from being a rigid transform, if anything does.
pub open spec fn rigid_problem(matrix: Seq<u64>, deviations: RigidDeviations) -> Option<
    SolutionProblem,
> {
    if !ieee::f64_all_finite(matrix) {
        Some(SolutionProblem::NonFinite)
    } else if any_beyond(deviations.norms@) {
        Some(SolutionProblem::NotNormalized)
    } else if any_beyond(deviations.products@) {
        Some(SolutionProblem::NotOrthogonal)
    } else if ieee::f64_less(RIGID_TOLERANCE, deviations.determinant) {
        Some(SolutionProblem::NotRightHanded)
    } else {
        None
    }
}

fn beyond(deviations: &[u64; 3]) -> (answer: bool)
    ensures
        answer == any_beyond(deviations@),
{
    for i in 0..3usize
        invariant
            forall|j: int|
                0 <= j < i ==> !ieee::f64_less(RIGID_TOLERANCE, #[trigger] deviations@[j]),
    {
        if ieee::f64_lt(RIGID_TOLERANCE, deviations[i]) {
            assert(ieee::f64_less(RIGID_TOLERANCE, deviations@[i as int]));
            return true;
        }
    }
    false
}

/// Checks that a world-to-camera matrix is rigid, given its deviations.
pub fn validate_rigid_w2c(matrix: &[u64; 12], deviations: &RigidDeviations) -> (result: Result<
    (),
    PoseError,
>)
    ensures
        match rigid_problem(matrix@, *deviations) {
            None => result is Ok,
            Some(problem) => result matches Err(e) && e@ == PoseFault::Solution(problem),
        },
{
    if !ieee::f64s_are_finite(matrix) {
        return Err(PoseError::Solution(SolutionProblem::NonFinite));
    }
    if beyond(&deviations.norms) {
        return Err(PoseError::Solution(SolutionProblem::NotNormalized));
    }
    if beyond(&deviations.products) {
        return Err(PoseError::Solution(SolutionProblem::NotOrthogonal));
    }
    if ieee::f64_lt(RIGID_TOLERANCE, deviations.determinant) {
        return Err(PoseError::Solution(SolutionProblem::NotRightHanded));
    }
    Ok(())
}

/// The coordinate convention an admitted provider works in.
pub open spec fn convention_of(kind: Seq<char>) -> Option<Seq<char>> {
    if kind == "colmap"@ {
        Some("COLMAP world; W2C row-major 3x4 f64"@)
    } else if kind == "droid-slam"@ || kind == "vggt"@ {
        Some("OpenCV world; W2C row-major 3x4 f64"@)
    } else {
        None
    }
}

/// The coordinate convention an admitted provider works in.
pub fn provider_convention(kind: &str) -> (convention: Option<&'static str>)
    ensures
        match convention_of(kind@) {
            Some(expected) => convention matches Some(found) && found@ == expected,
            None => convention is None,
        },
{
    if same_text(kind, "colmap") {
        Some("COLMAP world; W2C row-major 3x4 f64")
    } else if same_text(kind, "droid-slam") || same_text(kind, "vggt") {
        Some("OpenCV world; W2C row-major 3x4 f64")
    } else {
        None
    }
}

/// The last of the first `count` rasters with a frame index.
pub open spec fn raster_with_index(frames: Seq<RasterFrame>, index: usize, count: int) -> Option<
    int,
>
    decreases count,
{
    if count <= 0 {
        None
    } else if frames[count - 1].frame_index == index {
        Some(count - 1)
    } else {
        raster_with_index(frames, index, count - 1)
    }
}

fn find_raster_with_index(frames: &Vec<RasterFrame>, index: usize) -> (place: Option<usize>)
    ensures
        match place {
            Some(p) => p < frames@.len() && raster_with_index(
                frames@,
                index,
                frames@.len() as int,
            ) == Some(p as int),
            None => raster_with_index(frames@, index, frames@.len() as int) is None,
        },
{
    let mut left: usize = frames.len();
    while left > 0
        invariant
            left <= frames@.len(),
            raster_with_index(frames@, index, frames@.len() as int) == raster_with_index(
                frames@,
                index,
                left as int,
            ),
        decreases left,
    {
        if frames[left - 1].frame_index == index {
            return Some(left - 1);
        }
        left = left - 1;
    }
    None
}

/// What is wrong with pose `i` of a solution, if anything is: an unknown
/// raster, another raster's name, an index seen before, or a matrix that is
/// not rigid.
pub open spec fn pose_problem(
    frames: Seq<PoseFrame>,
    deviations: Seq<RigidDeviations>,
    rasters: Seq<RasterFrame>,
    i: int,
) -> Option<SolutionProblem> {
    let frame = frames[i];
    match raster_with_index(rasters, frame.frame_index, rasters.len() as int) {
        None => Some(SolutionProblem::UnknownFrame(frame.frame_index)),
        Some(place) => if frame.image_name@ != rasters[place].file_name@ {
            Some(SolutionProblem::WrongRaster(frame.frame_index))
        } else if exists|j: int|
            0 <= j < i && (#[trigger] frames[j]).frame_index == frame.frame_index {
            Some(SolutionProblem::DuplicateFrame(frame.frame_index))
        } else if frame.registered {
            rigid_problem(frame.world_to_camera@, deviations[i])
        } else {
            None
        },
    }
}

/// The first problem among the first `count` poses.
pub open spec fn poses_problem(
    frames: Seq<PoseFrame>,
    deviations: Seq<RigidDeviations>,
    rasters: Seq<RasterFrame>,
    count: int,
) -> Option<SolutionProblem>
    decreases count,
{
    if count <= 0 {
        None
    } else {
        match poses_problem(frames, deviations, rasters, count - 1) {
            Some(problem) => Some(problem),
            None => pose_problem(frames, deviations, rasters, count - 1),
        }
    }
}

/// Number of registered poses among the first `count`.
pub open spec fn registered_count(frames: Seq<PoseFrame>, count: int) -> int
    decreases count,
{
    if count <= 0 {
        0
    } else {
        registered_count(frames, count - 1) + if frames[count - 1].registered {
            1int
        } else {
            0int
        }
    }
}

/// What is wrong with a solution for a sound raster, if anything is.
pub open spec fn solution_problem(
    solution: PoseSolution,
    deviations: Seq<RigidDeviations>,
    raster: RasterManifest,
) -> Option<SolutionProblem> {
    let count = solution.frames@.len() as int;
    let expected = convention_of(solution.provider.kind@);
    if solution.schema@ != "vestra.pose-solution/v1"@ {
        Some(SolutionProblem::Schema)
    } else if solution.raster_fingerprint@ != raster.raster_fingerprint@ {
        Some(SolutionProblem::RasterFingerprint)
    } else if expected is None {
        Some(SolutionProblem::Provider)
    } else if Some(solution.coordinate_convention@) != expected {
        Some(SolutionProblem::Convention)
    } else if text::blank(text::utf8(solution.provider.version@)) || text::blank(text::utf8(solution.provider.settings_fingerprint@)) {
        Some(SolutionProblem::MissingIdentity)
    } else if solution.diagnostics.input_frames != raster.frames@.len() {
        Some(SolutionProblem::InputFrameCount)
    } else if poses_problem(solution.frames@, deviations, raster.frames@, count) is Some {
        poses_problem(solution.frames@, deviations, raster.frames@, count)
    } else if solution.diagnostics.registered_frames != registered_count(solution.frames@, count) {
        Some(SolutionProblem::RegisteredFrameCount)
    } else {
        None
    }
}

/// Why a solution is refused for a raster, if it is.
pub open spec fn solution_fault(
    solution: PoseSolution,
    deviations: Seq<RigidDeviations>,
    raster: RasterManifest,
    duration: Seq<char>,
) -> Option<PoseFault> {
    match raster_problem(raster, duration) {
        Some(problem) => Some(PoseFault::Raster(problem)),
        None => match solution_problem(solution, deviations, raster) {
            Some(problem) => Some(PoseFault::Solution(problem)),
            None => None,
        },
    }
}

proof fn lemma_problem_persists(
    frames: Seq<PoseFrame>,
    deviations: Seq<RigidDeviations>,
    rasters: Seq<RasterFrame>,
    few: int,
    many: int,
)
    requires
        few <= many,
        poses_problem(frames, deviations, rasters, few) is Some,
    ensures
        poses_problem(frames, deviations, rasters, many) == poses_problem(
            frames,
            deviations,
            rasters,
            few,
        ),
    decreases many,
{
    if few < many {
        lemma_problem_persists(frames, deviations, rasters, few, many - 1);
    }
}

fn check_pose(
    frames: &Vec<PoseFrame>,
    deviations: &Vec<RigidDeviations>,
    rasters: &Vec<RasterFrame>,
    i: usize,
) -> (result: Result<(), PoseError>)
    requires
        i < frames@.len(),
        deviations@.len() == frames@.len(),
    ensures
        match pose_problem(frames@, deviations@, rasters@, i as int) {
            None => result is Ok,
            Some(problem) => result matches Err(e) && e@ == PoseFault::Solution(problem),
        },
{
    let frame: &PoseFrame = &frames[i];
    let place: usize = match find_raster_with_index(rasters, frame.frame_index) {
        Some(place) => place,
        None => return Err(PoseError::Solution(SolutionProblem::UnknownFrame(frame.frame_index))),
    };
    if !same_text(frame.image_name.as_str(), rasters[place].file_name.as_str()) {
        return Err(PoseError::Solution(SolutionProblem::WrongRaster(frame.frame_index)));
    }
    for j in 0..i
        invariant
            i < frames@.len(),
            frame == frames@[i as int],
            raster_with_index(rasters@, frame.frame_index, rasters@.len() as int) == Some(
                place as int,
            ),
            frame.image_name@ == rasters@[place as int].file_name@,
            forall|k: int|
                0 <= k < j ==> (#[trigger] frames@[k]).frame_index != frame.frame_index,
    {
        if frames[j].frame_index == frame.frame_index {
            assert(frames@[j as int].frame_index == frame.frame_index);
            return Err(PoseError::Solution(SolutionProblem::DuplicateFrame(frame.frame_index)));
        }
    }
    if frame.registered {
        return validate_rigid_w2c(&frame.world_to_camera, &deviations[i]);
    }
    Ok(())
}

/// Checks a trajectory against the raster it claims. Providers are listed: a
/// well-formed document does not become an authority by its shape. `duration`
/// is the JSON spelling of the raster's duration, and `deviations` holds the
/// deviations of each pose.
pub fn validate_pose_solution(
    solution: &PoseSolution,
    deviations: &Vec<RigidDeviations>,
    raster: &RasterManifest,
    duration: &str,
) -> (result: Result<(), PoseError>)
    requires
        deviations@.len() == solution.frames@.len(),
    ensures
        match solution_fault(*solution, deviations@, *raster, duration@) {
            None => result is Ok,
            Some(fault) => result matches Err(e) && e@ == fault,
        },
{
    raster.validate(duration)?;
    if !same_text(solution.schema.as_str(), "vestra.pose-solution/v1") {
        return Err(PoseError::Solution(SolutionProblem::Schema));
    }
    if !same_text(solution.raster_fingerprint.as_str(), raster.raster_fingerprint.as_str()) {
        return Err(PoseError::Solution(SolutionProblem::RasterFingerprint));
    }
    let expected: &'static str = match provider_convention(solution.provider.kind.as_str()) {
        Some(expected) => expected,
        None => return Err(PoseError::Solution(SolutionProblem::Provider)),
    };
    if !same_text(solution.coordinate_convention.as_str(), expected) {
        return Err(PoseError::Solution(SolutionProblem::Convention));
    }
    if text::is_blank(solution.provider.version.as_str()) || text::is_blank(
        solution.provider.settings_fingerprint.as_str(),
    ) {
        return Err(PoseError::Solution(SolutionProblem::MissingIdentity));
    }
    if solution.diagnostics.input_frames != raster.frames.len() {
        return Err(PoseError::Solution(SolutionProblem::InputFrameCount));
    }
    let mut registered: usize = 0;
    let ghost count = solution.frames@.len() as int;
    for i in 0..solution.frames.len()
        invariant
            count == solution.frames@.len(),
            deviations@.len() == solution.frames@.len(),
            registered <= i,
            registered == registered_count(solution.frames@, i as int),
            poses_problem(solution.frames@, deviations@, raster.frames@, i as int) is None,
            poses_problem(solution.frames@, deviations@, raster.frames@, count) matches Some(
                problem,
            ) ==> solution_fault(*solution, deviations@, *raster, duration@) == Some(
                PoseFault::Solution(problem),
            ),
    {
        match check_pose(&solution.frames, deviations, &raster.frames, i) {
            Ok(_) => {},
            Err(e) => {
                proof {
                    lemma_problem_persists(
                        solution.frames@,
                        deviations@,
                        raster.frames@,
                        i + 1,
                        count,
                    );
                }
                return Err(e);
            },
        }
        if solution.frames[i].registered {
            registered = registered + 1;
        }
    }
    if solution.diagnostics.registered_frames != registered {
        return Err(PoseError::Solution(SolutionProblem::RegisteredFrameCount));
    }
    Ok(())
}

/// One pose line of a text model: its line number, counted from one, and its
/// fields.
#[derive(Debug, Clone)]
pub struct ColmapPoseLine {
    pub line: usize,
    pub fields: Vec<Vec<u8>>,
}

/// The contents of a [`ColmapPoseLine`].
pub open spec fn pose_line_model(line: ColmapPoseLine) -> (int, Seq<Seq<u8>>) {
    (line.line as int, text::pieces(line.fields@))
}

/// The contents of a list of pose lines.
pub open spec fn pose_lines_model(list: Seq<ColmapPoseLine>) -> Seq<(int, Seq<Seq<u8>>)> {
    Seq::new(list.len(), |i: int| pose_line_model(list[i]))
}

/// The line is empty or a comment.
pub open spec fn skipped(fields: Seq<Seq<u8>>) -> bool {
    fields.len() == 0 || (fields[0].len() > 0 && fields[0][0] == 0x23)
}

/// The pose lines among the first `count` lines, and whether the next line
/// holds the observations of the last one. One line follows each pose line and
/// is ignored, even where it is empty.
pub open spec fn pose_lines_after(lines: Seq<Seq<u8>>, count: int) -> (
    Seq<(int, Seq<Seq<u8>>)>,
    bool,
)
    decreases count,
{
    if count <= 0 {
        (Seq::empty(), false)
    } else {
        let (found, observations) = pose_lines_after(lines, count - 1);
        let fields = text::fields(lines[count - 1]);
        if observations || skipped(fields) {
            (found, false)
        } else {
            (found.push((count, fields)), true)
        }
    }
}

/// The pose lines of a text model.
pub open spec fn pose_lines(images: Seq<char>) -> Seq<(int, Seq<Seq<u8>>)> {
    let lines = text::lines(text::utf8(images));
    pose_lines_after(lines, lines.len() as int).0
}

/// Finds the pose lines of a text model.
pub fn colmap_pose_lines(images: &str) -> (list: Vec<ColmapPoseLine>)
    ensures
        pose_lines_model(list@) == pose_lines(images@),
{
    let raw: Vec<Vec<u8>> = split_lines(images.as_bytes());
    let ghost lines = text::lines(text::utf8(images@));
    let mut list: Vec<ColmapPoseLine> = Vec::new();
    let mut observations: bool = false;
    assert(pose_lines_model(list@) =~= Seq::empty());
    for i in 0..raw.len()
        invariant
            text::pieces(raw@) == lines,
            pose_lines_after(lines, i as int) == (pose_lines_model(list@), observations),
    {
        assert(lines[i as int] == raw@[i as int]@);
        let fields: Vec<Vec<u8>> = split_fields(raw[i].as_slice());
        assert(text::pieces(fields@).len() == fields@.len());
        if observations {
            observations = false;
        } else {
            let skip: bool = if fields.len() == 0 {
                true
            } else {
                assert(text::pieces(fields@)[0] == fields@[0]@);
                fields[0].len() > 0 && fields[0][0] == 0x23
            };
            if !skip {
                let ghost before = pose_lines_model(list@);
                let ghost model = text::pieces(fields@);
                list.push(ColmapPoseLine { line: i + 1, fields });
                assert(pose_lines_model(list@) =~= before.push((i + 1, model)));
                observations = true;
            }
        }
    }
    list
}

/// The numbers of a pose line as binary64 patterns: the quaternion and the
/// translation as they were read (none where a field is no number), the matrix
/// they stand for (none where the quaternion has no direction), and the
/// deviations of that matrix.
#[derive(Debug, Clone, Copy)]
pub struct ColmapNumbers {
    pub values: [Option<u64>; 7],
    pub matrix: Option<[u64; 12]>,
    pub deviations: RigidDeviations,
}

/// The first of the first `count` numbers that could not be read.
pub open spec fn first_unread(values: Seq<Option<u64>>, from: int) -> Option<int>
    decreases values.len() - from,
{
    if from >= values.len() {
        None
    } else if values[from] is None {
        Some(from)
    } else {
        first_unread(values, from + 1)
    }
}

/// Every number that was read is finite.
pub open spec fn all_read_finite(values: Seq<Option<u64>>) -> bool {
    forall|i: int|
        0 <= i < values.len() ==> (#[trigger] values[i] matches Some(bits) ==> ieee::f64_finite(
            bits,
        ))
}

/// The first raster with a name, from `from` on.
pub open spec fn raster_named(frames: Seq<RasterFrame>, name: Seq<u8>, from: int) -> Option<int>
    decreases frames.len() - from,
{
    if from >= frames.len() {
        None
    } else if text::utf8(frames[from].file_name@) == name {
        Some(from)
    } else {
        raster_named(frames, name, from + 1)
    }
}

/// The pose that a line and its numbers stand for, given the poses before it.
pub open spec fn pose_of_line(
    line: (int, Seq<Seq<u8>>),
    numbers: ColmapNumbers,
    rasters: Seq<RasterFrame>,
    earlier: Seq<PoseFrame>,
) -> Result<PoseFrame, PoseFault> {
    let fields = line.1;
    let place = raster_named(rasters, fields[9], 0);
    if fields.len() < 10 {
        Err(PoseFault::ColmapLine { line: line.0, reason: ColmapProblem::TooFewFields })
    } else if first_unread(numbers.values@, 0) is Some {
        Err(
            PoseFault::ColmapLine {
                line: line.0,
                reason: ColmapProblem::NotANumber(
                    (first_unread(numbers.values@, 0).unwrap() + 1) as usize,
                ),
            },
        )
    } else if !all_read_finite(numbers.values@) {
        Err(PoseFault::ColmapLine { line: line.0, reason: ColmapProblem::NonFinite })
    } else if place is None {
        Err(PoseFault::UnknownRaster { image_name: fields[9] })
    } else {
        let raster = rasters[place.unwrap()];
        if exists|j: int|
            0 <= j < earlier.len() && (#[trigger] earlier[j]).frame_index == raster.frame_index {
            Err(PoseFault::DuplicateRaster { image_name: fields[9] })
        } else {
            match numbers.matrix {
                None => Err(PoseFault::Raster(RasterProblem::ZeroQuaternion)),
                Some(matrix) => Ok(
                    PoseFrame {
                        frame_index: raster.frame_index,
                        image_name: raster.file_name,
                        registered: true,
                        world_to_camera: matrix,
                    },
                ),
            }
        }
    }
}

/// The poses of the first `count` pose lines.
pub open spec fn poses_of_lines(
    lines: Seq<(int, Seq<Seq<u8>>)>,
    numbers: Seq<ColmapNumbers>,
    rasters: Seq<RasterFrame>,
    count: int,
) -> Result<Seq<PoseFrame>, PoseFault>
    decreases count,
{
    if count <= 0 {
        Ok(Seq::empty())
    } else {
        match poses_of_lines(lines, numbers, rasters, count - 1) {
            Err(fault) => Err(fault),
            Ok(earlier) => match pose_of_line(
                lines[count - 1],
                numbers[count - 1],
                rasters,
                earlier,
            ) {
                Err(fault) => Err(fault),
                Ok(frame) => Ok(earlier.push(frame)),
            },
        }
    }
}

/// The frame indices of poses, as sort keys.
pub open spec fn pose_keys(frames: Seq<PoseFrame>) -> Seq<i128> {
    Seq::new(frames.len(), |i: int| frames[i].frame_index as i128)
}

/// A solution holds the poses of a text model in frame order, is bound to the
/// raster and counts its poses.
pub open spec fn assembled(
    solution: PoseSolution,
    poses: Seq<PoseFrame>,
    places: Seq<usize>,
    raster: RasterManifest,
    provider: PoseProvider,
) -> bool {
    &&& solution.schema@ == "vestra.pose-solution/v1"@
    &&& solution.provider == provider
    &&& solution.raster_fingerprint@ == raster.raster_fingerprint@
    &&& solution.coordinate_convention@ == "COLMAP world; W2C row-major 3x4 f64"@
    &&& order::is_order(pose_keys(poses), places)
    &&& solution.frames@ == Seq::new(places.len(), |i: int| poses[places[i] as int])
    &&& solution.diagnostics.input_frames == raster.frames@.len()
    &&& solution.diagnostics.registered_frames == poses.len()
    &&& solution.diagnostics.duplicate_images == 0
}

/// The deviations of each pose, in frame order.
pub open spec fn ordered_deviations(numbers: Seq<ColmapNumbers>, places: Seq<usize>) -> Seq<
    RigidDeviations,
> {
    Seq::new(places.len(), |i: int| numbers[places[i] as int].deviations)
}

/// Finds the first number that could not be read.
fn find_unread(values: &[Option<u64>; 7]) -> (place: Option<usize>)
    ensures
        match place {
            Some(p) => p < 7 && first_unread(values@, 0) == Some(p as int),
            None => first_unread(values@, 0) is None,
        },
{
    for i in 0..7usize
        invariant
            first_unread(values@, 0) == first_unread(values@, i as int),
    {
        if values[i].is_none() {
            return Some(i);
        }
    }
    None
}

fn read_are_finite(values: &[Option<u64>; 7]) -> (answer: bool)
    ensures
        answer == all_read_finite(values@),
{
    for i in 0..7usize
        invariant
            forall|j: int|
                0 <= j < i ==> (#[trigger] values@[j] matches Some(bits) ==> ieee::f64_finite(
                    bits,
                )),
    {
        match values[i] {
            Some(bits) => {
                if !ieee::f64_is_finite(bits) {
                    assert(values@[i as int] == Some(bits));
                    return false;
                }
            },
            None => {},
        }
    }
    true
}

fn find_raster_named(frames: &Vec<RasterFrame>, name: &[u8]) -> (place: Option<usize>)
    ensures
        match place {
            Some(p) => p < frames@.len() && raster_named(frames@, name@, 0) == Some(p as int),
            None => raster_named(frames@, name@, 0) is None,
        },
{
    for i in 0..frames.len()
        invariant
            raster_named(frames@, name@, 0) == raster_named(frames@, name@, i as int),
    {
        if text::same(frames[i].file_name.as_str().as_bytes(), name) {
            return Some(i);
        }
    }
    None
}

fn copy_name(bytes: &Vec<u8>) -> (copy: Vec<u8>)
    ensures
        copy@ == bytes@,
{
    let copy: Vec<u8> = text::slice(bytes.as_slice(), 0, bytes.len());
    assert(copy@ =~= bytes@);
    copy
}

fn read_pose_line(
    line: &ColmapPoseLine,
    numbers: &ColmapNumbers,
    rasters: &Vec<RasterFrame>,
    earlier: &Vec<PoseFrame>,
) -> (result: Result<PoseFrame, PoseError>)
    ensures
        match pose_of_line(pose_line_model(*line), *numbers, rasters@, earlier@) {
            Ok(frame) => result == Ok::<PoseFrame, PoseError>(frame),
            Err(fault) => result matches Err(e) && e@ == fault,
        },
{
    let ghost fields = text::pieces(line.fields@);
    assert(fields.len() == line.fields@.len());
    if line.fields.len() < 10 {
        return Err(
            PoseError::ColmapLine { line: line.line, reason: ColmapProblem::TooFewFields },
        );
    }
    assert(fields[9] == line.fields@[9]@);
    match find_unread(&numbers.values) {
        Some(place) => {
            return Err(
                PoseError::ColmapLine {
                    line: line.line,
                    reason: ColmapProblem::NotANumber(place + 1),
                },
            );
        },
        None => {},
    }
    if !read_are_finite(&numbers.values) {
        return Err(PoseError::ColmapLine { line: line.line, reason: ColmapProblem::NonFinite });
    }
    let place: usize = match find_raster_named(rasters, line.fields[9].as_slice()) {
        Some(place) => place,
        None => {
            return Err(PoseError::UnknownRaster { image_name: copy_name(&line.fields[9]) });
        },
    };
    let raster: &RasterFrame = &rasters[place];
    for j in 0..earlier.len()
        invariant
            fields.len() >= 10,
            fields == text::pieces(line.fields@),
            fields[9] == line.fields@[9]@,
            line.fields@.len() >= 10,
            first_unread(numbers.values@, 0) is None,
            all_read_finite(numbers.values@),
            raster_named(rasters@, fields[9], 0) == Some(place as int),
            place < rasters@.len(),
            raster == rasters@[place as int],
            forall|k: int|
                0 <= k < j ==> (#[trigger] earlier@[k]).frame_index != raster.frame_index,
    {
        if earlier[j].frame_index == raster.frame_index {
            assert(earlier@[j as int].frame_index == raster.frame_index);
            return Err(PoseError::DuplicateRaster { image_name: copy_name(&line.fields[9]) });
        }
    }
    match numbers.matrix {
        Some(matrix) => Ok(
            PoseFrame {
                frame_index: raster.frame_index,
                image_name: raster.file_name.clone(),
                registered: true,
                world_to_camera: matrix,
            },
        ),
        None => Err(PoseError::Raster(RasterProblem::ZeroQuaternion)),
    }
}

proof fn lemma_lines_fault_persists(
    lines: Seq<(int, Seq<Seq<u8>>)>,
    numbers: Seq<ColmapNumbers>,
    rasters: Seq<RasterFrame>,
    few: int,
    many: int,
)
    requires
        few <= many,
        poses_of_lines(lines, numbers, rasters, few) is Err,
    ensures
        poses_of_lines(lines, numbers, rasters, many) == poses_of_lines(
            lines,
            numbers,
            rasters,
            few,
        ),
    decreases many,
{
    if few < many {
        lemma_lines_fault_persists(lines, numbers, rasters, few, many - 1);
    }
}

/// Reads the poses of every pose line.
fn read_pose_lines(
    images: &str,
    numbers: &Vec<ColmapNumbers>,
    rasters: &Vec<RasterFrame>,
) -> (result: Result<Vec<PoseFrame>, PoseError>)
    requires
        numbers@.len() == pose_lines(images@).len(),
    ensures
        match poses_of_lines(
            pose_lines(images@),
            numbers@,
            rasters@,
            numbers@.len() as int,
        ) {
            Err(fault) => result matches Err(e) && e@ == fault,
            Ok(poses) => result matches Ok(list) && list@ == poses && poses.len() == numbers@.len(),
        },
{
    let lines: Vec<ColmapPoseLine> = colmap_pose_lines(images);
    let ghost models = pose_lines(images@);
    assert(models.len() == lines@.len());
    let mut poses: Vec<PoseFrame> = Vec::new();
    for i in 0..lines.len()
        invariant
            models == pose_lines(images@),
            pose_lines_model(lines@) == models,
            lines@.len() == models.len(),
            numbers@.len() == models.len(),
            poses_of_lines(models, numbers@, rasters@, i as int) == Ok::<
                Seq<PoseFrame>,
                PoseFault,
            >(poses@),
            poses@.len() == i,
    {
        assert(models[i as int] == pose_line_model(lines@[i as int]));
        match read_pose_line(&lines[i], &numbers[i], rasters, &poses) {
            Ok(frame) => {
                poses.push(frame);
            },
            Err(e) => {
                proof {
                    lemma_lines_fault_persists(
                        models,
                        numbers@,
                        rasters@,
                        i + 1,
                        numbers@.len() as int,
                    );
                }
                return Err(e);
            },
        }
    }
    Ok(poses)
}

/// The frame order of poses.
fn pose_order(poses: &Vec<PoseFrame>) -> (places: Vec<usize>)
    ensures
        order::is_order(pose_keys(poses@), places@),
{
    let mut keys: Vec<i128> = Vec::new();
    for i in 0..poses.len()
        invariant
            keys@ == pose_keys(poses@).take(i as int),
    {
        keys.push(poses[i].frame_index as i128);
        assert(keys@ =~= pose_keys(poses@).take(i + 1));
    }
    assert(keys@ =~= pose_keys(poses@));
    order::stable_order(&keys)
}

/// Brings poses into frame order and binds them to a raster.
fn assemble(
    poses: &Vec<PoseFrame>,
    places: &Vec<usize>,
    raster: &RasterManifest,
    provider: PoseProvider,
) -> (solution: PoseSolution)
    requires
        order::is_order(pose_keys(poses@), places@),
    ensures
        assembled(solution, poses@, places@, *raster, provider),
{
    let mut frames: Vec<PoseFrame> = Vec::new();
    for i in 0..places.len()
        invariant
            order::is_order(pose_keys(poses@), places@),
            frames@ == Seq::new(i as nat, |k: int| poses@[places@[k] as int]),
    {
        let pose: &PoseFrame = &poses[places[i]];
        let copy = PoseFrame {
            frame_index: pose.frame_index,
            image_name: pose.image_name.clone(),
            registered: pose.registered,
            world_to_camera: pose.world_to_camera,
        };
        assert(copy == *pose);
        frames.push(copy);
        assert(frames@ =~= Seq::new((i + 1) as nat, |k: int| poses@[places@[k] as int]));
    }
    PoseSolution {
        schema: "vestra.pose-solution/v1".to_owned(),
        provider,
        raster_fingerprint: raster.fingerprint(),
        coordinate_convention: "COLMAP world; W2C row-major 3x4 f64".to_owned(),
        frames,
        diagnostics: PoseDiagnostics {
            input_frames: raster.frames.len(),
            registered_frames: poses.len(),
            duplicate_images: 0,
        },
    }
}

/// Brings the deviations of poses into frame order.
fn order_deviations(numbers: &Vec<ColmapNumbers>, places: &Vec<usize>) -> (deviations: Vec<
    RigidDeviations,
>)
    requires
        forall|i: int| 0 <= i < places@.len() ==> #[trigger] places@[i] < numbers@.len(),
    ensures
        deviations@ == ordered_deviations(numbers@, places@),
{
    let mut deviations: Vec<RigidDeviations> = Vec::new();
    for i in 0..places.len()
        invariant
            forall|k: int| 0 <= k < places@.len() ==> #[trigger] places@[k] < numbers@.len(),
            deviations@ == ordered_deviations(numbers@, places@.take(i as int)),
    {
        deviations.push(numbers[places[i]].deviations);
        assert(deviations@ =~= ordered_deviations(numbers@, places@.take(i + 1)));
    }
    assert(places@.take(places@.len() as int) =~= places@);
    deviations
}

/// What reading a text model gives, for a sound raster: its first fault, or
/// its poses in frame order where they are admitted.
pub open spec fn colmap_outcome(
    images: Seq<char>,
    numbers: Seq<ColmapNumbers>,
    raster: RasterManifest,
    duration: Seq<char>,
    provider: PoseProvider,
    result: Result<PoseSolution, PoseFault>,
) -> bool {
    match poses_of_lines(pose_lines(images), numbers, raster.frames@, numbers.len() as int) {
        Err(fault) => result == Err::<PoseSolution, PoseFault>(fault),
        Ok(poses) => exists|solution: PoseSolution, places: Seq<usize>| #[trigger]
            assembled(solution, poses, places, raster, provider) && result == (
            match solution_fault(
                solution,
                ordered_deviations(numbers, places),
                raster,
                duration,
            ) {
                None => Ok::<PoseSolution, PoseFault>(solution),
                Some(fault) => Err::<PoseSolution, PoseFault>(fault),
            }),
    }
}

/// Reads the poses of a text model: world-to-camera quaternions and
/// translations for exactly named rasters. `numbers` holds the numbers of each
/// of its pose lines, in order; `duration` is the JSON spelling of the raster's
/// duration.
pub fn parse_colmap_images_txt(
    images: &str,
    numbers: &Vec<ColmapNumbers>,
    raster: &RasterManifest,
    duration: &str,
    provider: PoseProvider,
) -> (result: Result<PoseSolution, PoseError>)
    requires
        numbers@.len() == pose_lines(images@).len(),
    ensures
        match raster_problem(*raster, duration@) {
            Some(problem) => result matches Err(e) && e@ == PoseFault::Raster(problem),
            None => colmap_outcome(
                images@,
                numbers@,
                *raster,
                duration@,
                provider,
                match result {
                    Ok(solution) => Ok(solution),
                    Err(e) => Err(e@),
                },
            ),
        },
{
    raster.validate(duration)?;
    let poses: Vec<PoseFrame> = read_pose_lines(images, numbers, &raster.frames)?;
    let places: Vec<usize> = pose_order(&poses);
    let solution: PoseSolution = assemble(&poses, &places, raster, provider);
    let deviations: Vec<RigidDeviations> = order_deviations(numbers, &places);
    assert(assembled(solution, poses@, places@, *raster, provider));
    match validate_pose_solution(&solution, &deviations, raster, duration) {
        Ok(_) => Ok(solution),
        Err(e) => Err(e),
    }
}

/// An admitted solution names only known rasters by their exact names, no
/// raster twice, and is bound to the raster's fingerprint.
pub proof fn law_admitted_poses_are_raster_bound(
    solution: PoseSolution,
    deviations: Seq<RigidDeviations>,
    raster: RasterManifest,
    duration: Seq<char>,
)
    requires
        solution_fault(solution, deviations, raster, duration) is None,
    ensures
        solution.raster_fingerprint@ == fingerprint_of(raster, duration),
        forall|i: int| #![trigger solution.frames@[i]]
            0 <= i < solution.frames@.len() ==> {
                let frame = solution.frames@[i];
                let place = raster_with_index(
                    raster.frames@,
                    frame.frame_index,
                    raster.frames@.len() as int,
                );
                &&& place is Some
                &&& frame.image_name@ == raster.frames@[place.unwrap()].file_name@
                &&& frame.registered ==> rigid_problem(
                    frame.world_to_camera@,
                    deviations[i],
                ) is None
            },
        forall|i: int, j: int| #![trigger solution.frames@[i], solution.frames@[j]]
            0 <= i < j < solution.frames@.len() ==> solution.frames@[i].frame_index
                != solution.frames@[j].frame_index,
{
    let frames = solution.frames@;
    let count = frames.len() as int;
    assert forall|i: int| 0 <= i < count implies pose_problem(
        frames,
        deviations,
        raster.frames@,
        i,
    ) is None by {
        lemma_no_problem(frames, deviations, raster.frames@, i, count);
    }
    assert forall|i: int, j: int| #![trigger frames[i], frames[j]]
        0 <= i < j < count implies frames[i].frame_index != frames[j].frame_index by {
        assert(pose_problem(frames, deviations, raster.frames@, j) is None);
    }
    assert forall|i: int| #![trigger frames[i]] 0 <= i < count implies {
        let frame = frames[i];
        let place = raster_with_index(
            raster.frames@,
            frame.frame_index,
            raster.frames@.len() as int,
        );
        &&& place is Some
        &&& frame.image_name@ == raster.frames@[place.unwrap()].file_name@
        &&& frame.registered ==> rigid_problem(frame.world_to_camera@, deviations[i]) is None
    } by {
        assert(pose_problem(frames, deviations, raster.frames@, i) is None);
    }
}

proof fn lemma_no_problem(
    frames: Seq<PoseFrame>,
    deviations: Seq<RigidDeviations>,
    rasters: Seq<RasterFrame>,
    i: int,
    count: int,
)
    requires
        0 <= i < count,
        poses_problem(frames, deviations, rasters, count) is None,
    ensures
        pose_problem(frames, deviations, rasters, i) is None,
    decreases count,
{
    if i < count - 1 {
        lemma_no_problem(frames, deviations, rasters, i, count - 1);
    }
}

/// Line `number` of an image list is one of its pose lines.
pub open spec fn is_pose_line(lines: Seq<Seq<u8>>, count: int, number: int) -> bool {
    exists|i: int|
        0 <= i < pose_lines_after(lines, count).0.len() && (#[trigger] pose_lines_after(
            lines,
            count,
        ).0[i]).0 == number
}

/// Pose lines and lines of observations take turns. A line, counted from 1, is a pose
/// line exactly where it has a field, its first field does not begin with `#`, and the
/// line before it is no pose line. The pose lines come in the order of the list, each
/// with its own fields.
pub proof fn law_pose_lines_take_turns(lines: Seq<Seq<u8>>, count: int)
    requires
        0 <= count <= lines.len(),
    ensures
        forall|number: int| #[trigger]
            is_pose_line(lines, count, number) <==> {
                &&& 1 <= number <= count
                &&& text::fields(lines[number - 1]).len() > 0
                &&& !(text::fields(lines[number - 1])[0].len() > 0 && text::fields(
                    lines[number - 1],
                )[0][0] == 0x23)
                &&& !is_pose_line(lines, count, number - 1)
            },
        forall|i: int|
            0 <= i < pose_lines_after(lines, count).0.len() ==> (#[trigger] pose_lines_after(
                lines,
                count,
            ).0[i]).1 == text::fields(lines[pose_lines_after(lines, count).0[i].0 - 1]),
        forall|i: int, j: int|
            0 <= i < j < pose_lines_after(lines, count).0.len() ==> (#[trigger] pose_lines_after(
                lines,
                count,
            ).0[i]).0 < (#[trigger] pose_lines_after(lines, count).0[j]).0,
        pose_lines_after(lines, count).1 <==> is_pose_line(lines, count, count),
    decreases count,
{
    let (found, observations) = pose_lines_after(lines, count);
    if count > 0 {
        law_pose_lines_take_turns(lines, count - 1);
        let (before, waiting) = pose_lines_after(lines, count - 1);
        let fields = text::fields(lines[count - 1]);
        assert forall|i: int| 0 <= i < before.len() implies 1 <= (#[trigger] before[i]).0 <= count
            - 1 by {
            assert(is_pose_line(lines, count - 1, before[i].0));
        }
        assert forall|number: int| number != count implies (#[trigger] is_pose_line(
            lines,
            count,
            number,
        ) <==> is_pose_line(lines, count - 1, number)) by {
            if is_pose_line(lines, count - 1, number) {
                let i = choose|i: int| 0 <= i < before.len() && (#[trigger] before[i]).0 == number;
                assert(found[i] == before[i]);
            }
            if is_pose_line(lines, count, number) {
                let i = choose|i: int| 0 <= i < found.len() && (#[trigger] found[i]).0 == number;
                assert(found[i] == before[i]);
            }
        }
        assert(!is_pose_line(lines, count - 1, count)) by {
            if is_pose_line(lines, count - 1, count) {
                let i = choose|i: int| 0 <= i < before.len() && (#[trigger] before[i]).0 == count;
                assert(1 <= before[i].0 <= count - 1);
            }
        }
        if waiting || skipped(fields) {
            assert(found == before);
        } else {
            assert(found[found.len() - 1].0 == count);
        }
        assert(is_pose_line(lines, count, count) <==> !waiting && !skipped(fields));
        assert forall|number: int| #[trigger] is_pose_line(lines, count, number) <==> {
            &&& 1 <= number <= count
            &&& text::fields(lines[number - 1]).len() > 0
            &&& !(text::fields(lines[number - 1])[0].len() > 0 && text::fields(
                lines[number - 1],
            )[0][0] == 0x23)
            &&& !is_pose_line(lines, count, number - 1)
        } by {
            if number != count {
                assert(is_pose_line(lines, count, number) <==> is_pose_line(
                    lines,
                    count - 1,
                    number,
                ));
                if number != count + 1 {
                    assert(is_pose_line(lines, count, number - 1) <==> is_pose_line(
                        lines,
                        count - 1,
                        number - 1,
                    ));
                }
            } else {
                assert(is_pose_line(lines, count, number - 1) <==> is_pose_line(
                    lines,
                    count - 1,
                    number - 1,
                ));
            }
        }
    }
}

/// A raster is found by its index, the last of those that have it, and by its name, the
/// first of those that have it; otherwise none has it.
pub proof fn law_rasters_are_found(
    frames: Seq<RasterFrame>,
    index: usize,
    count: int,
    name: Seq<u8>,
    from: int,
)
    requires
        0 <= count <= frames.len(),
        0 <= from <= frames.len(),
    ensures
        match raster_with_index(frames, index, count) {
            Some(k) => 0 <= k < count && frames[k].frame_index == index && forall|j: int|
                k < j < count ==> (#[trigger] frames[j]).frame_index != index,
            None => forall|j: int|
                0 <= j < count ==> (#[trigger] frames[j]).frame_index != index,
        },
        match raster_named(frames, name, from) {
            Some(k) => from <= k < frames.len() && text::utf8(frames[k].file_name@) == name
                && forall|j: int|
                from <= j < k ==> text::utf8((#[trigger] frames[j]).file_name@) != name,
            None => forall|j: int|
                from <= j < frames.len() ==> text::utf8((#[trigger] frames[j]).file_name@) != name,
        },
    decreases count + frames.len() - from,
{
    if count > 0 {
        law_rasters_are_found(frames, index, count - 1, name, from);
    }
    if from < frames.len() {
        law_rasters_are_found(frames, index, count, name, from + 1);
    }
}

/// The number of registered frames.
pub proof fn law_registered_frames_are_counted(frames: Seq<PoseFrame>, count: int)
    requires
        0 <= count <= frames.len(),
    ensures
        registered_count(frames, count) == frames.take(count).filter(
            |frame: PoseFrame| frame.registered,
        ).len(),
    decreases count,
{
    reveal(Seq::filter);
    if count > 0 {
        law_registered_frames_are_counted(frames, count - 1);
        assert(frames.take(count).drop_last() =~= frames.take(count - 1));
    }
}

/// A pose is rigid where its matrix is finite and no row length, product of rows or
/// determinant is off by more than a thousandth, numerically; a NaN is not off.
pub proof fn law_rigid_poses_are_within_a_thousandth(matrix: Seq<u64>, deviations: RigidDeviations)
    ensures
        rigid_problem(matrix, deviations) is None <==> {
            let off = |bits: u64|
                !ieee::f64_nan(bits) && ieee::f64_rank(bits) > 0x3f50_624d_d2f1_a9fc;
            &&& forall|i: int|
                0 <= i < matrix.len() ==> ieee::f64_magnitude(#[trigger] matrix[i])
                    < 0x7ff0_0000_0000_0000
            &&& forall|i: int|
                0 <= i < deviations.norms@.len() ==> !off(#[trigger] deviations.norms@[i])
            &&& forall|i: int|
                0 <= i < deviations.products@.len() ==> !off(#[trigger] deviations.products@[i])
            &&& !off(deviations.determinant)
        },
        rigid_problem(matrix, deviations) matches Some(problem) ==> {
            let off = |bits: u64|
                !ieee::f64_nan(bits) && ieee::f64_rank(bits) > 0x3f50_624d_d2f1_a9fc;
            match problem {
                SolutionProblem::NonFinite => exists|i: int|
                    0 <= i < matrix.len() && ieee::f64_magnitude(#[trigger] matrix[i])
                        >= 0x7ff0_0000_0000_0000,
                SolutionProblem::NotNormalized => exists|i: int|
                    0 <= i < deviations.norms@.len() && off(#[trigger] deviations.norms@[i]),
                SolutionProblem::NotOrthogonal => exists|i: int|
                    0 <= i < deviations.products@.len() && off(#[trigger] deviations.products@[i]),
                SolutionProblem::NotRightHanded => off(deviations.determinant),
                _ => false,
            }
        },
{
    let off = |bits: u64| !ieee::f64_nan(bits) && ieee::f64_rank(bits) > 0x3f50_624d_d2f1_a9fc;
    assert(any_beyond(deviations.norms@) <==> exists|i: int|
        0 <= i < deviations.norms@.len() && off(#[trigger] deviations.norms@[i])) by {
        if any_beyond(deviations.norms@) {
            let i = choose|i: int|
                0 <= i < deviations.norms@.len() && ieee::f64_less(
                    RIGID_TOLERANCE,
                    #[trigger] deviations.norms@[i],
                );
            assert(off(deviations.norms@[i]));
        }
        if exists|i: int| 0 <= i < deviations.norms@.len() && off(#[trigger] deviations.norms@[i]) {
            let i = choose|i: int|
                0 <= i < deviations.norms@.len() && off(#[trigger] deviations.norms@[i]);
            assert(ieee::f64_less(RIGID_TOLERANCE, deviations.norms@[i]));
        }
    }
    assert(any_beyond(deviations.products@) <==> exists|i: int|
        0 <= i < deviations.products@.len() && off(#[trigger] deviations.products@[i])) by {
        if any_beyond(deviations.products@) {
            let i = choose|i: int|
                0 <= i < deviations.products@.len() && ieee::f64_less(
                    RIGID_TOLERANCE,
                    #[trigger] deviations.products@[i],
                );
            assert(off(deviations.products@[i]));
        }
        if exists|i: int|
            0 <= i < deviations.products@.len() && off(#[trigger] deviations.products@[i]) {
            let i = choose|i: int|
                0 <= i < deviations.products@.len() && off(#[trigger] deviations.products@[i]);
            assert(ieee::f64_less(RIGID_TOLERANCE, deviations.products@[i]));
        }
    }
}

/// The fields and numbers of a line spell a pose.
pub open spec fn spells_pose(
    fields: Seq<Seq<u8>>,
    numbers: ColmapNumbers,
    rasters: Seq<RasterFrame>,
    pose: PoseFrame,
) -> bool {
    &&& fields.len() >= 10
    &&& pose.registered
    &&& numbers.matrix == Some(pose.world_to_camera)
    &&& text::utf8(pose.image_name@) == fields[9]
    &&& exists|k: int|
        0 <= k < rasters.len() && (#[trigger] rasters[k]).file_name == pose.image_name
            && rasters[k].frame_index == pose.frame_index
    &&& forall|k: int|
        0 <= k < 7 ==> (#[trigger] numbers.values@[k] matches Some(bits) && ieee::f64_magnitude(
            bits,
        ) < 0x7ff0_0000_0000_0000)
}

/// Every pose that is read is that of its line: registered, with the matrix of the
/// line's numbers, and with the index and the name of the raster that the tenth field
/// names. All numbers of the line are finite, and no raster has two poses.
pub proof fn law_poses_are_those_of_their_lines(
    lines: Seq<(int, Seq<Seq<u8>>)>,
    numbers: Seq<ColmapNumbers>,
    rasters: Seq<RasterFrame>,
    count: int,
)
    requires
        0 <= count <= lines.len(),
        count <= numbers.len(),
        poses_of_lines(lines, numbers, rasters, count) is Ok,
    ensures
        ({
            let poses = poses_of_lines(lines, numbers, rasters, count)->Ok_0;
            &&& poses.len() == count
            &&& forall|i: int|
                0 <= i < count ==> spells_pose(
                    lines[i].1,
                    numbers[i],
                    rasters,
                    #[trigger] poses[i],
                )
            &&& forall|i: int, j: int|
                0 <= i < j < count ==> (#[trigger] poses[i]).frame_index != (
                #[trigger] poses[j]).frame_index
        }),
    decreases count,
{
    if count > 0 {
        law_poses_are_those_of_their_lines(lines, numbers, rasters, count - 1);
        let earlier = poses_of_lines(lines, numbers, rasters, count - 1)->Ok_0;
        let poses = poses_of_lines(lines, numbers, rasters, count)->Ok_0;
        let i = count - 1;
        law_rasters_are_found(rasters, 0, 0, lines[i].1[9], 0);
        lemma_all_read(numbers[i].values@, 0);
        let k = raster_named(rasters, lines[i].1[9], 0)->0;
        assert(rasters[k].file_name == poses[i].image_name);
        assert forall|k: int| 0 <= k < 7 implies (#[trigger] numbers[i].values@[k] matches Some(
            bits,
        ) && ieee::f64_magnitude(bits) < 0x7ff0_0000_0000_0000) by {
            assert(numbers[i].values@[k] is Some);
        }
        assert(spells_pose(lines[i].1, numbers[i], rasters, poses[i]));
        assert forall|a: int, b: int| 0 <= a < b < count implies (#[trigger] poses[a]).frame_index
            != (#[trigger] poses[b]).frame_index by {
            assert(poses[a] == earlier[a]);
            if b < count - 1 {
                assert(poses[b] == earlier[b]);
            }
        }
        assert(forall|a: int| 0 <= a < count - 1 ==> poses[a] == earlier[a]);
    }
}

proof fn lemma_all_read(values: Seq<Option<u64>>, from: int)
    requires
        0 <= from,
    ensures
        match first_unread(values, from) {
            None => forall|i: int| from <= i < values.len() ==> #[trigger] values[i] is Some,
            Some(k) => from <= k < values.len() && values[k] is None && forall|i: int|
                from <= i < k ==> #[trigger] values[i] is Some,
        },
    decreases values.len() - from,
{
    if from < values.len() {
        lemma_all_read(values, from + 1);
    }
}

/// A line that cannot be read is refused for the first thing that is wrong with it: too
/// few fields, then the first number that cannot be read, by its place counted from 1,
/// then a number that is not finite, then a name that no raster has.
pub proof fn law_refused_lines_name_their_fault(
    line: (int, Seq<Seq<u8>>),
    numbers: ColmapNumbers,
    rasters: Seq<RasterFrame>,
    earlier: Seq<PoseFrame>,
)
    ensures
        ({
            let outcome = pose_of_line(line, numbers, rasters, earlier);
            let unread = |k: int| numbers.values@[k] is None;
            let infinite = |k: int|
                numbers.values@[k] matches Some(bits) && ieee::f64_magnitude(bits)
                    >= 0x7ff0_0000_0000_0000;
            &&& line.1.len() < 10 <==> outcome == Err::<PoseFrame, PoseFault>(
                PoseFault::ColmapLine { line: line.0, reason: ColmapProblem::TooFewFields },
            )
            &&& forall|k: int|
                line.1.len() >= 10 && 0 <= k < 7 && #[trigger] unread(k) && (forall|j: int|
                    0 <= j < k ==> !#[trigger] unread(j)) ==> outcome == Err::<
                    PoseFrame,
                    PoseFault,
                >(
                    PoseFault::ColmapLine {
                        line: line.0,
                        reason: ColmapProblem::NotANumber((k + 1) as usize),
                    },
                )
            &&& line.1.len() >= 10 && (forall|j: int| 0 <= j < 7 ==> !#[trigger] unread(j)) && (
            exists|j: int| 0 <= j < 7 && #[trigger] infinite(j)) ==> outcome == Err::<
                PoseFrame,
                PoseFault,
            >(PoseFault::ColmapLine { line: line.0, reason: ColmapProblem::NonFinite })
            &&& line.1.len() >= 10 && (forall|j: int| 0 <= j < 7 ==> !#[trigger] unread(j)) && (
            forall|j: int| 0 <= j < 7 ==> !#[trigger] infinite(j)) && (forall|k: int|
                0 <= k < rasters.len() ==> text::utf8((#[trigger] rasters[k]).file_name@)
                    != line.1[9]) ==> outcome == Err::<PoseFrame, PoseFault>(
                PoseFault::UnknownRaster { image_name: line.1[9] },
            )
        }),
{
    let outcome = pose_of_line(line, numbers, rasters, earlier);
    let unread = |k: int| numbers.values@[k] is None;
    let infinite = |k: int|
        numbers.values@[k] matches Some(bits) && ieee::f64_magnitude(bits)
            >= 0x7ff0_0000_0000_0000;
    lemma_all_read(numbers.values@, 0);
    law_rasters_are_found(rasters, 0, 0, line.1[9], 0);
    assert forall|k: int|
        line.1.len() >= 10 && 0 <= k < 7 && #[trigger] unread(k) && (forall|j: int|
            0 <= j < k ==> !#[trigger] unread(j)) implies first_unread(numbers.values@, 0) == Some(
        k,
    ) by {
        match first_unread(numbers.values@, 0) {
            None => {
                assert(numbers.values@[k] is Some);
            },
            Some(first) => {
                assert(unread(first));
                if first > k {
                    assert(numbers.values@[k] is Some);
                }
            },
        }
    }
    if forall|j: int| 0 <= j < 7 ==> !#[trigger] unread(j) {
        if let Some(first) = first_unread(numbers.values@, 0) {
            assert(unread(first));
        }
        if exists|j: int| 0 <= j < 7 && #[trigger] infinite(j) {
            let j = choose|j: int| 0 <= j < 7 && #[trigger] infinite(j);
            assert(!all_read_finite(numbers.values@)) by {
                let value = numbers.values@[j];
            }
        } else {
            assert(all_read_finite(numbers.values@)) by {
                assert forall|i: int| 0 <= i < 7 implies (#[trigger] numbers.values@[i] matches Some(
                    bits,
                ) ==> ieee::f64_finite(bits)) by {
                    assert(!infinite(i));
                }
            }
        }
    }
}

/// An assembled solution holds the very poses that were read, by ascending frame index.
pub proof fn law_solution_is_ordered_by_frame(
    solution: PoseSolution,
    poses: Seq<PoseFrame>,
    places: Seq<usize>,
    raster: RasterManifest,
    provider: PoseProvider,
)
    requires
        assembled(solution, poses, places, raster, provider),
        poses.len() <= usize::MAX,
    ensures
        solution.frames@.to_multiset() == poses.to_multiset(),
        forall|i: int, j: int|
            0 <= i < j < solution.frames@.len() ==> (#[trigger] solution.frames@[i]).frame_index
                <= (#[trigger] solution.frames@[j]).frame_index,
        solution.diagnostics.input_frames == raster.frames@.len(),
        solution.diagnostics.registered_frames == poses.len(),
        solution.diagnostics.duplicate_images == 0,
        solution.provider == provider,
        solution.raster_fingerprint@ == raster.raster_fingerprint@,
{
    let keys = pose_keys(poses);
    order::law_order_keeps_items(keys, places, poses);
    assert(solution.frames@ =~= order::picked(poses, places));
    assert forall|i: int, j: int| 0 <= i < j < solution.frames@.len() implies (
    #[trigger] solution.frames@[i]).frame_index <= (
    #[trigger] solution.frames@[j]).frame_index by {
        assert(order::before(keys, places[i] as int, places[j] as int));
    }
}

/// A raster list is admitted where it says its version, lasts a finite time above zero,
/// has an extent and a crop with one, and no name is empty or given twice.
pub proof fn law_rasters_have_extent_and_names(manifest: RasterManifest, duration: Seq<char>)
    ensures
        raster_problem(manifest, duration) is None <==> {
            &&& manifest.schema@ == "vestra.raster/v1"@
            &&& 0 < ieee::f64_rank(manifest.duration_seconds) < 0x7ff0_0000_0000_0000
            &&& manifest.output_width >= 1
            &&& manifest.output_height >= 1
            &&& manifest.crop.width >= 1
            &&& manifest.crop.height >= 1
            &&& forall|i: int|
                0 <= i < manifest.frames@.len() ==> (#[trigger] manifest.frames@[i]).file_name@
                    != Seq::<char>::empty()
            &&& forall|i: int, j: int|
                0 <= i < manifest.frames@.len() && 0 <= j < manifest.frames@.len() && i != j ==> (
                #[trigger] manifest.frames@[i]).file_name@ != (
                #[trigger] manifest.frames@[j]).file_name@
            &&& manifest.raster_fingerprint@ == digest::hex_digest(canonical(manifest, duration))
        },
{
    let frames = manifest.frames@;
    if raster_problem(manifest, duration) is None {
        assert forall|i: int, j: int|
            0 <= i < frames.len() && 0 <= j < frames.len() && i != j implies (
        #[trigger] frames[i]).file_name@ != (#[trigger] frames[j]).file_name@ by {
            if i < j {
            } else {
                assert(frames[j].file_name@ != frames[i].file_name@);
            }
        }
    }
    assert forall|i: int| 0 <= i < frames.len() implies (((#[trigger] frames[i]).file_name@.len()
        > 0) <==> frames[i].file_name@ != Seq::<char>::empty()) by {
        if frames[i].file_name@.len() == 0 {
            assert(frames[i].file_name@ =~= Seq::<char>::empty());
        }
    }
}

/// The convention of a provider: one of three kinds is known, and two share theirs.
pub proof fn law_three_providers_are_known(kind: Seq<char>)
    ensures
        convention_of(kind) is Some <==> kind == "colmap"@ || kind == "droid-slam"@ || kind
            == "vggt"@,
        kind == "colmap"@ ==> convention_of(kind)->0 == "COLMAP world; W2C row-major 3x4 f64"@,
        convention_of(kind) is Some && kind != "colmap"@ ==> convention_of(kind)->0
            == "OpenCV world; W2C row-major 3x4 f64"@,
{
}

/// A solution is admitted on a raster exactly where it says its version, is bound to the
/// raster, follows the convention of a known provider that names its version and its
/// settings, counts all rasters and all registered frames, and no pose has a problem.
pub proof fn law_admitted_solution_is_complete(
    solution: PoseSolution,
    deviations: Seq<RigidDeviations>,
    raster: RasterManifest,
)
    ensures
        solution_problem(solution, deviations, raster) is None <==> {
            &&& solution.schema@ == "vestra.pose-solution/v1"@
            &&& solution.raster_fingerprint@ == raster.raster_fingerprint@
            &&& convention_of(solution.provider.kind@) is Some
            &&& solution.coordinate_convention@ == convention_of(solution.provider.kind@)->0
            &&& !text::blank(text::utf8(solution.provider.version@))
            &&& !text::blank(text::utf8(solution.provider.settings_fingerprint@))
            &&& solution.diagnostics.input_frames == raster.frames@.len()
            &&& solution.diagnostics.registered_frames == solution.frames@.filter(
                |frame: PoseFrame| frame.registered,
            ).len()
            &&& poses_problem(
                solution.frames@,
                deviations,
                raster.frames@,
                solution.frames@.len() as int,
            ) is None
        },
{
    let frames = solution.frames@;
    law_registered_frames_are_counted(frames, frames.len() as int);
    assert(frames.take(frames.len() as int) =~= frames);
}

/// The rasters of a canonical text stand in their order, with a comma between any two.
pub proof fn law_canonical_frames_are_in_order(frames: Seq<RasterFrame>, count: int)
    requires
        0 <= count < frames.len(),
    ensures
        frames_json(frames, 0) == Seq::<u8>::empty(),
        frames_json(frames, count + 1) == frames_json(frames, count) + (if count > 0 {
            seq![0x2cu8]
        } else {
            Seq::<u8>::empty()
        }) + frame_json(frames[count]),
{
    reveal_strlit(",");
    vstd::utf8::is_ascii_chars_encode_utf8(","@);
    assert(text::utf8(","@) =~= seq![0x2cu8]);
    if count == 0 {
        assert(frame_json(frames[0]) =~= Seq::<u8>::empty() + Seq::<u8>::empty() + frame_json(
            frames[0],
        ));
    }
}

proof fn lemma_crop_marks()
    ensures
        text::utf8(",\"width\":"@).len() > 0 && text::utf8(",\"width\":"@)[0] == 0x2c,
        text::utf8(",\"x\":"@).len() > 0 && text::utf8(",\"x\":"@)[0] == 0x2c,
        text::utf8(",\"y\":"@).len() > 0 && text::utf8(",\"y\":"@)[0] == 0x2c,
        text::utf8("}"@).len() > 0 && text::utf8("}"@)[0] == 0x7d,
{
    reveal_strlit(",\"width\":");
    reveal_strlit(",\"x\":");
    reveal_strlit(",\"y\":");
    reveal_strlit("}");
    vstd::utf8::is_ascii_chars_encode_utf8(",\"width\":"@);
    vstd::utf8::is_ascii_chars_encode_utf8(",\"x\":"@);
    vstd::utf8::is_ascii_chars_encode_utf8(",\"y\":"@);
    vstd::utf8::is_ascii_chars_encode_utf8("}"@);
}

spec fn from_y(crop: RasterCrop, rest: Seq<u8>) -> Seq<u8> {
    text::utf8(",\"y\":"@) + (text::decimal(crop.y as int) + (text::utf8("}"@) + rest))
}

spec fn from_x(crop: RasterCrop, rest: Seq<u8>) -> Seq<u8> {
    text::utf8(",\"x\":"@) + (text::decimal(crop.x as int) + from_y(crop, rest))
}

spec fn from_width(crop: RasterCrop, rest: Seq<u8>) -> Seq<u8> {
    text::utf8(",\"width\":"@) + (text::decimal(crop.width as int) + from_x(crop, rest))
}

proof fn lemma_crop_nested(crop: RasterCrop, rest: Seq<u8>)
    ensures
        crop_json(crop) + rest == text::utf8("{\"height\":"@) + (text::decimal(crop.height as int)
            + from_width(crop, rest)),
{
    text::lemma_nine_regrouped(
        text::utf8("{\"height\":"@),
        text::decimal(crop.height as int),
        text::utf8(",\"width\":"@),
        text::decimal(crop.width as int),
        text::utf8(",\"x\":"@),
        text::decimal(crop.x as int),
        text::utf8(",\"y\":"@),
        text::decimal(crop.y as int),
        text::utf8("}"@),
        rest,
    );
}

/// A canonical crop tells crops apart, whatever stands behind it.
pub proof fn law_canonical_crops_differ(
    a: RasterCrop,
    rest: Seq<u8>,
    b: RasterCrop,
    other: Seq<u8>,
)
    requires
        crop_json(a) + rest == crop_json(b) + other,
    ensures
        a == b,
        rest == other,
{
    lemma_crop_marks();
    lemma_crop_nested(a, rest);
    lemma_crop_nested(b, other);
    text::lemma_same_behind(
        text::utf8("{\"height\":"@),
        text::decimal(a.height as int) + from_width(a, rest),
        text::decimal(b.height as int) + from_width(b, other),
    );
    text::lemma_number_ends(
        a.height as int,
        from_width(a, rest),
        b.height as int,
        from_width(b, other),
        0x2c,
    );
    text::lemma_same_behind(
        text::utf8(",\"width\":"@),
        text::decimal(a.width as int) + from_x(a, rest),
        text::decimal(b.width as int) + from_x(b, other),
    );
    text::lemma_number_ends(a.width as int, from_x(a, rest), b.width as int, from_x(b, other), 0x2c);
    text::lemma_same_behind(
        text::utf8(",\"x\":"@),
        text::decimal(a.x as int) + from_y(a, rest),
        text::decimal(b.x as int) + from_y(b, other),
    );
    text::lemma_number_ends(a.x as int, from_y(a, rest), b.x as int, from_y(b, other), 0x2c);
    let x = text::utf8("}"@) + rest;
    let y = text::utf8("}"@) + other;
    text::lemma_same_behind(
        text::utf8(",\"y\":"@),
        text::decimal(a.y as int) + x,
        text::decimal(b.y as int) + y,
    );
    text::lemma_number_ends(a.y as int, x, b.y as int, y, 0x7d);
    text::lemma_same_behind(text::utf8("}"@), rest, other);
}

proof fn lemma_frame_marks()
    ensures
        text::utf8(",\"sha256\":"@).len() > 0 && text::utf8(",\"sha256\":"@)[0] == 0x2c,
        text::utf8("}"@).len() > 0 && text::utf8("}"@)[0] == 0x7d,
{
    reveal_strlit(",\"sha256\":");
    reveal_strlit("}");
    vstd::utf8::is_ascii_chars_encode_utf8(",\"sha256\":"@);
    vstd::utf8::is_ascii_chars_encode_utf8("}"@);
}

spec fn from_digest(frame: RasterFrame) -> Seq<u8> {
    text::utf8(",\"sha256\":"@) + (json::string_of(frame.sha256@) + (text::utf8(
        ",\"timestamp_millis\":"@,
    ) + (text::decimal(frame.timestamp_millis as int) + text::utf8("}"@))))
}

proof fn lemma_frame_nested(frame: RasterFrame)
    ensures
        frame_json(frame) == text::utf8("{\"file_name\":"@) + (json::string_of(frame.file_name@) + (
        text::utf8(",\"frame_index\":"@) + (text::decimal(frame.frame_index as int) + from_digest(
            frame,
        )))),
{
    text::lemma_eight_regrouped(
        text::utf8("{\"file_name\":"@),
        json::string_of(frame.file_name@),
        text::utf8(",\"frame_index\":"@),
        text::decimal(frame.frame_index as int),
        text::utf8(",\"sha256\":"@),
        json::string_of(frame.sha256@),
        text::utf8(",\"timestamp_millis\":"@),
        text::decimal(frame.timestamp_millis as int),
        text::utf8("}"@),
    );
}

/// The canonical text of a raster tells rasters of one name and digest apart by index and
/// time.
pub proof fn law_canonical_rasters_differ(a: RasterFrame, b: RasterFrame)
    requires
        frame_json(a) == frame_json(b),
        a.file_name@ == b.file_name@,
        a.sha256@ == b.sha256@,
    ensures
        a.frame_index == b.frame_index,
        a.timestamp_millis == b.timestamp_millis,
{
    lemma_frame_marks();
    lemma_frame_nested(a);
    lemma_frame_nested(b);
    let x = text::decimal(a.frame_index as int) + from_digest(a);
    let y = text::decimal(b.frame_index as int) + from_digest(b);
    let index = text::utf8(",\"frame_index\":"@);
    let name = json::string_of(a.file_name@);
    text::lemma_same_behind(
        text::utf8("{\"file_name\":"@),
        name + (index + x),
        name + (index + y),
    );
    text::lemma_same_behind(name, index + x, index + y);
    text::lemma_same_behind(index, x, y);
    text::lemma_number_ends(
        a.frame_index as int,
        from_digest(a),
        b.frame_index as int,
        from_digest(b),
        0x2c,
    );
    let time = text::utf8(",\"timestamp_millis\":"@);
    let hash = json::string_of(a.sha256@);
    let close = text::utf8("}"@);
    let u = text::decimal(a.timestamp_millis as int) + close;
    let v = text::decimal(b.timestamp_millis as int) + close;
    text::lemma_same_behind(text::utf8(",\"sha256\":"@), hash + (time + u), hash + (time + v));
    text::lemma_same_behind(hash, time + u, time + v);
    text::lemma_same_behind(time, u, v);
    text::lemma_number_ends(
        a.timestamp_millis as int,
        close,
        b.timestamp_millis as int,
        close,
        0x7d,
    );
}

proof fn lemma_back_marks()
    ensures
        text::utf8(",\"output_width\":"@).len() > 0 && text::utf8(",\"output_width\":"@)[0] == 0x2c,
        text::utf8(",\"source_height\":"@).len() > 0 && text::utf8(",\"source_height\":"@)[0]
            == 0x2c,
        text::utf8(",\"source_sha256\":"@).len() > 0 && text::utf8(",\"source_sha256\":"@)[0]
            == 0x2c,
        text::utf8("}"@).len() > 0 && text::utf8("}"@)[0] == 0x7d,
{
    reveal_strlit(",\"output_width\":");
    reveal_strlit(",\"source_height\":");
    reveal_strlit(",\"source_sha256\":");
    reveal_strlit("}");
    vstd::utf8::is_ascii_chars_encode_utf8(",\"output_width\":"@);
    vstd::utf8::is_ascii_chars_encode_utf8(",\"source_height\":"@);
    vstd::utf8::is_ascii_chars_encode_utf8(",\"source_sha256\":"@);
    vstd::utf8::is_ascii_chars_encode_utf8("}"@);
}

spec fn from_source(manifest: RasterManifest) -> Seq<u8> {
    text::utf8(",\"source_sha256\":"@) + (json::string_of(manifest.source_sha256@) + (text::utf8(
        ",\"source_width\":"@,
    ) + (text::decimal(manifest.source_width as int) + text::utf8("}"@))))
}

spec fn from_source_height(manifest: RasterManifest) -> Seq<u8> {
    text::utf8(",\"source_height\":"@) + (text::decimal(manifest.source_height as int)
        + from_source(manifest))
}

spec fn from_output_width(manifest: RasterManifest) -> Seq<u8> {
    text::utf8(",\"output_width\":"@) + (text::decimal(manifest.output_width as int)
        + from_source_height(manifest))
}

proof fn lemma_back_nested(manifest: RasterManifest)
    ensures
        canonical_back(manifest) == text::utf8("],\"output_height\":"@) + (text::decimal(
            manifest.output_height as int,
        ) + from_output_width(manifest)),
{
    let back = canonical_back(manifest);
    text::lemma_eleven_regrouped(
        text::utf8("],\"output_height\":"@),
        text::decimal(manifest.output_height as int),
        text::utf8(",\"output_width\":"@),
        text::decimal(manifest.output_width as int),
        text::utf8(",\"source_height\":"@),
        text::decimal(manifest.source_height as int),
        text::utf8(",\"source_sha256\":"@),
        json::string_of(manifest.source_sha256@),
        text::utf8(",\"source_width\":"@),
        text::decimal(manifest.source_width as int),
        text::utf8("}"@),
        Seq::<u8>::empty(),
    );
    assert(back + Seq::<u8>::empty() =~= back);
    assert(text::utf8("}"@) + Seq::<u8>::empty() =~= text::utf8("}"@));
}

/// The canonical text behind the rasters tells lists of one source apart by the size of
/// the source and that of the output.
pub proof fn law_canonical_sizes_differ(a: RasterManifest, b: RasterManifest)
    requires
        canonical_back(a) == canonical_back(b),
        a.source_sha256@ == b.source_sha256@,
    ensures
        a.output_height == b.output_height,
        a.output_width == b.output_width,
        a.source_height == b.source_height,
        a.source_width == b.source_width,
{
    lemma_back_marks();
    lemma_back_nested(a);
    lemma_back_nested(b);
    text::lemma_same_behind(
        text::utf8("],\"output_height\":"@),
        text::decimal(a.output_height as int) + from_output_width(a),
        text::decimal(b.output_height as int) + from_output_width(b),
    );
    text::lemma_number_ends(
        a.output_height as int,
        from_output_width(a),
        b.output_height as int,
        from_output_width(b),
        0x2c,
    );
    text::lemma_same_behind(
        text::utf8(",\"output_width\":"@),
        text::decimal(a.output_width as int) + from_source_height(a),
        text::decimal(b.output_width as int) + from_source_height(b),
    );
    text::lemma_number_ends(
        a.output_width as int,
        from_source_height(a),
        b.output_width as int,
        from_source_height(b),
        0x2c,
    );
    text::lemma_same_behind(
        text::utf8(",\"source_height\":"@),
        text::decimal(a.source_height as int) + from_source(a),
        text::decimal(b.source_height as int) + from_source(b),
    );
    text::lemma_number_ends(
        a.source_height as int,
        from_source(a),
        b.source_height as int,
        from_source(b),
        0x2c,
    );
    let width = text::utf8(",\"source_width\":"@);
    let hash = json::string_of(a.source_sha256@);
    let close = text::utf8("}"@);
    let u = text::decimal(a.source_width as int) + close;
    let v = text::decimal(b.source_width as int) + close;
    text::lemma_same_behind(
        text::utf8(",\"source_sha256\":"@),
        hash + (width + u),
        hash + (width + v),
    );
    text::lemma_same_behind(hash, width + u, width + v);
    text::lemma_same_behind(width, u, v);
    text::lemma_number_ends(a.source_width as int, close, b.source_width as int, close, 0x7d);
}

} // verus!
