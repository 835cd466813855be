//! The command surfaces and the rules commands check before they touch a
//! scene.

use vstd::prelude::*;

use crate::digest;
use crate::emission;
use crate::geometry::BackprojectionSettings;
use crate::ieee;
use crate::json::{put_number, put_text};
use crate::order;
use crate::pose::PoseFrame;
use crate::reconstruction::{ReconstructionProgress, ReconstructionSettings};
use crate::schedule::WindowSettings;
use crate::text;
use crate::tsdf::TsdfObservation;
use crate::wire::put_bytes;
use crate::world::FusedPoint;

verus! {

/// Number of commands of the end-user surface.
pub const PRODUCT_COMMAND_COUNT: usize = 6;

/// Number of commands of the engineering surface.
pub const LAB_COMMAND_COUNT: usize = 28;

/// The end-user commands in display order.
pub open spec fn product_name(place: int) -> Seq<char> {
    if place == 0 {
        "app"@
    } else if place == 1 {
        "reconstruct"@
    } else if place == 2 {
        "demo"@
    } else if place == 3 {
        "serve"@
    } else if place == 4 {
        "inspect"@
    } else {
        "export"@
    }
}

/// The engineering commands in display order.
pub open spec fn lab_name(place: int) -> Seq<char> {
    if place == 0 {
        "plan"@
    } else if place == 1 {
        "fuse"@
    } else if place == 2 {
        "pose-import-colmap"@
    } else if place == 3 {
        "pose-import-colmap-model"@
    } else if place == 4 {
        "pose-import-json"@
    } else if place == 5 {
        "fuse-colmap-global"@
    } else if place == 6 {
        "fuse-global-pose"@
    } else if place == 7 {
        "inspect-colmap-global"@
    } else if place == 8 {
        "inspect-global-pose"@
    } else if place == 9 {
        "inspect-colmap-frame-global"@
    } else if place == 10 {
        "fuse-colmap-frame-global"@
    } else if place == 11 {
        "import-colmap-mvs"@
    } else if place == 12 {
        "import-da3-pose-conditioned"@
    } else if place == 13 {
        "fuse-da3-pose-conditioned-tsdf"@
    } else if place == 14 {
        "extract-architecture"@
    } else if place == 15 {
        "raster-record"@
    } else if place == 16 {
        "export-glb"@
    } else if place == 17 {
        "export-splat"@
    } else if place == 18 {
        "export-cameras"@
    } else if place == 19 {
        "verify"@
    } else if place == 20 {
        "oracle-fixture"@
    } else if place == 21 {
        "oracle-model-bench"@
    } else if place == 22 {
        "oracle-inspect"@
    } else if place == 23 {
        "oracle-stitch"@
    } else if place == 24 {
        "oracle-compare"@
    } else if place == 25 {
        "oracle-compare-capi"@
    } else if place == 26 {
        "oracle-compare-model"@
    } else {
        "oracle-run"@
    }
}

/// The end-user commands.
pub fn product_commands() -> (names: Vec<&'static str>)
    ensures
        names@.len() == PRODUCT_COMMAND_COUNT,
        forall|i: int| 0 <= i < names@.len() ==> (#[trigger] names@[i])@ == product_name(i),
{
    vec!["app", "reconstruct", "demo", "serve", "inspect", "export"]
}

/// The engineering commands.
pub fn lab_commands() -> (names: Vec<&'static str>)
    ensures
        names@.len() == LAB_COMMAND_COUNT,
        forall|i: int| 0 <= i < names@.len() ==> (#[trigger] names@[i])@ == lab_name(i),
{
    vec![
        "plan",
        "fuse",
        "pose-import-colmap",
        "pose-import-colmap-model",
        "pose-import-json",
        "fuse-colmap-global",
        "fuse-global-pose",
        "inspect-colmap-global",
        "inspect-global-pose",
        "inspect-colmap-frame-global",
        "fuse-colmap-frame-global",
        "import-colmap-mvs",
        "import-da3-pose-conditioned",
        "fuse-da3-pose-conditioned-tsdf",
        "extract-architecture",
        "raster-record",
        "export-glb",
        "export-splat",
        "export-cameras",
        "verify",
        "oracle-fixture",
        "oracle-model-bench",
        "oracle-inspect",
        "oracle-stitch",
        "oracle-compare",
        "oracle-compare-capi",
        "oracle-compare-model",
        "oracle-run",
    ]
}

/// The two surfaces share no command.
pub proof fn law_surfaces_are_disjoint(product: int, lab: int)
    requires
        0 <= product < PRODUCT_COMMAND_COUNT,
        0 <= lab < LAB_COMMAND_COUNT,
    ensures
        product_name(product) != lab_name(lab),
{
    reveal_strlit("app");
    reveal_strlit("reconstruct");
    reveal_strlit("demo");
    reveal_strlit("serve");
    reveal_strlit("inspect");
    reveal_strlit("export");
    reveal_strlit("plan");
    reveal_strlit("fuse");
    reveal_strlit("pose-import-colmap");
    reveal_strlit("pose-import-colmap-model");
    reveal_strlit("pose-import-json");
    reveal_strlit("fuse-colmap-global");
    reveal_strlit("fuse-global-pose");
    reveal_strlit("inspect-colmap-global");
    reveal_strlit("inspect-global-pose");
    reveal_strlit("inspect-colmap-frame-global");
    reveal_strlit("fuse-colmap-frame-global");
    reveal_strlit("import-colmap-mvs");
    reveal_strlit("import-da3-pose-conditioned");
    reveal_strlit("fuse-da3-pose-conditioned-tsdf");
    reveal_strlit("extract-architecture");
    reveal_strlit("raster-record");
    reveal_strlit("export-glb");
    reveal_strlit("export-splat");
    reveal_strlit("export-cameras");
    reveal_strlit("verify");
    reveal_strlit("oracle-fixture");
    reveal_strlit("oracle-model-bench");
    reveal_strlit("oracle-inspect");
    reveal_strlit("oracle-stitch");
    reveal_strlit("oracle-compare");
    reveal_strlit("oracle-compare-capi");
    reveal_strlit("oracle-compare-model");
    reveal_strlit("oracle-run");
    assert("app"@.len() == 3);
    assert("reconstruct"@.len() == 11);
    assert("demo"@.len() == 4);
    assert("serve"@.len() == 5);
    assert("inspect"@.len() == 7);
    assert("export"@.len() == 6);
    assert("plan"@.len() == 4);
    assert("fuse"@.len() == 4);
    assert("pose-import-colmap"@.len() == 18);
    assert("pose-import-colmap-model"@.len() == 24);
    assert("pose-import-json"@.len() == 16);
    assert("fuse-colmap-global"@.len() == 18);
    assert("fuse-global-pose"@.len() == 16);
    assert("inspect-colmap-global"@.len() == 21);
    assert("inspect-global-pose"@.len() == 19);
    assert("inspect-colmap-frame-global"@.len() == 27);
    assert("fuse-colmap-frame-global"@.len() == 24);
    assert("import-colmap-mvs"@.len() == 17);
    assert("import-da3-pose-conditioned"@.len() == 27);
    assert("fuse-da3-pose-conditioned-tsdf"@.len() == 30);
    assert("extract-architecture"@.len() == 20);
    assert("raster-record"@.len() == 13);
    assert("export-glb"@.len() == 10);
    assert("export-splat"@.len() == 12);
    assert("export-cameras"@.len() == 14);
    assert("verify"@.len() == 6);
    assert("oracle-fixture"@.len() == 14);
    assert("oracle-model-bench"@.len() == 18);
    assert("oracle-inspect"@.len() == 14);
    assert("oracle-stitch"@.len() == 13);
    assert("oracle-compare"@.len() == 14);
    assert("oracle-compare-capi"@.len() == 19);
    assert("oracle-compare-model"@.len() == 20);
    assert("oracle-run"@.len() == 10);
    assert("demo"@[0] == 'd');
    assert("plan"@[0] == 'p');
    assert("fuse"@[0] == 'f');
    assert("export"@[0] == 'e');
    assert("verify"@[0] == 'v');
}

/// Why a command is refused.
#[derive(Debug, Clone, Copy, PartialEq, Eq, Structural)]
pub enum CommandProblem {
    NoFrames,
    BenchCounts,
    NoViews,
    EmptyMaps,
    MvsSource,
    NoObservations,
    MissingSurfelProduct,
    UnboundSurfelProduct,
    TooFewCameras,
    ArchitectureLimits,
    MissingSourceProduct,
    NoPlanes,
    ProfileMissed,
}

impl CommandProblem {
    /// The reason in words.
    pub fn message(&self) -> (words: &'static str)
        ensures
            words@ == match *self {
                CommandProblem::NoFrames => "ffmpeg produced no frames"@,
                CommandProblem::BenchCounts =>
                    "oracle-model-bench requires positive --warmup and --repeat"@,
                CommandProblem::NoViews => "multi-view model produced no views"@,
                CommandProblem::EmptyMaps =>
                    "multi-view model produced an empty depth/confidence map"@,
                CommandProblem::MvsSource =>
                    "COLMAP MVS import requires a calibrated pose solution with registered frames"@,
                CommandProblem::NoObservations => "maximum observations must be positive"@,
                CommandProblem::MissingSurfelProduct =>
                    "requested pose-conditioned DA3 surfel product has not been imported"@,
                CommandProblem::UnboundSurfelProduct =>
                    "pose-conditioned DA3 surfel product does not bind the requested COLMAP pose solution"@,
                CommandProblem::TooFewCameras =>
                    "TSDF derivative requires at least three valid global camera centres"@,
                CommandProblem::ArchitectureLimits =>
                    "architecture extraction limits must be positive"@,
                CommandProblem::MissingSourceProduct =>
                    "requested source world product has not been published"@,
                CommandProblem::NoPlanes =>
                    "no sufficiently supported architectural planes were found; retain the source surfel world"@,
                CommandProblem::ProfileMissed =>
                    "scene does not satisfy the supplied regression profile"@,
            },
    {
        match self {
            CommandProblem::NoFrames => "ffmpeg produced no frames",
            CommandProblem::BenchCounts =>
                "oracle-model-bench requires positive --warmup and --repeat",
            CommandProblem::NoViews => "multi-view model produced no views",
            CommandProblem::EmptyMaps => "multi-view model produced an empty depth/confidence map",
            CommandProblem::MvsSource =>
                "COLMAP MVS import requires a calibrated pose solution with registered frames",
            CommandProblem::NoObservations => "maximum observations must be positive",
            CommandProblem::MissingSurfelProduct =>
                "requested pose-conditioned DA3 surfel product has not been imported",
            CommandProblem::UnboundSurfelProduct =>
                "pose-conditioned DA3 surfel product does not bind the requested COLMAP pose solution",
            CommandProblem::TooFewCameras =>
                "TSDF derivative requires at least three valid global camera centres",
            CommandProblem::ArchitectureLimits => "architecture extraction limits must be positive",
            CommandProblem::MissingSourceProduct =>
                "requested source world product has not been published",
            CommandProblem::NoPlanes =>
                "no sufficiently supported architectural planes were found; retain the source surfel world",
            CommandProblem::ProfileMissed =>
                "scene does not satisfy the supplied regression profile",
        }
    }
}

/// The settings of a capture as its command line asks for them. A relative
/// capture keeps every confident and unconfident pixel.
pub fn capture_settings(
    windows: WindowSettings,
    minimum_confidence: u32,
    pixel_stride: usize,
    cpp_pr2_relative: bool,
) -> (settings: ReconstructionSettings)
    ensures
        settings.windows == windows,
        settings.cpp_pr2_relative_capture == cpp_pr2_relative,
        settings.backprojection == (BackprojectionSettings {
            minimum_confidence: if cpp_pr2_relative {
                ieee::F32_MIN
            } else {
                minimum_confidence
            },
            pixel_stride: if cpp_pr2_relative {
                1
            } else {
                pixel_stride
            },
            surfel_radius_pixels: ieee::F32_ONE,
        }),
{
    ReconstructionSettings {
        windows,
        backprojection: BackprojectionSettings {
            minimum_confidence: if cpp_pr2_relative {
                ieee::F32_MIN
            } else {
                minimum_confidence
            },
            pixel_stride: if cpp_pr2_relative {
                1
            } else {
                pixel_stride
            },
            surfel_radius_pixels: ieee::F32_ONE,
        },
        cpp_pr2_relative_capture: cpp_pr2_relative,
    }
}

/// A capture needs at least one decoded frame.
pub fn check_decoded(frames: usize) -> (result: Result<(), CommandProblem>)
    ensures
        result is Ok <==> frames > 0,
        result matches Err(e) ==> e is NoFrames,
{
    if frames > 0 {
        Ok(())
    } else {
        Err(CommandProblem::NoFrames)
    }
}

/// What a capture did, in numbers.
#[derive(Debug, Clone, Copy, PartialEq, Eq, Structural)]
pub struct CaptureTotals {
    pub windows: usize,
    pub reused_windows: usize,
    pub inferred_windows: usize,
    pub measured_points: usize,
}

/// How many of the first `count` windows were reused.
pub open spec fn reused_among(progress: Seq<ReconstructionProgress>, count: int) -> nat
    decreases count,
{
    if count <= 0 {
        0
    } else {
        reused_among(progress, count - 1) + if progress[count - 1].reused {
            1nat
        } else {
            0nat
        }
    }
}

/// How many points the first `count` windows measured.
pub open spec fn measured_among(progress: Seq<ReconstructionProgress>, count: int) -> nat
    decreases count,
{
    if count <= 0 {
        0
    } else {
        measured_among(progress, count - 1) + progress[count - 1].measured_points as nat
    }
}

proof fn lemma_measured_grows(progress: Seq<ReconstructionProgress>, count: int, end: int)
    requires
        count <= end,
    ensures
        measured_among(progress, count) <= measured_among(progress, end),
    decreases end - count,
{
    if count < end {
        lemma_measured_grows(progress, count, end - 1);
    }
}

/// Adds up a capture.
pub fn capture_totals(progress: &Vec<ReconstructionProgress>) -> (totals: CaptureTotals)
    requires
        measured_among(progress@, progress@.len() as int) <= usize::MAX,
    ensures
        totals.windows == progress@.len(),
        totals.reused_windows == reused_among(progress@, progress@.len() as int),
        totals.inferred_windows + totals.reused_windows == progress@.len(),
        totals.measured_points == measured_among(progress@, progress@.len() as int),
{
    let mut reused: usize = 0;
    let mut points: usize = 0;
    for i in 0..progress.len()
        invariant
            measured_among(progress@, progress@.len() as int) <= usize::MAX,
            reused == reused_among(progress@, i as int),
            reused <= i,
            points == measured_among(progress@, i as int),
    {
        proof {
            lemma_measured_grows(progress@, i + 1, progress@.len() as int);
        }
        if progress[i].reused {
            reused = reused + 1;
        }
        points = points + progress[i].measured_points;
    }
    CaptureTotals {
        windows: progress.len(),
        reused_windows: reused,
        inferred_windows: progress.len() - reused,
        measured_points: points,
    }
}

/// What a settings fingerprint is taken of. Numbers that are no integers come
/// as the text they print as.
pub struct FingerprintInput<'a> {
    pub video_hash: &'a str,
    pub candidate_fps: &'a str,
    pub hard_max_frames: usize,
    pub width: usize,
    pub height: usize,
    pub chunk_size: usize,
    pub overlap: usize,
    pub minimum_confidence: &'a str,
    pub pixel_stride: usize,
    pub cpp_pr2_relative: bool,
}

/// The first part of the fingerprinted text.
pub open spec fn fingerprint_head(input: FingerprintInput) -> Seq<u8> {
    text::utf8("video="@) + text::utf8(input.video_hash@) + text::utf8(";candidate_fps="@)
        + text::utf8(input.candidate_fps@) + text::utf8(";hard_max_frames="@) + text::decimal(
        input.hard_max_frames as int,
    ) + text::utf8(
        ";geometry_keyframe_selection=v3;geometry_minimum_gap_seconds=0.4;geometry_minimum_novelty=0.015;geometry_maximum_gap_seconds=0.6;geometry_minimum_sharpness=0.012;width="@,
    ) + text::decimal(input.width as int)
}

/// The second part of the fingerprinted text.
pub open spec fn fingerprint_middle(input: FingerprintInput) -> Seq<u8> {
    text::utf8(";height="@) + text::decimal(input.height as int) + text::utf8(";chunk="@)
        + text::decimal(input.chunk_size as int) + text::utf8(";overlap="@) + text::decimal(
        input.overlap as int,
    )
}

/// The last part of the fingerprinted text.
pub open spec fn fingerprint_tail(input: FingerprintInput) -> Seq<u8> {
    text::utf8(";minimum_confidence="@) + text::utf8(input.minimum_confidence@) + text::utf8(
        ";pixel_stride="@,
    ) + text::decimal(input.pixel_stride as int) + text::utf8(";cpp_pr2_relative="@) + text::utf8(
        if input.cpp_pr2_relative {
            "true"@
        } else {
            "false"@
        },
    )
}

/// The text whose digest identifies the settings.
pub open spec fn fingerprint_text(input: FingerprintInput) -> Seq<u8> {
    fingerprint_head(input) + fingerprint_middle(input) + fingerprint_tail(input)
}

fn put_head(input: &FingerprintInput, out: &mut Vec<u8>)
    ensures
        final(out)@ == old(out)@ + fingerprint_head(*input),
{
    let ghost start = out@;
    put_text(out, "video=");
    put_text(out, input.video_hash);
    put_text(out, ";candidate_fps=");
    put_text(out, input.candidate_fps);
    put_text(out, ";hard_max_frames=");
    put_number(out, input.hard_max_frames as u64);
    put_text(
        out,
        ";geometry_keyframe_selection=v3;geometry_minimum_gap_seconds=0.4;geometry_minimum_novelty=0.015;geometry_maximum_gap_seconds=0.6;geometry_minimum_sharpness=0.012;width=",
    );
    put_number(out, input.width as u64);
    assert(out@ =~= start + fingerprint_head(*input));
}

fn put_middle(input: &FingerprintInput, out: &mut Vec<u8>)
    ensures
        final(out)@ == old(out)@ + fingerprint_middle(*input),
{
    let ghost start = out@;
    put_text(out, ";height=");
    put_number(out, input.height as u64);
    put_text(out, ";chunk=");
    put_number(out, input.chunk_size as u64);
    put_text(out, ";overlap=");
    put_number(out, input.overlap as u64);
    assert(out@ =~= start + fingerprint_middle(*input));
}

fn put_tail(input: &FingerprintInput, out: &mut Vec<u8>)
    ensures
        final(out)@ == old(out)@ + fingerprint_tail(*input),
{
    let ghost start = out@;
    put_text(out, ";minimum_confidence=");
    put_text(out, input.minimum_confidence);
    put_text(out, ";pixel_stride=");
    put_number(out, input.pixel_stride as u64);
    put_text(out, ";cpp_pr2_relative=");
    put_text(
        out,
        if input.cpp_pr2_relative {
            "true"
        } else {
            "false"
        },
    );
    assert(out@ =~= start + fingerprint_tail(*input));
}

/// The identity of everything that decides what a capture measures.
pub fn settings_fingerprint(input: &FingerprintInput) -> (fingerprint: String)
    ensures
        fingerprint@ == digest::hex_digest(fingerprint_text(*input)),
{
    let mut out: Vec<u8> = Vec::new();
    put_head(input, &mut out);
    put_middle(input, &mut out);
    put_tail(input, &mut out);
    assert(out@ =~= fingerprint_text(*input));
    digest::sha256_hex(out.as_slice())
}

/// The file name of a decoded frame: one-based, six digits.
pub open spec fn raster_file(frame_index: int) -> Seq<u8> {
    text::utf8("frame-"@) + text::padded_decimal(frame_index + 1, 6) + text::utf8(".ppm"@)
}

/// The file name of a decoded frame.
pub fn raster_file_name(frame_index: usize) -> (name: Vec<u8>)
    requires
        frame_index < u64::MAX,
    ensures
        name@ == raster_file(frame_index as int),
{
    let mut name: Vec<u8> = Vec::new();
    put_text(&mut name, "frame-");
    let digits: Vec<u8> = text::padded_decimal_text(frame_index as u64 + 1, 6);
    put_bytes(&mut name, digits.as_slice());
    put_text(&mut name, ".ppm");
    assert(name@ =~= raster_file(frame_index as int));
    name
}

/// How many timed rounds a model benchmark runs in all; both counts have to be
/// positive.
pub fn bench_rounds(warmup: usize, repeat: usize) -> (result: Result<usize, CommandProblem>)
    ensures
        match result {
            Ok(rounds) => warmup > 0 && repeat > 0 && rounds == (if warmup + repeat > usize::MAX {
                usize::MAX as int
            } else {
                warmup + repeat
            }),
            Err(e) => (warmup == 0 || repeat == 0) && e is BenchCounts,
        },
{
    if warmup == 0 || repeat == 0 {
        Err(CommandProblem::BenchCounts)
    } else {
        Ok(
            match warmup.checked_add(repeat) {
                Some(rounds) => rounds,
                None => usize::MAX,
            },
        )
    }
}

/// What a benchmarked window has to have returned.
pub fn check_bench_output(views: usize, depths: usize, confidences: usize) -> (result: Result<
    (),
    CommandProblem,
>)
    ensures
        match result {
            Ok(_) => views > 0 && depths > 0 && confidences > 0,
            Err(e) => if views == 0 {
                e is NoViews
            } else {
                (depths == 0 || confidences == 0) && e is EmptyMaps
            },
        },
{
    if views == 0 {
        Err(CommandProblem::NoViews)
    } else if depths == 0 || confidences == 0 {
        Err(CommandProblem::EmptyMaps)
    } else {
        Ok(())
    }
}

/// The registered ones of the first `count` frames.
pub open spec fn registered_among(frames: Seq<PoseFrame>, count: int) -> Seq<usize>
    decreases count,
{
    if count <= 0 {
        Seq::empty()
    } else if frames[count - 1].registered {
        registered_among(frames, count - 1).push(frames[count - 1].frame_index)
    } else {
        registered_among(frames, count - 1)
    }
}

/// The registered frames of a solution.
pub fn registered_frames(frames: &Vec<PoseFrame>) -> (registered: Vec<usize>)
    ensures
        registered@ == registered_among(frames@, frames@.len() as int),
{
    let mut registered: Vec<usize> = Vec::new();
    for i in 0..frames.len()
        invariant
            registered@ == registered_among(frames@, i as int),
    {
        if frames[i].registered {
            registered.push(frames[i].frame_index);
        }
    }
    registered
}

/// A dense cloud is imported only with a calibrated solution that registered
/// frames.
pub fn check_mvs_source(registered: usize, has_trajectory: bool) -> (result: Result<
    (),
    CommandProblem,
>)
    ensures
        result is Ok <==> registered > 0 && has_trajectory,
        result matches Err(e) ==> e is MvsSource,
{
    if registered == 0 || !has_trajectory {
        Err(CommandProblem::MvsSource)
    } else {
        Ok(())
    }
}

/// How an imported dense cloud is filed.
#[derive(Debug, Clone, Copy, PartialEq, Eq)]
pub struct MvsIdentity {
    pub product_id: &'static str,
    pub authority: &'static str,
    pub consistency: &'static str,
}

/// A photometric cloud is never filed as a geometric one.
pub fn mvs_import_identity(photometric: bool) -> (identity: MvsIdentity)
    ensures
        identity.product_id@ == (if photometric {
            "colmap-mvs-photometric-control"@
        } else {
            "colmap-mvs-geometric"@
        }),
        identity.authority@ == (if photometric {
            "colmap-dense-mvs-photometric"@
        } else {
            "colmap-dense-mvs-geometric"@
        }),
        identity.consistency@ == (if photometric {
            "photometric-only"@
        } else {
            "geometric"@
        }),
{
    if photometric {
        MvsIdentity {
            product_id: "colmap-mvs-photometric-control",
            authority: "colmap-dense-mvs-photometric",
            consistency: "photometric-only",
        }
    } else {
        MvsIdentity {
            product_id: "colmap-mvs-geometric",
            authority: "colmap-dense-mvs-geometric",
            consistency: "geometric",
        }
    }
}

/// A published world product.
#[derive(Debug, Clone, PartialEq, Eq)]
pub struct WorldProduct {
    pub id: String,
    pub fused_chunk_hash: String,
    pub pose_authority: String,
    pub pose_solution_hash: Option<String>,
    pub source_frame_indices: Vec<usize>,
    pub depth_frame_count: usize,
}

/// The first product of an id, from place `start` on.
pub open spec fn product_at(products: Seq<WorldProduct>, id: Seq<char>, start: int) -> Option<int>
    decreases products.len() - start,
{
    if start >= products.len() {
        None
    } else if products[start].id@ == id {
        Some(start)
    } else {
        product_at(products, id, start + 1)
    }
}

/// Finds a published product.
pub fn find_product(products: &Vec<WorldProduct>, id: &str) -> (found: Option<usize>)
    ensures
        match found {
            None => product_at(products@, id@, 0) is None,
            Some(i) => i < products@.len() && product_at(products@, id@, 0) == Some(i as int),
        },
{
    for i in 0..products.len()
        invariant
            product_at(products@, id@, 0) == product_at(products@, id@, i as int),
    {
        if text::same_text(products[i].id.as_str(), id) {
            return Some(i);
        }
    }
    None
}

/// A product rests on an authority and on a pose solution.
pub open spec fn is_bound(
    product: WorldProduct,
    authority: Seq<char>,
    pose_solution: Seq<char>,
) -> bool {
    &&& product.pose_authority@ == authority
    &&& product.pose_solution_hash matches Some(hash) && hash@ == pose_solution
}

/// The product a surface derivative is taken from: it has been imported, and
/// it rests on the requested pose solution.
pub fn derivative_source(
    products: &Vec<WorldProduct>,
    source_id: &str,
    authority: &str,
    pose_solution: &str,
    maximum_observations: usize,
) -> (result: Result<usize, CommandProblem>)
    ensures
        ({
            let place = product_at(products@, source_id@, 0);
            match result {
                Ok(i) => maximum_observations > 0 && i < products@.len() && place == Some(i as int)
                    && is_bound(products@[i as int], authority@, pose_solution@),
                Err(e) => if maximum_observations == 0 {
                    e is NoObservations
                } else if place is None {
                    e is MissingSurfelProduct
                } else {
                    !is_bound(products@[place.unwrap()], authority@, pose_solution@)
                        && e is UnboundSurfelProduct
                },
            }
        }),
{
    if maximum_observations == 0 {
        return Err(CommandProblem::NoObservations);
    }
    match find_product(products, source_id) {
        None => Err(CommandProblem::MissingSurfelProduct),
        Some(i) => {
            let product = &products[i];
            let solved = match &product.pose_solution_hash {
                None => false,
                Some(hash) => text::same_text(hash.as_str(), pose_solution),
            };
            if text::same_text(product.pose_authority.as_str(), authority) && solved {
                Ok(i)
            } else {
                Err(CommandProblem::UnboundSurfelProduct)
            }
        },
    }
}

/// A surface derivative needs three global cameras.
pub fn check_cameras(cameras: usize) -> (result: Result<(), CommandProblem>)
    ensures
        result is Ok <==> cameras >= 3,
        result matches Err(e) ==> e is TooFewCameras,
{
    if cameras < 3 {
        Err(CommandProblem::TooFewCameras)
    } else {
        Ok(())
    }
}

/// Every how many points one is observed.
pub open spec fn observation_stride(points: int, maximum: int) -> int {
    if points <= 0 {
        1
    } else {
        (points - 1) / maximum + 1
    }
}

/// Every `stride`-th point of a world as evidence, from the first.
pub open spec fn strided(points: Seq<FusedPoint>, stride: int) -> Seq<TsdfObservation> {
    Seq::new(
        ((points.len() + stride - 1) / stride) as nat,
        |i: int| emission::observation_of(points[i * stride]),
    )
}

/// Evenly spaced evidence of a world, at most `maximum` observations: a
/// regular stride samples every frame and region alike.
pub fn strided_observations(points: &Vec<FusedPoint>, maximum: usize) -> (observations: Vec<
    TsdfObservation,
>)
    requires
        maximum > 0,
    ensures
        observations@.len() <= maximum,
        observations@ == strided(
            points@,
            observation_stride(points@.len() as int, maximum as int),
        ),
{
    let count: usize = points.len();
    let stride: usize = if count == 0 {
        1
    } else {
        (count - 1) / maximum + 1
    };
    let ghost whole = strided(points@, stride as int);
    proof {
        lemma_stride(count as int, maximum as int);
        lemma_steps(count as int, stride as int, 0);
        assert(0 * stride == 0) by (nonlinear_arith);
    }
    let mut observations: Vec<TsdfObservation> = Vec::new();
    let mut at: usize = 0;
    let mut more = count > 0;
    while more
        invariant
            count == points@.len(),
            stride > 0,
            whole == strided(points@, stride as int),
            observations@.len() <= whole.len(),
            observations@ == whole.take(observations@.len() as int),
            more ==> at < count && at == observations@.len() * stride && observations@.len()
                < whole.len(),
            !more ==> observations@.len() == whole.len(),
        decreases whole.len() - observations@.len(),
    {
        let ghost k = observations@.len() as int;
        let point = points[at];
        observations.push(
            TsdfObservation {
                position: point.position,
                color_srgb: point.color_srgb,
                confidence: point.confidence,
                radius: point.radius,
                frame_index: point.first_observing_frame,
            },
        );
        assert(whole[k] == emission::observation_of(points@[k * stride]));
        assert(observations@ =~= whole.take(k + 1));
        assert((k + 1) * stride == k * stride + stride) by (nonlinear_arith);
        proof {
            lemma_steps(count as int, stride as int, k + 1);
        }
        if stride < count - at {
            at = at + stride;
        } else {
            more = false;
        }
    }
    assert(whole.take(whole.len() as int) =~= whole);
    observations
}

/// How many multiples of a stride lie below a count.
proof fn lemma_steps(count: int, stride: int, k: int)
    requires
        0 <= count,
        stride > 0,
        0 <= k,
    ensures
        k * stride < count <==> k < (count + stride - 1) / stride,
{
    let q = (count + stride - 1) / stride;
    let r = (count + stride - 1) % stride;
    assert(count + stride - 1 == q * stride + r && 0 <= r < stride) by (nonlinear_arith)
        requires
            stride > 0,
            q == (count + stride - 1) / stride,
            r == (count + stride - 1) % stride,
    ;
    if k < q {
        assert(k * stride <= q * stride - stride) by (nonlinear_arith)
            requires
                k <= q - 1,
                stride > 0,
        ;
    } else {
        assert(q * stride <= k * stride) by (nonlinear_arith)
            requires
                q <= k,
                stride > 0,
        ;
    }
}

/// The stride leaves no more than the maximum.
proof fn lemma_stride(count: int, maximum: int)
    requires
        0 <= count,
        maximum > 0,
    ensures
        observation_stride(count, maximum) > 0,
        (count + observation_stride(count, maximum) - 1) / observation_stride(count, maximum)
            <= maximum,
{
    let s = observation_stride(count, maximum);
    if count > 0 {
        let r = (count - 1) % maximum;
        assert(count - 1 == (s - 1) * maximum + r && 0 <= r < maximum && s > 0) by (nonlinear_arith)
            requires
                maximum > 0,
                count > 0,
                s == (count - 1) / maximum + 1,
                r == (count - 1) % maximum,
        ;
        assert((count + s - 1) / s <= maximum) by (nonlinear_arith)
            requires
                count - 1 == (s - 1) * maximum + r,
                0 <= r < maximum,
                s > 0,
                maximum > 0,
                count > 0,
        ;
    }
}

/// An architecture extraction needs positive limits and a published source.
pub fn architecture_source(
    products: &Vec<WorldProduct>,
    source_product: &str,
    maximum_source_points: usize,
    maximum_planes: usize,
) -> (result: Result<usize, CommandProblem>)
    ensures
        ({
            let place = product_at(products@, source_product@, 0);
            let limited = maximum_source_points > 0 && maximum_planes > 0;
            match result {
                Ok(i) => limited && i < products@.len() && place == Some(i as int),
                Err(e) => if !limited {
                    e is ArchitectureLimits
                } else {
                    place is None && e is MissingSourceProduct
                },
            }
        }),
{
    if maximum_source_points == 0 || maximum_planes == 0 {
        return Err(CommandProblem::ArchitectureLimits);
    }
    match find_product(products, source_product) {
        None => Err(CommandProblem::MissingSourceProduct),
        Some(i) => Ok(i),
    }
}

/// An extraction without a plane or without a surface point is not published.
pub fn check_extraction(planes: usize, points: usize) -> (result: Result<(), CommandProblem>)
    ensures
        result is Ok <==> planes > 0 && points > 0,
        result matches Err(e) ==> e is NoPlanes,
{
    if planes == 0 || points == 0 {
        Err(CommandProblem::NoPlanes)
    } else {
        Ok(())
    }
}

/// The product id of the architecture layer of a product.
pub fn architecture_product_id(source_id: &str) -> (id: String)
    ensures
        id@ == source_id@ + "-architecture"@,
{
    let mut id: String = source_id.to_owned();
    id.append("-architecture");
    id
}

/// The authority of the architecture layer of a product.
pub fn architecture_authority(source_authority: &str) -> (authority: String)
    ensures
        authority@ == source_authority@ + "+supported-planes"@,
{
    let mut authority: String = source_authority.to_owned();
    authority.append("+supported-planes");
    authority
}

/// How a world in the frame of a global pose solution is filed, and that only
/// the validated provider is accepted.
pub fn accepts_pose_provider(kind: &str) -> (answer: bool)
    ensures
        answer == (kind@ == "colmap"@),
{
    text::same_text(kind, "colmap")
}

/// A verified scene has to have passed.
pub fn check_verification(passed: bool) -> (result: Result<(), CommandProblem>)
    ensures
        result is Ok <==> passed,
        result matches Err(e) ==> e is ProfileMissed,
{
    if passed {
        Ok(())
    } else {
        Err(CommandProblem::ProfileMissed)
    }
}

/// The windows taken from an earlier run, and all points measured.
pub proof fn law_progress_is_summed(progress: Seq<ReconstructionProgress>, count: int)
    requires
        0 <= count <= progress.len(),
    ensures
        reused_among(progress, count) == progress.take(count).filter(
            |window: ReconstructionProgress| window.reused,
        ).len(),
        measured_among(progress, count) == order::total(
            progress.take(count).map_values(
                |window: ReconstructionProgress| window.measured_points as nat,
            ),
        ),
    decreases count,
{
    reveal(Seq::filter);
    let points = |n: int|
        progress.take(n).map_values(|window: ReconstructionProgress| window.measured_points as nat);
    if count > 0 {
        law_progress_is_summed(progress, count - 1);
        assert(progress.take(count).drop_last() =~= progress.take(count - 1));
        assert(points(count).drop_last() =~= points(count - 1));
    }
    assert(points(count) =~= progress.take(count).map_values(
        |window: ReconstructionProgress| window.measured_points as nat,
    ));
}

/// The registered frames, in the order of the list.
pub proof fn law_registered_frames_are_listed(frames: Seq<PoseFrame>, count: int)
    requires
        0 <= count <= frames.len(),
    ensures
        registered_among(frames, count) == frames.take(count).filter(
            |frame: PoseFrame| frame.registered,
        ).map_values(|frame: PoseFrame| frame.frame_index),
    decreases count,
{
    reveal(Seq::filter);
    if count > 0 {
        law_registered_frames_are_listed(frames, count - 1);
        assert(frames.take(count).drop_last() =~= frames.take(count - 1));
    }
    assert(registered_among(frames, count) =~= frames.take(count).filter(
        |frame: PoseFrame| frame.registered,
    ).map_values(|frame: PoseFrame| frame.frame_index));
}

/// A product is found by its id, the first that has it; otherwise none has it.
pub proof fn law_products_are_found(products: Seq<WorldProduct>, id: Seq<char>, start: int)
    requires
        0 <= start,
    ensures
        match product_at(products, id, start) {
            Some(k) => start <= k < products.len() && products[k].id@ == id && forall|j: int|
                start <= j < k ==> (#[trigger] products[j]).id@ != id,
            None => forall|j: int|
                start <= j < products.len() ==> (#[trigger] products[j]).id@ != id,
        },
    decreases products.len() - start,
{
    if start < products.len() {
        law_products_are_found(products, id, start + 1);
    }
}

/// A product is bound to a pose solution where it names both its authority and its
/// digest.
pub proof fn law_bound_products_name_their_solution(
    product: WorldProduct,
    authority: Seq<char>,
    pose_solution: Seq<char>,
)
    ensures
        is_bound(product, authority, pose_solution) <==> product.pose_authority@ == authority
            && product.pose_solution_hash is Some && product.pose_solution_hash->0@
            == pose_solution,
{
}

/// Observations are taken from the points in equal steps, the smallest that leave no more
/// than the maximum: the first point, and then one for every step. Each has the place,
/// the colour, the confidence and the radius of its point.
pub proof fn law_observations_go_in_equal_steps(points: Seq<FusedPoint>, maximum: int, i: int)
    requires
        maximum > 0,
        0 <= i,
    ensures
        ({
            let step = observation_stride(points.len() as int, maximum);
            let taken = strided(points, step);
            &&& step >= 1
            &&& taken.len() <= maximum
            &&& step > 1 ==> (step - 1) * maximum < points.len()
            &&& i < taken.len() <==> i * step < points.len()
            &&& i < taken.len() ==> taken[i].position == points[i * step].position
                && taken[i].color_srgb == points[i * step].color_srgb && taken[i].confidence
                == points[i * step].confidence && taken[i].radius == points[i * step].radius
        }),
{
    let count = points.len() as int;
    let step = observation_stride(count, maximum);
    lemma_stride(count, maximum);
    lemma_steps(count, step, i);
    if step > 1 {
        assert((step - 1) * maximum < count) by (nonlinear_arith)
            requires
                step == (count - 1) / maximum + 1,
                maximum > 0,
                count > 0,
        ;
    }
}

/// The file of a frame is numbered from 1 with at least six digits, which read back as
/// its number.
pub proof fn law_raster_files_are_numbered(frame_index: int)
    requires
        0 <= frame_index,
    ensures
        ({
            let name = raster_file(frame_index);
            let front = text::utf8("frame-"@);
            let back = text::utf8(".ppm"@);
            let digits = name.subrange(front.len() as int, name.len() - back.len());
            &&& name == front + digits + back
            &&& digits.len() >= 6
            &&& text::decimal_up_to(digits, frame_index + 1) == Some(frame_index + 1)
            &&& digits.len() > 6 ==> digits == text::decimal(frame_index + 1)
        }),
{
    let name = raster_file(frame_index);
    let front = text::utf8("frame-"@);
    let back = text::utf8(".ppm"@);
    let number = text::padded_decimal(frame_index + 1, 6);
    assert(name =~= front + number + back);
    assert(name.subrange(front.len() as int, name.len() - back.len()) =~= number);
    text::law_padded_number_reads_back(frame_index + 1, 6);
}

/// The parts of a fingerprinted text that are the same for all inputs, each but the first
/// with a semicolon in front.
proof fn lemma_fingerprint_parts()
    ensures
        text::utf8(";candidate_fps="@).len() > 0 && text::utf8(";candidate_fps="@)[0] == 0x3b,
        text::utf8(";hard_max_frames="@).len() > 0 && text::utf8(";hard_max_frames="@)[0] == 0x3b,
        text::utf8(";height="@).len() > 0 && text::utf8(";height="@)[0] == 0x3b,
        text::utf8(";chunk="@).len() > 0 && text::utf8(";chunk="@)[0] == 0x3b,
        text::utf8(";overlap="@).len() > 0 && text::utf8(";overlap="@)[0] == 0x3b,
        text::utf8(";minimum_confidence="@).len() > 0 && text::utf8(";minimum_confidence="@)[0]
            == 0x3b,
        text::utf8(";pixel_stride="@).len() > 0 && text::utf8(";pixel_stride="@)[0] == 0x3b,
        text::utf8(";cpp_pr2_relative="@).len() > 0 && text::utf8(";cpp_pr2_relative="@)[0] == 0x3b,
        text::utf8("true"@) != text::utf8("false"@),
{
    reveal_strlit(";candidate_fps=");
    reveal_strlit(";hard_max_frames=");
    reveal_strlit(";height=");
    reveal_strlit(";chunk=");
    reveal_strlit(";overlap=");
    reveal_strlit(";minimum_confidence=");
    reveal_strlit(";pixel_stride=");
    reveal_strlit(";cpp_pr2_relative=");
    reveal_strlit("true");
    reveal_strlit("false");
    vstd::utf8::is_ascii_chars_encode_utf8(";candidate_fps="@);
    vstd::utf8::is_ascii_chars_encode_utf8(";hard_max_frames="@);
    vstd::utf8::is_ascii_chars_encode_utf8(";height="@);
    vstd::utf8::is_ascii_chars_encode_utf8(";chunk="@);
    vstd::utf8::is_ascii_chars_encode_utf8(";overlap="@);
    vstd::utf8::is_ascii_chars_encode_utf8(";minimum_confidence="@);
    vstd::utf8::is_ascii_chars_encode_utf8(";pixel_stride="@);
    vstd::utf8::is_ascii_chars_encode_utf8(";cpp_pr2_relative="@);
    vstd::utf8::is_ascii_chars_encode_utf8("true"@);
    vstd::utf8::is_ascii_chars_encode_utf8("false"@);
}

proof fn lemma_geometry_part(selection: Seq<u8>)
    requires
        selection == text::utf8(
            ";geometry_keyframe_selection=v3;geometry_minimum_gap_seconds=0.4;geometry_minimum_novelty=0.015;geometry_maximum_gap_seconds=0.6;geometry_minimum_sharpness=0.012;width="@,
        ),
    ensures
        selection.len() > 0,
        selection[0] == 0x3b,
{
    reveal_strlit(
        ";geometry_keyframe_selection=v3;geometry_minimum_gap_seconds=0.4;geometry_minimum_novelty=0.015;geometry_maximum_gap_seconds=0.6;geometry_minimum_sharpness=0.012;width=",
    );
    vstd::utf8::is_ascii_chars_encode_utf8(
        ";geometry_keyframe_selection=v3;geometry_minimum_gap_seconds=0.4;geometry_minimum_novelty=0.015;geometry_maximum_gap_seconds=0.6;geometry_minimum_sharpness=0.012;width="@,
    );
}

spec fn flag_text(flag: bool) -> Seq<u8> {
    text::utf8(
        if flag {
            "true"@
        } else {
            "false"@
        },
    )
}

spec fn from_stride(input: FingerprintInput) -> Seq<u8> {
    text::utf8(";pixel_stride="@) + (text::decimal(input.pixel_stride as int) + (text::utf8(
        ";cpp_pr2_relative="@,
    ) + flag_text(input.cpp_pr2_relative)))
}

spec fn from_overlap(input: FingerprintInput) -> Seq<u8> {
    text::utf8(";overlap="@) + (text::decimal(input.overlap as int) + (text::utf8(
        ";minimum_confidence="@,
    ) + (text::utf8(input.minimum_confidence@) + from_stride(input))))
}

spec fn from_height(input: FingerprintInput) -> Seq<u8> {
    text::utf8(";height="@) + (text::decimal(input.height as int) + (text::utf8(";chunk="@) + (
    text::decimal(input.chunk_size as int) + from_overlap(input))))
}

spec fn from_limit(input: FingerprintInput) -> Seq<u8> {
    text::utf8(";hard_max_frames="@) + (text::decimal(input.hard_max_frames as int) + (text::utf8(
        ";geometry_keyframe_selection=v3;geometry_minimum_gap_seconds=0.4;geometry_minimum_novelty=0.015;geometry_maximum_gap_seconds=0.6;geometry_minimum_sharpness=0.012;width="@,
    ) + (text::decimal(input.width as int) + from_height(input))))
}

proof fn lemma_fingerprint_nested(input: FingerprintInput)
    ensures
        fingerprint_text(input) == text::utf8("video="@) + (text::utf8(input.video_hash@) + (
        text::utf8(";candidate_fps="@) + (text::utf8(input.candidate_fps@) + from_limit(input)))),
{
    let head = fingerprint_head(input);
    let middle = fingerprint_middle(input);
    let tail = fingerprint_tail(input);
    text::lemma_five_regrouped(
        text::utf8(";minimum_confidence="@),
        text::utf8(input.minimum_confidence@),
        text::utf8(";pixel_stride="@),
        text::decimal(input.pixel_stride as int),
        text::utf8(";cpp_pr2_relative="@),
        flag_text(input.cpp_pr2_relative),
    );
    text::lemma_six_regrouped(
        text::utf8(";height="@),
        text::decimal(input.height as int),
        text::utf8(";chunk="@),
        text::decimal(input.chunk_size as int),
        text::utf8(";overlap="@),
        text::decimal(input.overlap as int),
        tail,
    );
    text::lemma_eight_regrouped(
        text::utf8("video="@),
        text::utf8(input.video_hash@),
        text::utf8(";candidate_fps="@),
        text::utf8(input.candidate_fps@),
        text::utf8(";hard_max_frames="@),
        text::decimal(input.hard_max_frames as int),
        text::utf8(
            ";geometry_keyframe_selection=v3;geometry_minimum_gap_seconds=0.4;geometry_minimum_novelty=0.015;geometry_maximum_gap_seconds=0.6;geometry_minimum_sharpness=0.012;width="@,
        ),
        text::decimal(input.width as int),
        middle + tail,
    );
    assert(head + middle + tail =~= head + (middle + tail));
}

proof fn lemma_from_stride(a: FingerprintInput, b: FingerprintInput)
    requires
        from_stride(a) == from_stride(b),
    ensures
        a.pixel_stride == b.pixel_stride,
        a.cpp_pr2_relative == b.cpp_pr2_relative,
{
    lemma_fingerprint_parts();
    let x = text::utf8(";cpp_pr2_relative="@) + flag_text(a.cpp_pr2_relative);
    let y = text::utf8(";cpp_pr2_relative="@) + flag_text(b.cpp_pr2_relative);
    text::lemma_same_behind(
        text::utf8(";pixel_stride="@),
        text::decimal(a.pixel_stride as int) + x,
        text::decimal(b.pixel_stride as int) + y,
    );
    text::lemma_number_ends(a.pixel_stride as int, x, b.pixel_stride as int, y, 0x3b);
    text::lemma_same_behind(
        text::utf8(";cpp_pr2_relative="@),
        flag_text(a.cpp_pr2_relative),
        flag_text(b.cpp_pr2_relative),
    );
}

proof fn lemma_from_overlap(a: FingerprintInput, b: FingerprintInput)
    requires
        from_overlap(a) == from_overlap(b),
        !text::utf8(a.minimum_confidence@).contains(0x3b),
        !text::utf8(b.minimum_confidence@).contains(0x3b),
    ensures
        a.overlap == b.overlap,
        text::utf8(a.minimum_confidence@) == text::utf8(b.minimum_confidence@),
        from_stride(a) == from_stride(b),
{
    lemma_fingerprint_parts();
    let x = text::utf8(a.minimum_confidence@) + from_stride(a);
    let y = text::utf8(b.minimum_confidence@) + from_stride(b);
    let front = text::utf8(";minimum_confidence="@);
    text::lemma_same_behind(
        text::utf8(";overlap="@),
        text::decimal(a.overlap as int) + (front + x),
        text::decimal(b.overlap as int) + (front + y),
    );
    text::lemma_number_ends(a.overlap as int, front + x, b.overlap as int, front + y, 0x3b);
    text::lemma_same_behind(front, x, y);
    text::lemma_field_ends(
        text::utf8(a.minimum_confidence@),
        from_stride(a),
        text::utf8(b.minimum_confidence@),
        from_stride(b),
        0x3b,
    );
}

proof fn lemma_from_height(a: FingerprintInput, b: FingerprintInput)
    requires
        from_height(a) == from_height(b),
    ensures
        a.height == b.height,
        a.chunk_size == b.chunk_size,
        from_overlap(a) == from_overlap(b),
{
    lemma_fingerprint_parts();
    let x = text::decimal(a.chunk_size as int) + from_overlap(a);
    let y = text::decimal(b.chunk_size as int) + from_overlap(b);
    let front = text::utf8(";chunk="@);
    text::lemma_same_behind(
        text::utf8(";height="@),
        text::decimal(a.height as int) + (front + x),
        text::decimal(b.height as int) + (front + y),
    );
    text::lemma_number_ends(a.height as int, front + x, b.height as int, front + y, 0x3b);
    text::lemma_same_behind(front, x, y);
    text::lemma_number_ends(
        a.chunk_size as int,
        from_overlap(a),
        b.chunk_size as int,
        from_overlap(b),
        0x3b,
    );
}

proof fn lemma_from_limit(a: FingerprintInput, b: FingerprintInput, selection: Seq<u8>)
    requires
        from_limit(a) == from_limit(b),
        selection == text::utf8(
            ";geometry_keyframe_selection=v3;geometry_minimum_gap_seconds=0.4;geometry_minimum_novelty=0.015;geometry_maximum_gap_seconds=0.6;geometry_minimum_sharpness=0.012;width="@,
        ),
    ensures
        a.hard_max_frames == b.hard_max_frames,
        a.width == b.width,
        from_height(a) == from_height(b),
{
    lemma_fingerprint_parts();
    lemma_geometry_part(selection);
    let x = text::decimal(a.width as int) + from_height(a);
    let y = text::decimal(b.width as int) + from_height(b);
    text::lemma_same_behind(
        text::utf8(";hard_max_frames="@),
        text::decimal(a.hard_max_frames as int) + (selection + x),
        text::decimal(b.hard_max_frames as int) + (selection + y),
    );
    text::lemma_number_ends(
        a.hard_max_frames as int,
        selection + x,
        b.hard_max_frames as int,
        selection + y,
        0x3b,
    );
    text::lemma_same_behind(selection, x, y);
    text::lemma_number_ends(a.width as int, from_height(a), b.width as int, from_height(b), 0x3b);
}

/// The fingerprinted text tells any two inputs apart whose texts hold no semicolon: where
/// it is the same, every setting is.
pub proof fn law_fingerprinted_text_tells_settings_apart(a: FingerprintInput, b: FingerprintInput)
    requires
        fingerprint_text(a) == fingerprint_text(b),
        !text::utf8(a.video_hash@).contains(0x3b),
        !text::utf8(b.video_hash@).contains(0x3b),
        !text::utf8(a.candidate_fps@).contains(0x3b),
        !text::utf8(b.candidate_fps@).contains(0x3b),
        !text::utf8(a.minimum_confidence@).contains(0x3b),
        !text::utf8(b.minimum_confidence@).contains(0x3b),
    ensures
        text::utf8(a.video_hash@) == text::utf8(b.video_hash@),
        text::utf8(a.candidate_fps@) == text::utf8(b.candidate_fps@),
        a.hard_max_frames == b.hard_max_frames,
        a.width == b.width,
        a.height == b.height,
        a.chunk_size == b.chunk_size,
        a.overlap == b.overlap,
        text::utf8(a.minimum_confidence@) == text::utf8(b.minimum_confidence@),
        a.pixel_stride == b.pixel_stride,
        a.cpp_pr2_relative == b.cpp_pr2_relative,
{
    lemma_fingerprint_parts();
    lemma_fingerprint_nested(a);
    lemma_fingerprint_nested(b);
    let front = text::utf8(";candidate_fps="@);
    let x = text::utf8(a.candidate_fps@) + from_limit(a);
    let y = text::utf8(b.candidate_fps@) + from_limit(b);
    text::lemma_same_behind(
        text::utf8("video="@),
        text::utf8(a.video_hash@) + (front + x),
        text::utf8(b.video_hash@) + (front + y),
    );
    text::lemma_field_ends(
        text::utf8(a.video_hash@),
        front + x,
        text::utf8(b.video_hash@),
        front + y,
        0x3b,
    );
    text::lemma_same_behind(front, x, y);
    text::lemma_field_ends(
        text::utf8(a.candidate_fps@),
        from_limit(a),
        text::utf8(b.candidate_fps@),
        from_limit(b),
        0x3b,
    );
    lemma_from_limit(
        a,
        b,
        text::utf8(
            ";geometry_keyframe_selection=v3;geometry_minimum_gap_seconds=0.4;geometry_minimum_novelty=0.015;geometry_maximum_gap_seconds=0.6;geometry_minimum_sharpness=0.012;width="@,
        ),
    );
    lemma_from_height(a, b);
    lemma_from_overlap(a, b);
    lemma_from_stride(a, b);
}

} // verus!
