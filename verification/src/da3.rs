//! Admission of pose-conditioned depth artifacts.
//!
//! A sidecar is trusted for nothing by being nearby: its identities, hashes,
//! calibration contract and frame ownership are all checked again before any
//! of it becomes a world product.

use vstd::prelude::*;

use crate::ieee;
use crate::text;
use crate::text::{padded_decimal_text, same, same_text};
use crate::wire::put_bytes;

verus! {

/// The bit pattern of binary64 `0.85`.
pub const ACCEPTED_FRACTION_FLOOR: u64 = 0x3feb_3333_3333_3333;

/// What a sidecar says of itself.
#[derive(Debug, Clone)]
pub struct Da3PoseConditionedArtifact {
    pub schema: String,
    pub raster_fingerprint: String,
    pub pose_solution_hash: String,
    pub align_to_input_ext_scale: bool,
    pub frames: Vec<usize>,
    pub published_frames: Option<Vec<usize>>,
    pub decision: Option<String>,
    pub source: Option<Da3CalibrationSource>,
    pub contract: Option<Da3CalibrationContract>,
    pub hybrid: Option<Da3MvsHybridEvidence>,
    pub ply: Da3PoseConditionedPly,
    pub depth_frames: Da3PoseConditionedDepthFrames,
}

/// The raw artifact a calibrated one was derived from.
#[derive(Debug, Clone)]
pub struct Da3CalibrationSource {
    pub raw_manifest_sha256: String,
    pub raster_fingerprint: String,
    pub pose_solution_hash: String,
    pub batch_files: Vec<Da3CalibrationBatch>,
}

/// One raw batch.
#[derive(Debug, Clone)]
pub struct Da3CalibrationBatch {
    pub file: String,
    pub sha256: String,
}

/// How a calibration was made.
#[derive(Debug, Clone)]
pub struct Da3CalibrationContract {
    /// A binary64 pattern.
    pub minimum_accepted_frame_fraction: u64,
    pub pixel_mapping: String,
    pub track_split: String,
}

/// Dense multi-view-stereo evidence behind a hybrid.
#[derive(Debug, Clone)]
pub struct Da3MvsHybridEvidence {
    pub mvs_ply_sha256: Option<String>,
    pub mvs_vertices: Option<usize>,
    pub mvs_depth_map_index_sha256: Option<String>,
    pub mvs_depth_map_count: Option<usize>,
    pub per_frame: Vec<Da3MvsPatchMatchFrame>,
    pub pixel_policy: String,
    /// A binary64 pattern.
    pub median_mvs_coverage: u64,
}

/// The depth map of one frame.
#[derive(Debug, Clone)]
pub struct Da3MvsPatchMatchFrame {
    pub frame_index: usize,
    pub file: String,
    pub sha256: String,
    /// A binary64 pattern.
    pub mvs_coverage: u64,
}

/// The point cloud of an artifact.
#[derive(Debug, Clone)]
pub struct Da3PoseConditionedPly {
    pub schema: String,
    pub file: String,
    pub sha256: String,
}

/// The depth previews of an artifact.
#[derive(Debug, Clone)]
pub struct Da3PoseConditionedDepthFrames {
    pub schema: String,
    pub directory: String,
    pub width: usize,
    pub height: usize,
    pub frames: Vec<Da3PoseConditionedDepthFrame>,
}

/// One depth preview.
#[derive(Debug, Clone)]
pub struct Da3PoseConditionedDepthFrame {
    pub frame_index: usize,
    pub file: String,
    pub sha256: String,
}

/// An ASCII hexadecimal digit of either case.
pub open spec fn is_hex(byte: u8) -> bool {
    0x30 <= byte <= 0x39 || 0x41 <= byte <= 0x46 || 0x61 <= byte <= 0x66
}

/// Sixty-four hexadecimal digits.
pub open spec fn sha256_shaped(value: Seq<char>) -> bool {
    let bytes = text::utf8(value);
    bytes.len() == 64 && forall|i: int| 0 <= i < bytes.len() ==> is_hex(#[trigger] bytes[i])
}

/// Whether a text has the shape of a SHA-256 digest.
pub fn is_sha256(value: &str) -> (answer: bool)
    ensures
        answer == sha256_shaped(value@),
{
    let bytes: &[u8] = value.as_bytes();
    if bytes.len() != 64 {
        return false;
    }
    for i in 0..bytes.len()
        invariant
            bytes@ == text::utf8(value@),
            forall|j: int| 0 <= j < i ==> is_hex(#[trigger] bytes@[j]),
    {
        let byte: u8 = bytes[i];
        if !((0x30 <= byte && byte <= 0x39) || (0x41 <= byte && byte <= 0x46) || (0x61 <= byte
            && byte <= 0x66)) {
            return false;
        }
    }
    true
}

/// A name with no directory part: not empty, no slash, and neither of the two
/// directory entries.
pub open spec fn plain_name(name: Seq<char>) -> bool {
    let bytes = text::utf8(name);
    &&& bytes.len() > 0
    &&& forall|i: int| 0 <= i < bytes.len() ==> #[trigger] bytes[i] != 0x2f
    &&& bytes != text::utf8("."@)
    &&& bytes != text::utf8(".."@)
}

/// Whether a name has no directory part.
pub fn is_plain_name(name: &str) -> (answer: bool)
    ensures
        answer == plain_name(name@),
{
    let bytes: &[u8] = name.as_bytes();
    if bytes.len() == 0 {
        return false;
    }
    for i in 0..bytes.len()
        invariant
            bytes@ == text::utf8(name@),
            forall|j: int| 0 <= j < i ==> #[trigger] bytes@[j] != 0x2f,
    {
        if bytes[i] == 0x2f {
            return false;
        }
    }
    !text::is_text(bytes, ".") && !text::is_text(bytes, "..")
}

/// The calibration of an artifact is bound to the artifact's own raster and
/// poses, names its raw batches safely and follows the published profile.
pub open spec fn calibration_sound(
    sidecar: Da3PoseConditionedArtifact,
    source: Da3CalibrationSource,
    contract: Da3CalibrationContract,
) -> bool {
    &&& sha256_shaped(source.raw_manifest_sha256@)
    &&& source.raster_fingerprint@ == sidecar.raster_fingerprint@
    &&& source.pose_solution_hash@ == sidecar.pose_solution_hash@
    &&& source.batch_files@.len() > 0
    &&& forall|i: int| #![trigger source.batch_files@[i]]
        0 <= i < source.batch_files@.len() ==> plain_name(source.batch_files@[i].file@)
            && sha256_shaped(source.batch_files@[i].sha256@)
    &&& contract.pixel_mapping@ == "pixel-center-resize/v1"@
    &&& contract.track_split@ == "sha256-track-id-fold/v1"@
    &&& ieee::f64_finite(contract.minimum_accepted_frame_fraction)
    &&& ieee::f64_at_most(ACCEPTED_FRACTION_FLOOR, contract.minimum_accepted_frame_fraction)
    &&& ieee::f64_at_most(contract.minimum_accepted_frame_fraction, ieee::F64_ONE)
}

/// What is wrong with the calibration of an artifact, if anything is.
pub open spec fn calibration_refusal(sidecar: Da3PoseConditionedArtifact) -> Option<Seq<char>> {
    match (sidecar.source, sidecar.contract) {
        (None, _) => Some("calibrated DA3 artifact has no immutable raw-source binding"@),
        (Some(_), None) => Some("calibrated DA3 artifact has no calibration contract"@),
        (Some(source), Some(contract)) => if calibration_sound(sidecar, source, contract) {
            None
        } else {
            Some("calibrated DA3 artifact violates the V2 provenance contract"@)
        },
    }
}

fn batches_are_sound(batches: &Vec<Da3CalibrationBatch>) -> (sound: bool)
    ensures
        sound == (forall|i: int| #![trigger batches@[i]]
            0 <= i < batches@.len() ==> plain_name(batches@[i].file@) && sha256_shaped(
                batches@[i].sha256@,
            )),
{
    for i in 0..batches.len()
        invariant
            forall|j: int| #![trigger batches@[j]]
                0 <= j < i ==> plain_name(batches@[j].file@) && sha256_shaped(
                    batches@[j].sha256@,
                ),
    {
        if !is_plain_name(batches[i].file.as_str()) || !is_sha256(batches[i].sha256.as_str()) {
            return false;
        }
    }
    true
}

/// Checks the calibration of an artifact.
pub fn validate_calibrated_da3_contract(sidecar: &Da3PoseConditionedArtifact) -> (result: Result<
    (),
    &'static str,
>)
    ensures
        match calibration_refusal(*sidecar) {
            None => result is Ok,
            Some(reason) => result matches Err(e) && e@ == reason,
        },
{
    let source: &Da3CalibrationSource = match &sidecar.source {
        Some(source) => source,
        None => return Err("calibrated DA3 artifact has no immutable raw-source binding"),
    };
    let contract: &Da3CalibrationContract = match &sidecar.contract {
        Some(contract) => contract,
        None => return Err("calibrated DA3 artifact has no calibration contract"),
    };
    let fraction: u64 = contract.minimum_accepted_frame_fraction;
    if !is_sha256(source.raw_manifest_sha256.as_str()) || !same_text(
        source.raster_fingerprint.as_str(),
        sidecar.raster_fingerprint.as_str(),
    ) || !same_text(source.pose_solution_hash.as_str(), sidecar.pose_solution_hash.as_str())
        || source.batch_files.len() == 0 || !batches_are_sound(&source.batch_files) || !same_text(
        contract.pixel_mapping.as_str(),
        "pixel-center-resize/v1",
    ) || !same_text(contract.track_split.as_str(), "sha256-track-id-fold/v1")
        || !ieee::f64_is_finite(fraction) || !ieee::f64_le(ACCEPTED_FRACTION_FLOOR, fraction)
        || !ieee::f64_le(fraction, ieee::F64_ONE) {
        return Err("calibrated DA3 artifact violates the V2 provenance contract");
    }
    Ok(())
}

/// The policy that resamples geometric depth maps.
pub open spec fn patchmatch_policy() -> Seq<char> {
    "colmap-patchmatch-geometric-resample-else-da3/v1"@
}

/// The policy that guides depth by coarse local ratios.
pub open spec fn guided_policy() -> Seq<char> {
    "mvs-zbuffer-plus-coarse-local-ratio/v1"@
}

/// The policy that takes stereo depth where it was observed.
pub open spec fn zbuffer_policy() -> Seq<char> {
    "mvs-zbuffer-where-observed-else-da3/v1"@
}

/// A digest and a positive count are both recorded.
pub open spec fn digest_and_count(digest: Option<String>, count: Option<usize>) -> bool {
    (digest matches Some(d) && sha256_shaped(d@)) && (count matches Some(n) && n > 0)
}

/// The hybrid rests on real dense evidence under a known policy.
pub open spec fn dense_evidence_sound(hybrid: Da3MvsHybridEvidence) -> bool {
    &&& digest_and_count(hybrid.mvs_ply_sha256, hybrid.mvs_vertices) || digest_and_count(
        hybrid.mvs_depth_map_index_sha256,
        hybrid.mvs_depth_map_count,
    )
    &&& hybrid.pixel_policy@ == zbuffer_policy() || hybrid.pixel_policy@ == guided_policy()
        || hybrid.pixel_policy@ == patchmatch_policy()
    &&& ieee::f64_finite(hybrid.median_mvs_coverage)
    &&& ieee::f64_less(0, hybrid.median_mvs_coverage)
    &&& ieee::f64_at_most(hybrid.median_mvs_coverage, ieee::F64_ONE)
}

/// The file name of the geometric depth map of a frame.
pub open spec fn depth_map_name(frame: int) -> Seq<u8> {
    text::utf8("frame-"@) + text::padded_decimal(frame + 1, 6) + text::utf8(
        ".ppm.geometric.bin"@,
    )
}

/// A depth map belongs to a frame and its coverage is a fraction.
pub open spec fn depth_map_sound(map: Da3MvsPatchMatchFrame, frame: usize) -> bool {
    &&& map.frame_index == frame
    &&& text::utf8(map.file@) == depth_map_name(frame as int)
    &&& sha256_shaped(map.sha256@)
    &&& ieee::f64_finite(map.mvs_coverage)
    &&& ieee::f64_at_most(0, map.mvs_coverage)
    &&& ieee::f64_at_most(map.mvs_coverage, ieee::F64_ONE)
}

/// There is exactly one sound depth map for each frame, in frame order.
pub open spec fn depth_maps_cover(
    maps: Seq<Da3MvsPatchMatchFrame>,
    frames: Seq<usize>,
    count: int,
) -> bool {
    &&& count == frames.len()
    &&& maps.len() == count
    &&& forall|i: int| #![trigger maps[i]]
        0 <= i < maps.len() ==> depth_map_sound(maps[i], frames[i])
}

/// What is wrong with the dense evidence of an artifact, if anything is.
pub open spec fn hybrid_refusal(sidecar: Da3PoseConditionedArtifact) -> Option<Seq<char>> {
    match sidecar.hybrid {
        None => Some("MVS-DA3 hybrid artifact has no MVS provenance"@),
        Some(hybrid) => if !dense_evidence_sound(hybrid) {
            Some("MVS-DA3 hybrid artifact violates its dense-depth provenance contract"@)
        } else if hybrid.pixel_policy@ == patchmatch_policy() && !(
        hybrid.mvs_depth_map_count matches Some(count) && depth_maps_cover(
            hybrid.per_frame@,
            sidecar.frames@,
            count as int,
        )) {
            Some("PatchMatch MVS evidence does not cover the DA3 frame set exactly"@)
        } else {
            None
        },
    }
}

fn has_digest_and_count(digest: &Option<String>, count: Option<usize>) -> (answer: bool)
    ensures
        answer == digest_and_count(*digest, count),
{
    let known: bool = match digest {
        Some(digest) => is_sha256(digest.as_str()),
        None => false,
    };
    let counted: bool = match count {
        Some(count) => count > 0,
        None => false,
    };
    known && counted
}

fn depth_map_is_sound(map: &Da3MvsPatchMatchFrame, frame: usize) -> (sound: bool)
    requires
        frame < u64::MAX,
    ensures
        sound == depth_map_sound(*map, frame),
{
    let mut name: Vec<u8> = Vec::new();
    put_bytes(&mut name, "frame-".as_bytes());
    let digits: Vec<u8> = padded_decimal_text(frame as u64 + 1, 6);
    put_bytes(&mut name, digits.as_slice());
    put_bytes(&mut name, ".ppm.geometric.bin".as_bytes());
    assert(name@ =~= depth_map_name(frame as int));
    map.frame_index == frame && same(map.file.as_str().as_bytes(), name.as_slice()) && is_sha256(
        map.sha256.as_str(),
    ) && ieee::f64_is_finite(map.mvs_coverage) && ieee::f64_le(0, map.mvs_coverage)
        && ieee::f64_le(map.mvs_coverage, ieee::F64_ONE)
}

/// Checks the dense evidence of a hybrid artifact.
///
/// A frame index must leave room for the one-based number in its file name.
pub fn validate_mvs_hybrid_evidence(sidecar: &Da3PoseConditionedArtifact) -> (result: Result<
    (),
    &'static str,
>)
    requires
        forall|i: int| 0 <= i < sidecar.frames@.len() ==> #[trigger] sidecar.frames@[i] < usize::MAX,
    ensures
        match hybrid_refusal(*sidecar) {
            None => result is Ok,
            Some(reason) => result matches Err(e) && e@ == reason,
        },
{
    let hybrid: &Da3MvsHybridEvidence = match &sidecar.hybrid {
        Some(hybrid) => hybrid,
        None => return Err("MVS-DA3 hybrid artifact has no MVS provenance"),
    };
    let fused_ply: bool = has_digest_and_count(&hybrid.mvs_ply_sha256, hybrid.mvs_vertices);
    let patchmatch_maps: bool = has_digest_and_count(
        &hybrid.mvs_depth_map_index_sha256,
        hybrid.mvs_depth_map_count,
    );
    let patchmatch: bool = same_text(
        hybrid.pixel_policy.as_str(),
        "colmap-patchmatch-geometric-resample-else-da3/v1",
    );
    let known_policy: bool = patchmatch || same_text(
        hybrid.pixel_policy.as_str(),
        "mvs-zbuffer-where-observed-else-da3/v1",
    ) || same_text(hybrid.pixel_policy.as_str(), "mvs-zbuffer-plus-coarse-local-ratio/v1");
    if !(fused_ply || patchmatch_maps) || !known_policy || !ieee::f64_is_finite(
        hybrid.median_mvs_coverage,
    ) || !ieee::f64_lt(0, hybrid.median_mvs_coverage) || !ieee::f64_le(
        hybrid.median_mvs_coverage,
        ieee::F64_ONE,
    ) {
        return Err("MVS-DA3 hybrid artifact violates its dense-depth provenance contract");
    }
    if patchmatch {
        let covered: bool = match hybrid.mvs_depth_map_count {
            Some(count) => count == sidecar.frames.len() && hybrid.per_frame.len() == count
                && maps_match(&hybrid.per_frame, &sidecar.frames),
            None => false,
        };
        if !covered {
            return Err("PatchMatch MVS evidence does not cover the DA3 frame set exactly");
        }
    }
    Ok(())
}

fn maps_match(maps: &Vec<Da3MvsPatchMatchFrame>, frames: &Vec<usize>) -> (answer: bool)
    requires
        maps@.len() == frames@.len(),
        forall|i: int| 0 <= i < frames@.len() ==> #[trigger] frames@[i] < usize::MAX,
    ensures
        answer == (forall|i: int| #![trigger maps@[i]]
            0 <= i < maps@.len() ==> depth_map_sound(maps@[i], frames@[i])),
{
    for i in 0..maps.len()
        invariant
            maps@.len() == frames@.len(),
            forall|j: int| 0 <= j < frames@.len() ==> #[trigger] frames@[j] < usize::MAX,
            forall|j: int| #![trigger maps@[j]]
                0 <= j < i ==> depth_map_sound(maps@[j], frames@[j]),
    {
        if !depth_map_is_sound(&maps[i], frames[i]) {
            return false;
        }
    }
    true
}

/// The source product, its pose authority and the derived product of a
/// surface derivative, or the reason why the flags name none.
pub fn da3_tsdf_product_identity(calibrated: bool, mvs_guided: bool) -> (result: Result<
    (&'static str, &'static str, &'static str),
    &'static str,
>)
    ensures
        match result {
            Ok(identity) => if mvs_guided {
                &&& !calibrated
                &&& identity.0@ == "da3-mvs-guided-colmap-surfel"@
                &&& identity.1@ == "colmap-mvs-geometric-plus-da3-local-guidance"@
                &&& identity.2@ == "da3-mvs-guided-colmap-tsdf"@
            } else if calibrated {
                &&& identity.0@ == "da3-pose-conditioned-colmap-calibrated-surfel"@
                &&& identity.1@ == "da3-base-pose-conditioned-colmap-calibrated"@
                &&& identity.2@ == "da3-pose-conditioned-colmap-calibrated-tsdf"@
            } else {
                &&& identity.0@ == "da3-pose-conditioned-colmap-surfel"@
                &&& identity.1@ == "da3-base-pose-conditioned-colmap"@
                &&& identity.2@ == "da3-pose-conditioned-colmap-tsdf"@
            },
            Err(e) => calibrated && mvs_guided && e@
                == "choose either --calibrated or --mvs-guided, not both"@,
        },
{
    if calibrated && mvs_guided {
        return Err("choose either --calibrated or --mvs-guided, not both");
    }
    if mvs_guided {
        Ok(
            (
                "da3-mvs-guided-colmap-surfel",
                "colmap-mvs-geometric-plus-da3-local-guidance",
                "da3-mvs-guided-colmap-tsdf",
            ),
        )
    } else if calibrated {
        Ok(
            (
                "da3-pose-conditioned-colmap-calibrated-surfel",
                "da3-base-pose-conditioned-colmap-calibrated",
                "da3-pose-conditioned-colmap-calibrated-tsdf",
            ),
        )
    } else {
        Ok(
            (
                "da3-pose-conditioned-colmap-surfel",
                "da3-base-pose-conditioned-colmap",
                "da3-pose-conditioned-colmap-tsdf",
            ),
        )
    }
}

/// What kind of product an admitted sidecar becomes.
#[derive(Debug, Clone, Copy, PartialEq, Eq, Structural)]
pub enum Da3Variant {
    /// The immutable raw diagnostic product.
    Raw,
    /// A held-out verified calibration.
    Calibrated,
    /// Stereo depth where observed.
    Hybrid,
    /// Stereo-guided local ratios.
    Guided,
    /// Resampled geometric depth maps.
    PatchMatch,
}

/// The product a sidecar's schema and policy name; none for another schema.
pub open spec fn variant_of(sidecar: Da3PoseConditionedArtifact) -> Option<Da3Variant> {
    if sidecar.schema@ == "vestra.da3-pose-conditioned/v1"@ {
        Some(Da3Variant::Raw)
    } else if sidecar.schema@ == "vestra.da3-pose-conditioned-calibration/v2"@ {
        Some(Da3Variant::Calibrated)
    } else if sidecar.schema@ == "vestra.da3-mvs-hybrid/v1"@ {
        Some(
            match sidecar.hybrid {
                Some(hybrid) => if hybrid.pixel_policy@ == patchmatch_policy() {
                    Da3Variant::PatchMatch
                } else if hybrid.pixel_policy@ == guided_policy() {
                    Da3Variant::Guided
                } else {
                    Da3Variant::Hybrid
                },
                None => Da3Variant::Hybrid,
            },
        )
    } else {
        None
    }
}

/// Why a sidecar is not admitted for a raster and a pose solution, if it is
/// not: its binding, its decision, its calibration, its dense evidence.
pub open spec fn sidecar_refusal(
    sidecar: Da3PoseConditionedArtifact,
    raster_fingerprint: Seq<char>,
    pose_solution: Seq<char>,
) -> Option<Seq<char>> {
    let variant = variant_of(sidecar);
    let hybrid = variant == Some(Da3Variant::Hybrid) || variant == Some(Da3Variant::Guided)
        || variant == Some(Da3Variant::PatchMatch);
    let derived = hybrid || variant == Some(Da3Variant::Calibrated);
    if variant is None || sidecar.raster_fingerprint@ != raster_fingerprint
        || sidecar.pose_solution_hash@ != pose_solution || !sidecar.align_to_input_ext_scale {
        Some(
            "DA3 artifact does not bind this raster, COLMAP pose solution, and external pose scale"@,
        )
    } else if derived && !(sidecar.decision matches Some(decision) && decision@ == "accepted"@) {
        Some("verified DA3 derivative was not accepted by its evidence contract"@)
    } else if derived && calibration_refusal(sidecar) is Some {
        calibration_refusal(sidecar)
    } else if hybrid && hybrid_refusal(sidecar) is Some {
        hybrid_refusal(sidecar)
    } else {
        None
    }
}

fn da3_variant(sidecar: &Da3PoseConditionedArtifact) -> (variant: Option<Da3Variant>)
    ensures
        variant == variant_of(*sidecar),
{
    let schema: &str = sidecar.schema.as_str();
    if same_text(schema, "vestra.da3-pose-conditioned/v1") {
        return Some(Da3Variant::Raw);
    }
    if same_text(schema, "vestra.da3-pose-conditioned-calibration/v2") {
        return Some(Da3Variant::Calibrated);
    }
    if !same_text(schema, "vestra.da3-mvs-hybrid/v1") {
        return None;
    }
    match &sidecar.hybrid {
        Some(hybrid) => {
            if same_text(
                hybrid.pixel_policy.as_str(),
                "colmap-patchmatch-geometric-resample-else-da3/v1",
            ) {
                Some(Da3Variant::PatchMatch)
            } else if same_text(
                hybrid.pixel_policy.as_str(),
                "mvs-zbuffer-plus-coarse-local-ratio/v1",
            ) {
                Some(Da3Variant::Guided)
            } else {
                Some(Da3Variant::Hybrid)
            }
        },
        None => Some(Da3Variant::Hybrid),
    }
}

/// Admits a sidecar for a raster and a pose solution.
pub fn admit_da3_sidecar(
    sidecar: &Da3PoseConditionedArtifact,
    raster_fingerprint: &str,
    pose_solution: &str,
) -> (result: Result<Da3Variant, &'static str>)
    requires
        forall|i: int| 0 <= i < sidecar.frames@.len() ==> #[trigger] sidecar.frames@[i] < usize::MAX,
    ensures
        match sidecar_refusal(*sidecar, raster_fingerprint@, pose_solution@) {
            None => result matches Ok(variant) && variant_of(*sidecar) == Some(variant),
            Some(reason) => result matches Err(e) && e@ == reason,
        },
{
    let variant: Da3Variant = match da3_variant(sidecar) {
        Some(variant) => variant,
        None => {
            return Err(
                "DA3 artifact does not bind this raster, COLMAP pose solution, and external pose scale",
            );
        },
    };
    if !same_text(sidecar.raster_fingerprint.as_str(), raster_fingerprint) || !same_text(
        sidecar.pose_solution_hash.as_str(),
        pose_solution,
    ) || !sidecar.align_to_input_ext_scale {
        return Err(
            "DA3 artifact does not bind this raster, COLMAP pose solution, and external pose scale",
        );
    }
    if variant != Da3Variant::Raw {
        let accepted: bool = match &sidecar.decision {
            Some(decision) => same_text(decision.as_str(), "accepted"),
            None => false,
        };
        if !accepted {
            return Err("verified DA3 derivative was not accepted by its evidence contract");
        }
        match validate_calibrated_da3_contract(sidecar) {
            Ok(_) => {},
            Err(e) => return Err(e),
        }
        if variant != Da3Variant::Calibrated {
            match validate_mvs_hybrid_evidence(sidecar) {
                Ok(_) => {},
                Err(e) => return Err(e),
            }
        }
    }
    Ok(variant)
}

/// The recorded cloud is named safely under the known schema.
pub open spec fn ply_named(ply: Da3PoseConditionedPly) -> bool {
    ply.schema@ == "vestra.da3-pose-conditioned-ply/v1"@ && plain_name(ply.file@)
}

/// Whether the recorded cloud may be opened at all.
pub fn da3_ply_is_named_safely(ply: &Da3PoseConditionedPly) -> (answer: bool)
    ensures
        answer == ply_named(*ply),
{
    same_text(ply.schema.as_str(), "vestra.da3-pose-conditioned-ply/v1") && is_plain_name(
        ply.file.as_str(),
    )
}

/// Admits the cloud of a sidecar whose file has the digest `actual_sha256`.
pub fn admit_da3_ply(ply: &Da3PoseConditionedPly, actual_sha256: &str) -> (result: Result<
    (),
    &'static str,
>)
    ensures
        match result {
            Ok(_) => ply_named(*ply) && ply.sha256@ == actual_sha256@,
            Err(e) => !(ply_named(*ply) && ply.sha256@ == actual_sha256@) && e@
                == "DA3 artifact PLY is missing, unsafe, or does not match its recorded SHA-256"@,
        },
{
    if !da3_ply_is_named_safely(ply) || !same_text(actual_sha256, ply.sha256.as_str()) {
        return Err("DA3 artifact PLY is missing, unsafe, or does not match its recorded SHA-256");
    }
    Ok(())
}

/// Depth previews of the one supported size in a safely named directory.
pub open spec fn depth_contract(depth: Da3PoseConditionedDepthFrames) -> bool {
    &&& depth.schema@ == "vestra.da3-pose-conditioned-depth-frames/v1"@
    &&& plain_name(depth.directory@)
    &&& depth.width == 504
    &&& depth.height == 336
}

/// Admits the depth-preview contract of a sidecar.
pub fn admit_da3_depth_contract(depth: &Da3PoseConditionedDepthFrames) -> (result: Result<
    (),
    &'static str,
>)
    ensures
        match result {
            Ok(_) => depth_contract(*depth),
            Err(e) => !depth_contract(*depth) && e@
                == "DA3 artifact has no supported 504x336 depth-preview contract"@,
        },
{
    if !same_text(depth.schema.as_str(), "vestra.da3-pose-conditioned-depth-frames/v1")
        || !is_plain_name(depth.directory.as_str()) || depth.width != 504 || depth.height != 336 {
        return Err("DA3 artifact has no supported 504x336 depth-preview contract");
    }
    Ok(())
}

/// A list is strictly ascending.
pub open spec fn ascending(list: Seq<usize>) -> bool {
    forall|i: int, j: int| 0 <= i < j < list.len() ==> list[i] < list[j]
}

/// The frames a sidecar publishes: its own list, or every registered frame.
pub open spec fn published(sidecar: Da3PoseConditionedArtifact, registered: Seq<usize>) -> Seq<
    usize,
> {
    match sidecar.published_frames {
        Some(list) => list@,
        None => registered,
    }
}

/// An ordered subset of the registered frames that covers 85 percent of them.
pub open spec fn published_sound(list: Seq<usize>, registered: Seq<usize>) -> bool {
    &&& list.len() > 0
    &&& forall|i: int| 0 <= i < list.len() ==> registered.contains(#[trigger] list[i])
    &&& ascending(list)
    &&& list.len() * 100 >= registered.len() * 85
}

/// The frame indices of the depth previews.
pub open spec fn depth_indices(frames: Seq<Da3PoseConditionedDepthFrame>) -> Seq<usize> {
    Seq::new(frames.len(), |i: int| frames[i].frame_index)
}

/// Why the frames of a sidecar are not admitted, if they are not.
pub open spec fn frames_refusal(
    sidecar: Da3PoseConditionedArtifact,
    registered: Seq<usize>,
) -> Option<Seq<char>> {
    let list = published(sidecar, registered);
    if sidecar.frames@ != registered || registered.len() == 0 {
        Some("DA3 artifact frame ownership differs from the registered COLMAP trajectory"@)
    } else if !published_sound(list, registered) {
        Some(
            "DA3 artifact published frames are not an ordered, sufficiently covered subset of the registered COLMAP trajectory"@,
        )
    } else if depth_indices(sidecar.depth_frames.frames@) != list {
        Some("DA3 depth-preview frames differ from the published COLMAP frame subset"@)
    } else {
        None
    }
}

/// Whether two frame lists are the same.
pub fn same_frames(a: &Vec<usize>, b: &Vec<usize>) -> (answer: bool)
    ensures
        answer == (a@ == b@),
{
    if a.len() != b.len() {
        return false;
    }
    for i in 0..a.len()
        invariant
            a@.len() == b@.len(),
            forall|j: int| 0 <= j < i ==> a@[j] == b@[j],
    {
        if a[i] != b[i] {
            return false;
        }
    }
    assert(a@ =~= b@);
    true
}

fn contains_frame(list: &Vec<usize>, frame: usize) -> (answer: bool)
    ensures
        answer == list@.contains(frame),
{
    for i in 0..list.len()
        invariant
            forall|j: int| 0 <= j < i ==> list@[j] != frame,
    {
        if list[i] == frame {
            return true;
        }
    }
    false
}

fn publishes_soundly(list: &Vec<usize>, registered: &Vec<usize>) -> (answer: bool)
    ensures
        answer == published_sound(list@, registered@),
{
    if list.len() == 0 {
        return false;
    }
    for i in 0..list.len()
        invariant
            forall|j: int| 0 <= j < i ==> registered@.contains(#[trigger] list@[j]),
            forall|j: int, k: int| 0 <= j < k < i ==> list@[j] < list@[k],
    {
        if !contains_frame(registered, list[i]) {
            return false;
        }
        if i > 0 && list[i - 1] >= list[i] {
            assert(!(list@[i - 1] < list@[i as int]));
            return false;
        }
    }
    list.len() as u128 * 100 >= registered.len() as u128 * 85
}

/// Admits the frame ownership of a sidecar against the registered frames of
/// its pose solution, and returns the frames it publishes.
pub fn admit_da3_frames(
    sidecar: &Da3PoseConditionedArtifact,
    registered: &Vec<usize>,
) -> (result: Result<Vec<usize>, &'static str>)
    ensures
        match frames_refusal(*sidecar, registered@) {
            None => result matches Ok(list) && list@ == published(*sidecar, registered@),
            Some(reason) => result matches Err(e) && e@ == reason,
        },
{
    if !same_frames(&sidecar.frames, registered) || registered.len() == 0 {
        return Err("DA3 artifact frame ownership differs from the registered COLMAP trajectory");
    }
    let list: &Vec<usize> = match &sidecar.published_frames {
        Some(list) => list,
        None => registered,
    };
    if !publishes_soundly(list, registered) {
        return Err(
            "DA3 artifact published frames are not an ordered, sufficiently covered subset of the registered COLMAP trajectory",
        );
    }
    let frames: &Vec<Da3PoseConditionedDepthFrame> = &sidecar.depth_frames.frames;
    let mut indices: Vec<usize> = Vec::new();
    for i in 0..frames.len()
        invariant
            indices@ == depth_indices(frames@).take(i as int),
    {
        indices.push(frames[i].frame_index);
        assert(indices@ =~= depth_indices(frames@).take(i + 1));
    }
    assert(indices@ =~= depth_indices(frames@));
    if !same_frames(&indices, list) {
        return Err("DA3 depth-preview frames differ from the published COLMAP frame subset");
    }
    let mut chosen: Vec<usize> = Vec::new();
    for i in 0..list.len()
        invariant
            chosen@ == list@.take(i as int),
    {
        chosen.push(list[i]);
        assert(chosen@ =~= list@.take(i + 1));
    }
    assert(chosen@ =~= list@);
    Ok(chosen)
}

/// Admits one depth preview whose file has the digest `actual_sha256`.
pub fn admit_da3_depth_frame(frame: &Da3PoseConditionedDepthFrame, actual_sha256: &str) -> (result:
    Result<(), &'static str>)
    ensures
        ({
            let sound = plain_name(frame.file@) && text::utf8(frame.sha256@).len() == 64
                && frame.sha256@ == actual_sha256@;
            match result {
                Ok(_) => sound,
                Err(e) => !sound && e@
                    == "DA3 depth-preview asset is missing, unsafe, or does not match its recorded SHA-256"@,
            }
        }),
{
    if !is_plain_name(frame.file.as_str()) || frame.sha256.as_str().as_bytes().len() != 64
        || !same_text(actual_sha256, frame.sha256.as_str()) {
        return Err(
            "DA3 depth-preview asset is missing, unsafe, or does not match its recorded SHA-256",
        );
    }
    Ok(())
}

/// The product identity, pose authority and report schema of an import.
pub fn da3_import_identity(variant: Da3Variant) -> (identity: (
    &'static str,
    &'static str,
    &'static str,
))
    ensures
        identity.0@ == (match variant {
            Da3Variant::PatchMatch => "da3-mvs-patchmatch-colmap-surfel"@,
            Da3Variant::Guided => "da3-mvs-guided-colmap-surfel"@,
            Da3Variant::Hybrid => "da3-mvs-hybrid-colmap-surfel"@,
            Da3Variant::Calibrated => "da3-pose-conditioned-colmap-calibrated-surfel"@,
            Da3Variant::Raw => "da3-pose-conditioned-colmap-surfel"@,
        }),
        identity.1@ == (match variant {
            Da3Variant::PatchMatch => "colmap-patchmatch-geometric-plus-da3"@,
            Da3Variant::Guided => "colmap-mvs-geometric-plus-da3-local-guidance"@,
            Da3Variant::Hybrid => "colmap-mvs-geometric-plus-da3"@,
            Da3Variant::Calibrated => "da3-base-pose-conditioned-colmap-calibrated"@,
            Da3Variant::Raw => "da3-base-pose-conditioned-colmap"@,
        }),
        identity.2@ == (match variant {
            Da3Variant::Calibrated => "vestra.da3-pose-conditioned-calibrated-import/v2"@,
            Da3Variant::Raw => "vestra.da3-pose-conditioned-import/v1"@,
            _ => "vestra.da3-mvs-hybrid-import/v1"@,
        }),
{
    match variant {
        Da3Variant::PatchMatch => (
            "da3-mvs-patchmatch-colmap-surfel",
            "colmap-patchmatch-geometric-plus-da3",
            "vestra.da3-mvs-hybrid-import/v1",
        ),
        Da3Variant::Guided => (
            "da3-mvs-guided-colmap-surfel",
            "colmap-mvs-geometric-plus-da3-local-guidance",
            "vestra.da3-mvs-hybrid-import/v1",
        ),
        Da3Variant::Hybrid => (
            "da3-mvs-hybrid-colmap-surfel",
            "colmap-mvs-geometric-plus-da3",
            "vestra.da3-mvs-hybrid-import/v1",
        ),
        Da3Variant::Calibrated => (
            "da3-pose-conditioned-colmap-calibrated-surfel",
            "da3-base-pose-conditioned-colmap-calibrated",
            "vestra.da3-pose-conditioned-calibrated-import/v2",
        ),
        Da3Variant::Raw => (
            "da3-pose-conditioned-colmap-surfel",
            "da3-base-pose-conditioned-colmap",
            "vestra.da3-pose-conditioned-import/v1",
        ),
    }
}

/// A sidecar that claims more than the raw product is admitted only with an
/// accepted decision and a sound calibration of the same raster and poses.
pub proof fn law_derivatives_need_evidence(
    sidecar: Da3PoseConditionedArtifact,
    raster_fingerprint: Seq<char>,
    pose_solution: Seq<char>,
)
    requires
        sidecar_refusal(sidecar, raster_fingerprint, pose_solution) is None,
        variant_of(sidecar) != Some(Da3Variant::Raw),
    ensures
        sidecar.decision is Some && sidecar.decision.unwrap()@ == "accepted"@,
        sidecar.source is Some,
        sidecar.source.unwrap().raster_fingerprint@ == raster_fingerprint,
        sidecar.source.unwrap().pose_solution_hash@ == pose_solution,
        variant_of(sidecar) != Some(Da3Variant::Calibrated) ==> sidecar.hybrid is Some
            && dense_evidence_sound(sidecar.hybrid.unwrap()),
{
}

/// A text has the shape of a digest where it spells 64 bytes, each a decimal digit or one
/// of the letters `a` to `f` of either case.
pub proof fn law_digests_are_hexadecimal(value: Seq<char>, i: int)
    requires
        sha256_shaped(value),
        0 <= i < 64,
    ensures
        text::utf8(value).len() == 64,
        seq![
                0x30u8,
                0x31u8,
                0x32u8,
                0x33u8,
                0x34u8,
                0x35u8,
                0x36u8,
                0x37u8,
                0x38u8,
                0x39u8,
                0x61u8,
                0x62u8,
                0x63u8,
                0x64u8,
                0x65u8,
                0x66u8,
                0x41u8,
                0x42u8,
                0x43u8,
                0x44u8,
                0x45u8,
                0x46u8,
            ].contains(text::utf8(value)[i]),
{
    let byte = text::utf8(value)[i];
    assert(is_hex(byte));
    let digits = seq![
        0x30u8,
        0x31u8,
        0x32u8,
        0x33u8,
        0x34u8,
        0x35u8,
        0x36u8,
        0x37u8,
        0x38u8,
        0x39u8,
        0x61u8,
        0x62u8,
        0x63u8,
        0x64u8,
        0x65u8,
        0x66u8,
        0x41u8,
        0x42u8,
        0x43u8,
        0x44u8,
        0x45u8,
        0x46u8,
    ];
    if byte <= 0x39 {
        assert(byte == digits[byte - 0x30]);
    } else if byte <= 0x46 {
        assert(byte == digits[byte - 0x41 + 16]);
    } else {
        assert(byte == digits[byte - 0x61 + 10]);
    }
}

/// An artifact without a claim beyond the raw product is admitted exactly where it is
/// bound to the raster, to the poses and to their scale.
pub proof fn law_raw_artifact_needs_only_its_binding(
    sidecar: Da3PoseConditionedArtifact,
    raster_fingerprint: Seq<char>,
    pose_solution: Seq<char>,
)
    requires
        sidecar.schema@ == "vestra.da3-pose-conditioned/v1"@,
    ensures
        sidecar_refusal(sidecar, raster_fingerprint, pose_solution) is None <==> {
            &&& sidecar.raster_fingerprint@ == raster_fingerprint
            &&& sidecar.pose_solution_hash@ == pose_solution
            &&& sidecar.align_to_input_ext_scale
        },
{
}

/// An admitted artifact has one of three schemas and is bound to the raster, to the poses
/// and to their scale. Any but the raw one was accepted, on a raw source of the same
/// raster and poses with a digest for each of its batches, of which at least 85 in a
/// hundred frames were accepted.
pub proof fn law_admitted_artifact_is_bound(
    sidecar: Da3PoseConditionedArtifact,
    raster_fingerprint: Seq<char>,
    pose_solution: Seq<char>,
)
    requires
        sidecar_refusal(sidecar, raster_fingerprint, pose_solution) is None,
    ensures
        sidecar.raster_fingerprint@ == raster_fingerprint,
        sidecar.pose_solution_hash@ == pose_solution,
        sidecar.align_to_input_ext_scale,
        sidecar.schema@ == "vestra.da3-pose-conditioned/v1"@ || sidecar.schema@
            == "vestra.da3-pose-conditioned-calibration/v2"@ || sidecar.schema@
            == "vestra.da3-mvs-hybrid/v1"@,
        sidecar.schema@ != "vestra.da3-pose-conditioned/v1"@ ==> {
            let source = sidecar.source->0;
            let contract = sidecar.contract->0;
            &&& sidecar.decision is Some && sidecar.decision->0@ == "accepted"@
            &&& sidecar.source is Some
            &&& sha256_shaped(source.raw_manifest_sha256@)
            &&& source.raster_fingerprint@ == raster_fingerprint
            &&& source.pose_solution_hash@ == pose_solution
            &&& source.batch_files@.len() >= 1
            &&& forall|i: int|
                0 <= i < source.batch_files@.len() ==> plain_name(
                    (#[trigger] source.batch_files@[i]).file@,
                ) && sha256_shaped(source.batch_files@[i].sha256@)
            &&& sidecar.contract is Some
            &&& contract.pixel_mapping@ == "pixel-center-resize/v1"@
            &&& contract.track_split@ == "sha256-track-id-fold/v1"@
            &&& 0x3feb_3333_3333_3333 <= ieee::f64_rank(contract.minimum_accepted_frame_fraction)
                <= 0x3ff0_0000_0000_0000
        },
{
}

/// An admitted hybrid has dense evidence: a cloud with its digest and a vertex, or depth
/// maps with the digest of their index, one at least; a known policy; and a median
/// coverage above zero and at most one. Where depth maps decide, there is one for each
/// frame, with the number of the frame, the name that goes with it, a digest and a
/// coverage between zero and one.
pub proof fn law_admitted_hybrid_has_dense_evidence(
    sidecar: Da3PoseConditionedArtifact,
    raster_fingerprint: Seq<char>,
    pose_solution: Seq<char>,
)
    requires
        sidecar_refusal(sidecar, raster_fingerprint, pose_solution) is None,
        sidecar.schema@ == "vestra.da3-mvs-hybrid/v1"@,
        sidecar.schema@ != "vestra.da3-pose-conditioned/v1"@,
        sidecar.schema@ != "vestra.da3-pose-conditioned-calibration/v2"@,
    ensures
        ({
            let hybrid = sidecar.hybrid->0;
            let maps = hybrid.per_frame@;
            &&& sidecar.hybrid is Some
            &&& (hybrid.mvs_ply_sha256 is Some && sha256_shaped(hybrid.mvs_ply_sha256->0@)
                && hybrid.mvs_vertices is Some && hybrid.mvs_vertices->0 >= 1) || (
            hybrid.mvs_depth_map_index_sha256 is Some && sha256_shaped(
                hybrid.mvs_depth_map_index_sha256->0@,
            ) && hybrid.mvs_depth_map_count is Some && hybrid.mvs_depth_map_count->0 >= 1)
            &&& hybrid.pixel_policy@ == "mvs-zbuffer-where-observed-else-da3/v1"@
                || hybrid.pixel_policy@ == "mvs-zbuffer-plus-coarse-local-ratio/v1"@
                || hybrid.pixel_policy@ == "colmap-patchmatch-geometric-resample-else-da3/v1"@
            &&& 0 < ieee::f64_rank(hybrid.median_mvs_coverage) <= 0x3ff0_0000_0000_0000
            &&& hybrid.pixel_policy@ == "colmap-patchmatch-geometric-resample-else-da3/v1"@ ==> {
                &&& hybrid.mvs_depth_map_count == Some(sidecar.frames@.len() as usize)
                &&& maps.len() == sidecar.frames@.len()
                &&& forall|i: int|
                    0 <= i < maps.len() ==> {
                        &&& (#[trigger] maps[i]).frame_index == sidecar.frames@[i]
                        &&& text::utf8(maps[i].file@) == text::utf8("frame-"@)
                            + text::padded_decimal(sidecar.frames@[i] + 1, 6) + text::utf8(
                            ".ppm.geometric.bin"@,
                        )
                        &&& sha256_shaped(maps[i].sha256@)
                        &&& 0 <= ieee::f64_rank(maps[i].mvs_coverage) <= 0x3ff0_0000_0000_0000
                    }
            }
        }),
{
}

/// A list of frames ascends without repetition, holds only registered frames, at least
/// one and at least 85 in a hundred of them, and has one depth preview for each, in order.
pub open spec fn covers_trajectory(
    list: Seq<usize>,
    registered: Seq<usize>,
    depths: Seq<Da3PoseConditionedDepthFrame>,
) -> bool {
    &&& list.len() >= 1
    &&& forall|i: int| 0 <= i < list.len() ==> registered.contains(#[trigger] list[i])
    &&& forall|i: int, j: int| 0 <= i < j < list.len() ==> #[trigger] list[i] < #[trigger] list[j]
    &&& 100 * list.len() >= 85 * registered.len()
    &&& depths.len() == list.len()
    &&& forall|i: int| 0 <= i < list.len() ==> (#[trigger] depths[i]).frame_index == list[i]
}

/// The frames of an artifact are admitted exactly where they are the registered ones, at
/// least one, and the published ones, which are all of them where none are named, cover
/// the trajectory.
pub proof fn law_published_frames_cover_the_trajectory(
    sidecar: Da3PoseConditionedArtifact,
    registered: Seq<usize>,
    list: Seq<usize>,
)
    requires
        sidecar.published_frames is None ==> list == registered,
        sidecar.published_frames is Some ==> list == sidecar.published_frames->0@,
    ensures
        frames_refusal(sidecar, registered) is None <==> sidecar.frames@ == registered
            && registered.len() >= 1 && covers_trajectory(
            list,
            registered,
            sidecar.depth_frames.frames@,
        ),
{
    let depths = sidecar.depth_frames.frames@;
    assert(list == published(sidecar, registered));
    if covers_trajectory(list, registered, depths) {
        assert(depth_indices(depths) =~= list);
        assert(published_sound(list, registered));
    }
    if published_sound(list, registered) && depth_indices(depths) == list {
        assert forall|i: int| 0 <= i < list.len() implies (#[trigger] depths[i]).frame_index
            == list[i] by {
            assert(depth_indices(depths)[i] == list[i]);
        }
        assert(covers_trajectory(list, registered, depths));
    }
}

/// A name is plain where it is neither empty nor one of the two names of directories, and
/// holds no separator. Depth previews have the size of the model's output.
pub proof fn law_plain_names_stay_in_their_directory(
    name: Seq<char>,
    ply: Da3PoseConditionedPly,
    depth: Da3PoseConditionedDepthFrames,
)
    ensures
        plain_name(name) <==> text::utf8(name).len() >= 1 && !text::utf8(name).contains(0x2f)
            && text::utf8(name) != text::utf8("."@) && text::utf8(name) != text::utf8(".."@),
        ply_named(ply) ==> ply.schema@ == "vestra.da3-pose-conditioned-ply/v1"@ && !text::utf8(
            ply.file@,
        ).contains(0x2f),
        depth_contract(depth) <==> depth.schema@ == "vestra.da3-pose-conditioned-depth-frames/v1"@
            && plain_name(depth.directory@) && depth.width == 504 && depth.height == 336,
{
    let bytes = text::utf8(name);
    if !bytes.contains(0x2f) {
        assert forall|i: int| 0 <= i < bytes.len() implies #[trigger] bytes[i] != 0x2f by {
            if bytes[i] == 0x2f {
                assert(bytes.contains(0x2f));
            }
        }
    }
}

} // verus!
