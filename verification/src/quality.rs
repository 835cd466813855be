//! Evidence gates and reports over a persisted scene.
//!
//! All values are counts, ratios or residuals in the scene's own relative
//! units; nothing here infers physical dimensions.

use vstd::prelude::*;

use crate::ieee;
use crate::order;
use crate::ratio;
use crate::text::same_text;
use crate::world;
use crate::world::{AlignmentReport, FusedPoint, FusedSceneChunk};

verus! {

/// A versioned evidence contract for one class of scenes.
#[derive(Debug, Clone)]
pub struct SceneQualityProfile {
    pub schema: String,
    pub name: String,
    pub minimum_measured_windows: usize,
    pub minimum_fused_points: usize,
    /// A binary32 pattern.
    pub minimum_sequential_inlier_ratio: u32,
    /// A binary32 pattern.
    pub maximum_sequential_rms_residual: u32,
    pub require_loop_closure: bool,
}

/// What a scene shows for the gates.
#[derive(Debug, Clone, Copy, PartialEq, Eq, Structural)]
pub struct SceneVerificationEvidence {
    pub measured_windows: usize,
    pub fused_points: usize,
    pub finite_points: bool,
    pub minimum_inlier_ratio: Option<u32>,
    pub maximum_rms_residual: Option<u32>,
    pub loop_closures: usize,
}

/// One gate that a scene misses.
#[derive(Debug, Clone, Copy, PartialEq, Eq, Structural)]
pub enum SceneViolation {
    MeasuredWindows,
    FusedPoints,
    InvalidGeometry,
    InlierRatio,
    RmsResidual,
    MissingLoopClosure,
}

/// The outcome of a verification.
#[derive(Debug, Clone)]
pub struct SceneVerification {
    pub profile: String,
    pub passed: bool,
    pub violations: Vec<SceneViolation>,
    pub evidence: SceneVerificationEvidence,
}

/// Why a scene cannot be verified at all.
#[derive(Debug, Clone, Copy, PartialEq, Eq, Structural)]
pub enum VerificationError {
    UnsupportedSchema,
    InvalidThresholds,
    NoFusedWorld,
}

impl VerificationError {
    /// The human-readable reason; `schema` is the schema of the profile.
    pub fn message(&self, schema: &str) -> (reason: String)
        ensures
            reason@ == (match self {
                VerificationError::UnsupportedSchema =>
                    "unsupported scene quality profile schema `"@ + schema@ + "`"@,
                VerificationError::InvalidThresholds =>
                    "scene quality profile contains invalid thresholds"@,
                VerificationError::NoFusedWorld => "scene has no fused relative world"@,
            }),
    {
        match self {
            VerificationError::UnsupportedSchema => {
                let mut reason: String = "unsupported scene quality profile schema `".to_owned();
                reason.append(schema);
                reason.append("`");
                reason
            },
            VerificationError::InvalidThresholds =>
                "scene quality profile contains invalid thresholds".to_owned(),
            VerificationError::NoFusedWorld => "scene has no fused relative world".to_owned(),
        }
    }
}

impl SceneViolation {
    /// The human-readable reason. `actual` and `limit` are the two compared
    /// numbers as text; gates that compare nothing ignore them.
    pub fn message(&self, actual: &str, limit: &str) -> (reason: String)
        ensures
            reason@ == (match self {
                SceneViolation::MeasuredWindows => "measured_windows "@ + actual@ + " < "@ + limit@,
                SceneViolation::FusedPoints => "fused_points "@ + actual@ + " < "@ + limit@,
                SceneViolation::InvalidGeometry =>
                    "fused geometry contains non-finite or invalid-radius surfels"@,
                SceneViolation::InlierRatio => "minimum_inlier_ratio "@ + actual@ + " < "@ + limit@,
                SceneViolation::RmsResidual => "maximum_rms_residual "@ + actual@ + " > "@ + limit@,
                SceneViolation::MissingLoopClosure =>
                    "profile requires an accepted loop closure"@,
            }),
    {
        match self {
            SceneViolation::MeasuredWindows => compared("measured_windows ", actual, " < ", limit),
            SceneViolation::FusedPoints => compared("fused_points ", actual, " < ", limit),
            SceneViolation::InvalidGeometry =>
                "fused geometry contains non-finite or invalid-radius surfels".to_owned(),
            SceneViolation::InlierRatio => compared("minimum_inlier_ratio ", actual, " < ", limit),
            SceneViolation::RmsResidual => compared("maximum_rms_residual ", actual, " > ", limit),
            SceneViolation::MissingLoopClosure =>
                "profile requires an accepted loop closure".to_owned(),
        }
    }
}

fn compared(name: &str, actual: &str, relation: &str, limit: &str) -> (reason: String)
    ensures
        reason@ == name@ + actual@ + relation@ + limit@,
{
    let mut reason: String = name.to_owned();
    reason.append(actual);
    reason.append(relation);
    reason.append(limit);
    reason
}

/// The inlier ratios of the first `count` seams that have correspondences.
pub open spec fn inlier_ratios(alignments: Seq<AlignmentReport>, count: int) -> Seq<u32>
    decreases count,
{
    if count <= 0 {
        Seq::empty()
    } else {
        let seam = alignments[count - 1];
        let earlier = inlier_ratios(alignments, count - 1);
        if seam.correspondence_count > 0 {
            earlier.push(
                ratio::f32_quotient(seam.inlier_count as int, seam.correspondence_count as int),
            )
        } else {
            earlier
        }
    }
}

/// The residuals of all seams.
pub open spec fn residuals(alignments: Seq<AlignmentReport>) -> Seq<u32> {
    Seq::new(alignments.len(), |i: int| alignments[i].rms_residual)
}

/// The least pattern of a list by total order; none for an empty list.
pub open spec fn least(values: Seq<u32>) -> Option<u32>
    decreases values.len(),
{
    if values.len() == 0 {
        None
    } else {
        match least(values.drop_last()) {
            Some(value) => if ieee::f32_total_rank(values.last()) < ieee::f32_total_rank(value) {
                Some(values.last())
            } else {
                Some(value)
            },
            None => Some(values.last()),
        }
    }
}

/// The greatest pattern of a list by total order; none for an empty list.
pub open spec fn greatest(values: Seq<u32>) -> Option<u32>
    decreases values.len(),
{
    if values.len() == 0 {
        None
    } else {
        match greatest(values.drop_last()) {
            Some(value) => if ieee::f32_total_rank(value) < ieee::f32_total_rank(values.last()) {
                Some(values.last())
            } else {
                Some(value)
            },
            None => Some(values.last()),
        }
    }
}

/// Every surface element is usable.
pub open spec fn all_sound(points: Seq<FusedPoint>) -> bool {
    forall|i: int| 0 <= i < points.len() ==> world::surfel_sound(#[trigger] points[i])
}

/// What a fused world and a number of measured windows show for the gates.
pub open spec fn evidence_of(measured_windows: usize, fused: FusedSceneChunk) ->
    SceneVerificationEvidence {
    SceneVerificationEvidence {
        measured_windows,
        fused_points: fused.points@.len() as usize,
        finite_points: all_sound(fused.points@),
        minimum_inlier_ratio: least(
            inlier_ratios(fused.alignments@, fused.alignments@.len() as int),
        ),
        maximum_rms_residual: greatest(
            order::finite_part(residuals(fused.alignments@), fused.alignments@.len() as int),
        ),
        loop_closures: match fused.loop_edges {
            Some(edges) => edges,
            None => 0,
        },
    }
}

/// The thresholds of a profile can be met: a ratio, and a residual bound.
pub open spec fn thresholds_sound(profile: SceneQualityProfile) -> bool {
    &&& ieee::f32_finite(profile.minimum_sequential_inlier_ratio)
    &&& ieee::f32_at_most(0, profile.minimum_sequential_inlier_ratio)
    &&& ieee::f32_at_most(profile.minimum_sequential_inlier_ratio, ieee::F32_ONE)
    &&& ieee::f32_finite(profile.maximum_sequential_rms_residual)
    &&& ieee::f32_at_most(0, profile.maximum_sequential_rms_residual)
}

/// The scene misses a gate of the profile. A scene without any ratio misses
/// the ratio gate; one without any residual meets the residual gate.
pub open spec fn misses(
    evidence: SceneVerificationEvidence,
    profile: SceneQualityProfile,
    gate: SceneViolation,
) -> bool {
    match gate {
        SceneViolation::MeasuredWindows => evidence.measured_windows
            < profile.minimum_measured_windows,
        SceneViolation::FusedPoints => evidence.fused_points < profile.minimum_fused_points,
        SceneViolation::InvalidGeometry => !evidence.finite_points,
        SceneViolation::InlierRatio => match evidence.minimum_inlier_ratio {
            Some(value) => ieee::f32_less(value, profile.minimum_sequential_inlier_ratio),
            None => true,
        },
        SceneViolation::RmsResidual => match evidence.maximum_rms_residual {
            Some(value) => ieee::f32_less(profile.maximum_sequential_rms_residual, value),
            None => false,
        },
        SceneViolation::MissingLoopClosure => profile.require_loop_closure
            && evidence.loop_closures == 0,
    }
}

/// The gates in the order in which they are reported.
pub open spec fn gates() -> Seq<SceneViolation> {
    seq![
        SceneViolation::MeasuredWindows,
        SceneViolation::FusedPoints,
        SceneViolation::InvalidGeometry,
        SceneViolation::InlierRatio,
        SceneViolation::RmsResidual,
        SceneViolation::MissingLoopClosure,
    ]
}

/// The missed gates among the first `count`, in order.
pub open spec fn missed(
    evidence: SceneVerificationEvidence,
    profile: SceneQualityProfile,
    count: int,
) -> Seq<SceneViolation>
    decreases count,
{
    if count <= 0 {
        Seq::empty()
    } else if misses(evidence, profile, gates()[count - 1]) {
        missed(evidence, profile, count - 1).push(gates()[count - 1])
    } else {
        missed(evidence, profile, count - 1)
    }
}

/// The smallest inlier ratio over all seams with correspondences.
fn minimum_inlier_ratio(alignments: &Vec<AlignmentReport>) -> (value: Option<u32>)
    ensures
        value == least(inlier_ratios(alignments@, alignments@.len() as int)),
{
    let mut value: Option<u32> = None;
    for i in 0..alignments.len()
        invariant
            value == least(inlier_ratios(alignments@, i as int)),
    {
        let seam: AlignmentReport = alignments[i];
        if seam.correspondence_count > 0 {
            let next: u32 = ratio::f32_ratio(seam.inlier_count, seam.correspondence_count);
            let ghost earlier = inlier_ratios(alignments@, i as int);
            assert(earlier.push(next).drop_last() =~= earlier);
            value =
            match value {
                Some(current) => if ieee::f32_total_lt(next, current) {
                    Some(next)
                } else {
                    Some(current)
                },
                None => Some(next),
            };
        }
    }
    value
}

/// The largest finite residual over all seams.
fn maximum_rms_residual(alignments: &Vec<AlignmentReport>) -> (value: Option<u32>)
    ensures
        value == greatest(
            order::finite_part(residuals(alignments@), alignments@.len() as int),
        ),
{
    let mut value: Option<u32> = None;
    let ghost all = residuals(alignments@);
    for i in 0..alignments.len()
        invariant
            all == residuals(alignments@),
            value == greatest(order::finite_part(all, i as int)),
    {
        let next: u32 = alignments[i].rms_residual;
        assert(all[i as int] == next);
        if ieee::f32_is_finite(next) {
            let ghost earlier = order::finite_part(all, i as int);
            assert(earlier.push(next).drop_last() =~= earlier);
            value =
            match value {
                Some(current) => if ieee::f32_total_lt(current, next) {
                    Some(next)
                } else {
                    Some(current)
                },
                None => Some(next),
            };
        }
    }
    value
}

/// Whether every surface element is usable.
pub fn points_are_sound(points: &Vec<FusedPoint>) -> (sound: bool)
    ensures
        sound == all_sound(points@),
{
    for i in 0..points.len()
        invariant
            forall|j: int| 0 <= j < i ==> world::surfel_sound(#[trigger] points@[j]),
    {
        if !world::surfel_is_sound(&points[i]) {
            return false;
        }
    }
    true
}

/// Whether the scene misses a gate.
fn misses_gate(
    evidence: &SceneVerificationEvidence,
    profile: &SceneQualityProfile,
    gate: SceneViolation,
) -> (answer: bool)
    ensures
        answer == misses(*evidence, *profile, gate),
{
    match gate {
        SceneViolation::MeasuredWindows => evidence.measured_windows
            < profile.minimum_measured_windows,
        SceneViolation::FusedPoints => evidence.fused_points < profile.minimum_fused_points,
        SceneViolation::InvalidGeometry => !evidence.finite_points,
        SceneViolation::InlierRatio => match evidence.minimum_inlier_ratio {
            Some(value) => ieee::f32_lt(value, profile.minimum_sequential_inlier_ratio),
            None => true,
        },
        SceneViolation::RmsResidual => match evidence.maximum_rms_residual {
            Some(value) => ieee::f32_lt(profile.maximum_sequential_rms_residual, value),
            None => false,
        },
        SceneViolation::MissingLoopClosure => profile.require_loop_closure
            && evidence.loop_closures == 0,
    }
}

/// Checks a fused scene against a profile.
pub fn verify_scene(
    measured_windows: usize,
    fused: Option<&FusedSceneChunk>,
    profile: &SceneQualityProfile,
) -> (result: Result<SceneVerification, VerificationError>)
    ensures
        match result {
            Ok(outcome) => {
                &&& profile.schema@ == "vestra.scene-quality/v1"@
                &&& thresholds_sound(*profile)
                &&& fused is Some
                &&& outcome.profile@ == profile.name@
                &&& outcome.evidence == evidence_of(measured_windows, *fused.unwrap())
                &&& outcome.violations@ == missed(outcome.evidence, *profile, 6)
                &&& outcome.passed == (outcome.violations@.len() == 0)
            },
            Err(e) => e == if profile.schema@ != "vestra.scene-quality/v1"@ {
                VerificationError::UnsupportedSchema
            } else if !thresholds_sound(*profile) {
                VerificationError::InvalidThresholds
            } else {
                VerificationError::NoFusedWorld
            } && (profile.schema@ != "vestra.scene-quality/v1"@ || !thresholds_sound(*profile)
                || fused is None),
        },
{
    if !same_text(profile.schema.as_str(), "vestra.scene-quality/v1") {
        return Err(VerificationError::UnsupportedSchema);
    }
    let floor: u32 = profile.minimum_sequential_inlier_ratio;
    let ceiling: u32 = profile.maximum_sequential_rms_residual;
    if !ieee::f32_is_finite(floor) || !ieee::f32_le(0, floor) || !ieee::f32_le(
        floor,
        ieee::F32_ONE,
    ) || !ieee::f32_is_finite(ceiling) || ieee::f32_lt(ceiling, 0) {
        return Err(VerificationError::InvalidThresholds);
    }
    let fused: &FusedSceneChunk = match fused {
        Some(fused) => fused,
        None => return Err(VerificationError::NoFusedWorld),
    };
    let evidence = SceneVerificationEvidence {
        measured_windows,
        fused_points: fused.points.len(),
        finite_points: points_are_sound(&fused.points),
        minimum_inlier_ratio: minimum_inlier_ratio(&fused.alignments),
        maximum_rms_residual: maximum_rms_residual(&fused.alignments),
        loop_closures: match fused.loop_edges {
            Some(edges) => edges,
            None => 0,
        },
    };
    let gate_list: [SceneViolation; 6] = [
        SceneViolation::MeasuredWindows,
        SceneViolation::FusedPoints,
        SceneViolation::InvalidGeometry,
        SceneViolation::InlierRatio,
        SceneViolation::RmsResidual,
        SceneViolation::MissingLoopClosure,
    ];
    assert(gate_list@ =~= gates());
    let mut violations: Vec<SceneViolation> = Vec::new();
    for i in 0..6usize
        invariant
            gate_list@ == gates(),
            violations@ == missed(evidence, *profile, i as int),
    {
        if misses_gate(&evidence, profile, gate_list[i]) {
            violations.push(gate_list[i]);
        }
    }
    let passed: bool = violations.len() == 0;
    Ok(SceneVerification { profile: profile.name.clone(), passed, violations, evidence })
}

/// A scene passes exactly where it misses no gate of its profile.
pub proof fn law_passing_means_no_gate_is_missed(
    evidence: SceneVerificationEvidence,
    profile: SceneQualityProfile,
)
    ensures
        missed(evidence, profile, 6).len() == 0 <==> forall|gate: SceneViolation|
            !#[trigger] misses(evidence, profile, gate),
{
    reveal_with_fuel(missed, 7);
    let all = gates();
    assert(all[0] == SceneViolation::MeasuredWindows);
    assert(all[1] == SceneViolation::FusedPoints);
    assert(all[2] == SceneViolation::InvalidGeometry);
    assert(all[3] == SceneViolation::InlierRatio);
    assert(all[4] == SceneViolation::RmsResidual);
    assert(all[5] == SceneViolation::MissingLoopClosure);
}

/// The least, middle and greatest finite value of a list.
#[derive(Debug, Clone, Copy, PartialEq, Eq, Structural)]
pub struct Summary {
    pub min: u32,
    pub median: u32,
    pub max: u32,
}

/// `result` summarizes the list: nothing where no value is finite.
pub open spec fn is_summary(values: Seq<u32>, result: Option<Summary>) -> bool {
    let finite = order::finite_part(values, values.len() as int);
    match result {
        None => finite.len() == 0,
        Some(summary) => finite.len() > 0 && exists|sorted: Seq<u32>| #[trigger]
            order::is_sorted(finite, sorted) && summary == (Summary {
                min: sorted[0],
                median: sorted[sorted.len() as int / 2],
                max: sorted[sorted.len() - 1],
            }),
    }
}

/// Summarizes the finite values of a list, whatever their order.
pub fn summarize(values: &Vec<u32>) -> (result: Option<Summary>)
    ensures
        is_summary(values@, result),
{
    let finite: Vec<u32> = order::keep_finite(values);
    if finite.len() == 0 {
        return None;
    }
    let sorted: Vec<u32> = order::sort_total(&finite);
    Some(
        Summary {
            min: sorted[0],
            median: sorted[sorted.len() / 2],
            max: sorted[sorted.len() - 1],
        },
    )
}

/// What a scene bundle holds.
#[derive(Debug, Clone, Copy, PartialEq, Eq, Structural)]
pub enum SceneState {
    MeasuredOnly,
    InvalidFusedGeometry,
    FusedRelativeWorld,
}

impl SceneState {
    /// The state's name in a report.
    pub fn name(&self) -> (text: &'static str)
        ensures
            text@ == (match self {
                SceneState::MeasuredOnly => "measured_only"@,
                SceneState::InvalidFusedGeometry => "invalid_fused_geometry"@,
                SceneState::FusedRelativeWorld => "fused_relative_world"@,
            }),
    {
        match self {
            SceneState::MeasuredOnly => "measured_only",
            SceneState::InvalidFusedGeometry => "invalid_fused_geometry",
            SceneState::FusedRelativeWorld => "fused_relative_world",
        }
    }
}

/// Position, normal, confidence and radius of every element are usable.
pub open spec fn all_reportable(points: Seq<FusedPoint>) -> bool {
    forall|i: int| #![trigger points[i]]
        0 <= i < points.len() ==> world::surfel_sound(points[i]) && ieee::f32_finite(
            points[i].confidence,
        )
}

/// Sum of a count over the first `count` seams.
pub open spec fn seam_sum(alignments: Seq<AlignmentReport>, count: int, inliers: bool) -> int
    decreases count,
{
    if count <= 0 {
        0
    } else {
        seam_sum(alignments, count - 1, inliers) + if inliers {
            alignments[count - 1].inlier_count as int
        } else {
            alignments[count - 1].correspondence_count as int
        }
    }
}

/// The persisted evidence of a scene, summarized.
#[derive(Debug, Clone, Copy, PartialEq, Eq)]
pub struct SceneReport {
    pub state: SceneState,
    pub finite_points: bool,
    pub alignment_count: usize,
    pub correspondence_count: u128,
    pub inlier_count: u128,
    pub scale: Option<Summary>,
    pub rms_residual: Option<Summary>,
    pub inlier_ratio: Option<Summary>,
}

/// The scales of all seams.
pub open spec fn scales(alignments: Seq<AlignmentReport>) -> Seq<u32> {
    Seq::new(alignments.len(), |i: int| alignments[i].transform.scale)
}

/// The seams of a world; none where there is no world.
pub open spec fn seams(fused: Option<&FusedSceneChunk>) -> Seq<AlignmentReport> {
    match fused {
        Some(chunk) => chunk.alignments@,
        None => Seq::empty(),
    }
}

fn report_seams(alignments: &Vec<AlignmentReport>, state: SceneState, finite_points: bool) -> (report:
    SceneReport)
    ensures
        report.state == state,
        report.finite_points == finite_points,
        report.alignment_count == alignments@.len(),
        report.correspondence_count == seam_sum(alignments@, alignments@.len() as int, false),
        report.inlier_count == seam_sum(alignments@, alignments@.len() as int, true),
        is_summary(scales(alignments@), report.scale),
        is_summary(residuals(alignments@), report.rms_residual),
        is_summary(
            inlier_ratios(alignments@, alignments@.len() as int),
            report.inlier_ratio,
        ),
{
    let mut correspondences: u128 = 0;
    let mut inliers: u128 = 0;
    let mut scale_list: Vec<u32> = Vec::new();
    let mut residual_list: Vec<u32> = Vec::new();
    let mut ratio_list: Vec<u32> = Vec::new();
    for i in 0..alignments.len()
        invariant
            correspondences == seam_sum(alignments@, i as int, false),
            inliers == seam_sum(alignments@, i as int, true),
            correspondences <= i * 0xffff_ffff_ffff_ffff,
            inliers <= i * 0xffff_ffff_ffff_ffff,
            scale_list@ == scales(alignments@).take(i as int),
            residual_list@ == residuals(alignments@).take(i as int),
            ratio_list@ == inlier_ratios(alignments@, i as int),
    {
        let seam: AlignmentReport = alignments[i];
        correspondences = correspondences + seam.correspondence_count as u128;
        inliers = inliers + seam.inlier_count as u128;
        scale_list.push(seam.transform.scale);
        residual_list.push(seam.rms_residual);
        assert(scale_list@ =~= scales(alignments@).take(i + 1));
        assert(residual_list@ =~= residuals(alignments@).take(i + 1));
        if seam.correspondence_count > 0 {
            ratio_list.push(ratio::f32_ratio(seam.inlier_count, seam.correspondence_count));
        }
    }
    assert(scale_list@ =~= scales(alignments@));
    assert(residual_list@ =~= residuals(alignments@));
    SceneReport {
        state,
        finite_points,
        alignment_count: alignments.len(),
        correspondence_count: correspondences,
        inlier_count: inliers,
        scale: summarize(&scale_list),
        rms_residual: summarize(&residual_list),
        inlier_ratio: summarize(&ratio_list),
    }
}

/// Summarizes only persisted evidence. A scene without a fused world is
/// reported as measured only.
pub fn scene_report(fused: Option<&FusedSceneChunk>) -> (report: SceneReport)
    ensures
        report.finite_points == (fused matches Some(chunk) ==> all_reportable(chunk.points@)),
        report.state == (if fused is None {
            SceneState::MeasuredOnly
        } else if report.finite_points {
            SceneState::FusedRelativeWorld
        } else {
            SceneState::InvalidFusedGeometry
        }),
        report.alignment_count == seams(fused).len(),
        report.correspondence_count == seam_sum(seams(fused), seams(fused).len() as int, false),
        report.inlier_count == seam_sum(seams(fused), seams(fused).len() as int, true),
        is_summary(scales(seams(fused)), report.scale),
        is_summary(residuals(seams(fused)), report.rms_residual),
        is_summary(
            inlier_ratios(seams(fused), seams(fused).len() as int),
            report.inlier_ratio,
        ),
{
    match fused {
        Some(chunk) => {
            let mut finite: bool = true;
            for i in 0..chunk.points.len()
                invariant
                    finite == (forall|j: int| #![trigger chunk.points@[j]]
                        0 <= j < i ==> world::surfel_sound(chunk.points@[j]) && ieee::f32_finite(
                            chunk.points@[j].confidence,
                        )),
            {
                let point: FusedPoint = chunk.points[i];
                if !world::surfel_is_sound(&point) || !ieee::f32_is_finite(point.confidence) {
                    finite = false;
                }
            }
            let state: SceneState = if finite {
                SceneState::FusedRelativeWorld
            } else {
                SceneState::InvalidFusedGeometry
            };
            report_seams(&chunk.alignments, state, finite)
        },
        None => {
            let none: Vec<AlignmentReport> = Vec::new();
            assert(none@ =~= seams(fused));
            report_seams(&none, SceneState::MeasuredOnly, true)
        },
    }
}

/// The least of some values is one of them that none is below in total order, and the
/// greatest one that none is above. Only an empty list has neither.
pub proof fn law_extremes_bound_the_values(values: Seq<u32>)
    ensures
        least(values) is None <==> values.len() == 0,
        greatest(values) is None <==> values.len() == 0,
        least(values) matches Some(low) ==> values.contains(low) && forall|i: int|
            0 <= i < values.len() ==> ieee::f32_total_rank(low) <= ieee::f32_total_rank(
                #[trigger] values[i],
            ),
        greatest(values) matches Some(high) ==> values.contains(high) && forall|i: int|
            0 <= i < values.len() ==> ieee::f32_total_rank(#[trigger] values[i])
                <= ieee::f32_total_rank(high),
    decreases values.len(),
{
    if values.len() > 0 {
        let rest = values.drop_last();
        law_extremes_bound_the_values(rest);
        assert(values[values.len() - 1] == values.last());
        assert forall|i: int| 0 <= i < values.len() implies i == values.len() - 1 || rest[i]
            == #[trigger] values[i] by {}
        if rest.len() > 0 {
            let a = rest.index_of(least(rest).unwrap());
            let b = rest.index_of(greatest(rest).unwrap());
            assert(values[a] == rest[a]);
            assert(values[b] == rest[b]);
        }
    }
}

/// The share of inliers is taken of every seam that has matches, and of no other.
pub proof fn law_every_seam_has_its_share(alignments: Seq<AlignmentReport>, count: int)
    requires
        0 <= count <= alignments.len(),
    ensures
        inlier_ratios(alignments, count) == alignments.take(count).filter_map(
            |seam: AlignmentReport|
                if seam.correspondence_count > 0 {
                    Some(
                        ratio::f32_quotient(
                            seam.inlier_count as int,
                            seam.correspondence_count as int,
                        ),
                    )
                } else {
                    None
                },
        ),
    decreases count,
{
    if count > 0 {
        law_every_seam_has_its_share(alignments, count - 1);
        assert(alignments.take(count).drop_last() =~= alignments.take(count - 1));
        let seam = alignments[count - 1];
        let share = ratio::f32_quotient(
            seam.inlier_count as int,
            seam.correspondence_count as int,
        );
        assert(inlier_ratios(alignments, count - 1).push(share) =~= inlier_ratios(
            alignments,
            count - 1,
        ) + seq![share]);
    }
}

/// A scene misses a gate exactly where its evidence says so: too few windows, too few
/// points, geometry that is not finite, a least share of inliers below the asked one
/// or none at all, a greatest residual above the allowed one, and no closed loop where
/// one is asked for. The missed gates come in that order.
pub proof fn law_missed_gates_are_the_missed_ones(
    evidence: SceneVerificationEvidence,
    profile: SceneQualityProfile,
)
    requires
        thresholds_sound(profile),
    ensures
        ({
            let low = profile.minimum_sequential_inlier_ratio;
            let high = profile.maximum_sequential_rms_residual;
            let list = missed(evidence, profile, gates().len() as int);
            &&& list.contains(SceneViolation::MeasuredWindows) <==> evidence.measured_windows
                < profile.minimum_measured_windows
            &&& list.contains(SceneViolation::FusedPoints) <==> evidence.fused_points
                < profile.minimum_fused_points
            &&& list.contains(SceneViolation::InvalidGeometry) <==> !evidence.finite_points
            &&& list.contains(SceneViolation::InlierRatio) <==> (
            evidence.minimum_inlier_ratio matches Some(share) ==> !ieee::f32_nan(share)
                && ieee::f32_rank(share) < ieee::f32_rank(low))
            &&& list.contains(SceneViolation::RmsResidual) <==> (
            evidence.maximum_rms_residual matches Some(residual) && !ieee::f32_nan(residual)
                && ieee::f32_rank(high) < ieee::f32_rank(residual))
            &&& list.contains(SceneViolation::MissingLoopClosure) <==> profile.require_loop_closure
                && evidence.loop_closures == 0
            &&& list.no_duplicates()
        }),
{
    let list = missed(evidence, profile, gates().len() as int);
    assert(gates().len() == 6);
    lemma_missed(evidence, profile, 6);
    assert(gates()[0] == SceneViolation::MeasuredWindows);
    assert(gates()[1] == SceneViolation::FusedPoints);
    assert(gates()[2] == SceneViolation::InvalidGeometry);
    assert(gates()[3] == SceneViolation::InlierRatio);
    assert(gates()[4] == SceneViolation::RmsResidual);
    assert(gates()[5] == SceneViolation::MissingLoopClosure);
    assert(gates().take(6) =~= gates());
    assert(gates().contains(SceneViolation::MeasuredWindows));
    assert(gates().contains(SceneViolation::FusedPoints));
    assert(gates().contains(SceneViolation::InvalidGeometry));
    assert(gates().contains(SceneViolation::InlierRatio));
    assert(gates().contains(SceneViolation::RmsResidual));
    assert(gates().contains(SceneViolation::MissingLoopClosure));
}

proof fn lemma_missed(
    evidence: SceneVerificationEvidence,
    profile: SceneQualityProfile,
    count: int,
)
    requires
        0 <= count <= 6,
    ensures
        ({
            let list = missed(evidence, profile, count);
            &&& forall|gate: SceneViolation| #[trigger]
                list.contains(gate) <==> gates().take(count).contains(gate) && misses(
                    evidence,
                    profile,
                    gate,
                )
            &&& list.no_duplicates()
        }),
    decreases count,
{
    let all = gates();
    assert(all.len() == 6);
    if count > 0 {
        lemma_missed(evidence, profile, count - 1);
        let rest = missed(evidence, profile, count - 1);
        let list = missed(evidence, profile, count);
        let gate = all[count - 1];
        assert(all.take(count) =~= all.take(count - 1).push(gate));
        assert(!all.take(count - 1).contains(gate)) by {
            if all.take(count - 1).contains(gate) {
                let i = all.take(count - 1).index_of(gate);
                assert(all[i] == gate);
            }
        }
        assert forall|g: SceneViolation| #[trigger] list.contains(g) <==> all.take(count).contains(g)
            && misses(evidence, profile, g) by {
            vstd::seq_lib::lemma_seq_contains_after_push(all.take(count - 1), gate, g);
            if misses(evidence, profile, gate) {
                vstd::seq_lib::lemma_seq_contains_after_push(rest, gate, g);
            }
        }
        assert forall|i: int, j: int| 0 <= i < j < list.len() implies list[i] != list[j] by {
            assert(list[i] == rest[i]);
            assert(rest.contains(rest[i]));
            if j < rest.len() {
                assert(list[j] == rest[j]);
            }
        }
    } else {
        assert(all.take(count) =~= Seq::empty());
    }
}

/// The evidence of a scene is what its world holds: as many points, the least share of
/// inliers and the greatest finite residual of its seams, the loops that were closed,
/// and whether every point has finite coordinates and a positive radius.
pub proof fn law_evidence_is_that_of_the_world(measured_windows: usize, fused: FusedSceneChunk)
    requires
        fused.points@.len() <= usize::MAX,
    ensures
        ({
            let evidence = evidence_of(measured_windows, fused);
            &&& evidence.measured_windows == measured_windows
            &&& evidence.fused_points == fused.points@.len()
            &&& evidence.loop_closures == (match fused.loop_edges {
                Some(edges) => edges,
                None => 0,
            })
            &&& evidence.finite_points <==> forall|i: int, axis: int|
                0 <= i < fused.points@.len() && 0 <= axis < 3 ==> ieee::f32_magnitude(
                    #[trigger] fused.points@[i].position@[axis],
                ) < 0x7f80_0000 && ieee::f32_magnitude(fused.points@[i].normal@[axis])
                    < 0x7f80_0000 && 0 < ieee::f32_rank(fused.points@[i].radius) < 0x7f80_0000
        }),
{
    let points = fused.points@;
    if all_sound(points) {
        assert forall|i: int, axis: int| 0 <= i < points.len() && 0 <= axis < 3 implies
            ieee::f32_magnitude(#[trigger] points[i].position@[axis]) < 0x7f80_0000
            && ieee::f32_magnitude(points[i].normal@[axis]) < 0x7f80_0000 && 0 < ieee::f32_rank(
            points[i].radius,
        ) < 0x7f80_0000 by {
            assert(world::surfel_sound(points[i]));
            assert(ieee::f32_finite(points[i].position@[axis]));
            assert(ieee::f32_finite(points[i].normal@[axis]));
        }
    }
    if forall|i: int, axis: int|
        0 <= i < points.len() && 0 <= axis < 3 ==> ieee::f32_magnitude(
            #[trigger] points[i].position@[axis],
        ) < 0x7f80_0000 && ieee::f32_magnitude(points[i].normal@[axis]) < 0x7f80_0000 && 0
            < ieee::f32_rank(points[i].radius) < 0x7f80_0000 {
        assert forall|i: int| 0 <= i < points.len() implies world::surfel_sound(
            #[trigger] points[i],
        ) by {
            assert(ieee::f32_magnitude(points[i].position@[0]) < 0x7f80_0000);
            assert forall|axis: int| 0 <= axis < 3 implies ieee::f32_finite(
                #[trigger] points[i].position@[axis],
            ) && ieee::f32_finite(points[i].normal@[axis]) by {}
            assert forall|axis: int| 0 <= axis < 3 implies ieee::f32_finite(
                #[trigger] points[i].normal@[axis],
            ) by {
                assert(ieee::f32_magnitude(points[i].position@[axis]) < 0x7f80_0000);
            }
        }
    }
}

/// A summary is that of the finite values: its least and its greatest bound all of them,
/// and half of them, rounded down, come before its median in ascending order. Without a
/// finite value there is none.
pub proof fn law_summary_bounds_the_finite_values(values: Seq<u32>, result: Option<Summary>)
    requires
        is_summary(values, result),
        values.len() <= usize::MAX,
    ensures
        ({
            let finite = values.filter(|value: u32| ieee::f32_magnitude(value) < 0x7f80_0000);
            &&& result is None <==> finite.len() == 0
            &&& result matches Some(summary) ==> exists|sorted: Seq<u32>|
                {
                    &&& #[trigger] sorted.to_multiset() == finite.to_multiset()
                    &&& sorted.len() == finite.len()
                    &&& forall|i: int, j: int|
                        0 <= i < j < sorted.len() ==> ieee::f32_total_rank(#[trigger] sorted[i])
                            <= ieee::f32_total_rank(#[trigger] sorted[j])
                    &&& summary.min == sorted.first()
                    &&& summary.max == sorted.last()
                    &&& summary.median == sorted[sorted.len() as int / 2]
                }
        }),
{
    let finite = order::finite_part(values, values.len() as int);
    order::law_finite_values_are_kept(values, values.len() as int);
    assert(values.take(values.len() as int) =~= values);
    lemma_finite_are_no_more(values, values.len() as int);
    if let Some(summary) = result {
        let sorted = choose|sorted: Seq<u32>| #[trigger]
            order::is_sorted(finite, sorted) && summary == (Summary {
                min: sorted[0],
                median: sorted[sorted.len() as int / 2],
                max: sorted[sorted.len() - 1],
            });
        order::law_sorted_list_ascends(finite, sorted);
        assert(sorted.to_multiset() == finite.to_multiset());
    }
}

proof fn lemma_finite_are_no_more(values: Seq<u32>, count: int)
    requires
        0 <= count,
    ensures
        order::finite_part(values, count).len() <= count,
    decreases count,
{
    if count > 0 {
        lemma_finite_are_no_more(values, count - 1);
    }
}

/// The matches and the inliers of all seams are summed.
pub proof fn law_seam_counts_are_summed(alignments: Seq<AlignmentReport>, count: int)
    requires
        0 <= count <= alignments.len(),
    ensures
        seam_sum(alignments, count, true) == order::total(
            alignments.take(count).map_values(
                |report: AlignmentReport| report.inlier_count as nat,
            ),
        ),
        seam_sum(alignments, count, false) == order::total(
            alignments.take(count).map_values(
                |report: AlignmentReport| report.correspondence_count as nat,
            ),
        ),
    decreases count,
{
    let inliers = |n: int|
        alignments.take(n).map_values(|report: AlignmentReport| report.inlier_count as nat);
    let matches_of = |n: int|
        alignments.take(n).map_values(|report: AlignmentReport| report.correspondence_count as nat);
    if count > 0 {
        law_seam_counts_are_summed(alignments, count - 1);
        assert(inliers(count).drop_last() =~= inliers(count - 1));
        assert(matches_of(count).drop_last() =~= matches_of(count - 1));
    }
    assert(inliers(count) =~= alignments.take(count).map_values(
        |report: AlignmentReport| report.inlier_count as nat,
    ));
    assert(matches_of(count) =~= alignments.take(count).map_values(
        |report: AlignmentReport| report.correspondence_count as nat,
    ));
}

} // verus!
