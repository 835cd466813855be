use vestra::quality::{
    scene_report, summarize, verify_scene, SceneQualityProfile, SceneState, SceneViolation,
    VerificationError,
};
use vestra::world::{AlignmentReport, FusedPoint, FusedSceneChunk, SimilarityTransform};

fn identity() -> SimilarityTransform {
    SimilarityTransform {
        scale: 1.0_f32.to_bits(),
        rotation: [1.0_f32, 0.0, 0.0, 0.0, 1.0, 0.0, 0.0, 0.0, 1.0].map(f32::to_bits),
        translation: [0; 3],
    }
}

fn world() -> FusedSceneChunk {
    FusedSceneChunk {
        alignments: vec![AlignmentReport {
            transform: identity(),
            correspondence_count: 100,
            inlier_count: 95,
            rms_residual: 0.01_f32.to_bits(),
            normalized_rms_residual: 0.01_f32.to_bits(),
        }],
        loop_edges: None,
        voxel_size: 0.1_f32.to_bits(),
        points: vec![FusedPoint {
            position: [0; 3],
            normal: [0.0_f32, 0.0, 1.0].map(f32::to_bits),
            color_srgb: [0; 3],
            confidence: 1.0_f32.to_bits(),
            radius: 0.1_f32.to_bits(),
            first_observing_frame: -1,
            contributors: 1,
        }],
    }
}

fn profile() -> SceneQualityProfile {
    SceneQualityProfile {
        schema: "vestra.scene-quality/v1".to_string(),
        name: "test".to_string(),
        minimum_measured_windows: 0,
        minimum_fused_points: 1,
        minimum_sequential_inlier_ratio: 0.9_f32.to_bits(),
        maximum_sequential_rms_residual: 0.02_f32.to_bits(),
        require_loop_closure: false,
    }
}

fn summary_of(values: &[f32]) -> Option<(f32, f32, f32)> {
    let bits: Vec<u32> = values.iter().map(|value| value.to_bits()).collect();
    summarize(&bits).map(|summary| {
        (
            f32::from_bits(summary.min),
            f32::from_bits(summary.median),
            f32::from_bits(summary.max),
        )
    })
}

#[test]
fn implementation_summary_is_order_independent_and_ignores_non_finite_values() {
    assert_eq!(
        summary_of(&[f32::NAN, 3.0, 1.0, f32::INFINITY, 2.0]),
        Some((1.0, 2.0, 3.0))
    );
    assert_eq!(summary_of(&[f32::NAN]), None);
}

#[test]
fn main_summary_is_order_independent_and_ignores_non_finite_values() {
    assert_eq!(
        summary_of(&[f32::NAN, 3.0, 1.0, f32::INFINITY, 2.0]),
        Some((1.0, 2.0, 3.0))
    );
    assert_eq!(summary_of(&[f32::NAN]), None);
}

#[test]
fn implementation_verification_reports_evidence_and_rejects_a_required_missing_loop() {
    let world = world();
    let mut profile = profile();
    assert!(verify_scene(0, Some(&world), &profile).unwrap().passed);
    profile.require_loop_closure = true;
    let rejected = verify_scene(0, Some(&world), &profile).unwrap();
    assert!(!rejected.passed);
    assert_eq!(rejected.violations, vec![SceneViolation::MissingLoopClosure]);
    assert_eq!(
        rejected.violations[0].message("", ""),
        "profile requires an accepted loop closure"
    );
}

#[test]
fn main_verification_reports_evidence_and_rejects_a_required_missing_loop() {
    let world = world();
    let mut profile = profile();
    profile.require_loop_closure = true;
    let rejected = verify_scene(0, Some(&world), &profile).unwrap();
    assert!(!rejected.passed);
    assert_eq!(rejected.violations, vec![SceneViolation::MissingLoopClosure]);
    profile.require_loop_closure = false;
    assert!(verify_scene(0, Some(&world), &profile).unwrap().passed);
}

#[test]
fn implementation_report_marks_unfused_bundles_as_measured_only() {
    let report = scene_report(None);
    assert_eq!(report.state, SceneState::MeasuredOnly);
    assert_eq!(report.state.name(), "measured_only");
}

#[test]
fn main_report_marks_unfused_bundles_as_measured_only() {
    let report = scene_report(None);
    assert_eq!(report.state.name(), "measured_only");
    assert!(report.scale.is_none());
}

#[test]
fn a_profile_of_another_schema_and_a_bundle_without_world_are_errors() {
    let world = world();
    let mut other = profile();
    other.schema = "vestra.scene-quality/v2".to_string();
    assert_eq!(
        verify_scene(0, Some(&world), &other).unwrap_err(),
        VerificationError::UnsupportedSchema
    );
    assert_eq!(
        verify_scene(0, None, &profile()).unwrap_err(),
        VerificationError::NoFusedWorld
    );
    let mut broken = profile();
    broken.minimum_sequential_inlier_ratio = f32::NAN.to_bits();
    assert_eq!(
        verify_scene(0, Some(&world), &broken).unwrap_err(),
        VerificationError::InvalidThresholds
    );
}

#[test]
fn a_missed_gate_is_named() {
    let mut world = world();
    world.points[0].radius = 0;
    let mut strict = profile();
    strict.minimum_measured_windows = 2;
    strict.minimum_fused_points = 2;
    strict.minimum_sequential_inlier_ratio = 0.96_f32.to_bits();
    strict.maximum_sequential_rms_residual = 0.005_f32.to_bits();
    let result = verify_scene(1, Some(&world), &strict).unwrap();
    assert_eq!(
        result.violations,
        vec![
            SceneViolation::MeasuredWindows,
            SceneViolation::FusedPoints,
            SceneViolation::InvalidGeometry,
            SceneViolation::InlierRatio,
            SceneViolation::RmsResidual,
        ]
    );
    assert_eq!(result.evidence.minimum_inlier_ratio, Some(0.95_f32.to_bits()));
    assert_eq!(scene_report(Some(&world)).state.name(), "invalid_fused_geometry");
}
