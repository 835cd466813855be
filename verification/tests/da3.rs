use vestra::da3::{
    admit_da3_depth_contract, admit_da3_depth_frame, admit_da3_frames, admit_da3_ply,
    admit_da3_sidecar, da3_import_identity, da3_tsdf_product_identity, is_plain_name, is_sha256,
    validate_calibrated_da3_contract, validate_mvs_hybrid_evidence, Da3CalibrationBatch,
    Da3CalibrationContract, Da3CalibrationSource, Da3MvsHybridEvidence, Da3MvsPatchMatchFrame,
    Da3PoseConditionedArtifact, Da3PoseConditionedDepthFrame, Da3PoseConditionedDepthFrames,
    Da3PoseConditionedPly, Da3Variant,
};

fn ply() -> Da3PoseConditionedPly {
    Da3PoseConditionedPly {
        schema: "vestra.da3-pose-conditioned-ply/v1".into(),
        file: "world.ply".into(),
        sha256: "c".repeat(64),
    }
}

fn depth_frames() -> Da3PoseConditionedDepthFrames {
    Da3PoseConditionedDepthFrames {
        schema: "vestra.da3-pose-conditioned-depth-frames/v1".into(),
        directory: "depth-frames".into(),
        width: 504,
        height: 336,
        frames: Vec::new(),
    }
}

fn calibrated() -> Da3PoseConditionedArtifact {
    Da3PoseConditionedArtifact {
        schema: "vestra.da3-pose-conditioned-calibration/v2".into(),
        raster_fingerprint: "raster".into(),
        pose_solution_hash: "pose".into(),
        align_to_input_ext_scale: true,
        frames: vec![1],
        published_frames: Some(vec![1]),
        decision: Some("accepted".into()),
        source: Some(Da3CalibrationSource {
            raw_manifest_sha256: "a".repeat(64),
            raster_fingerprint: "raster".into(),
            pose_solution_hash: "pose".into(),
            batch_files: vec![Da3CalibrationBatch {
                file: "batch-0000.npz".into(),
                sha256: "b".repeat(64),
            }],
        }),
        contract: Some(Da3CalibrationContract {
            minimum_accepted_frame_fraction: 0.85_f64.to_bits(),
            pixel_mapping: "pixel-center-resize/v1".into(),
            track_split: "sha256-track-id-fold/v1".into(),
        }),
        hybrid: None,
        ply: ply(),
        depth_frames: depth_frames(),
    }
}

#[test]
fn calibrated_da3_contract_requires_immutable_source_and_safe_profile() {
    let sidecar = calibrated();
    assert!(validate_calibrated_da3_contract(&sidecar).is_ok());
    let mut unsafe_sidecar = sidecar;
    unsafe_sidecar.contract.as_mut().unwrap().track_split = "random".into();
    assert!(validate_calibrated_da3_contract(&unsafe_sidecar).is_err());
}

#[test]
fn mvs_hybrid_contract_requires_real_dense_evidence() {
    let sidecar = Da3PoseConditionedArtifact {
        schema: "vestra.da3-mvs-hybrid/v1".into(),
        raster_fingerprint: "raster".into(),
        pose_solution_hash: "pose".into(),
        align_to_input_ext_scale: true,
        frames: vec![1],
        published_frames: Some(vec![1]),
        decision: Some("accepted".into()),
        source: None,
        contract: None,
        hybrid: Some(Da3MvsHybridEvidence {
            mvs_ply_sha256: Some("d".repeat(64)),
            mvs_vertices: Some(1),
            mvs_depth_map_index_sha256: None,
            mvs_depth_map_count: None,
            per_frame: Vec::new(),
            pixel_policy: "mvs-zbuffer-where-observed-else-da3/v1".into(),
            median_mvs_coverage: 0.2_f64.to_bits(),
        }),
        ply: ply(),
        depth_frames: depth_frames(),
    };
    assert!(validate_mvs_hybrid_evidence(&sidecar).is_ok());
    let mut guided = sidecar;
    guided.hybrid.as_mut().unwrap().pixel_policy = "mvs-zbuffer-plus-coarse-local-ratio/v1".into();
    assert!(validate_mvs_hybrid_evidence(&guided).is_ok());
    let mut patchmatch = guided;
    let evidence = patchmatch.hybrid.as_mut().unwrap();
    evidence.mvs_ply_sha256 = None;
    evidence.mvs_vertices = None;
    evidence.mvs_depth_map_index_sha256 = Some("e".repeat(64));
    evidence.mvs_depth_map_count = Some(1);
    evidence.per_frame = vec![Da3MvsPatchMatchFrame {
        frame_index: 1,
        file: "frame-000002.ppm.geometric.bin".into(),
        sha256: "f".repeat(64),
        mvs_coverage: 0.5_f64.to_bits(),
    }];
    evidence.pixel_policy = "colmap-patchmatch-geometric-resample-else-da3/v1".into();
    assert!(validate_mvs_hybrid_evidence(&patchmatch).is_ok());
    let mut mismatched_frames = patchmatch;
    mismatched_frames.hybrid.as_mut().unwrap().per_frame[0].frame_index = 2;
    assert!(validate_mvs_hybrid_evidence(&mismatched_frames).is_err());
    let mut incomplete = mismatched_frames;
    incomplete.hybrid.as_mut().unwrap().per_frame[0].frame_index = 1;
    incomplete.hybrid.as_mut().unwrap().median_mvs_coverage = 0.0_f64.to_bits();
    assert!(validate_mvs_hybrid_evidence(&incomplete).is_err());
}

#[test]
fn guided_tsdf_identity_is_separate_and_cannot_be_combined_with_calibration() {
    assert_eq!(
        da3_tsdf_product_identity(false, true),
        Ok((
            "da3-mvs-guided-colmap-surfel",
            "colmap-mvs-geometric-plus-da3-local-guidance",
            "da3-mvs-guided-colmap-tsdf",
        ))
    );
    assert!(da3_tsdf_product_identity(true, true).is_err());
}

#[test]
fn digests_and_names_are_checked_by_shape() {
    assert!(is_sha256(&"aF09".repeat(16)));
    assert!(!is_sha256(&"g".repeat(64)));
    assert!(!is_sha256(&"a".repeat(63)));
    assert!(is_plain_name("world.ply"));
    assert!(is_plain_name("..x"));
    for name in ["", ".", "..", "a/b", "/", "a/"] {
        assert!(!is_plain_name(name), "{name}");
    }
}

#[test]
fn a_fraction_below_the_floor_or_above_one_is_refused() {
    for fraction in [0.8499999_f64, 1.0000001, f64::NAN, f64::INFINITY] {
        let mut sidecar = calibrated();
        sidecar
            .contract
            .as_mut()
            .unwrap()
            .minimum_accepted_frame_fraction = fraction.to_bits();
        assert_eq!(
            validate_calibrated_da3_contract(&sidecar),
            Err("calibrated DA3 artifact violates the V2 provenance contract")
        );
    }
}

#[test]
fn a_calibration_without_source_or_contract_says_which_is_missing() {
    let mut sidecar = calibrated();
    sidecar.contract = None;
    assert_eq!(
        validate_calibrated_da3_contract(&sidecar),
        Err("calibrated DA3 artifact has no calibration contract")
    );
    sidecar.source = None;
    assert_eq!(
        validate_calibrated_da3_contract(&sidecar),
        Err("calibrated DA3 artifact has no immutable raw-source binding")
    );
}

#[test]
fn a_sidecar_is_admitted_only_for_its_own_raster_and_poses() {
    let sidecar = calibrated();
    assert_eq!(
        admit_da3_sidecar(&sidecar, "raster", "pose"),
        Ok(Da3Variant::Calibrated)
    );
    let refusal =
        "DA3 artifact does not bind this raster, COLMAP pose solution, and external pose scale";
    assert_eq!(admit_da3_sidecar(&sidecar, "other", "pose"), Err(refusal));
    assert_eq!(admit_da3_sidecar(&sidecar, "raster", "other"), Err(refusal));
    let mut undecided = sidecar.clone();
    undecided.decision = Some("rejected".into());
    assert_eq!(
        admit_da3_sidecar(&undecided, "raster", "pose"),
        Err("verified DA3 derivative was not accepted by its evidence contract")
    );
    let mut raw = undecided;
    raw.schema = "vestra.da3-pose-conditioned/v1".into();
    assert_eq!(
        admit_da3_sidecar(&raw, "raster", "pose"),
        Ok(Da3Variant::Raw)
    );
    assert_eq!(
        da3_import_identity(Da3Variant::PatchMatch).0,
        "da3-mvs-patchmatch-colmap-surfel"
    );
}

#[test]
fn the_cloud_and_the_depth_previews_must_match_their_digests() {
    let cloud = ply();
    assert!(admit_da3_ply(&cloud, &"c".repeat(64)).is_ok());
    assert!(admit_da3_ply(&cloud, &"d".repeat(64)).is_err());
    let depth = depth_frames();
    assert!(admit_da3_depth_contract(&depth).is_ok());
    let mut wide = depth;
    wide.width = 505;
    assert!(admit_da3_depth_contract(&wide).is_err());
    let frame = Da3PoseConditionedDepthFrame {
        frame_index: 3,
        file: "frame.png".into(),
        sha256: "e".repeat(64),
    };
    assert!(admit_da3_depth_frame(&frame, &"e".repeat(64)).is_ok());
    assert!(admit_da3_depth_frame(&frame, &"f".repeat(64)).is_err());
}

#[test]
fn published_frames_are_an_ordered_sufficient_subset() {
    let mut sidecar = calibrated();
    let registered: Vec<usize> = (0..20).collect();
    sidecar.frames = registered.clone();
    let published: Vec<usize> = (0..17).collect();
    sidecar.published_frames = Some(published.clone());
    sidecar.depth_frames.frames = published
        .iter()
        .map(|&frame_index| Da3PoseConditionedDepthFrame {
            frame_index,
            file: "x".into(),
            sha256: "a".repeat(64),
        })
        .collect();
    assert_eq!(
        admit_da3_frames(&sidecar, &registered),
        Ok(published.clone())
    );
    sidecar.published_frames = Some((0..16).collect());
    assert!(admit_da3_frames(&sidecar, &registered)
        .unwrap_err()
        .starts_with("DA3 artifact published frames"));
    sidecar.published_frames = None;
    assert_eq!(
        admit_da3_frames(&sidecar, &registered),
        Err("DA3 depth-preview frames differ from the published COLMAP frame subset")
    );
    sidecar.frames.pop();
    assert!(admit_da3_frames(&sidecar, &registered)
        .unwrap_err()
        .starts_with("DA3 artifact frame ownership"));
}
