use vestra::global_fusion::{
    candidate_report_is_better, frame_global_product, frame_global_world, gather_frames,
    has_neighbor_depth_agreement, has_required_coverage, keep_tsdf_observation, median_middles, observation_sample_threshold,
    point_at_pixel, raster_fits_camera, report_for_frame, select_canonical_views,
    smoothing_neighbors, split_scale_evidence, surface_points, temporally_smooth_reports,
    trusted_observation, validate_settings, DepthCheck, FrameGlobalFusionError,
    FrameGlobalFusionSettings, FrameGlobalReport, GlobalFrame, Placement, RebasedPoint,
    ScaleSample, SmoothedScale, ViewCandidate,
};
use vestra::pose::PoseFrame;
use vestra::trajectory::{
    global_pose_and_camera, posed_views, ColmapCameraModel, FrameCamera, GlobalTrajectoryEvidence,
    SparseTrack, TrackObservation,
};
use vestra::tsdf::{SurfaceEvidence, SurfaceScale, TsdfSettings, TsdfSurfel};

fn bits(value: f32) -> u32 {
    value.to_bits()
}

fn report(frame_index: usize, scale: Option<f32>, error: Option<f32>) -> FrameGlobalReport {
    FrameGlobalReport {
        frame_index,
        registered: true,
        scale_samples: 80,
        held_out_samples: 10,
        scale: scale.map(f32::to_bits),
        held_out_median_log_error: error.map(f32::to_bits),
    }
}

#[test]
fn frame_global_coverage_rejects_isolated_good_fragments() {
    assert!(has_required_coverage(200, 230, bits(0.85)));
    assert!(!has_required_coverage(195, 230, bits(0.85)));
    assert!(!has_required_coverage(0, 0, bits(0.85)));
}

#[test]
fn tsdf_sampling_is_deterministic_and_bounded() {
    let threshold = observation_sample_threshold(55_000_000, 6_000_000);
    assert!(threshold < u64::MAX);
    assert_eq!(
        keep_tsdf_observation(17, [42, 99], threshold),
        keep_tsdf_observation(17, [42, 99], threshold)
    );
    assert_eq!(observation_sample_threshold(12, 12), u64::MAX);
}

#[test]
fn sampling_thresholds_are_nested() {
    let small = observation_sample_threshold(1_000, 100);
    let large = observation_sample_threshold(1_000, 700);
    assert!(small < large);
    let mut kept = 0;
    for x in 0..1_000_u32 {
        if keep_tsdf_observation(3, [x, 5], small) {
            kept += 1;
            assert!(keep_tsdf_observation(3, [x, 5], large));
        }
        assert!(keep_tsdf_observation(3, [x, 5], u64::MAX));
    }
    assert!((50..200).contains(&kept), "{kept}");
}

#[test]
fn canonical_view_selection_prefers_held_out_verified_depth() {
    let settings = FrameGlobalFusionSettings::default();
    let weak = FrameGlobalReport {
        frame_index: 7,
        registered: true,
        scale_samples: 80,
        held_out_samples: 10,
        scale: Some(bits(2.0)),
        held_out_median_log_error: Some(bits(0.31)),
    };
    let verified = FrameGlobalReport {
        frame_index: 7,
        registered: true,
        scale_samples: 12,
        held_out_samples: 3,
        scale: Some(bits(2.2)),
        held_out_median_log_error: Some(bits(0.04)),
    };
    assert!(candidate_report_is_better(&verified, &weak, &settings));
    assert!(!candidate_report_is_better(&weak, &verified, &settings));
    let selected = select_canonical_views(
        &vec![
            ViewCandidate {
                window_index: 0,
                view_index: 1,
                report: weak,
            },
            ViewCandidate {
                window_index: 1,
                view_index: 0,
                report: verified,
            },
        ],
        &settings,
    );
    assert_eq!(selected.len(), 1);
    assert_eq!(selected[0].candidate, 1);
}

#[test]
fn tsdf_neighbor_gate_accepts_only_reprojected_depth_agreement() {
    let check = |neighbor_depth: f32| {
        let z = 2.0_f32;
        vec![DepthCheck {
            frame_index: 1,
            error: Some((neighbor_depth / z).ln().abs().to_bits()),
        }]
    };
    assert!(has_neighbor_depth_agreement(&check(2.0), 0, 2, 1, bits(0.02)));
    assert!(!has_neighbor_depth_agreement(&check(1.0), 0, 2, 1, bits(0.02)));
}

#[test]
fn a_neighbor_must_be_another_frame_within_reach() {
    let check = |frame_index| {
        vec![DepthCheck {
            frame_index,
            error: Some(0),
        }]
    };
    assert!(has_neighbor_depth_agreement(&check(6), 4, 2, 1, bits(0.02)));
    assert!(!has_neighbor_depth_agreement(&check(7), 4, 2, 1, bits(0.02)));
    assert!(!has_neighbor_depth_agreement(&check(4), 4, 2, 1, bits(0.02)));
}

#[test]
fn unusable_settings_are_refused() {
    let settings = FrameGlobalFusionSettings::default();
    assert_eq!(validate_settings(&settings), Ok(()));
    let broken = FrameGlobalFusionSettings {
        minimum_fused_frame_fraction: bits(f32::NAN),
        ..FrameGlobalFusionSettings::default()
    };
    assert_eq!(
        validate_settings(&broken),
        Err(FrameGlobalFusionError::InvalidSettings)
    );
}

#[test]
fn smoothing_never_accepts_a_refused_frame() {
    let settings = FrameGlobalFusionSettings {
        temporal_scale_smoothing_radius: 1,
        ..FrameGlobalFusionSettings::default()
    };
    let reports = vec![
        report(0, Some(1.0), Some(0.01)),
        report(1, None, None),
        report(2, Some(1.2), Some(0.02)),
    ];
    assert_eq!(smoothing_neighbors(&reports, &settings, 1), None);
    let outcomes = vec![
        SmoothedScale {
            scale: bits(1.0),
            error: bits(0.01),
        };
        3
    ];
    let smoothed = temporally_smooth_reports(&reports, &outcomes, &settings);
    assert_eq!(smoothed.len(), 3);
    assert_eq!(smoothed[1].scale, None);
}

#[test]
fn median_middles_bracket_the_middle() {
    let values = |list: &[f32]| list.iter().map(|v| v.to_bits()).collect::<Vec<_>>();
    assert_eq!(
        median_middles(&values(&[3.0, 1.0, 2.0])),
        (bits(2.0), bits(2.0))
    );
    assert_eq!(
        median_middles(&values(&[4.0, 1.0, 3.0, 2.0])),
        (bits(2.0), bits(3.0))
    );
}

#[test]
fn every_fifth_track_is_held_out() {
    let samples: Vec<ScaleSample> = (0..10)
        .map(|point_id| ScaleSample {
            point_id,
            log_ratio: Some(bits(point_id as f32)),
        })
        .collect();
    let evidence = split_scale_evidence(&samples);
    assert_eq!(evidence.train.len() + evidence.held_out.len(), 10);
    assert_eq!(evidence.held_out, vec![bits(0.0), bits(5.0)]);
}

#[test]
fn too_little_evidence_leaves_a_frame_without_scale() {
    let settings = FrameGlobalFusionSettings::default();
    let fitted = SmoothedScale {
        scale: bits(2.0),
        error: bits(0.01),
    };
    let evidence = split_scale_evidence(&vec![ScaleSample {
        point_id: 1,
        log_ratio: Some(0),
    }]);
    let sparse = report_for_frame(4, true, &evidence, fitted, &settings);
    assert_eq!((sparse.frame_index, sparse.scale), (4, None));
}

#[test]
fn rasters_must_keep_the_camera_aspect() {
    assert!(raster_fits_camera(1620, 1080, 504, 336));
    assert!(!raster_fits_camera(1920, 1080, 504, 336));
}

#[test]
fn a_pixel_is_looked_up_exactly() {
    let pixels = vec![[1, 2], [3, 4], [5, 6]];
    assert_eq!(point_at_pixel(&pixels, [3, 4]), Some(1));
    assert_eq!(point_at_pixel(&pixels, [4, 3]), None);
}

#[test]
fn only_sharp_tracks_of_the_frame_are_trusted() {
    let settings = FrameGlobalFusionSettings::default();
    let track = |error: f64| SparseTrack {
        point_id: 1,
        position: [0; 3],
        reprojection_error_px: error.to_bits(),
        observations: vec![
            TrackObservation {
                frame_index: 3,
                image_xy: [0; 2],
            },
            TrackObservation {
                frame_index: 5,
                image_xy: [0; 2],
            },
        ],
    };
    assert_eq!(trusted_observation(&track(0.5), 5, &settings), Some(1));
    assert_eq!(trusted_observation(&track(0.5), 4, &settings), None);
    assert_eq!(trusted_observation(&track(1.0e6), 5, &settings), None);
}

fn posed(frame_index: usize, registered: bool) -> PoseFrame {
    PoseFrame {
        frame_index,
        image_name: String::new(),
        registered,
        world_to_camera: [0; 12],
    }
}

#[test]
fn a_view_needs_a_registered_pose_and_its_camera() {
    let evidence = GlobalTrajectoryEvidence {
        frame_camera_ids: vec![
            FrameCamera {
                frame_index: 0,
                camera_id: 9,
            },
            FrameCamera {
                frame_index: 2,
                camera_id: 9,
            },
        ],
        camera_models: vec![ColmapCameraModel {
            camera_id: 9,
            model: "SIMPLE_RADIAL".to_string(),
            width: 4,
            height: 4,
            parameters: Vec::new(),
        }],
        tracks: Vec::new(),
    };
    let frames = vec![posed(0, true), posed(1, true), posed(2, false)];
    assert_eq!(
        global_pose_and_camera(0, &frames, &evidence),
        Some((0, 0))
    );
    assert_eq!(global_pose_and_camera(1, &frames, &evidence), None);
    assert_eq!(global_pose_and_camera(2, &frames, &evidence), None);
    assert_eq!(posed_views(&frames, &evidence).len(), 1);
}

fn frame(frame_index: usize, accepted: bool) -> GlobalFrame {
    GlobalFrame {
        report: if accepted {
            report(frame_index, Some(1.0), Some(0.01))
        } else {
            report(frame_index, None, None)
        },
        posed: true,
        points: vec![RebasedPoint {
            source_pixel: [1, 1],
            color_srgb: [7, 8, 9],
            confidence: bits(1.0),
            placement: Some(Placement {
                position: [bits(1.0), bits(2.0), bits(3.0)],
                normal: [0, 0, bits(1.0)],
                radius: bits(0.1),
            }),
            confirmed: true,
        }],
    }
}

#[test]
fn points_come_from_accepted_frames_only() {
    let settings = FrameGlobalFusionSettings {
        minimum_fused_frame_fraction: bits(0.5),
        ..FrameGlobalFusionSettings::default()
    };
    let fused = gather_frames(&vec![frame(4, true), frame(5, false)], &settings).unwrap();
    assert_eq!(fused.accepted_frame_indices, vec![4]);
    assert_eq!(fused.omitted_frames, 1);
    let strict = FrameGlobalFusionSettings {
        minimum_fused_frame_fraction: bits(0.75),
        ..settings
    };
    assert!(matches!(
        gather_frames(&vec![frame(4, true), frame(5, false)], &strict),
        Err(FrameGlobalFusionError::InsufficientFrameCoverage {
            actual: 1,
            total: 2,
            ..
        })
    ));
}

#[test]
fn surfels_become_world_points_and_products_are_named() {
    let surface = vec![TsdfSurfel {
        position: [1, 2, 3],
        normal: [4, 5, 6],
        color_srgb: [7, 8, 9],
        radius: 10,
        first_observing_frame: 11,
        contributors: 12,
    }];
    let points = surface_points(&surface);
    assert_eq!(points.len(), 1);
    assert_eq!(points[0].position, [1, 2, 3]);
    assert_eq!(points[0].first_observing_frame, 11);
    assert_eq!(points[0].contributors, 12);
    let names = frame_global_product(&FrameGlobalFusionSettings::default());
    assert!(!names.product_id.is_empty());
}

#[test]
fn a_frame_global_world_is_a_surface_or_its_points() {
    let raw = FrameGlobalFusionSettings {
        minimum_fused_frame_fraction: bits(0.5),
        tsdf: None,
        ..FrameGlobalFusionSettings::default()
    };
    let frames = vec![frame(4, true), frame(5, false)];
    let fused = gather_frames(&frames, &raw).unwrap();
    let world = frame_global_world(fused, &None, &raw);
    assert_eq!(world.names.product_id, "colmap-ba-frame-global-surfel");
    assert_eq!(world.names.surface, "surfel");
    assert_eq!(world.source_frames, vec![4]);
    assert_eq!(world.omitted_frames, 1);
    assert_eq!(world.points.len(), 1);
    assert_eq!(world.voxel_size, 0);
    let solid = FrameGlobalFusionSettings {
        tsdf: Some(TsdfSettings::default()),
        ..raw
    };
    let fused = gather_frames(&frames, &solid).unwrap();
    let evidence = Some(SurfaceEvidence {
        settings: TsdfSettings::default(),
        runs: Vec::new(),
        means: Vec::new(),
        scale: SurfaceScale {
            truncation: bits(1.0),
            half: bits(0.5),
            radius: bits(0.6),
        },
        edge: 13,
    });
    let world = frame_global_world(fused, &evidence, &solid);
    assert_eq!(world.names.product_id, "colmap-ba-frame-global-tsdf");
    assert_eq!(world.points.len(), 1);
    assert_eq!(world.points[0].position, [bits(1.0), bits(2.0), bits(3.0)]);
    assert_eq!(world.points[0].first_observing_frame, 4);
    assert_eq!(world.points[0].contributors, 1);
    assert_eq!(world.voxel_size, 13);
}
