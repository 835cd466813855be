use vestra::emission::{
    cpp_pr2_closed_loop_oracle, cpp_pr2_fixture_trajectory, emit_cpp_pr2_reference_cloud,
    emit_reference, emit_windows, emit_windows_at_poses, find_loops, first_owned_view,
    first_owner_key_cloud, first_owners, fixture_window, frame_owned_points,
    fuse_scene_bundle_cpp_pr2_relative, looks_for_loops, loop_pairs, loop_supported, nearest_key,
    registered_loop, surface_cloud, surface_evidence, window_mid_frame, windows_meet, CameraPlace,
    EmissionRule, LoopEvidence, OptimizedPoses, ReferenceEvidence, ReferencePlace,
};
use vestra::geometry::{
    BackprojectionSettings, CameraCalibration, MeasuredFrameChunk, MeasuredPoint,
    WindowMeasuredChunk,
};
use vestra::global_fusion::Placement;
use vestra::pose::PoseFrame;
use vestra::pose_graph::PoseGraphReport;
use vestra::ppm::OwnedFrame;
use vestra::reconstruction::{
    advance_run, begin_reconstruction, capture_profile, check_camera_fit, check_capture_profile, check_checkpoints, check_pairings,
    check_raster, check_view_count, find_checkpoint, fit_window_to_global_pose,
    global_window_poses, least_overlap, measured_progress, measured_window, next_window_step,
    pair_cameras, pair_window, record_window, rgb_at_inference_resolution, schedule_order,
    validated_checkpoint_progress, CameraFit, GlobalPoseFusionSettings, ReconstructionError,
    ReconstructionSettings, RunStep, StoredWindow, ViewEvidence, WindowFit, WindowStep,
};
use vestra::revisit::{CameraHeading, CameraPair};
use vestra::schedule::{FrameWindow, WindowSettings};
use vestra::stitch::StitchError;
use vestra::tsdf::{SplatRun, SurfaceEvidence, SurfaceScale, TsdfSettings};
use vestra::world::SimilarityTransform;

fn identity() -> SimilarityTransform {
    SimilarityTransform {
        scale: 1.0_f32.to_bits(),
        rotation: [1.0_f32, 0.0, 0.0, 0.0, 1.0, 0.0, 0.0, 0.0, 1.0].map(f32::to_bits),
        translation: [0; 3],
    }
}

fn camera() -> CameraCalibration {
    CameraCalibration {
        world_to_camera: [1.0_f32, 0.0, 0.0, 0.0, 0.0, 1.0, 0.0, 0.0, 0.0, 0.0, 1.0, 0.0]
            .map(f32::to_bits),
        intrinsics: [1.0_f32, 0.0, 0.0, 0.0, 1.0, 0.0, 0.0, 0.0, 1.0].map(f32::to_bits),
    }
}

fn point(x: f32, confidence: f32) -> MeasuredPoint {
    MeasuredPoint {
        position: [x, 0.0, 1.0].map(f32::to_bits),
        normal: [0.0_f32, 0.0, 1.0].map(f32::to_bits),
        color_srgb: [0; 3],
        confidence: confidence.to_bits(),
        radius: 1.0_f32.to_bits(),
        source_pixel: [x as u32, 0],
    }
}

fn chunk(window: FrameWindow, points: Vec<Vec<MeasuredPoint>>) -> WindowMeasuredChunk {
    WindowMeasuredChunk {
        window,
        views: points
            .into_iter()
            .enumerate()
            .map(|(offset, points)| MeasuredFrameChunk {
                frame_index: window.start + offset,
                camera: camera(),
                points,
            })
            .collect(),
        cpp_pr2_emission_confidence_threshold: None,
    }
}

const FIRST: FrameWindow = FrameWindow {
    index: 0,
    start: 0,
    end: 1,
};

fn percentile(values: &[f32], percent: f64) -> f32 {
    let mut sorted = values.to_vec();
    sorted.sort_by(f32::total_cmp);
    let rank = percent / 100.0 * (sorted.len() - 1) as f64;
    let low = rank.floor() as usize;
    let high = rank.ceil() as usize;
    let share = rank - low as f64;
    (f64::from(sorted[low]) * (1.0 - share) + f64::from(sorted[high]) * share) as f32
}

#[test]
fn fixture_loop_keys_use_the_same_confidence_selected_emit_cloud_as_pr2() {
    let window = chunk(FIRST, vec![vec![point(0.0, 0.1), point(1.0, 0.9)]]);
    let threshold = percentile(&[0.1, 0.9], 50.0);
    assert_eq!(
        first_owner_key_cloud(&window, 1, Some(threshold.to_bits())),
        vec![[1.0_f32, 0.0, 1.0].map(f32::to_bits)]
    );
}

#[test]
fn product_loop_keys_require_the_captured_pr2_confidence_threshold() {
    let mut window = chunk(
        FIRST,
        vec![vec![point(0.0, 0.49), point(1.0, 0.5), point(2.0, 0.9)]],
    );
    window.cpp_pr2_emission_confidence_threshold = Some(0.5_f32.to_bits());
    let threshold = window.cpp_pr2_emission_confidence_threshold;
    assert_eq!(
        first_owner_key_cloud(&window, 0, threshold),
        vec![
            [1.0_f32, 0.0, 1.0].map(f32::to_bits),
            [2.0_f32, 0.0, 1.0].map(f32::to_bits)
        ]
    );
}

#[test]
fn cpp_pr2_relative_fusion_rejects_legacy_capture_without_evidence_profile() {
    let legacy = vec![chunk(FIRST, Vec::new())];
    assert!(matches!(
        check_capture_profile(&legacy),
        Err(ReconstructionError::MissingCppPr2CaptureProfile)
    ));
    let solution = cpp_pr2_closed_loop_oracle(
        &legacy,
        &vec![identity()],
        true,
        &Vec::new(),
        &OptimizedPoses {
            nodes: vec![identity()],
            report: PoseGraphReport {
                initial_cost: 0,
                final_cost: 0,
                iterations: 0,
                free_degrees_of_freedom: 0,
                loop_edges: 0,
            },
        },
    );
    assert!(matches!(
        fuse_scene_bundle_cpp_pr2_relative(&legacy, Vec::new(), solution, &Vec::new(), &None),
        Err(ReconstructionError::MissingCppPr2CaptureProfile)
    ));
    let mut captured = chunk(FIRST, Vec::new());
    captured.cpp_pr2_emission_confidence_threshold = Some(0);
    assert_eq!(check_capture_profile(&vec![captured]), Ok(()));
}

fn reference_windows() -> Vec<WindowMeasuredChunk> {
    let view = |color: [u8; 3]| {
        (0..4)
            .map(|i| MeasuredPoint {
                position: [i as f32, 0.0, i as f32 + 1.0].map(f32::to_bits),
                normal: [0; 3],
                color_srgb: color,
                confidence: 1.0_f32.to_bits(),
                radius: (i as f32 + 1.0).to_bits(),
                source_pixel: [i % 2, i / 2],
            })
            .collect::<Vec<_>>()
    };
    let settings = WindowSettings {
        chunk_size: 2,
        overlap: 1,
    };
    vec![
        chunk(
            fixture_window(0, 2, &settings),
            vec![view([1, 2, 3]), view([4, 5, 6])],
        ),
        chunk(
            fixture_window(1, 2, &settings),
            vec![view([4, 5, 6]), view([7, 8, 9])],
        ),
    ]
}

#[test]
fn cpp_pr2_reference_emission_keeps_first_owned_frames_once() {
    let windows = reference_windows();
    let threshold = percentile(&[1.0; 8], 0.0).to_bits();
    let places = emit_reference(&windows, 2, &vec![threshold; 2], 1).unwrap();
    let places: Vec<ReferencePlace> = places
        .iter()
        .map(|place| {
            let source = windows[place.window].views[place.view].points[place.point];
            let depth = f32::from_bits(source.position[2]);
            let radius = 0.5 * (depth / 1.0 + depth / 1.0) * 1.0 * 1.0;
            ReferencePlace {
                position: source.position,
                radius: radius.to_bits(),
            }
        })
        .collect();
    let poses = vec![identity(); 2];
    let evidence = ReferenceEvidence {
        thresholds: vec![threshold; 2],
        overlap: 1,
        places,
    };
    let cloud =
        emit_cpp_pr2_reference_cloud(&windows, Vec::new(), &poses, &evidence, 3).unwrap();
    assert_eq!(cloud.points.len(), 12);
    assert_eq!(cloud.frame_owned_points, vec![4, 4, 4]);
    assert_eq!(cloud.points[0].color_srgb, [1, 2, 3]);
    assert_eq!(cloud.points[4].color_srgb, [4, 5, 6]);
    assert_eq!(cloud.points[8].color_srgb, [7, 8, 9]);
    assert!((f32::from_bits(cloud.points[3].radius) - 4.0).abs() < 1e-5);
    assert_eq!(cloud.points[3].normal, [0, 0, 1.0_f32.to_bits()]);
    assert_eq!(cloud.window_poses[1].window_index, 1);
    let mut unusable = evidence.clone();
    unusable.places[0].radius = f32::NAN.to_bits();
    let replaced =
        emit_cpp_pr2_reference_cloud(&windows, Vec::new(), &poses, &unusable, 3).unwrap();
    assert_eq!(f32::from_bits(replaced.points[0].radius), 1e-4);
    assert!(matches!(
        emit_reference(&windows, 1, &vec![threshold; 2], 1),
        Err(ReconstructionError::OracleOutputShape)
    ));
    assert!(matches!(
        emit_cpp_pr2_reference_cloud(&windows, Vec::new(), &vec![identity(); 3], &evidence, 3),
        Err(ReconstructionError::OracleOutputShape)
    ));
    let mut shuffled = cloud;
    shuffled.points.reverse();
    let frames = shuffled.points.iter().map(|point| point.first_observing_frame);
    let evidence = blind_evidence(frames.collect());
    let surface = surface_cloud(shuffled, &evidence, 3);
    assert_eq!(surface.frame_owned_points, vec![4, 4, 4]);
    let frames: Vec<i32> = surface.points.iter().map(|p| p.first_observing_frame).collect();
    assert_eq!(frames, vec![0, 0, 0, 0, 1, 1, 1, 1, 2, 2, 2, 2]);
    assert_eq!(surface.window_poses[1].window_index, 1);
}

/// Evidence without a single normal: nothing is splatted.
fn blind_evidence(frames: Vec<i32>) -> SurfaceEvidence {
    SurfaceEvidence {
        settings: TsdfSettings::default(),
        runs: frames
            .into_iter()
            .map(|frame_index| SplatRun {
                normal: [0; 3],
                frame_index,
                splats: Vec::new(),
            })
            .collect(),
        means: Vec::new(),
        scale: SurfaceScale {
            truncation: 4.0_f32.to_bits(),
            half: 0.5_f32.to_bits(),
            radius: 0.6_f32.to_bits(),
        },
        edge: 11,
    }
}

#[test]
fn color_resampling_retains_direct_source_pixel_values() {
    let frame = OwnedFrame {
        rgb_hwc_u8: vec![1, 2, 3, 4, 5, 6, 7, 8, 9, 10, 11, 12],
        width: 2,
        height: 2,
    };
    assert_eq!(
        rgb_at_inference_resolution(&frame, 4, 1),
        vec![1, 2, 3, 1, 2, 3, 4, 5, 6, 4, 5, 6]
    );
}

#[test]
fn compatible_checkpoint_is_reused_without_inference() {
    let window = FrameWindow {
        index: 3,
        start: 9,
        end: 11,
    };
    let checkpoint = chunk(window, vec![vec![point(0.0, 1.0)], Vec::new()]);
    let progress =
        validated_checkpoint_progress(window, &checkpoint, "checkpoint".into()).unwrap();
    assert!(progress.reused);
    assert_eq!(progress.measured_points, 1);
}

#[test]
fn incompatible_checkpoint_is_never_reused() {
    let window = FrameWindow {
        index: 3,
        start: 9,
        end: 11,
    };
    let checkpoint = WindowMeasuredChunk {
        window: FrameWindow { end: 10, ..window },
        views: Vec::new(),
        cpp_pr2_emission_confidence_threshold: None,
    };
    assert!(matches!(
        validated_checkpoint_progress(window, &checkpoint, "checkpoint".into()),
        Err(ReconstructionError::CheckpointConflict { window_index: 3 })
    ));
}

#[test]
fn a_published_window_is_reused_by_the_next_run() {
    let window = FrameWindow {
        index: 0,
        start: 0,
        end: 1,
    };
    assert!(matches!(
        next_window_step(&Vec::new(), window),
        Ok(WindowStep::Infer)
    ));
    let chunk = chunk(window, vec![vec![point(0.0, 1.0), point(1.0, 1.0)]]);
    let progress = measured_progress(&chunk, "hash".to_string());
    assert!(!progress.reused);
    assert_eq!(progress.measured_points, 2);
    let stored = vec![StoredWindow {
        hash: "hash".to_string(),
        chunk,
    }];
    assert_eq!(find_checkpoint(&stored, window), Some(0));
    let step = next_window_step(&stored, window).unwrap();
    let WindowStep::Reuse(reused) = step else {
        panic!("the checkpoint should be reused");
    };
    assert_eq!(reused.chunk_hash, "hash");
    assert_eq!(reused.measured_points, 2);
    let longer = FrameWindow { end: 2, ..window };
    assert!(matches!(
        next_window_step(&stored, longer),
        Err(ReconstructionError::CheckpointConflict { window_index: 0 })
    ));
}

#[test]
fn two_checkpoints_of_one_window_conflict() {
    let stored = |index| StoredWindow {
        hash: "hash".to_string(),
        chunk: chunk(FrameWindow { index, ..FIRST }, Vec::new()),
    };
    assert_eq!(check_checkpoints(&vec![stored(0), stored(1)]), Ok(()));
    assert!(matches!(
        check_checkpoints(&vec![stored(1), stored(0), stored(1)]),
        Err(ReconstructionError::CheckpointConflict { window_index: 1 })
    ));
}

#[test]
fn windows_are_fused_in_schedule_order() {
    let window = |index| chunk(FrameWindow { index, ..FIRST }, Vec::new());
    assert_eq!(
        schedule_order(&vec![window(2), window(0), window(1)]),
        vec![1, 2, 0]
    );
    let span = |index, start, end| chunk(FrameWindow { index, start, end }, Vec::new());
    assert_eq!(least_overlap(&vec![span(0, 0, 12), span(1, 9, 21)]), 3);
}

#[test]
fn engine_outputs_must_fit() {
    assert_eq!(check_view_count(3, 3), Ok(()));
    assert!(matches!(
        check_view_count(3, 2),
        Err(ReconstructionError::ViewCount {
            expected: 3,
            actual: 2
        })
    ));
    assert_eq!(check_raster(None, 504, 336), Ok((504, 336)));
    assert!(matches!(
        check_raster(Some((504, 336)), 504, 335),
        Err(ReconstructionError::OracleOutputShape)
    ));
}

#[test]
fn a_relative_capture_keeps_dense_evidence() {
    let dense = ReconstructionSettings {
        cpp_pr2_relative_capture: true,
        ..ReconstructionSettings::default()
    };
    let profile = capture_profile(&dense);
    assert_eq!(f32::from_bits(profile.minimum_confidence), -f32::MAX);
    assert_eq!(profile.pixel_stride, 1);
    assert_eq!(
        capture_profile(&ReconstructionSettings::default()),
        BackprojectionSettings::default()
    );
}

#[test]
fn a_global_fit_needs_cameras_and_quality() {
    let settings = GlobalPoseFusionSettings::default();
    let pose = |frame_index, registered| PoseFrame {
        frame_index,
        image_name: String::new(),
        registered,
        world_to_camera: [0; 12],
    };
    let pairs = pair_cameras(&vec![4, 5, 6], &vec![pose(6, true), pose(4, true)]);
    let found: Vec<(usize, usize)> = pairs.iter().map(|pair| (pair.camera, pair.pose)).collect();
    assert_eq!(found, vec![(0, 1), (2, 0)]);
    let pairs = pair_cameras(
        &vec![4, 6],
        &vec![pose(4, true), pose(6, false), pose(4, false)],
    );
    let found: Vec<(usize, usize)> = pairs.iter().map(|pair| (pair.camera, pair.pose)).collect();
    assert_eq!(found, vec![(0, 0)]);
    assert_eq!(check_pairings(1, 6, &settings), Ok(()));
    assert!(matches!(
        check_pairings(1, 5, &settings),
        Err(ReconstructionError::InsufficientGlobalCameraEvidence {
            window_index: 1,
            actual: 5,
            minimum: 6
        })
    ));
    assert_eq!(check_camera_fit(1, 0.1_f32.to_bits(), &settings), Ok(()));
    assert!(matches!(
        check_camera_fit(1, 0.2_f32.to_bits(), &settings),
        Err(ReconstructionError::GlobalCameraFitQuality { .. })
    ));
}

#[test]
fn frames_are_emitted_once() {
    let windows = reference_windows();
    let owners: Vec<(usize, usize)> = first_owners(&windows)
        .iter()
        .map(|place| (place.window, place.view))
        .collect();
    assert_eq!(owners, vec![(0, 0), (0, 1), (1, 1)]);
    assert_eq!(emit_windows(&windows, EmissionRule::Global).len(), 12);
    assert_eq!(first_owned_view(0, 3, 12), 0);
    assert_eq!(first_owned_view(2, 3, 12), 3);
    assert_eq!(first_owned_view(2, 3, 1), 1);
}

#[test]
fn a_trajectory_takes_each_frame_from_its_owner() {
    let windows = reference_windows();
    let place = |x: f32| {
        Some(CameraPlace {
            position: [x.to_bits(), 0, 0],
            forward: [0, 0, x.to_bits()],
        })
    };
    let cameras = vec![vec![place(1.0), place(2.0)], vec![place(9.0), None]];
    let middles = vec![[5, 5, 5], [6, 6, 6]];
    let trajectory = cpp_pr2_fixture_trajectory(&windows, &cameras, middles.clone(), 1, 3);
    assert_eq!(trajectory.window_mid_frames, vec![1, 2]);
    assert_eq!(trajectory.window_positions, middles);
    assert_eq!(
        trajectory.frame_positions,
        vec![[1.0_f32.to_bits(), 0, 0], [2.0_f32.to_bits(), 0, 0], [0; 3]]
    );
    assert_eq!(trajectory.frame_forwards[1], [0, 0, 2.0_f32.to_bits()]);
    assert_eq!(window_mid_frame(&windows[1].window, 2), 2);
}

#[test]
fn loops_need_distance_direction_and_support() {
    assert!(looks_for_loops(true, 4));
    assert!(!looks_for_loops(true, 3));
    assert!(!looks_for_loops(false, 9));
    let pair = |distance: f32, cosine: f32| {
        vec![CameraPair {
            distance: distance.to_bits(),
            cosine: cosine.to_bits(),
        }]
    };
    assert!(windows_meet(&pair(1.0, 0.9)));
    assert!(!windows_meet(&pair(1.0, 0.1)));
    assert!(!windows_meet(&pair(100.0, 0.9)));
    assert!(loop_supported(150));
    assert!(!loop_supported(149));
    let squared: Vec<u32> = [4.0_f32, 1.0, 1.0].map(f32::to_bits).to_vec();
    assert_eq!(nearest_key(&squared, 2.0_f32.to_bits()), Some(1));
    assert_eq!(nearest_key(&squared, 0.5_f32.to_bits()), None);
}

#[test]
fn without_a_loop_the_poses_stay_sequential() {
    let windows = reference_windows();
    let sequential = vec![identity(); 2];
    let moved = OptimizedPoses {
        nodes: vec![
            SimilarityTransform {
                scale: 2.0_f32.to_bits(),
                ..identity()
            };
            2
        ],
        report: PoseGraphReport {
            initial_cost: 0,
            final_cost: 0,
            iterations: 1,
            free_degrees_of_freedom: 7,
            loop_edges: 1,
        },
    };
    let open = cpp_pr2_closed_loop_oracle(&windows, &sequential, true, &Vec::new(), &moved);
    assert_eq!(open.pose_graph, None);
    assert!(open.loop_edges.is_empty());
    assert_eq!(open.optimized_window_poses, open.sequential_window_poses);
}

fn five_windows() -> Vec<WindowMeasuredChunk> {
    let settings = WindowSettings {
        chunk_size: 2,
        overlap: 1,
    };
    (0..5)
        .map(|index| chunk(fixture_window(index, 2, &settings), Vec::new()))
        .collect()
}

fn meeting() -> Vec<CameraPair> {
    vec![CameraPair {
        distance: 1.0_f32.to_bits(),
        cosine: 0.9_f32.to_bits(),
    }]
}

#[test]
fn loops_join_distant_windows_that_meet() {
    assert_eq!(loop_pairs(5, true), vec![(0, 3), (0, 4), (1, 4)]);
    assert!(loop_pairs(5, false).is_empty());
    assert!(loop_pairs(3, true).is_empty());
    let apart = vec![CameraPair {
        distance: 10.0_f32.to_bits(),
        cosine: 0.9_f32.to_bits(),
    }];
    let evidence = vec![
        LoopEvidence {
            cameras: apart,
            measurement: Some(identity()),
        },
        LoopEvidence {
            cameras: meeting(),
            measurement: None,
        },
        LoopEvidence {
            cameras: meeting(),
            measurement: Some(identity()),
        },
    ];
    let edges = find_loops(5, true, &evidence);
    assert_eq!(edges.len(), 1);
    assert_eq!((edges[0].from, edges[0].to), (1, 4));
    assert_eq!(f32::from_bits(edges[0].information), 5.0);
    assert!(edges[0].loop_closure);
    let moved = OptimizedPoses {
        nodes: vec![
            SimilarityTransform {
                scale: 2.0_f32.to_bits(),
                ..identity()
            };
            5
        ],
        report: PoseGraphReport {
            initial_cost: 0,
            final_cost: 0,
            iterations: 1,
            free_degrees_of_freedom: 28,
            loop_edges: 1,
        },
    };
    let sequential = vec![identity(); 5];
    let closed =
        cpp_pr2_closed_loop_oracle(&five_windows(), &sequential, true, &evidence, &moved);
    assert_eq!(closed.loop_edges, edges);
    assert_eq!(closed.pose_graph, Some(moved.report));
    assert_eq!(closed.optimized_window_poses[1].local_to_world, moved.nodes[1]);
    assert_eq!(closed.sequential_window_poses[1].local_to_world, identity());
}

#[test]
fn a_loop_needs_support_at_every_stage() {
    let pose = identity();
    assert_eq!(registered_loop(150, 150, 150, Some((pose, 150))), Some(pose));
    assert_eq!(registered_loop(149, 150, 150, Some((pose, 150))), None);
    assert_eq!(registered_loop(150, 149, 150, Some((pose, 150))), None);
    assert_eq!(registered_loop(150, 150, 149, Some((pose, 150))), None);
    assert_eq!(registered_loop(150, 150, 150, Some((pose, 149))), None);
    assert_eq!(registered_loop(150, 150, 150, None), None);
}

#[test]
fn windows_are_emitted_at_their_poses() {
    let windows = reference_windows();
    let places = emit_windows(&windows, EmissionRule::Global);
    let placements: Vec<Placement> = places
        .iter()
        .enumerate()
        .map(|(place, _)| Placement {
            position: [place as u32, 0, 0],
            normal: [0; 3],
            radius: 7,
        })
        .collect();
    let poses = vec![identity(); 2];
    let world =
        emit_windows_at_poses(&windows, &poses, EmissionRule::Global, &placements, &None);
    assert_eq!(world.points.len(), places.len());
    assert_eq!(world.points[1].position, [1, 0, 0]);
    assert_eq!(world.points[1].radius, 7);
    assert_eq!(world.voxel_size, 0);
    assert_eq!(world.window_poses[1].window_index, 1);
    let lone = vec![chunk(FIRST, vec![vec![point(0.0, 0.5), point(1.0, 0.5)]])];
    let placements: Vec<Placement> = [3.0_f32, 2.0]
        .iter()
        .map(|x| Placement {
            position: [x.to_bits(), 0, 0],
            normal: [0; 3],
            radius: 1.0_f32.to_bits(),
        })
        .collect();
    let evidence = Some(blind_evidence(Vec::new()));
    let still = vec![identity()];
    let world =
        emit_windows_at_poses(&lone, &still, EmissionRule::Global, &placements, &evidence);
    assert_eq!(world.points.len(), 2);
    assert_eq!(f32::from_bits(world.points[0].position[0]), 2.0);
    assert_eq!(f32::from_bits(world.points[1].position[0]), 3.0);
    assert_eq!(f32::from_bits(world.points[0].confidence), 1.0);
    assert_eq!(world.voxel_size, 11);
    let none = vec![chunk(FIRST, vec![Vec::new()])];
    let world =
        emit_windows_at_poses(&none, &still, EmissionRule::Global, &Vec::new(), &evidence);
    assert!(world.points.is_empty());
    assert_eq!(world.voxel_size, 0);
}

#[test]
fn a_relative_world_needs_the_capture_profile() {
    let mut windows = reference_windows();
    let still = OptimizedPoses {
        nodes: vec![identity(); 2],
        report: PoseGraphReport {
            initial_cost: 0,
            final_cost: 0,
            iterations: 0,
            free_degrees_of_freedom: 0,
            loop_edges: 0,
        },
    };
    let poses = vec![identity(); 2];
    let solution = cpp_pr2_closed_loop_oracle(&windows, &poses, true, &Vec::new(), &still);
    windows[0].cpp_pr2_emission_confidence_threshold = None;
    assert!(matches!(
        fuse_scene_bundle_cpp_pr2_relative(
            &windows,
            Vec::new(),
            solution.clone(),
            &Vec::new(),
            &None
        ),
        Err(ReconstructionError::MissingCppPr2CaptureProfile)
    ));
    for window in &mut windows {
        window.cpp_pr2_emission_confidence_threshold = Some(1.0_f32.to_bits());
    }
    let placements: Vec<Placement> = emit_windows(&windows, EmissionRule::Relative)
        .iter()
        .map(|_| Placement {
            position: [3; 3],
            normal: [0; 3],
            radius: 1,
        })
        .collect();
    let world = fuse_scene_bundle_cpp_pr2_relative(
        &windows,
        Vec::new(),
        solution.clone(),
        &placements,
        &None,
    )
    .unwrap();
    assert_eq!(world.points.len(), placements.len());
    assert_eq!(world.points.len(), 12);
    assert_eq!(world.points[0].position, [3; 3]);
    assert_eq!(world.window_poses, solution.optimized_window_poses);
    assert_eq!(world.pose_graph, None);
}

fn headings(count: usize) -> Vec<CameraHeading> {
    vec![
        CameraHeading {
            centre_local: [0; 3],
            forward_local: Some([0, 0, 1.0_f32.to_bits()]),
        };
        count
    ]
}

fn pose_frames(count: usize, registered: bool) -> Vec<PoseFrame> {
    (0..count)
        .map(|frame_index| PoseFrame {
            frame_index,
            image_name: String::new(),
            registered,
            world_to_camera: [0; 12],
        })
        .collect()
}

fn six_views(index: usize) -> WindowMeasuredChunk {
    let window = FrameWindow {
        index,
        start: 0,
        end: 6,
    };
    chunk(window, vec![Vec::new(); 6])
}

fn window_fit(cameras: usize, fit: Result<f32, StitchError>) -> WindowFit {
    WindowFit {
        headings: headings(cameras),
        fit: fit.map(|rms| CameraFit {
            transform: identity(),
            normalized_rms: rms.to_bits(),
        }),
    }
}

#[test]
fn the_first_window_without_a_global_pose_decides() {
    let settings = GlobalPoseFusionSettings::default();
    let windows = vec![six_views(0), six_views(1)];
    let frames = pose_frames(6, true);
    let good = || window_fit(6, Ok(0.01));
    let poses = global_window_poses(&windows, &frames, &vec![good(), good()], &settings).unwrap();
    assert_eq!(poses, vec![identity(); 2]);
    let mut few = good();
    few.headings[2].forward_local = None;
    assert_eq!(pair_window(&windows[1], &few.headings, &frames).len(), 5);
    assert!(matches!(
        global_window_poses(&windows, &frames, &vec![good(), few], &settings),
        Err(ReconstructionError::InsufficientGlobalCameraEvidence {
            window_index: 1,
            actual: 5,
            minimum: 6
        })
    ));
    let flat = window_fit(6, Err(StitchError::DegenerateGeometry));
    assert!(matches!(
        global_window_poses(&windows, &frames, &vec![flat, good()], &settings),
        Err(ReconstructionError::Stitch(StitchError::DegenerateGeometry))
    ));
    let poor = window_fit(6, Ok(f32::NAN));
    assert!(matches!(
        fit_window_to_global_pose(&six_views(4), &frames, &poor, &settings),
        Err(ReconstructionError::GlobalCameraFitQuality {
            window_index: 4,
            ..
        })
    ));
}

#[test]
fn unregistered_cameras_are_no_evidence() {
    let settings = GlobalPoseFusionSettings::default();
    let good = window_fit(6, Ok(0.01));
    let mut frames = pose_frames(6, false);
    assert_eq!(
        fit_window_to_global_pose(&six_views(3), &frames, &good, &settings),
        Err(ReconstructionError::MissingGlobalCameraEvidence { window_index: 3 })
    );
    frames[1].registered = true;
    assert!(matches!(
        fit_window_to_global_pose(&six_views(3), &frames, &good, &settings),
        Err(ReconstructionError::InsufficientGlobalCameraEvidence {
            window_index: 3,
            actual: 1,
            ..
        })
    ));
}

#[test]
fn world_points_are_surface_evidence() {
    let cloud = vec![vestra::world::FusedPoint {
        position: [1, 2, 3],
        normal: [0; 3],
        color_srgb: [4, 5, 6],
        confidence: 7,
        radius: 8,
        first_observing_frame: 9,
        contributors: 1,
    }];
    let evidence = surface_evidence(&cloud);
    assert_eq!(evidence[0].position, [1, 2, 3]);
    assert_eq!(evidence[0].frame_index, 9);
    assert_eq!(frame_owned_points(&cloud, 10)[9], 1);
}

fn evidence_of(points: usize) -> ViewEvidence {
    ViewEvidence {
        camera: camera(),
        points: vec![point(0.0, 1.0); points],
    }
}

#[test]
fn a_run_measures_only_what_no_checkpoint_covers() {
    let windows = WindowSettings {
        chunk_size: 2,
        overlap: 1,
    };
    let mut run = begin_reconstruction(4, windows, &Vec::new()).unwrap();
    assert_eq!(run.windows.len(), 3);
    let mut stored: Vec<StoredWindow> = Vec::new();
    while let RunStep::Infer(window) = advance_run(&mut run, &Vec::new()).unwrap() {
        let chunk =
            measured_window(window, vec![evidence_of(1), evidence_of(2)], Some(7)).unwrap();
        assert_eq!(chunk.views[1].frame_index, window.start + 1);
        assert_eq!(chunk.cpp_pr2_emission_confidence_threshold, Some(7));
        let hash = format!("hash-{}", window.index);
        record_window(&mut run, &chunk, hash.clone());
        stored.push(StoredWindow { hash, chunk });
    }
    assert_eq!(run.progress.len(), 3);
    assert!(run.progress.iter().all(|step| !step.reused && step.measured_points == 3));
    assert_eq!(run.progress[2].window.end, 4);

    let mut again = begin_reconstruction(4, windows, &stored).unwrap();
    assert_eq!(advance_run(&mut again, &stored).unwrap(), RunStep::Done);
    assert!(again.progress.iter().all(|step| step.reused));
    assert_eq!(again.progress[1].chunk_hash, "hash-1");

    stored.remove(1);
    let mut partial = begin_reconstruction(4, windows, &stored).unwrap();
    assert_eq!(
        advance_run(&mut partial, &stored).unwrap(),
        RunStep::Infer(run.windows[1])
    );
    assert_eq!(partial.progress.len(), 1);

    stored[1].chunk.views.pop();
    let mut broken = begin_reconstruction(4, windows, &stored).unwrap();
    advance_run(&mut broken, &stored).unwrap();
    record_window(
        &mut broken,
        &measured_window(run.windows[1], vec![evidence_of(0), evidence_of(0)], None).unwrap(),
        String::new(),
    );
    assert!(matches!(
        advance_run(&mut broken, &stored),
        Err(ReconstructionError::CheckpointConflict { window_index: 2 })
    ));
}

#[test]
fn a_run_needs_a_schedule_and_one_checkpoint_per_window() {
    let narrow = WindowSettings {
        chunk_size: 1,
        overlap: 0,
    };
    assert!(matches!(
        begin_reconstruction(4, narrow, &Vec::new()),
        Err(ReconstructionError::Schedule(_))
    ));
    let twice = StoredWindow {
        hash: "a".to_owned(),
        chunk: chunk(FIRST, Vec::new()),
    };
    assert!(matches!(
        begin_reconstruction(
            4,
            WindowSettings::default(),
            &vec![twice.clone(), twice]
        ),
        Err(ReconstructionError::CheckpointConflict { window_index: 0 })
    ));
    assert!(matches!(
        measured_window(
            FrameWindow {
                index: 0,
                start: 3,
                end: 5
            },
            vec![evidence_of(0)],
            None
        ),
        Err(ReconstructionError::ViewCount {
            expected: 2,
            actual: 1
        })
    ));
}
