use vestra::cells::{group_cells, Cell};
use vestra::geometry::{CameraCalibration, MeasuredFrameChunk, MeasuredPoint};
use vestra::pose_graph::{
    descent_report, plan_pose_graph, Descent, PoseGraphEdge, PoseGraphReport, RelativePoseGraph,
};
use vestra::stitch::{
    align_overlapping_windows, begin_chain, begin_seam_fit, chain_graph, check_seam,
    enough_matches, extend_chain, fit_similarity, fusible_points, graph_edges, match_pixels,
    median_radius, needs_optimization, normal_is_usable, order_world, place_windows,
    refine_point_to_plane, stitched_world, trim_inliers, trim_seam, upper_median, voxel_world,
    CellAverage, Correction, FitEvidence, PixelMatch, StitchError, StitchSettings, VoxelGrid,
};
use vestra::world::{identity_transform, AlignmentReport, FusedPoint, FusedSceneChunk, SimilarityTransform};

fn identity() -> SimilarityTransform {
    SimilarityTransform {
        scale: 1.0_f32.to_bits(),
        rotation: [1.0_f32, 0.0, 0.0, 0.0, 1.0, 0.0, 0.0, 0.0, 1.0].map(f32::to_bits),
        translation: [0; 3],
    }
}

fn views(points: Vec<MeasuredPoint>) -> Vec<MeasuredFrameChunk> {
    vec![MeasuredFrameChunk {
        frame_index: 7,
        camera: CameraCalibration {
            world_to_camera: [1.0_f32, 0.0, 0.0, 0.0, 0.0, 1.0, 0.0, 0.0, 0.0, 0.0, 1.0, 0.0]
                .map(f32::to_bits),
            intrinsics: [1.0_f32, 0.0, 0.0, 0.0, 1.0, 0.0, 0.0, 0.0, 1.0].map(f32::to_bits),
        },
        points,
    }]
}

fn p(i: u32, position: [f32; 3]) -> MeasuredPoint {
    MeasuredPoint {
        position: position.map(f32::to_bits),
        normal: [0.0_f32, 0.0, 1.0].map(f32::to_bits),
        color_srgb: [0; 3],
        confidence: 1.0_f32.to_bits(),
        radius: 1.0_f32.to_bits(),
        source_pixel: [i, 0],
    }
}

fn tetrahedron() -> Vec<MeasuredPoint> {
    vec![
        p(0, [0.0, 0.0, 0.0]),
        p(1, [1.0, 0.0, 0.0]),
        p(2, [0.0, 1.0, 0.0]),
        p(3, [0.0, 0.0, 1.0]),
    ]
}

#[test]
fn production_fusion_rejects_a_tiny_overlap() {
    let target = views(tetrahedron());
    let source = target.clone();
    let matches = match_pixels(&source, &target);
    assert_eq!(enough_matches(matches.len()), Ok(()));
    let report = AlignmentReport {
        transform: identity(),
        correspondence_count: matches.len(),
        inlier_count: matches.len(),
        rms_residual: 0,
        normalized_rms_residual: 0,
    };
    assert_eq!(
        check_seam(&report, &StitchSettings::default()),
        Err(StitchError::QualityGate)
    );
}

#[test]
fn seams_need_enough_inliers_and_a_sane_scale() {
    let settings = StitchSettings::default();
    let good = AlignmentReport {
        transform: identity(),
        correspondence_count: 10_000,
        inlier_count: 9_900,
        rms_residual: 0,
        normalized_rms_residual: 0,
    };
    assert_eq!(check_seam(&good, &settings), Ok(()));
    let sparse = AlignmentReport {
        inlier_count: 100,
        ..good
    };
    assert_eq!(check_seam(&sparse, &settings), Err(StitchError::QualityGate));
    let huge = AlignmentReport {
        transform: SimilarityTransform {
            scale: 1.0e6_f32.to_bits(),
            ..identity()
        },
        ..good
    };
    assert_eq!(check_seam(&huge, &settings), Err(StitchError::QualityGate));
    assert_eq!(
        enough_matches(2),
        Err(StitchError::InsufficientCorrespondences)
    );
}

#[test]
fn matches_share_frame_and_pixel() {
    let mut shifted = tetrahedron();
    shifted.remove(0);
    let matches = match_pixels(&views(shifted), &views(tetrahedron()));
    assert_eq!(
        matches,
        vec![
            PixelMatch {
                source_view: 0,
                source_point: 0,
                target_view: 0,
                target_point: 1,
            },
            PixelMatch {
                source_view: 0,
                source_point: 1,
                target_view: 0,
                target_point: 2,
            },
            PixelMatch {
                source_view: 0,
                source_point: 2,
                target_view: 0,
                target_point: 3,
            },
        ]
    );
    let mut other = views(tetrahedron());
    other[0].frame_index = 8;
    assert!(match_pixels(&other, &views(tetrahedron())).is_empty());
}

#[test]
fn trimming_keeps_close_pairs_only() {
    let residuals: Vec<u32> = [0.1_f32, 5.0, 0.2, 0.3].map(f32::to_bits).to_vec();
    let kept = trim_inliers(&vec![1, 3, 5, 7], &residuals, 1.0_f32.to_bits());
    assert_eq!(kept, Some(vec![1, 5, 7]));
    assert_eq!(
        trim_inliers(&vec![1, 3, 5, 7], &residuals, 0.15_f32.to_bits()),
        None
    );
    assert_eq!(upper_median(&residuals), 0.3_f32.to_bits());
}

#[test]
fn sequential_edges_come_before_loops() {
    let closure = PoseGraphEdge {
        from: 0,
        to: 2,
        measurement: identity(),
        information: 5.0_f32.to_bits(),
        loop_closure: true,
    };
    let edges = graph_edges(&vec![identity(), identity()], &vec![closure]);
    let ends: Vec<(usize, usize, bool)> = edges
        .iter()
        .map(|edge| (edge.from, edge.to, edge.loop_closure))
        .collect();
    assert_eq!(ends, vec![(0, 1, false), (1, 2, false), (0, 2, true)]);
    assert!(needs_optimization(&vec![closure]));
    assert!(!needs_optimization(&Vec::new()));
}

#[test]
fn only_finite_points_are_fused() {
    let mut points = tetrahedron();
    points[1].position[0] = f32::NAN.to_bits();
    assert_eq!(fusible_points(&points), vec![0, 2, 3]);
    points[2].radius = 3.0_f32.to_bits();
    assert_eq!(median_radius(&points), Some(1.0_f32.to_bits()));
    assert_eq!(median_radius(&Vec::new()), None);
}

#[test]
fn a_world_has_one_order() {
    let point = |x: f32, y: f32| FusedPoint {
        position: [x, y, 0.0].map(f32::to_bits),
        normal: [0; 3],
        color_srgb: [0; 3],
        confidence: 0,
        radius: 0,
        first_observing_frame: -1,
        contributors: 1,
    };
    let a = order_world(&vec![point(2.0, 0.0), point(-1.0, 5.0), point(-1.0, 4.0)]);
    let b = order_world(&vec![point(-1.0, 4.0), point(2.0, 0.0), point(-1.0, 5.0)]);
    assert_eq!(a, b);
    assert_eq!(a[0], point(-1.0, 4.0));
    assert_eq!(a[2], point(2.0, 0.0));
}

#[test]
fn every_voxel_counts_its_members() {
    let cell = |x: i32| Cell { x, y: 0, z: 0 };
    let groups = group_cells(&vec![cell(4), cell(1), cell(4)]);
    let averages: Vec<CellAverage> = groups
        .iter()
        .map(|group| CellAverage {
            position: [group.cell.x as f32, 0.0, 0.0].map(f32::to_bits),
            normal: [0; 3],
            color_srgb: [1, 2, 3],
            confidence: 0,
            radius: 0,
        })
        .collect();
    let world = voxel_world(&groups, &averages);
    let counts: Vec<(f32, u32)> = world
        .iter()
        .map(|point| (f32::from_bits(point.position[0]), point.contributors))
        .collect();
    assert_eq!(counts, vec![(1.0, 1), (4.0, 2)]);
}

#[test]
fn a_seam_trims_for_three_rounds_at_most() {
    assert_eq!(
        begin_seam_fit(2),
        Err(StitchError::InsufficientCorrespondences)
    );
    let mut fit = begin_seam_fit(8).unwrap();
    assert_eq!(fit.inliers, (0..8).collect::<Vec<_>>());
    for round in 1..=3 {
        assert!(fit.trimming);
        let mut residuals = vec![1.0_f32.to_bits(); fit.inliers.len()];
        residuals[0] = 9.0_f32.to_bits();
        trim_seam(&mut fit, &residuals, 3.0_f32.to_bits());
        assert_eq!(fit.rounds, round);
    }
    assert!(!fit.trimming);
    assert_eq!(fit.inliers, vec![3, 4, 5, 6, 7]);
    let report = align_overlapping_windows(8, &fit, identity(), 1, 2);
    assert_eq!(report.correspondence_count, 8);
    assert_eq!(report.inlier_count, 5);
    assert_eq!(report.rms_residual, 1);
    assert_eq!(report.normalized_rms_residual, 2);
}

#[test]
fn a_round_without_outliers_ends_the_trimming() {
    let mut fit = begin_seam_fit(4).unwrap();
    trim_seam(&mut fit, &vec![0; 4], 1.0_f32.to_bits());
    assert!(!fit.trimming);
    assert_eq!(fit.inliers.len(), 4);
    let mut few = begin_seam_fit(4).unwrap();
    let far = 9.0_f32.to_bits();
    trim_seam(&mut few, &vec![0, far, far, 0], 1.0_f32.to_bits());
    assert!(!few.trimming);
    assert_eq!(few.inliers, vec![0, 1, 2, 3]);
}

fn determined() -> FitEvidence {
    FitEvidence {
        weight: 4.0_f64.to_bits(),
        energy: 1.0_f64.to_bits(),
        invariant: 1.0_f64.to_bits(),
        invariant_floor: 1e-10_f64.to_bits(),
        quaternion: 1.0_f64.to_bits(),
        scale: 2.0_f64.to_bits(),
    }
}

#[test]
fn rejects_evidence_that_determines_no_similarity() {
    let degenerate = Err(StitchError::DegenerateGeometry);
    assert_eq!(fit_similarity(&determined(), identity()), Ok(identity()));
    for broken in [
        FitEvidence {
            weight: 0.0_f64.to_bits(),
            ..determined()
        },
        FitEvidence {
            energy: 1e-14_f64.to_bits(),
            ..determined()
        },
        FitEvidence {
            invariant: 1e-10_f64.to_bits(),
            ..determined()
        },
        FitEvidence {
            invariant: f64::NAN.to_bits(),
            ..determined()
        },
        FitEvidence {
            quaternion: 1e-20_f64.to_bits(),
            ..determined()
        },
        FitEvidence {
            scale: (-1.0_f64).to_bits(),
            ..determined()
        },
    ] {
        assert_eq!(fit_similarity(&broken, identity()), degenerate);
    }
}

#[test]
fn only_local_corrections_are_applied() {
    let corrected = SimilarityTransform {
        translation: [1.0_f32.to_bits(), 0, 0],
        ..identity()
    };
    let small = Correction {
        angle: 0.05_f32.to_bits(),
        translation: [1.0_f32.to_bits(), 0, 0],
        corrected,
    };
    assert_eq!(refine_point_to_plane(identity(), 6, &Some(small)), corrected);
    assert_eq!(refine_point_to_plane(identity(), 5, &Some(small)), identity());
    assert_eq!(refine_point_to_plane(identity(), 6, &None), identity());
    let wide = Correction {
        angle: 0.2_f32.to_bits(),
        ..small
    };
    assert_eq!(refine_point_to_plane(identity(), 6, &Some(wide)), identity());
    let lost = Correction {
        translation: [f32::NAN.to_bits(), 0, 0],
        ..small
    };
    assert_eq!(refine_point_to_plane(identity(), 6, &Some(lost)), identity());
    assert!(normal_is_usable(1.0_f64.to_bits()));
    assert!(!normal_is_usable(0.4_f64.to_bits()));
    assert!(!normal_is_usable(f64::NAN.to_bits()));
}

fn seam(scale: f32) -> AlignmentReport {
    AlignmentReport {
        transform: SimilarityTransform {
            scale: scale.to_bits(),
            ..identity()
        },
        correspondence_count: 100,
        inlier_count: 90,
        rms_residual: 0,
        normalized_rms_residual: 0,
    }
}

#[test]
fn no_loops_keep_the_chain() {
    assert_eq!(identity_transform(), identity());
    let settings = StitchSettings::default();
    let mut chain = begin_chain();
    assert_eq!(extend_chain(&mut chain, &seam(2.0), identity(), &settings), Ok(()));
    assert_eq!(
        extend_chain(&mut chain, &seam(20.0), identity(), &settings),
        Err(StitchError::QualityGate)
    );
    assert_eq!(chain.poses, vec![identity(), seam(2.0).transform]);
    assert_eq!(chain_graph(&chain, &Vec::new()), None);
    let moved = vec![seam(3.0).transform; 2];
    assert_eq!(
        place_windows(&chain, &Vec::new(), moved.clone()),
        vec![identity(), seam(2.0).transform]
    );
    let closing = vec![PoseGraphEdge {
        from: 0,
        to: 1,
        measurement: identity(),
        information: 5.0_f32.to_bits(),
        loop_closure: true,
    }];
    let graph = chain_graph(&chain, &closing).unwrap();
    assert_eq!(graph.nodes, chain.poses);
    assert_eq!(graph.edges.len(), 2);
    assert_eq!(graph.edges[1], closing[0]);
    assert!(graph.fixed.is_empty());
    assert_eq!(place_windows(&chain, &closing, moved.clone()), moved);
}

#[test]
fn windows_without_radii_give_an_empty_world() {
    let settings = StitchSettings::default();
    let mut chain = begin_chain();
    extend_chain(&mut chain, &seam(1.0), identity(), &settings).unwrap();
    let unused = VoxelGrid {
        edge: 0,
        cells: Vec::new(),
        averages: Vec::new(),
    };
    let flat = MeasuredPoint {
        radius: 0,
        ..p(0, [0.0; 3])
    };
    let empty = stitched_world(2, chain.clone(), &Vec::new(), &vec![flat], &unused);
    assert_eq!(empty.alignments, vec![seam(1.0)]);
    assert_eq!(empty.loop_edges, None);
    assert_eq!(empty.voxel_size, 0);
    assert!(empty.points.is_empty());
    let grid = VoxelGrid {
        edge: 2.0_f32.to_bits(),
        cells: vec![Cell { x: 0, y: 0, z: 0 }; 4],
        averages: vec![CellAverage {
            position: [1; 3],
            normal: [0; 3],
            color_srgb: [1, 2, 3],
            confidence: 1,
            radius: 1,
        }],
    };
    let world = stitched_world(2, chain, &vec![closing(1, 0.0)], &tetrahedron(), &grid);
    assert_eq!(world.loop_edges, Some(1));
    assert_eq!(world.voxel_size, 2.0_f32.to_bits());
    assert_eq!(world.points.len(), 1);
    assert_eq!(world.points[0].contributors, 4);
}

fn closing(to: usize, x: f32) -> PoseGraphEdge {
    PoseGraphEdge {
        from: 0,
        to,
        measurement: shift(x),
        information: 1.0_f32.to_bits(),
        loop_closure: true,
    }
}

fn shift(x: f32) -> SimilarityTransform {
    SimilarityTransform {
        translation: [x.to_bits(), 0, 0],
        ..identity()
    }
}

fn along(transform: &SimilarityTransform) -> f32 {
    f32::from_bits(transform.translation[0])
}

fn moved(points: &[MeasuredPoint], x: f32) -> Vec<MeasuredPoint> {
    let mut moved = points.to_vec();
    for point in &mut moved {
        point.position[0] = (f32::from_bits(point.position[0]) + x).to_bits();
    }
    moved
}

/// What a fit of equally weighted pairs of one shape measures.
fn evidence_of(source: &[[f64; 3]]) -> FitEvidence {
    let count = source.len() as f64;
    let mean: [f64; 3] =
        std::array::from_fn(|axis| source.iter().map(|point| point[axis]).sum::<f64>() / count);
    let mut spread = [[0.0; 3]; 3];
    for point in source {
        for row in 0..3 {
            for column in 0..3 {
                spread[row][column] += (point[row] - mean[row]) * (point[column] - mean[column]);
            }
        }
    }
    let trace = spread[0][0] + spread[1][1] + spread[2][2];
    let minor = |a: usize, b: usize| spread[a][a] * spread[b][b] - spread[a][b] * spread[b][a];
    FitEvidence {
        weight: count.to_bits(),
        energy: trace.to_bits(),
        invariant: (minor(0, 1) + minor(0, 2) + minor(1, 2)).to_bits(),
        invariant_floor: (trace * trace * 1e-10).to_bits(),
        quaternion: 1.0_f64.to_bits(),
        scale: 1.0_f64.to_bits(),
    }
}

/// Aligns windows that differ by a shift along the first axis.
fn align(
    source: &[MeasuredPoint],
    target: &[MeasuredPoint],
) -> Result<AlignmentReport, StitchError> {
    let (source, target) = (views(source.to_vec()), views(target.to_vec()));
    let matches = match_pixels(&source, &target);
    let mut fit = begin_seam_fit(matches.len())?;
    let point = |views: &[MeasuredFrameChunk], view: usize, point: usize| {
        views[view].points[point].position.map(f32::from_bits)
    };
    let pairs: Vec<([f32; 3], [f32; 3])> = matches
        .iter()
        .map(|pair| {
            (
                point(&source, pair.source_view, pair.source_point),
                point(&target, pair.target_view, pair.target_point),
            )
        })
        .collect();
    let places: Vec<[f64; 3]> = pairs.iter().map(|pair| pair.0.map(f64::from)).collect();
    let by = pairs.iter().map(|(from, to)| to[0] - from[0]).sum::<f32>() / pairs.len() as f32;
    let fitted = fit_similarity(&evidence_of(&places), shift(by))?;
    while fit.trimming {
        let residuals = vec![0; fit.inliers.len()];
        trim_seam(&mut fit, &residuals, 1e-5_f32.to_bits());
    }
    Ok(align_overlapping_windows(matches.len(), &fit, fitted, 0, 0))
}

fn world_of(
    windows: &[Vec<MeasuredPoint>],
    loops: &Vec<PoseGraphEdge>,
) -> (FusedSceneChunk, Option<PoseGraphReport>) {
    let settings = StitchSettings {
        minimum_correspondences: 3,
        minimum_inlier_ratio: 0.5_f32.to_bits(),
        ..StitchSettings::default()
    };
    let mut chain = begin_chain();
    let mut previous = windows[0].clone();
    for window in &windows[1..] {
        let report = align(window, &previous).unwrap();
        let relative = shift(along(&report.transform) - along(chain.poses.last().unwrap()));
        extend_chain(&mut chain, &report, relative, &settings).unwrap();
        previous = moved(window, along(&report.transform));
    }
    let graph = chain_graph(&chain, loops);
    let report = graph.as_ref().map(settled);
    let optimized = graph.map_or(Vec::new(), |graph| graph.nodes);
    let poses = place_windows(&chain, loops, optimized);
    let points: Vec<MeasuredPoint> = windows
        .iter()
        .zip(&poses)
        .flat_map(|(window, pose)| moved(window, along(pose)))
        .collect();
    let edge = f32::from_bits(median_radius(&points).unwrap()) * 2.0;
    let cells: Vec<Cell> = fusible_points(&points)
        .iter()
        .map(|&place| {
            let [x, y, z] = points[place]
                .position
                .map(|value| (f32::from_bits(value) / edge).round() as i32);
            Cell { x, y, z }
        })
        .collect();
    let averages = group_cells(&cells)
        .iter()
        .map(|group| CellAverage {
            position: points[group.members[0]].position,
            normal: [0; 3],
            color_srgb: [0; 3],
            confidence: 1.0_f32.to_bits(),
            radius: 1.0_f32.to_bits(),
        })
        .collect();
    let grid = VoxelGrid {
        edge: edge.to_bits(),
        cells,
        averages,
    };
    (stitched_world(windows.len(), chain, loops, &points, &grid), report)
}

/// The report of a graph whose edges already agree with its nodes.
fn settled(graph: &RelativePoseGraph) -> PoseGraphReport {
    let cost: f64 = graph
        .edges
        .iter()
        .map(|edge| {
            let measured = along(&graph.nodes[edge.to]) - along(&graph.nodes[edge.from]);
            f64::from(measured - along(&edge.measurement)).powi(2)
        })
        .sum();
    let state = Descent {
        round: 0,
        attempt: 0,
        iterations: 0,
        cost: cost.to_bits(),
    };
    descent_report(cost.to_bits(), &state, &plan_pose_graph(graph).unwrap())
}

#[test]
fn rejects_collinear_overlap_that_cannot_determine_rotation() {
    let source = vec![
        p(0, [0.0, 0.0, 0.0]),
        p(1, [1.0, 0.0, 0.0]),
        p(2, [2.0, 0.0, 0.0]),
    ];
    let target = vec![
        p(0, [3.0, 2.0, 1.0]),
        p(1, [5.0, 2.0, 1.0]),
        p(2, [7.0, 2.0, 1.0]),
    ];
    assert_eq!(align(&source, &target), Err(StitchError::DegenerateGeometry));
    assert_eq!(
        align(&source[..2], &target),
        Err(StitchError::InsufficientCorrespondences)
    );
}

#[test]
fn sequential_stitching_defers_transforming_immutable_raw_windows() {
    let base = tetrahedron();
    let raw = vec![base.clone(), moved(&base, -5.0), moved(&base, -10.0)];
    let (fused, report) = world_of(&raw, &Vec::new());
    assert_eq!(raw[2][0].position.map(f32::from_bits), [-10.0, 0.0, 0.0]);
    assert_eq!(fused.alignments.len(), 2);
    assert_eq!((fused.loop_edges, report), (None, None));
    assert!(fused.points.iter().all(|point| point.contributors == 3));
    let counted: u32 = fused.points.iter().map(|point| point.contributors).sum();
    assert_eq!(counted, 12);
}

#[test]
fn verified_loop_constraints_are_optimized_before_deferred_fusion() {
    let base = tetrahedron();
    let raw = vec![base.clone(), moved(&base, -5.0), moved(&base, -10.0)];
    let (fused, report) = world_of(&raw, &vec![closing(2, 10.0)]);
    let report = report.expect("loop graph should run");
    assert_eq!(report.loop_edges, 1);
    assert_eq!(fused.loop_edges, Some(1));
    assert!(f64::from_bits(report.final_cost) < 1e-9);
    assert!(fused.points.iter().all(|point| point.contributors == 3));
}
