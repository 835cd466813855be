use vestra::geometry::{CameraCalibration, MeasuredFrameChunk, WindowMeasuredChunk};
use vestra::revisit::{
    propose_revisits, revisit_pairs, window_camera_path, CameraCentreDirection, CameraHeading,
    CameraPair, RevisitProposalSettings, WindowCameraPath, WindowPair,
};
use vestra::schedule::FrameWindow;

fn camera(centre_x: f32) -> CameraCentreDirection {
    CameraCentreDirection {
        frame_index: 0,
        centre_local: [centre_x, 0.0, 0.0].map(f32::to_bits),
        forward_local: [0.0_f32, 0.0, 1.0].map(f32::to_bits),
    }
}

/// All camera pairs of two paths that share one frame of reference.
fn pairs(paths: &[WindowCameraPath], gap: usize) -> Vec<WindowPair> {
    revisit_pairs(paths.len(), gap)
        .into_iter()
        .map(|(earlier, later)| {
            let mut cameras = Vec::new();
            for a in &paths[earlier].cameras {
                for b in &paths[later].cameras {
                    let squared: f32 = (0..3)
                        .map(|i| {
                            f32::from_bits(a.centre_local[i]) - f32::from_bits(b.centre_local[i])
                        })
                        .map(|difference| difference * difference)
                        .sum();
                    let cosine: f32 = (0..3)
                        .map(|i| {
                            f32::from_bits(a.forward_local[i]) * f32::from_bits(b.forward_local[i])
                        })
                        .sum();
                    cameras.push(CameraPair {
                        distance: squared.sqrt().to_bits(),
                        cosine: cosine.to_bits(),
                    });
                }
            }
            WindowPair {
                earlier,
                later,
                cameras,
            }
        })
        .collect()
}

#[test]
fn only_non_adjacent_proximate_aligned_views_are_proposed() {
    let path = |window_index, x| WindowCameraPath {
        window_index,
        cameras: vec![camera(x)],
    };
    let paths = vec![path(0, 0.0), path(1, 1.0), path(2, 0.1)];
    let proposals = propose_revisits(
        paths.len(),
        3,
        &pairs(&paths, 2),
        &RevisitProposalSettings {
            minimum_window_gap: 2,
            maximum_centre_distance: 0.2_f32.to_bits(),
            minimum_forward_cosine: 0.9_f32.to_bits(),
        },
    );
    assert_eq!(proposals.len(), 1);
    assert_eq!((proposals[0].earlier, proposals[0].later), (0, 2));
}

#[test]
fn opposite_camera_directions_are_not_proposed() {
    let paths = vec![
        WindowCameraPath {
            window_index: 0,
            cameras: vec![camera(0.0)],
        },
        WindowCameraPath {
            window_index: 2,
            cameras: vec![CameraCentreDirection {
                forward_local: [0.0_f32, 0.0, -1.0].map(f32::to_bits),
                ..camera(0.0)
            }],
        },
    ];
    assert!(propose_revisits(
        paths.len(),
        2,
        &pairs(&paths, 1),
        &RevisitProposalSettings {
            minimum_window_gap: 1,
            maximum_centre_distance: 0.1_f32.to_bits(),
            minimum_forward_cosine: 0.9_f32.to_bits(),
        },
    )
    .is_empty());
}

#[test]
fn window_path_retains_only_valid_camera_evidence() {
    let valid = MeasuredFrameChunk {
        frame_index: 7,
        camera: CameraCalibration {
            world_to_camera: [1.0_f32, 0.0, 0.0, 0.0, 0.0, 1.0, 0.0, 0.0, 0.0, 0.0, 1.0, 0.0]
                .map(f32::to_bits),
            intrinsics: [1.0_f32, 0.0, 0.0, 0.0, 1.0, 0.0, 0.0, 0.0, 1.0].map(f32::to_bits),
        },
        points: Vec::new(),
    };
    let mut invalid = valid.clone();
    invalid.frame_index = 8;
    invalid.camera.world_to_camera[0] = f32::NAN.to_bits();
    let window = WindowMeasuredChunk {
        window: FrameWindow {
            index: 3,
            start: 0,
            end: 2,
        },
        views: vec![valid, invalid],
        cpp_pr2_emission_confidence_threshold: None,
    };
    let headings: Vec<CameraHeading> = window
        .views
        .iter()
        .map(|view| {
            let m = view.camera.world_to_camera.map(f32::from_bits);
            let centre = [0, 1, 2]
                .map(|axis| -(m[axis] * m[3] + m[4 + axis] * m[7] + m[8 + axis] * m[11]));
            CameraHeading {
                centre_local: centre.map(f32::to_bits),
                forward_local: Some([m[8], m[9], m[10]].map(f32::to_bits)),
            }
        })
        .collect();
    let path = window_camera_path(&window, &headings);
    assert_eq!(path.window_index, 3);
    assert_eq!(path.cameras.len(), 1);
    assert_eq!(path.cameras[0].frame_index, 7);
}

#[test]
fn pairs_keep_their_gap() {
    assert_eq!(revisit_pairs(4, 3), vec![(0, 3)]);
    assert_eq!(revisit_pairs(4, 2), vec![(0, 2), (0, 3), (1, 3)]);
    assert!(revisit_pairs(0, 1).is_empty());
}

#[test]
fn neighbouring_windows_are_never_proposed_under_a_gap() {
    let path = |window_index| WindowCameraPath {
        window_index,
        cameras: vec![camera(0.0)],
    };
    let paths: Vec<WindowCameraPath> = (0..7).map(path).collect();
    let settings = RevisitProposalSettings {
        minimum_window_gap: 5,
        maximum_centre_distance: 0.2_f32.to_bits(),
        minimum_forward_cosine: 0.9_f32.to_bits(),
    };
    let proposals = propose_revisits(paths.len(), 7, &pairs(&paths, 5), &settings);
    let windows: Vec<(usize, usize)> = proposals.iter().map(|p| (p.earlier, p.later)).collect();
    assert_eq!(windows, vec![(0, 5), (0, 6), (1, 6)]);
    assert!(propose_revisits(paths.len(), 6, &Vec::new(), &settings).is_empty());
}
