use vestra::geometry::{
    backproject_measured_view, check_view, reposition_points, select_measured_pixels,
    select_placed_pixels, BackprojectionError, BackprojectionSettings, CameraCalibration,
    DepthPixel, MeasuredPoint, MeasuredView, PixelGeometry,
};

const IDENTITY: [f32; 12] = [1.0, 0.0, 0.0, 0.0, 0.0, 1.0, 0.0, 0.0, 0.0, 0.0, 1.0, 0.0];

fn bits(values: &[f32]) -> Vec<u32> {
    values.iter().map(|value| value.to_bits()).collect()
}

fn camera(world_to_camera: [f32; 12]) -> CameraCalibration {
    CameraCalibration {
        world_to_camera: world_to_camera.map(f32::to_bits),
        intrinsics: [2.0_f32, 0.0, 0.5, 0.0, 2.0, 0.5, 0.0, 0.0, 1.0].map(f32::to_bits),
    }
}

/// Points in front of an identity camera.
fn project(view: &MeasuredView, settings: &BackprojectionSettings) -> Vec<MeasuredPoint> {
    let k = view.camera.intrinsics.map(f32::from_bits);
    let geometry = select_measured_pixels(view, settings)
        .unwrap()
        .iter()
        .map(|pixel| {
            let depth = f32::from_bits(pixel.depth);
            let x = (pixel.x as f32 - k[2]) / k[0] * depth;
            let y = (pixel.y as f32 - k[5]) / k[4] * depth;
            let radius = depth / k[0].min(k[4]) * f32::from_bits(settings.surfel_radius_pixels);
            PixelGeometry {
                position: [x, y, depth].map(f32::to_bits),
                normal: [0, 0, (-1.0_f32).to_bits()],
                radius: radius.to_bits(),
            }
        })
        .collect();
    backproject_measured_view(view, settings, &geometry).unwrap()
}

#[test]
fn identity_camera_backprojects_colored_evidence() {
    let rgb = [10, 20, 30, 40, 50, 60, 70, 80, 90, 100, 110, 120];
    let depth = bits(&[2.0, 4.0, 1.0, 3.0]);
    let confidence = bits(&[1.0; 4]);
    let points = project(
        &MeasuredView {
            rgb_hwc_u8: &rgb,
            depth: &depth,
            confidence: &confidence,
            width: 2,
            height: 2,
            camera: camera(IDENTITY),
        },
        &BackprojectionSettings::default(),
    );
    assert_eq!(points.len(), 4);
    assert_eq!(points[0].position.map(f32::from_bits), [-0.5, -0.5, 2.0]);
    assert_eq!(points[3].position.map(f32::from_bits), [0.75, 0.75, 3.0]);
    assert_eq!(points[1].color_srgb, [40, 50, 60]);
    assert_eq!(f32::from_bits(points[0].radius), 1.0);
}

#[test]
fn invalid_or_low_confidence_pixels_are_not_measured_geometry() {
    let rgb = [0; 12];
    let depth = bits(&[1.0, f32::NAN, -1.0, 2.0]);
    let confidence = bits(&[0.5, 2.0, 2.0, 1.0]);
    let points = project(
        &MeasuredView {
            rgb_hwc_u8: &rgb,
            depth: &depth,
            confidence: &confidence,
            width: 2,
            height: 2,
            camera: camera(IDENTITY),
        },
        &BackprojectionSettings {
            minimum_confidence: 1.0_f32.to_bits(),
            ..BackprojectionSettings::default()
        },
    );
    assert_eq!(points.len(), 1);
    assert_eq!(points[0].source_pixel, [1, 1]);
}

#[test]
fn invalid_calibration_or_settings_are_rejected_before_emitting_points() {
    let rgb = [0, 0, 0];
    let depth = bits(&[1.0]);
    let confidence = bits(&[1.0]);
    let view = MeasuredView {
        rgb_hwc_u8: &rgb,
        depth: &depth,
        confidence: &confidence,
        width: 1,
        height: 1,
        camera: camera(IDENTITY),
    };
    assert_eq!(
        backproject_measured_view(
            &view,
            &BackprojectionSettings {
                surfel_radius_pixels: (-1.0_f32).to_bits(),
                ..BackprojectionSettings::default()
            },
            &Vec::new(),
        ),
        Err(BackprojectionError::InvalidSettings)
    );
}

#[test]
fn every_broken_view_has_its_reason() {
    let rgb = [0; 3];
    let depth = bits(&[1.0]);
    let confidence = bits(&[1.0]);
    let view = MeasuredView {
        rgb_hwc_u8: &rgb,
        depth: &depth,
        confidence: &confidence,
        width: 1,
        height: 1,
        camera: camera(IDENTITY),
    };
    let settings = BackprojectionSettings::default();
    assert_eq!(check_view(&view, &settings), Ok(()));
    let fault = |view: MeasuredView| check_view(&view, &settings).unwrap_err();
    assert_eq!(
        fault(MeasuredView { width: 0, ..view }),
        BackprojectionError::EmptyDimensions
    );
    assert_eq!(
        fault(MeasuredView {
            rgb_hwc_u8: &rgb[..2],
            ..view
        }),
        BackprojectionError::RgbLength
    );
    assert_eq!(
        fault(MeasuredView { depth: &[], ..view }),
        BackprojectionError::EvidenceLength
    );
    let mut blind = camera(IDENTITY);
    blind.intrinsics[0] = 0;
    assert_eq!(
        fault(MeasuredView {
            camera: blind,
            ..view
        }),
        BackprojectionError::InvalidFocalLength
    );
    let mut lost = camera(IDENTITY);
    lost.world_to_camera[3] = f32::NAN.to_bits();
    assert_eq!(
        fault(MeasuredView {
            camera: lost,
            ..view
        }),
        BackprojectionError::NonFiniteCalibration
    );
    let still = BackprojectionSettings {
        pixel_stride: 0,
        ..settings
    };
    assert_eq!(
        check_view(&view, &still),
        Err(BackprojectionError::ZeroPixelStride)
    );
}

#[test]
fn a_stride_skips_pixels_in_both_directions() {
    let rgb = [0; 27];
    let depth = bits(&[1.0; 9]);
    let confidence = bits(&[1.0; 9]);
    let view = MeasuredView {
        rgb_hwc_u8: &rgb,
        depth: &depth,
        confidence: &confidence,
        width: 3,
        height: 3,
        camera: camera(IDENTITY),
    };
    let settings = BackprojectionSettings {
        pixel_stride: 2,
        ..BackprojectionSettings::default()
    };
    let places: Vec<(usize, usize)> = select_measured_pixels(&view, &settings)
        .unwrap()
        .iter()
        .map(|pixel| (pixel.x, pixel.y))
        .collect();
    assert_eq!(places, vec![(0, 0), (2, 0), (0, 2), (2, 2)]);
}

#[test]
fn repositioned_points_keep_their_evidence() {
    let points = vec![MeasuredPoint {
        position: [1, 2, 3],
        normal: [4, 5, 6],
        color_srgb: [7, 8, 9],
        confidence: 10,
        radius: 11,
        source_pixel: [12, 13],
    }];
    let moved = reposition_points(&points, &Some(vec![[20, 21, 22]])).unwrap();
    assert_eq!(moved[0].position, [20, 21, 22]);
    assert_eq!(moved[0].source_pixel, [12, 13]);
    assert_eq!(
        reposition_points(&points, &None),
        Err(BackprojectionError::NonInvertibleCalibration)
    );
}

#[test]
fn placed_pixels_have_depth_and_confidence() {
    let depth = bits(&[1.0, 0.0, 3.0, f32::NAN, 5.0, 6.0]);
    let confidence = bits(&[0.5, 0.9, 0.4, 0.9, f32::INFINITY, 0.5]);
    let view = MeasuredView {
        rgb_hwc_u8: &[0; 18],
        depth: &depth,
        confidence: &confidence,
        width: 3,
        height: 2,
        camera: camera(IDENTITY),
    };
    let pixel = |x: usize, y: usize| DepthPixel {
        x,
        y,
        depth: depth[y * 3 + x],
    };
    assert_eq!(
        select_placed_pixels(&view, 0.5_f32.to_bits()),
        vec![pixel(0, 0), pixel(1, 1), pixel(2, 1)]
    );
    assert!(select_placed_pixels(&view, f32::NAN.to_bits()).is_empty());
}
