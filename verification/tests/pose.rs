use vestra::pose::{
    colmap_pose_lines, finalized_raster_manifest, parse_colmap_images_txt, validate_pose_solution,
    ColmapNumbers, ColmapProblem, PoseDiagnostics, PoseError, PoseFrame, PoseProvider,
    PoseSolution, RasterCrop, RasterFrame, RasterManifest, RasterProblem, RigidDeviations,
    SolutionProblem,
};

const IDENTITY: [f64; 12] = [1.0, 0.0, 0.0, 0.0, 0.0, 1.0, 0.0, 0.0, 0.0, 0.0, 1.0, 0.0];

fn raster() -> RasterManifest {
    finalized_raster_manifest(
        RasterManifest {
            schema: String::new(),
            source_sha256: "source".to_owned(),
            duration_seconds: 2.0_f64.to_bits(),
            source_width: 1920,
            source_height: 1080,
            crop: RasterCrop {
                x: 150,
                y: 0,
                width: 1620,
                height: 1080,
            },
            output_width: 504,
            output_height: 336,
            frames: vec![
                RasterFrame {
                    frame_index: 0,
                    file_name: "frame-000001.ppm".to_owned(),
                    sha256: "a".to_owned(),
                    timestamp_millis: 0,
                },
                RasterFrame {
                    frame_index: 1,
                    file_name: "frame-000002.ppm".to_owned(),
                    sha256: "b".to_owned(),
                    timestamp_millis: 125,
                },
            ],
            raster_fingerprint: String::new(),
        },
        "2.0",
    )
}

fn provider() -> PoseProvider {
    PoseProvider {
        kind: "colmap".to_owned(),
        version: "4.1.1".to_owned(),
        settings_fingerprint: "settings".to_owned(),
    }
}

fn deviations(m: [f64; 12]) -> RigidDeviations {
    let row = |r: usize| [m[r * 4], m[r * 4 + 1], m[r * 4 + 2]];
    let dot = |a: [f64; 3], b: [f64; 3]| a[0] * b[0] + a[1] * b[1] + a[2] * b[2];
    let determinant = m[0] * (m[5] * m[10] - m[6] * m[9]) - m[1] * (m[4] * m[10] - m[6] * m[8])
        + m[2] * (m[4] * m[9] - m[5] * m[8]);
    RigidDeviations {
        norms: [0, 1, 2].map(|r| (dot(row(r), row(r)) - 1.0).abs().to_bits()),
        products: [
            dot(row(0), row(1)).abs().to_bits(),
            dot(row(0), row(2)).abs().to_bits(),
            dot(row(1), row(2)).abs().to_bits(),
        ],
        determinant: (determinant - 1.0).abs().to_bits(),
    }
}

fn numbers_of(images: &str) -> Vec<ColmapNumbers> {
    colmap_pose_lines(images)
        .iter()
        .map(|line| {
            let mut values = [None; 7];
            for i in 0..7 {
                values[i] = line
                    .fields
                    .get(i + 1)
                    .and_then(|field| String::from_utf8(field.clone()).ok())
                    .and_then(|text| text.parse::<f64>().ok())
                    .map(f64::to_bits);
            }
            let v = values.map(|value| f64::from_bits(value.unwrap_or(0)));
            let norm = (v[0] * v[0] + v[1] * v[1] + v[2] * v[2] + v[3] * v[3]).sqrt();
            let [w, x, y, z] = [v[0] / norm, v[1] / norm, v[2] / norm, v[3] / norm];
            let matrix = [
                1.0 - 2.0 * (y * y + z * z),
                2.0 * (x * y - z * w),
                2.0 * (x * z + y * w),
                v[4],
                2.0 * (x * y + z * w),
                1.0 - 2.0 * (x * x + z * z),
                2.0 * (y * z - x * w),
                v[5],
                2.0 * (x * z - y * w),
                2.0 * (y * z + x * w),
                1.0 - 2.0 * (x * x + y * y),
                v[6],
            ];
            ColmapNumbers {
                values,
                matrix: (norm > 0.0).then_some(matrix.map(f64::to_bits)),
                deviations: deviations(matrix),
            }
        })
        .collect()
}

fn parse(images: &str) -> Result<PoseSolution, PoseError> {
    parse_colmap_images_txt(images, &numbers_of(images), &raster(), "2.0", provider())
}

#[test]
fn parses_colmap_w2c_quaternion_against_exact_raster_names() {
    let solution = parse(
        "1 1 0 0 0 1 2 3 1 frame-000001.ppm\n\n2 0 0 0 1 4 5 6 1 frame-000002.ppm\n\n",
    )
    .unwrap();
    assert_eq!(solution.frames.len(), 2);
    assert_eq!(
        solution.frames[0].world_to_camera.map(f64::from_bits),
        [1.0, 0.0, 0.0, 1.0, 0.0, 1.0, 0.0, 2.0, 0.0, 0.0, 1.0, 3.0]
    );
    assert!((f64::from_bits(solution.frames[1].world_to_camera[0]) + 1.0).abs() < 1e-12);
    assert!((f64::from_bits(solution.frames[1].world_to_camera[5]) + 1.0).abs() < 1e-12);
}

#[test]
fn refuses_an_unrelated_or_duplicate_colmap_raster() {
    assert!(matches!(
        parse("1 1 0 0 0 0 0 0 1 other.ppm\n\n"),
        Err(PoseError::UnknownRaster { .. })
    ));
    assert!(matches!(
        parse("1 1 0 0 0 0 0 0 1 frame-000001.ppm\n\n2 1 0 0 0 0 0 0 1 frame-000001.ppm\n\n"),
        Err(PoseError::DuplicateRaster { .. })
    ));
}

fn sidecar() -> PoseSolution {
    PoseSolution {
        schema: "vestra.pose-solution/v1".to_owned(),
        provider: PoseProvider {
            kind: "droid-slam".to_owned(),
            version: "official-2026-08".to_owned(),
            settings_fingerprint: "pinned-settings".to_owned(),
        },
        raster_fingerprint: raster().fingerprint(),
        coordinate_convention: "OpenCV world; W2C row-major 3x4 f64".to_owned(),
        frames: vec![PoseFrame {
            frame_index: 0,
            image_name: "frame-000001.ppm".to_owned(),
            registered: true,
            world_to_camera: IDENTITY.map(f64::to_bits),
        }],
        diagnostics: PoseDiagnostics {
            input_frames: 2,
            registered_frames: 1,
            duplicate_images: 0,
        },
    }
}

fn check(solution: &PoseSolution) -> Result<(), PoseError> {
    let list: Vec<RigidDeviations> = solution
        .frames
        .iter()
        .map(|frame| deviations(frame.world_to_camera.map(f64::from_bits)))
        .collect();
    validate_pose_solution(solution, &list, &raster(), "2.0")
}

#[test]
fn accepts_only_a_raster_bound_supported_sidecar_solution() {
    let solution = sidecar();
    check(&solution).unwrap();

    let mut mismatched = sidecar();
    mismatched.frames[0].image_name = "wrong.ppm".to_owned();
    assert!(matches!(check(&mismatched), Err(PoseError::Solution(_))));

    let mut unsupported = sidecar();
    unsupported.provider.kind = "untrusted-sidecar".to_owned();
    assert!(matches!(check(&unsupported), Err(PoseError::Solution(_))));
}

#[test]
fn each_solution_fault_is_told_apart() {
    let fault = |change: fn(&mut PoseSolution)| {
        let mut solution = sidecar();
        change(&mut solution);
        match check(&solution) {
            Err(PoseError::Solution(problem)) => problem,
            other => panic!("{other:?}"),
        }
    };
    assert_eq!(
        fault(|s| s.schema = "other".to_owned()),
        SolutionProblem::Schema
    );
    assert_eq!(
        fault(|s| s.raster_fingerprint = "other".to_owned()),
        SolutionProblem::RasterFingerprint
    );
    assert_eq!(
        fault(|s| s.provider.kind = "other".to_owned()),
        SolutionProblem::Provider
    );
    assert_eq!(
        fault(|s| s.coordinate_convention = "other".to_owned()),
        SolutionProblem::Convention
    );
    assert_eq!(
        fault(|s| s.provider.version = " ".to_owned()),
        SolutionProblem::MissingIdentity
    );
    assert_eq!(
        fault(|s| s.diagnostics.input_frames = 3),
        SolutionProblem::InputFrameCount
    );
    assert_eq!(
        fault(|s| s.frames[0].frame_index = 7),
        SolutionProblem::UnknownFrame(7)
    );
    assert_eq!(
        fault(|s| s.frames[0].image_name = "wrong.ppm".to_owned()),
        SolutionProblem::WrongRaster(0)
    );
    assert_eq!(
        fault(|s| {
            let again = s.frames[0].clone();
            s.frames.push(again);
        }),
        SolutionProblem::DuplicateFrame(0)
    );
    assert_eq!(
        fault(|s| s.diagnostics.registered_frames = 2),
        SolutionProblem::RegisteredFrameCount
    );
    assert_eq!(
        fault(|s| s.frames[0].world_to_camera[3] = f64::NAN.to_bits()),
        SolutionProblem::NonFinite
    );
    assert_eq!(
        fault(|s| s.frames[0].world_to_camera[0] = 2.0_f64.to_bits()),
        SolutionProblem::NotNormalized
    );
    assert_eq!(
        fault(|s| {
            s.frames[0].world_to_camera[0] = 0.0_f64.to_bits();
            s.frames[0].world_to_camera[1] = 1.0_f64.to_bits();
        }),
        SolutionProblem::NotOrthogonal
    );
    assert_eq!(
        fault(|s| s.frames[0].world_to_camera[10] = (-1.0_f64).to_bits()),
        SolutionProblem::NotRightHanded
    );
}

#[test]
fn pose_line_faults_name_their_line() {
    assert!(matches!(
        parse("# header\n1 1 0 0\n\n"),
        Err(PoseError::ColmapLine {
            line: 2,
            reason: ColmapProblem::TooFewFields
        })
    ));
    assert!(matches!(
        parse("1 1 0 x 0 0 0 0 1 frame-000001.ppm\n\n"),
        Err(PoseError::ColmapLine {
            line: 1,
            reason: ColmapProblem::NotANumber(_)
        })
    ));
    assert!(matches!(
        parse("1 1 0 0 0 inf 0 0 1 frame-000001.ppm\n\n"),
        Err(PoseError::ColmapLine {
            line: 1,
            reason: ColmapProblem::NonFinite
        })
    ));
    assert!(matches!(
        parse("1 0 0 0 0 0 0 0 1 frame-000001.ppm\n\n"),
        Err(PoseError::Raster(RasterProblem::ZeroQuaternion))
    ));
}

#[test]
fn a_finalized_raster_carries_a_stable_fingerprint() {
    let manifest = raster();
    assert_eq!(manifest.raster_fingerprint.len(), 64);
    assert_eq!(manifest.validate("2.0"), Ok(()));
    let again = finalized_raster_manifest(raster(), "2.0");
    assert_eq!(again.raster_fingerprint, manifest.raster_fingerprint);
    let mut changed = raster();
    changed.frames[1].timestamp_millis = 126;
    assert_eq!(
        changed.validate("2.0"),
        Err(PoseError::Raster(RasterProblem::Fingerprint))
    );
    let mut flat = raster();
    flat.output_height = 0;
    assert_eq!(
        flat.validate("2.0"),
        Err(PoseError::Raster(RasterProblem::Dimensions))
    );
}
