use clap::error::ErrorKind;
use vestra::commands::{
    accepts_pose_provider, architecture_authority, architecture_product_id, architecture_source,
    bench_rounds, capture_settings, capture_totals, check_bench_output, check_cameras,
    check_decoded, check_extraction, check_mvs_source, check_verification, derivative_source,
    find_product, lab_commands, mvs_import_identity, product_commands, raster_file_name,
    registered_frames, settings_fingerprint, strided_observations, CommandProblem,
    FingerprintInput, WorldProduct,
};
use vestra::pose::PoseFrame;
use vestra::reconstruction::ReconstructionProgress;
use vestra::schedule::{FrameWindow, WindowSettings};
use vestra::world::FusedPoint;

const PRODUCT_COMMANDS: [&str; 6] = ["app", "reconstruct", "demo", "serve", "inspect", "export"];
const LAB_COMMANDS: [&str; 28] = [
    "plan",
    "fuse",
    "pose-import-colmap",
    "pose-import-colmap-model",
    "pose-import-json",
    "fuse-colmap-global",
    "fuse-global-pose",
    "inspect-colmap-global",
    "inspect-global-pose",
    "inspect-colmap-frame-global",
    "fuse-colmap-frame-global",
    "import-colmap-mvs",
    "import-da3-pose-conditioned",
    "fuse-da3-pose-conditioned-tsdf",
    "extract-architecture",
    "raster-record",
    "export-glb",
    "export-splat",
    "export-cameras",
    "verify",
    "oracle-fixture",
    "oracle-model-bench",
    "oracle-inspect",
    "oracle-stitch",
    "oracle-compare",
    "oracle-compare-capi",
    "oracle-compare-model",
    "oracle-run",
];

fn surface(name: &'static str, commands: &[&'static str]) -> clap::Command {
    commands
        .iter()
        .fold(clap::Command::new(name), |surface, command| {
            surface.subcommand(clap::Command::new(*command))
        })
}

#[test]
fn product_help_has_exact_curated_command_surface() {
    let command = surface("vestra", &product_commands());
    let names: Vec<&str> = command.get_subcommands().map(|c| c.get_name()).collect();
    assert_eq!(names, PRODUCT_COMMANDS.as_slice());
    assert!(command
        .get_subcommands()
        .all(|item| item.get_all_aliases().next().is_none()));
}

#[test]
fn lab_help_has_exact_engineering_command_surface() {
    let command = surface("vestra-lab", &lab_commands());
    let names: Vec<&str> = command.get_subcommands().map(|c| c.get_name()).collect();
    assert_eq!(names, LAB_COMMANDS.as_slice());
    assert!(command
        .get_subcommands()
        .all(|item| item.get_all_aliases().next().is_none()));
}

#[test]
fn product_rejects_every_lab_command() {
    for command in LAB_COMMANDS {
        let error = surface("vestra", &product_commands())
            .try_get_matches_from(["vestra", command])
            .unwrap_err();
        assert_eq!(error.kind(), ErrorKind::InvalidSubcommand, "{command}");
    }
}

#[test]
fn lab_rejects_every_product_command() {
    for command in PRODUCT_COMMANDS {
        let error = surface("vestra-lab", &lab_commands())
            .try_get_matches_from(["vestra-lab", command])
            .unwrap_err();
        assert_eq!(error.kind(), ErrorKind::InvalidSubcommand, "{command}");
    }
}

#[test]
fn the_two_surfaces_share_no_command() {
    let lab = lab_commands();
    assert!(product_commands().iter().all(|name| !lab.contains(name)));
}

#[test]
fn captures_resolve_their_settings() {
    let windows = WindowSettings {
        chunk_size: 12,
        overlap: 3,
    };
    let settings = capture_settings(windows, 1.5_f32.to_bits(), 2, false);
    assert_eq!(settings.backprojection.pixel_stride, 2);
    assert_eq!(
        f32::from_bits(settings.backprojection.minimum_confidence),
        1.5
    );
    assert!(!settings.cpp_pr2_relative_capture);
}

#[test]
fn totals_add_up() {
    let step = |index: usize, measured_points: usize, reused: bool| ReconstructionProgress {
        window: FrameWindow {
            index,
            start: 0,
            end: 1,
        },
        chunk_hash: String::new(),
        measured_points,
        reused,
    };
    let totals = capture_totals(&vec![step(0, 5, true), step(1, 7, false), step(2, 1, false)]);
    assert_eq!(totals.windows, 3);
    assert_eq!(totals.reused_windows, 1);
    assert_eq!(totals.inferred_windows, 2);
    assert_eq!(totals.measured_points, 13);
}

fn fingerprint(change: fn(&mut FingerprintInput)) -> String {
    let mut input = FingerprintInput {
        video_hash: "video",
        candidate_fps: "8",
        hard_max_frames: 100,
        width: 504,
        height: 336,
        chunk_size: 12,
        overlap: 3,
        minimum_confidence: "1",
        pixel_stride: 2,
        cpp_pr2_relative: false,
    };
    change(&mut input);
    settings_fingerprint(&input)
}

#[test]
fn fingerprints_depend_on_every_setting() {
    let base = fingerprint(|_| {});
    assert_eq!(base.len(), 64);
    assert_eq!(base, fingerprint(|_| {}));
    assert_ne!(base, fingerprint(|input| input.overlap = 4));
    assert_ne!(base, fingerprint(|input| input.video_hash = "other"));
    assert_ne!(base, fingerprint(|input| input.cpp_pr2_relative = true));
}

#[test]
fn raster_files_are_numbered_from_one() {
    assert_eq!(raster_file_name(0), b"frame-000001.ppm".to_vec());
    assert_eq!(raster_file_name(1_234_567), b"frame-1234568.ppm".to_vec());
}

#[test]
fn refusals_have_their_reason() {
    assert_eq!(check_decoded(0), Err(CommandProblem::NoFrames));
    assert_eq!(check_decoded(1), Ok(()));
    assert_eq!(bench_rounds(1, 0), Err(CommandProblem::BenchCounts));
    assert_eq!(bench_rounds(1, 2), Ok(3));
    assert_eq!(check_bench_output(0, 1, 1), Err(CommandProblem::NoViews));
    assert_eq!(check_bench_output(1, 0, 1), Err(CommandProblem::EmptyMaps));
    assert_eq!(check_bench_output(1, 1, 1), Ok(()));
    assert_eq!(check_mvs_source(0, true), Err(CommandProblem::MvsSource));
    assert_eq!(check_mvs_source(9, true), Ok(()));
    assert_eq!(check_cameras(0), Err(CommandProblem::TooFewCameras));
    assert_eq!(check_extraction(0, 5), Err(CommandProblem::NoPlanes));
    assert_eq!(check_extraction(1, 5), Ok(()));
    assert_eq!(check_verification(true), Ok(()));
    assert_eq!(
        check_verification(false),
        Err(CommandProblem::ProfileMissed)
    );
    assert!(!CommandProblem::NoFrames.message().is_empty());
}

fn product(id: &str, authority: &str, pose: Option<&str>) -> WorldProduct {
    WorldProduct {
        id: id.to_string(),
        fused_chunk_hash: "hash".to_string(),
        pose_authority: authority.to_string(),
        pose_solution_hash: pose.map(str::to_string),
        source_frame_indices: Vec::new(),
        depth_frame_count: 0,
    }
}

#[test]
fn derivatives_are_bound_to_their_source() {
    let products = vec![
        product("other", "a", None),
        product("surfels", "colmap", Some("pose")),
    ];
    assert_eq!(find_product(&products, "surfels"), Some(1));
    assert_eq!(
        derivative_source(&products, "surfels", "colmap", "pose", 10),
        Ok(1)
    );
    assert_eq!(
        derivative_source(&products, "surfels", "colmap", "pose", 0),
        Err(CommandProblem::NoObservations)
    );
    assert_eq!(
        derivative_source(&products, "missing", "colmap", "pose", 10),
        Err(CommandProblem::MissingSurfelProduct)
    );
    assert_eq!(
        derivative_source(&products, "surfels", "colmap", "another", 10),
        Err(CommandProblem::UnboundSurfelProduct)
    );
    assert_eq!(architecture_source(&products, "other", 5, 5), Ok(0));
    assert_eq!(
        architecture_source(&products, "other", 0, 5),
        Err(CommandProblem::ArchitectureLimits)
    );
    assert_eq!(
        architecture_source(&products, "missing", 5, 5),
        Err(CommandProblem::MissingSourceProduct)
    );
    assert_ne!(architecture_product_id("other"), "other");
    assert_ne!(architecture_authority("colmap"), "colmap");
}

#[test]
fn imports_are_named_by_their_consistency() {
    let photometric = mvs_import_identity(true);
    let geometric = mvs_import_identity(false);
    assert_ne!(photometric.product_id, geometric.product_id);
    assert!(accepts_pose_provider("colmap"));
    assert!(!accepts_pose_provider("untrusted-sidecar"));
}

#[test]
fn only_registered_frames_take_part() {
    let frame = |frame_index, registered| PoseFrame {
        frame_index,
        image_name: String::new(),
        registered,
        world_to_camera: [0; 12],
    };
    assert_eq!(
        registered_frames(&vec![frame(3, true), frame(4, false), frame(5, true)]),
        vec![3, 5]
    );
}

#[test]
fn strides_bound_the_observations() {
    let point = |x: u32| FusedPoint {
        position: [x, 0, 0],
        normal: [0; 3],
        color_srgb: [0; 3],
        confidence: 0,
        radius: 0,
        first_observing_frame: 0,
        contributors: 1,
    };
    let points: Vec<FusedPoint> = (0..10).map(point).collect();
    let kept: Vec<u32> = strided_observations(&points, 4)
        .iter()
        .map(|observation| observation.position[0])
        .collect();
    assert!(kept.len() <= 4);
    assert_eq!(kept[0], 0);
    assert_eq!(strided_observations(&points, 50).len(), 10);
}
