use vestra::architecture::{
    architecture_mesh_from_support_points, begin_plane_search, best_trial, can_extract, can_seed,
    deterministic_index, deterministic_sample, emit_supported_plane_cells, extend_architecture,
    hypothesis, judge_plane, plane_points, settings_are_valid, split_at_fitted_plane,
    split_at_plane, valid_point, ArchitectureSettings, CellGeometry, PlaneRound, PlaneSearch,
    PlaneVerdict, QuadGeometry,
};
use vestra::cells::Cell;
use vestra::world::FusedPoint;

fn point(position: [f32; 3]) -> FusedPoint {
    FusedPoint {
        position: position.map(f32::to_bits),
        normal: [0.0_f32, 0.0, 1.0].map(f32::to_bits),
        color_srgb: [180, 170, 160],
        confidence: 1.0_f32.to_bits(),
        radius: 0.01_f32.to_bits(),
        first_observing_frame: 4,
        contributors: 1,
    }
}

fn quad(center: [f32; 3], half: f32) -> Option<QuadGeometry> {
    let corner = |dx: f32, dy: f32| {
        [center[0] + dx * half, center[1] + dy * half, center[2]].map(f32::to_bits)
    };
    Some(QuadGeometry {
        corners: [
            corner(-1.0, -1.0),
            corner(1.0, -1.0),
            corner(1.0, 1.0),
            corner(-1.0, 1.0),
        ],
        normal: [0.0_f32, 0.0, 1.0].map(f32::to_bits),
    })
}

#[test]
fn supported_cells_become_triangles_without_closing_a_missing_cell() {
    let mut support = vec![point([0.0, 0.0, 0.0]), point([0.1, 0.0, 0.0])];
    for cell in &mut support {
        cell.radius = 0.078_f32.to_bits();
    }
    let geometry = vec![quad([0.0, 0.0, 0.0], 0.05), quad([0.1, 0.0, 0.0], 0.05)];
    let mesh = architecture_mesh_from_support_points(&support, &geometry);
    assert_eq!(mesh.vertices.len(), 8);
    assert_eq!(mesh.indices.len(), 12);
    assert!(mesh.indices.chunks_exact(3).all(|triangle| {
        let min = *triangle.iter().min().unwrap();
        let max = *triangle.iter().max().unwrap();
        max - min < 4
    }));
    let partial = architecture_mesh_from_support_points(&support, &vec![None, geometry[1]]);
    assert_eq!(partial.vertices.len(), 4);
    assert_eq!(partial.indices.len(), 6);
}

/// One round of a search against the plane `z == 0`, with cells of an edge.
fn level_round(
    points: &[FusedPoint],
    search: &PlaneSearch,
    edge: f32,
    settings: &ArchitectureSettings,
) -> PlaneRound {
    let cosine = |point: &FusedPoint| {
        let [x, y, z] = point.normal.map(f32::from_bits);
        let length = (x * x + y * y + z * z).sqrt();
        if length > 0.0 {
            z / length
        } else {
            0.0
        }
    };
    let left: Vec<FusedPoint> = search.remaining.iter().map(|&place| points[place]).collect();
    let distances: Vec<u32> = left.iter().map(|point| point.position[2]).collect();
    let cosines: Vec<u32> = left.iter().map(|point| cosine(point).to_bits()).collect();
    let keys: Vec<Cell> = left
        .iter()
        .map(|point| {
            let [x, y, _] = point.position.map(f32::from_bits);
            Cell {
                x: (x / edge).floor() as i32,
                y: (y / edge).floor() as i32,
                z: 0,
            }
        })
        .collect();
    let tolerance = 0.01_f32.to_bits();
    let split = split_at_fitted_plane(
        &distances,
        tolerance,
        &cosines,
        settings.minimum_normal_alignment,
    );
    let support = split.support.iter().map(|&place| left[place]).collect();
    let support_keys = split.support.iter().map(|&place| keys[place]).collect();
    let cells = emit_supported_plane_cells(&support, &support_keys, settings.minimum_cell_support);
    let geometry = cells
        .iter()
        .map(|cell| CellGeometry {
            position: [
                ((cell.cell.x as f32 + 0.5) * edge).to_bits(),
                ((cell.cell.y as f32 + 0.5) * edge).to_bits(),
                0,
            ],
            confidence: 1.0_f32.to_bits(),
            radius: (edge * 0.78).to_bits(),
        })
        .collect();
    PlaneRound::Fitted {
        normal: [0, 0, 1.0_f32.to_bits()],
        offset: 0,
        tolerance,
        distances,
        cosines,
        keys,
        geometry,
    }
}

fn wall_with_a_door() -> Vec<FusedPoint> {
    let mut points = Vec::new();
    for y in 0..80 {
        for x in 0..100 {
            if (30..70).contains(&x) && (0..50).contains(&y) {
                continue;
            }
            points.push(point([x as f32 * 0.02, y as f32 * 0.02, 0.0]));
            points.push(point([x as f32 * 0.02 + 0.002, y as f32 * 0.02, 0.0]));
        }
    }
    points
}

const EXTENT: [f32; 2] = [1.982, 1.58];

fn diagonal() -> f32 {
    (EXTENT[0] * EXTENT[0] + EXTENT[1] * EXTENT[1]).sqrt()
}

fn wall_settings() -> ArchitectureSettings {
    ArchitectureSettings {
        minimum_plane_support: 500,
        cell_size_fraction: 0.02_f32.to_bits(),
        ..ArchitectureSettings::default()
    }
}

#[test]
fn supported_plane_emits_only_observed_cells_and_preserves_door_hole() {
    let points = wall_with_a_door();
    let settings = wall_settings();
    let edge = f32::from_bits(settings.cell_size_fraction) * diagonal();
    assert!(can_extract(&points, diagonal().to_bits(), &settings));
    let sample = deterministic_sample(&points, settings.maximum_source_points);
    let sampled: Vec<FusedPoint> = sample.iter().map(|&place| points[place]).collect();
    let mut search = begin_plane_search(sampled.len());
    let round = level_round(&sampled, &search, edge, &settings);
    assert!(extend_architecture(&mut search, &sampled, round, &settings));
    assert!(!extend_architecture(&mut search, &sampled, PlaneRound::NoPlane, &settings));
    let result = search.extraction;
    assert_eq!(result.planes.len(), 1);
    assert_eq!(result.planes[0].support_points, points.len());
    assert_eq!(result.planes[0].emitted_surface_cells, result.points.len());
    assert!(result.points.len() > 300);
    assert!(result.points.iter().all(|point| {
        let [x, y, _] = point.position.map(f32::from_bits);
        x < 0.75 || x > 1.25 || y > 0.85
    }));
    let counted: u32 = result.points.iter().map(|point| point.contributors).sum();
    assert!(counted as usize <= points.len());
    assert!(result.points.iter().all(|point| point.contributors >= 2));
}

#[test]
fn points_with_crossing_normals_make_no_plane() {
    let mut points = wall_with_a_door();
    for point in &mut points {
        point.normal = [1.0_f32, 0.0, 0.0].map(f32::to_bits);
    }
    let settings = wall_settings();
    let edge = f32::from_bits(settings.cell_size_fraction) * diagonal();
    let mut search = begin_plane_search(points.len());
    let round = level_round(&points, &search, edge, &settings);
    assert!(!extend_architecture(&mut search, &points, round, &settings));
    assert!(search.extraction.planes.is_empty());
    assert!(search.extraction.points.is_empty());
    assert_eq!(search.remaining.len(), points.len());
}

#[test]
fn invalid_or_normal_free_points_do_not_create_architecture() {
    let mut points = vec![point([0.0, 0.0, 0.0]); 2000];
    for point in &mut points {
        point.normal = [0; 3];
    }
    let settings = ArchitectureSettings::default();
    assert!(!can_extract(&points, 0, &settings));
    let sample = deterministic_sample(&points, settings.maximum_source_points);
    let mut search = begin_plane_search(sample.len());
    let round = level_round(&points, &search, 0.1, &settings);
    assert!(!extend_architecture(&mut search, &points, round, &settings));
    assert!(search.extraction.points.is_empty());
    for point in &mut points {
        point.normal[1] = f32::NAN.to_bits();
    }
    assert!(!valid_point(&points[0]));
    assert!(!can_extract(&points, 1.0_f32.to_bits(), &settings));
}

#[test]
fn a_taken_plane_leaves_its_support_behind() {
    let settings = ArchitectureSettings {
        minimum_plane_support: 2,
        minimum_cell_support: 1,
        maximum_planes: 2,
        ..ArchitectureSettings::default()
    };
    let sampled = vec![point([0.0; 3]); 5];
    let mut search = begin_plane_search(5);
    assert_eq!(search.remaining, vec![0, 1, 2, 3, 4]);
    let round = |distances: Vec<f32>, cells: usize| PlaneRound::Fitted {
        normal: [0, 0, 1.0_f32.to_bits()],
        offset: 0,
        tolerance: 0.1_f32.to_bits(),
        cosines: vec![(-1.0_f32).to_bits(); distances.len()],
        keys: vec![Cell { x: 0, y: 0, z: 0 }; distances.len()],
        geometry: vec![
            CellGeometry {
                position: [0; 3],
                confidence: 0,
                radius: 0,
            };
            cells
        ],
        distances: distances.into_iter().map(f32::to_bits).collect(),
    };
    assert!(extend_architecture(
        &mut search,
        &sampled,
        round(vec![0.0, 1.0, -0.1, 1.0, -1.0], 1),
        &settings
    ));
    assert_eq!(search.remaining, vec![1, 3, 4]);
    assert_eq!(search.extraction.planes[0].support_points, 2);
    assert_eq!(search.extraction.points[0].contributors, 2);
    assert!(!extend_architecture(
        &mut search,
        &sampled,
        round(vec![0.0, 1.0, 1.0], 1),
        &settings
    ));
    assert_eq!(search.extraction.planes.len(), 1);
    assert!(!extend_architecture(
        &mut search,
        &sampled,
        round(vec![0.0, 0.0, 1.0], 1),
        &settings
    ));
    assert_eq!(search.extraction.planes.len(), 2);
    assert_eq!(search.extraction.points.len(), 2);
    assert_eq!(search.remaining, vec![4]);
}

#[test]
fn a_fitted_plane_is_supported_by_aligned_points() {
    let bits = |values: [f32; 4]| values.map(f32::to_bits).to_vec();
    let split = split_at_fitted_plane(
        &bits([0.0, 0.0, 0.5, 0.1]),
        0.1_f32.to_bits(),
        &bits([0.94, 0.93, 1.0, -1.0]),
        0.94_f32.to_bits(),
    );
    assert_eq!(split.support, vec![0, 3]);
    assert_eq!(split.rest, vec![1, 2]);
}

#[test]
fn supported_cells_count_their_members() {
    let support = vec![point([0.0; 3]); 3];
    let keys = vec![Cell { x: 1, y: 0, z: 0 }; 3];
    let cells = emit_supported_plane_cells(&support, &keys, 2);
    let geometry = CellGeometry {
        position: [1; 3],
        confidence: 3,
        radius: 4,
    };
    let points = plane_points(&cells, &vec![geometry], [2; 3]);
    assert_eq!(points[0].normal, [2; 3]);
    assert_eq!(points.len(), 1);
    assert_eq!(points[0].contributors, 3);
    assert_eq!(points[0].first_observing_frame, 4);
    assert_eq!(points[0].color_srgb, [154, 170, 146]);
    assert_eq!(points[0].radius, 4);
}

#[test]
fn a_sample_is_bounded_and_repeatable() {
    let points = vec![point([0.0, 0.0, 0.0]); 103];
    let sample = deterministic_sample(&points, 10);
    assert!(sample.len() <= 10);
    assert_eq!(sample, deterministic_sample(&points, 10));
    assert_eq!(deterministic_sample(&points, 500).len(), 103);
}

#[test]
fn hypotheses_are_three_different_points() {
    let remaining: Vec<usize> = (0..50).map(|place| place * 2).collect();
    for trial in 0..64 {
        if let Some((a, b, c)) = hypothesis(&remaining, trial) {
            assert!(a != b && a != c && b != c);
        }
    }
    for seed in 0..100 {
        assert!(deterministic_index(seed, 7) < 7);
    }
}

#[test]
fn the_first_of_the_best_trials_wins() {
    assert!(can_seed(3, 1));
    assert!(!can_seed(2, 1));
    assert_eq!(best_trial(&vec![3, 9, 4, 9]), Some(1));
    assert_eq!(best_trial(&Vec::new()), None);
}

#[test]
fn planes_split_what_is_left() {
    let distances: Vec<u32> = [0.0_f32, 0.5, f32::NAN, 0.1].map(f32::to_bits).to_vec();
    let split = split_at_plane(&vec![4, 5, 6, 7], &distances, 0.1_f32.to_bits());
    assert_eq!(split.support, vec![4, 7]);
    assert_eq!(split.rest, vec![5, 6]);
}

#[test]
fn weak_planes_finish_the_extraction() {
    let settings = ArchitectureSettings::default();
    assert!(settings_are_valid(&settings));
    let weak = settings.minimum_plane_support - 1;
    assert_eq!(judge_plane(weak, 5, &settings), PlaneVerdict::Finish);
    let broken = ArchitectureSettings {
        cell_size_fraction: f32::NAN.to_bits(),
        ..settings
    };
    assert!(!settings_are_valid(&broken));
}
