use vestra::cells::{group_cells, Cell};
use vestra::tsdf::{
    fuse_normal_space_tsdf, gather_cells, resolved_truncation_multiple, resolved_voxel_size,
    splat_hits, surface_of_cells, usable_observations, CellMeans, Splat, SplatRun, SurfaceCell,
    SurfaceScale, TsdfObservation, TsdfSettings,
};

fn cell(x: i32, y: i32, z: i32) -> Cell {
    Cell { x, y, z }
}

fn observation(x: f32) -> TsdfObservation {
    TsdfObservation {
        position: [x, 0.0, 0.0].map(f32::to_bits),
        color_srgb: [1, 2, 3],
        confidence: 1.0_f32.to_bits(),
        radius: 0.01_f32.to_bits(),
        frame_index: 0,
    }
}

#[test]
fn valid_small_scene_uses_the_pr_relative_voxel_size_without_clamping() {
    let points = [[0.0_f32, 0.0, 0.0], [1.0, 0.0, 0.0]];
    let settings = TsdfSettings::default();
    let diagonal: f32 = (0..3)
        .map(|axis| points[1][axis] - points[0][axis])
        .map(|extent| extent * extent)
        .sum::<f32>()
        .sqrt();
    let relative = diagonal * f32::from_bits(settings.voxel_fraction);
    assert_eq!(
        f32::from_bits(resolved_voxel_size(&settings, relative.to_bits())),
        0.004
    );
}

#[test]
fn degenerate_sizes_fall_back() {
    let settings = TsdfSettings::default();
    assert_eq!(
        f32::from_bits(resolved_voxel_size(&settings, f32::NAN.to_bits())),
        0.03
    );
    let fixed = TsdfSettings {
        voxel_size: Some(0.5_f32.to_bits()),
        truncation_multiple: 0,
        ..settings
    };
    assert_eq!(
        f32::from_bits(resolved_voxel_size(&fixed, 1.0_f32.to_bits())),
        0.5
    );
    assert_eq!(f32::from_bits(resolved_truncation_multiple(&fixed)), 4.0);
}

#[test]
fn observations_without_a_place_are_dropped() {
    let mut lost = observation(1.0);
    lost.position[2] = f32::INFINITY.to_bits();
    let kept = usable_observations(&vec![observation(0.0), lost, observation(2.0)]);
    assert_eq!(kept, vec![observation(0.0), observation(2.0)]);
}

#[test]
fn each_cell_gathers_its_hits_and_its_first_frame() {
    let run = |frame_index: i32, cells: Vec<Cell>| SplatRun {
        normal: [0, 0, 1.0_f32.to_bits()],
        frame_index,
        splats: cells
            .into_iter()
            .map(|cell| Splat { cell, distance: 0 })
            .collect(),
    };
    let runs = vec![
        run(7, vec![cell(0, 0, 0), cell(0, 0, 1)]),
        run(2, vec![cell(0, 0, 1)]),
    ];
    let hits = splat_hits(&runs, 1.0_f32.to_bits());
    assert_eq!(hits.len(), 3);
    let field = gather_cells(&runs, &hits);
    assert_eq!(field.len(), 2);
    let shared = field.iter().find(|entry| entry.cell.z == 1).unwrap();
    assert_eq!(shared.hits.len(), 2);
    assert_eq!(shared.first_frame, 2);
}

fn surface_cell(x: i32, frame: i32, hits: u32) -> SurfaceCell {
    SurfaceCell {
        cell: cell(x, 0, 0),
        hits,
        first_frame: frame,
        weight: 1.0_f64.to_bits(),
        distance: 0,
        normal: Some([0, 0, 1.0_f32.to_bits()]),
        position: [(x as f32).to_bits(), 0, 0],
        color_srgb: [9, 9, 9],
    }
}

#[test]
fn surfaces_are_frame_major_and_need_hits() {
    let observations: Vec<TsdfObservation> = (0..8).map(|x| observation(x as f32)).collect();
    let settings = TsdfSettings {
        minimum_hits: 2,
        ..TsdfSettings::default()
    };
    let field = vec![
        surface_cell(3, 5, 2),
        surface_cell(2, 1, 2),
        surface_cell(1, 5, 2),
        surface_cell(0, 0, 1),
    ];
    let half = 0.5_f32.to_bits();
    let radius = 0.1_f32.to_bits();
    let surface = surface_of_cells(&observations, &field, &settings, half, radius);
    let frames: Vec<i32> = surface.iter().map(|s| s.first_observing_frame).collect();
    assert_eq!(frames, vec![1, 5, 5]);
    let mut shuffled = field;
    shuffled.reverse();
    assert_eq!(
        surface_of_cells(&observations, &shuffled, &settings, half, radius),
        surface
    );
    let few = observations[..7].to_vec();
    let plain = surface_of_cells(&few, &shuffled, &settings, half, radius);
    assert_eq!(plain.len(), 7);
    assert_eq!(plain[3].position, few[3].position);
    assert_eq!(plain[3].contributors, 1);
}

#[test]
fn cells_are_grouped_once() {
    let groups = group_cells(&vec![
        cell(1, 0, 0),
        cell(0, 0, 0),
        cell(1, 0, 0),
        cell(-1, 5, 5),
    ]);
    let total: usize = groups.iter().map(|group| group.members.len()).sum();
    assert_eq!((groups.len(), total), (3, 4));
    let twice = groups.iter().find(|g| g.cell == cell(1, 0, 0)).unwrap();
    assert_eq!(twice.members, vec![0, 2]);
}

#[test]
fn fused_elements_count_their_hits() {
    let observations: Vec<TsdfObservation> = (0..8)
        .map(|place| TsdfObservation {
            frame_index: 9 - place,
            ..observation(place as f32)
        })
        .collect();
    let runs: Vec<SplatRun> = (0..8)
        .map(|place| SplatRun {
            normal: [0, 0, 1.0_f32.to_bits()],
            frame_index: observations[place as usize].frame_index,
            splats: vec![
                Splat {
                    cell: cell(place / 4, 0, 0),
                    distance: 0,
                },
                Splat {
                    cell: cell(place / 4, 0, 0),
                    distance: 0,
                },
                Splat {
                    cell: cell(7, 7, 7),
                    distance: 2.0_f32.to_bits(),
                },
            ],
        })
        .collect();
    let mean = |x: u32| CellMeans {
        weight: 1.0_f64.to_bits(),
        distance: 0,
        normal: Some([0, 0, 1.0_f32.to_bits()]),
        position: [x, 0, 0],
        color_srgb: [1, 2, 3],
    };
    let scale = SurfaceScale {
        truncation: 1.0_f32.to_bits(),
        half: 0.5_f32.to_bits(),
        radius: 0.6_f32.to_bits(),
    };
    let surface = fuse_normal_space_tsdf(
        &observations,
        &runs,
        &vec![mean(10), mean(20)],
        &TsdfSettings::default(),
        scale,
    );
    let backwards = fuse_normal_space_tsdf(
        &observations.iter().rev().copied().collect(),
        &runs.iter().rev().cloned().collect(),
        &vec![mean(10), mean(20)],
        &TsdfSettings::default(),
        scale,
    );
    assert_eq!(backwards, surface);
    assert_eq!(surface.len(), 2);
    assert_eq!(surface[0].first_observing_frame, 2);
    assert_eq!(surface[0].contributors, 4);
    assert_eq!(surface[0].position, [20, 0, 0]);
    assert_eq!(surface[1].first_observing_frame, 6);
    assert_eq!(surface[1].position, [10, 0, 0]);
    assert_eq!(f32::from_bits(surface[1].radius), 0.6);
}

fn unit_scale() -> SurfaceScale {
    SurfaceScale {
        truncation: 1.0_f32.to_bits(),
        half: 0.5_f32.to_bits(),
        radius: 0.6_f32.to_bits(),
    }
}

#[test]
fn few_observations_come_out_frame_major_whatever_their_order() {
    let a = TsdfObservation {
        position: [0; 3],
        color_srgb: [1, 1, 1],
        confidence: 1.0_f32.to_bits(),
        radius: 0.1_f32.to_bits(),
        frame_index: 5,
    };
    let b = TsdfObservation {
        position: [1.0_f32, 0.0, 0.0].map(f32::to_bits),
        frame_index: 2,
        ..a
    };
    let c = TsdfObservation {
        position: [(-1.0_f32).to_bits(), 0, 0],
        ..a
    };
    let fuse = |observations: Vec<TsdfObservation>| {
        fuse_normal_space_tsdf(
            &observations,
            &Vec::new(),
            &Vec::new(),
            &TsdfSettings::default(),
            unit_scale(),
        )
    };
    let surface = fuse(vec![a, b]);
    let frames: Vec<i32> = surface.iter().map(|s| s.first_observing_frame).collect();
    assert_eq!(frames, vec![2, 5]);
    assert_eq!(fuse(vec![b, a]), surface);
    assert_eq!(f32::from_bits(surface[0].normal[2]), 1.0);
    let three = fuse(vec![a, b, c]);
    assert_eq!(three[1].position, c.position);
    assert_eq!(three[2].position, a.position);
    for order in [[c, b, a], [b, c, a], [c, a, b]] {
        assert_eq!(fuse(order.to_vec()), three);
    }
    let lost = TsdfObservation {
        confidence: 0,
        ..a
    };
    assert_eq!(fuse(vec![lost, a, lost, b]), surface);
}

fn sheet(z: f32, frame: i32, color: [u8; 3]) -> Vec<TsdfObservation> {
    (-5..=5)
        .flat_map(|y| {
            (-5..=5).map(move |x| TsdfObservation {
                position: [x as f32 * 0.02, y as f32 * 0.02, z].map(f32::to_bits),
                color_srgb: color,
                confidence: 1.0_f32.to_bits(),
                radius: 0.01_f32.to_bits(),
                frame_index: frame,
            })
        })
        .collect()
}

fn to_linear(level: u8) -> f64 {
    let value = f64::from(level) / 255.0;
    if value <= 0.04045 {
        value / 12.92
    } else {
        ((value + 0.055) / 1.055).powf(2.4)
    }
}

fn to_level(value: f64) -> u8 {
    let value = if value <= 0.0031308 {
        12.92 * value
    } else {
        1.055 * value.powf(1.0 / 2.4) - 0.055
    };
    (value * 255.0).round() as u8
}

#[test]
fn tsdf_collapses_two_parallel_sheets_and_uses_first_frame() {
    let mut points = sheet(-0.006, 7, [255, 0, 0]);
    points.extend(sheet(0.006, 2, [0, 255, 0]));
    let settings = TsdfSettings {
        voxel_size: Some(0.02_f32.to_bits()),
        minimum_hits: 1,
        ..TsdfSettings::default()
    };
    let voxel = f32::from_bits(resolved_voxel_size(&settings, 0));
    let truncation = f32::from_bits(resolved_truncation_multiple(&settings)) * voxel;
    let centre = |place: i32| (place as f32 + 0.5) * voxel;
    let runs: Vec<SplatRun> = usable_observations(&points)
        .iter()
        .map(|point| {
            let position = point.position.map(f32::from_bits);
            let splats = (-4..=4)
                .map(|step| {
                    let query = [position[0], position[1], position[2] + step as f32 * voxel];
                    let [x, y, z] = query.map(|value| (value / voxel).floor() as i32);
                    Splat {
                        cell: cell(x, y, z),
                        distance: (centre(z) - position[2]).to_bits(),
                    }
                })
                .collect();
            SplatRun {
                normal: [0, 0, 1.0_f32.to_bits()],
                frame_index: point.frame_index,
                splats,
            }
        })
        .collect();
    let hits = splat_hits(&runs, truncation.to_bits());
    let means = gather_cells(&runs, &hits)
        .iter()
        .map(|evidence| {
            let count = evidence.hits.len() as f64;
            let mut distance = 0.0_f64;
            let mut light = [0.0_f64; 3];
            for &place in &evidence.hits {
                let hit = hits[place];
                distance += f64::from(f32::from_bits(runs[hit.run].splats[hit.step].distance));
                for axis in 0..3 {
                    light[axis] += to_linear(points[hit.run].color_srgb[axis]);
                }
            }
            let distance = (distance / count) as f32;
            let place = evidence.cell;
            CellMeans {
                weight: (count * 100.0).to_bits(),
                distance: distance.to_bits(),
                normal: Some([0, 0, 1.0_f32.to_bits()]),
                position: [
                    centre(place.x).to_bits(),
                    centre(place.y).to_bits(),
                    (centre(place.z) - distance).to_bits(),
                ],
                color_srgb: light.map(|value| to_level(value / count)),
            }
        })
        .collect();
    let scale = SurfaceScale {
        truncation: truncation.to_bits(),
        half: (voxel * 0.5).to_bits(),
        radius: (voxel * 0.6).to_bits(),
    };
    let output = fuse_normal_space_tsdf(&points, &runs, &means, &settings, scale);
    assert!(!output.is_empty());
    assert!(output.iter().all(|point| point.first_observing_frame == 2));
    assert!(output
        .iter()
        .all(|point| f32::from_bits(point.position[2]).abs() < 0.011));
    assert!(output
        .iter()
        .any(|point| point.color_srgb[0] > 150 && point.color_srgb[1] > 150));
}
