use vestra::cells::Cell;
use vestra::icp::{
    can_refine, estimated_normal, icp_matched, icp_moved, icp_result, icp_start, keep_within,
    nearest_within, plane_match, plane_rms, IcpSettings, SpatialHash,
};
use vestra::world::SimilarityTransform;

fn cell(x: i32, y: i32, z: i32) -> Cell {
    Cell { x, y, z }
}

#[test]
fn iterative_icp_refuses_insufficient_overlap() {
    let settings = IcpSettings::default();
    let reach = f32::from_bits(settings.max_correspondence_distance);
    let target: Vec<[f32; 3]> = (-5..=5)
        .flat_map(|y| (-5..=5).map(move |x| [x as f32 * 0.02, y as f32 * 0.02, 0.0]))
        .collect();
    let source = vec![[0.0_f32, 0.0, 1.0]; 19];
    let normals = vec![[0, 0, 1.0_f32.to_bits()]; target.len()];
    assert!(can_refine(source.len(), target.len(), 1.0_f32.to_bits(), &normals));
    let place = |point: [f32; 3]| {
        let [x, y, z] = point.map(|value| (value / reach).floor() as i32);
        cell(x, y, z)
    };
    let hash = SpatialHash::new(&target.iter().map(|point| place(*point)).collect());
    let matches = |cloud: &[[f32; 3]]| {
        let found = cloud.iter().filter(|point| {
            let near = hash.near(place(**point), 1);
            let squared = near
                .iter()
                .map(|&k| {
                    (0..3)
                        .map(|axis| (target[k][axis] - point[axis]).powi(2))
                        .sum::<f32>()
                        .to_bits()
                })
                .collect();
            nearest_within(&near, &squared, (reach * reach).to_bits()).is_some()
        });
        found.count()
    };
    assert_eq!(matches(&source), 0);
    assert!(plane_rms(matches(&source), f32::NAN.to_bits()).is_none());
    assert_eq!(plane_rms(matches(&target), 3), Some(3));
    let start = icp_start(&settings);
    assert!(start.running);
    let matched = icp_matched(start, 19, &settings);
    assert!(!matched.running);
    assert_eq!(matched.iterations, 0);
    assert!(icp_matched(start, 20, &settings).running);
}

#[test]
fn refinement_needs_points_scale_and_a_direction() {
    let normals = vec![[0, 0, 1.0_f32.to_bits()]];
    assert!(!can_refine(0, 1, 1.0_f32.to_bits(), &normals));
    assert!(!can_refine(1, 0, 1.0_f32.to_bits(), &normals));
    assert!(!can_refine(1, 1, 0, &normals));
    assert!(!can_refine(1, 1, 1.0_f32.to_bits(), &vec![[0; 3]]));
}

#[test]
fn a_converged_step_ends_the_rounds() {
    let settings = IcpSettings::default();
    let matched = icp_matched(icp_start(&settings), 100, &settings);
    let still = icp_moved(matched, 6, 0, f32::INFINITY.to_bits(), false, &settings);
    assert!(!still.running);
    assert_eq!((still.iterations, still.rank), (1, 6));
    let moving = icp_moved(
        matched,
        6,
        1.0_f64.to_bits(),
        f32::INFINITY.to_bits(),
        false,
        &settings,
    );
    assert!(moving.running);
}

#[test]
fn a_hash_finds_what_is_near() {
    let hash = SpatialHash::new(&vec![cell(0, 0, 0), cell(5, 0, 0), cell(1, -1, 1)]);
    let mut near = hash.near(cell(0, 0, 0), 1);
    near.sort();
    assert_eq!(near, vec![0, 2]);
    assert_eq!(hash.near(cell(5, 0, 0), 0), vec![1]);
    assert!(hash.near(cell(99, 0, 0), 1).is_empty());
}

#[test]
fn distances_choose_among_candidates() {
    let squared: Vec<u32> = [4.0_f32, 1.0, 1.0, 9.0].map(f32::to_bits).to_vec();
    let candidates = vec![10, 11, 12, 13];
    let limit = 4.0_f32.to_bits();
    assert_eq!(keep_within(&candidates, &squared, limit), vec![10, 11, 12]);
    assert_eq!(nearest_within(&candidates, &squared, limit), Some(12));
    assert_eq!(
        nearest_within(&candidates, &squared, 0.5_f32.to_bits()),
        None
    );
}

#[test]
fn a_refined_pose_keeps_the_scale_of_its_start() {
    let settings = IcpSettings::default();
    let initial = SimilarityTransform {
        scale: 1.7_f32.to_bits(),
        rotation: [1.0_f32, 0.0, 0.0, 0.0, 1.0, 0.0, 0.0, 0.0, 1.0].map(f32::to_bits),
        translation: [0; 3],
    };
    let turned = [3; 9];
    let shifted = [0.0_f32, 0.0, -0.03].map(f32::to_bits);
    let start = icp_start(&settings);
    let still = icp_result(initial, turned, shifted, 5, 6, start);
    assert_eq!(still.transform, initial);
    assert_eq!((still.rms_before, still.rms_after), (5, 5));
    assert_eq!(still.iterations, 0);
    let matched = icp_matched(start, 100, &settings);
    let moved = icp_moved(matched, 6, 0, f32::INFINITY.to_bits(), false, &settings);
    let result = icp_result(initial, turned, shifted, 5, 6, moved);
    assert_eq!(f32::from_bits(result.transform.scale), 1.7);
    assert_eq!(result.transform.rotation, turned);
    assert_eq!(result.transform.translation, shifted);
    assert_eq!((result.rms_before, result.rms_after), (5, 6));
    assert_eq!((result.correspondences, result.iterations, result.rank), (100, 1, 6));
}

#[test]
fn a_match_needs_a_neighbour_with_a_normal() {
    let unit = [0.0_f32, 0.0, 1.0].map(f32::to_bits);
    assert_eq!(estimated_normal(3, 1.0_f64.to_bits(), unit), unit);
    assert_eq!(estimated_normal(2, 1.0_f64.to_bits(), unit), [0; 3]);
    assert_eq!(estimated_normal(3, 0.0_f64.to_bits(), unit), [0; 3]);
    assert_eq!(estimated_normal(3, f64::NAN.to_bits(), unit), [0; 3]);
    let normals = vec![unit, [0.0_f32, -0.0, 0.0].map(f32::to_bits)];
    assert_eq!(plane_match(Some(0), &normals), Some(0));
    assert_eq!(plane_match(Some(1), &normals), None);
    assert_eq!(plane_match(None, &normals), None);
}
