use vestra::comparison::{
    cloud_kind, compare_clouds, count_reaching, finite_positive_points, percentile_neighbours,
    same_counts, schedules_match, window_shapes_match, CloudKind, DifferenceCounts,
};
use vestra::fixture::{CppPr2Fixture, CppPr2Frame};
use vestra::oracle::CppPr2StreamBranches;
use vestra::ratio::{f32_ratio, range_share};
use vestra::schedule::WindowSettings;
use vestra::stream_output::{CppPr2MultiViewOutput, CppPr2MultiViewView};
use vestra::text::{
    decimal_text, find, is_blank, is_text, padded_decimal_text, parse_usize, same, same_text,
    slice, space, split_fields, split_lines, split_words, stands_at,
};
use vestra::world::FusedPoint;

fn bits(values: &[f32]) -> Vec<u32> {
    values.iter().map(|value| value.to_bits()).collect()
}

#[test]
fn clouds_are_told_apart() {
    assert_eq!(cloud_kind(true, true), CloudKind::Surface);
    assert_eq!(cloud_kind(false, true), CloudKind::LoopClosed);
    assert_eq!(cloud_kind(false, false), CloudKind::Sequential);
}

#[test]
fn only_finite_points_with_extent_count() {
    let xyz = bits(&[0.0, 0.0, 0.0, 1.0, f32::NAN, 1.0, 2.0, 2.0, 2.0]);
    let radius = bits(&[0.1, 0.1, 0.0]);
    assert_eq!(finite_positive_points(&xyz, &radius), 1);
}

#[test]
fn colours_are_compared_where_both_clouds_have_points() {
    let point = |color_srgb| FusedPoint {
        position: [0; 3],
        normal: [0; 3],
        color_srgb,
        confidence: 0,
        radius: 0,
        first_observing_frame: 0,
        contributors: 1,
    };
    let points = vec![point([1, 2, 3]), point([4, 5, 6]), point([7, 8, 9])];
    let agreement = compare_clouds(&points, 2, &vec![1, 2, 3, 4, 5, 7]);
    assert!(!agreement.counts_match);
    assert_eq!((agreement.shared, agreement.rgb_mismatches), (2, 1));
    assert!(same_counts(&vec![1, 2], &vec![1, 2]));
    assert!(!same_counts(&vec![1, 2], &vec![1, 2, 3]));
}

#[test]
fn identical_values_agree_bit_for_bit() {
    let values = bits(&[0.0, 1.5, f32::NAN]);
    let mut counts = DifferenceCounts {
        count: 0,
        bitwise_mismatches: 0,
    };
    counts.extend(&values, &values);
    assert_eq!((counts.count, counts.bitwise_mismatches), (3, 0));
    counts.extend(&bits(&[0.0]), &bits(&[-0.0]));
    assert_eq!((counts.count, counts.bitwise_mismatches), (4, 1));
}

#[test]
fn percentiles_read_two_sorted_neighbours() {
    let values = bits(&[9.0, 1.0, 5.0, 3.0]);
    assert_eq!(
        percentile_neighbours(&values, 1, 2),
        Some((3.0_f32.to_bits(), 5.0_f32.to_bits()))
    );
    assert_eq!(percentile_neighbours(&values, 1, 4), None);
    assert_eq!(count_reaching(&values, 3.0_f32.to_bits()), 3);
}

#[test]
fn ratios_round_to_the_nearest_single() {
    for (n, d) in [(1, 3), (95, 100), (200, 230), (7, 7), (0, 9), (16_777_217, 3)] {
        assert_eq!(f32_ratio(n, d), (n as f32 / d as f32).to_bits(), "{n}/{d}");
    }
    assert_eq!(range_share(1, 1), u64::MAX);
    assert_eq!(range_share(0, 5), 0);
}

#[test]
fn texts_are_cut_and_compared_by_bytes() {
    assert!(space(b' ') && !space(b'x'));
    assert_eq!(slice(b"abcd", 1, 3), b"bc".to_vec());
    assert!(same(b"ab", b"ab") && !same(b"ab", b"abc"));
    assert!(is_text(b"ply", "ply") && !is_text(b"ply", "pl"));
    assert!(same_text("a", "a") && !same_text("a", "b"));
    assert!(stands_at(b"xxab", 2, b"ab") && !stands_at(b"xxab", 3, b"ab"));
    assert_eq!(find(b"one two two", 0, b"two"), Some(4));
    assert_eq!(find(b"one two two", 5, b"two"), Some(8));
    assert_eq!(find(b"one", 0, b"two"), None);
    assert_eq!(split_lines(b"a\r\nb\n"), vec![b"a".to_vec(), b"b".to_vec()]);
    assert_eq!(
        split_words(b" a  b "),
        vec![b"a".to_vec(), b"b".to_vec()]
    );
    assert_eq!(
        split_fields("1 2\tx".as_bytes()),
        vec![b"1".to_vec(), b"2".to_vec(), b"x".to_vec()]
    );
    assert!(is_blank(" \t\u{a0}") && !is_blank(" a "));
}

#[test]
fn numbers_are_read_and_spelled() {
    assert_eq!(parse_usize(b"0042"), Some(42));
    assert_eq!(parse_usize(b"+7"), Some(7));
    assert_eq!(parse_usize(b""), None);
    assert_eq!(parse_usize(b"-1"), None);
    assert_eq!(parse_usize(b"99999999999999999999"), None);
    assert_eq!(decimal_text(0), b"0".to_vec());
    assert_eq!(decimal_text(u64::MAX), b"18446744073709551615".to_vec());
    assert_eq!(padded_decimal_text(7, 6), b"000007".to_vec());
}

fn captured(values: usize) -> CppPr2Frame {
    CppPr2Frame {
        intrinsics: [0; 9],
        world_to_camera: [0; 12],
        depth: vec![0; values],
        confidence: vec![0; values],
        rgb_hwc_u8: vec![0; 3 * values],
    }
}

fn recorded(values: usize) -> CppPr2MultiViewView {
    CppPr2MultiViewView {
        depth: vec![0; values],
        confidence: vec![0; values],
        world_to_camera: [0; 12],
        intrinsics: [0; 9],
    }
}

#[test]
fn recorded_tensors_need_the_schedule_and_shapes_of_the_capture() {
    let fixture = CppPr2Fixture {
        frame_count: 2,
        width: 2,
        height: 1,
        windows: WindowSettings {
            chunk_size: 2,
            overlap: 1,
        },
        confidence_percentile: 0,
        point_size: 0,
        minimum_overlap_points: 3,
        branches: CppPr2StreamBranches::default(),
        window_views: vec![vec![captured(2), captured(2)]],
    };
    let mut output = CppPr2MultiViewOutput {
        frame_count: 2,
        windows: fixture.windows,
        views: vec![vec![recorded(2), recorded(2)]],
        width: 2,
        height: 1,
    };
    assert!(schedules_match(&output, &fixture));
    assert!(window_shapes_match(&output.views[0], &fixture.window_views[0]));
    assert!(!window_shapes_match(&vec![recorded(2)], &fixture.window_views[0]));
    assert!(!window_shapes_match(
        &vec![recorded(2), recorded(3)],
        &fixture.window_views[0]
    ));
    output.width = 3;
    assert!(!schedules_match(&output, &fixture));
}

fn percentile(values: &[f32], percent: f64) -> f32 {
    let place = percent / 100.0 * (values.len() - 1) as f64;
    let (lower, upper) = (place.floor() as usize, place.ceil() as usize);
    let (low, high) = percentile_neighbours(&bits(values), lower, upper).unwrap();
    let (low, high) = (f32::from_bits(low), f32::from_bits(high));
    (f64::from(low) + (place - lower as f64) * f64::from(high - low)) as f32
}

#[test]
fn cpp_pr2_percentile_uses_linear_interpolation() {
    assert_eq!(percentile(&[1.0, 3.0, 5.0, 9.0], 0.0), 1.0);
    assert_eq!(percentile(&[1.0, 3.0, 5.0, 9.0], 100.0), 9.0);
    assert_eq!(percentile(&[9.0, 1.0, 5.0, 3.0], 50.0), 4.0);
}
