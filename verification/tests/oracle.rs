use vestra::fixture::{CppPr2Fixture, CppPr2Frame};
use vestra::oracle::{CppPr2OracleError, CppPr2StreamBranches};
use vestra::schedule::WindowSettings;
use vestra::stream_output::{CppPr2CapiStreamOutput, CppPr2MultiViewOutput, CppPr2StreamOutput};

fn bits<const N: usize>(values: [f32; N]) -> [u32; N] {
    values.map(f32::to_bits)
}

fn frame() -> CppPr2Frame {
    CppPr2Frame {
        intrinsics: bits([1.0, 0.0, 0.5, 0.0, 1.0, 0.5, 0.0, 0.0, 1.0]),
        world_to_camera: bits([1.0, 0.0, 0.0, 0.0, 0.0, 1.0, 0.0, 0.0, 0.0, 0.0, 1.0, 0.0]),
        depth: vec![2.0_f32.to_bits(); 4],
        confidence: vec![1.0_f32.to_bits(); 4],
        rgb_hwc_u8: vec![2; 12],
    }
}

fn fixture() -> CppPr2Fixture {
    CppPr2Fixture {
        frame_count: 3,
        width: 2,
        height: 2,
        windows: WindowSettings {
            chunk_size: 2,
            overlap: 1,
        },
        confidence_percentile: 55.0_f64.to_bits(),
        point_size: 1.2_f32.to_bits(),
        minimum_overlap_points: 3,
        branches: CppPr2StreamBranches::default(),
        window_views: vec![vec![frame(), frame()], vec![frame(), frame()]],
    }
}

#[test]
fn vps1_is_little_endian_and_rejects_invalid_pixels() {
    let original = fixture();
    let bytes = original.write_vps1().unwrap();
    assert_eq!(&bytes[..4], b"VPS1");
    assert_eq!(&bytes[4..8], &3_u32.to_le_bytes());
    assert_eq!(CppPr2Fixture::read_vps1(&bytes).unwrap(), original);
    let mut invalid = fixture();
    invalid.window_views[0][0].depth.pop();
    assert_eq!(
        invalid.write_vps1(),
        Err(CppPr2OracleError::InconsistentPayload)
    );
}

#[test]
fn vps3_preserves_opt_in_geometry_branches() {
    let mut fixture = fixture();
    fixture.branches = CppPr2StreamBranches {
        icp_refine: true,
        loop_close: true,
    };
    let bytes = fixture.write_vps1().unwrap();
    assert_eq!(&bytes[4..8], &3_u32.to_le_bytes());
    assert_eq!(
        CppPr2Fixture::read_vps1(&bytes).unwrap().branches,
        fixture.branches
    );
}

fn capi_bytes() -> Vec<u8> {
    let mut bytes = Vec::new();
    bytes.extend_from_slice(b"CPS1");
    bytes.extend_from_slice(&1_u32.to_le_bytes());
    bytes.extend_from_slice(&2_u32.to_le_bytes());
    bytes.extend_from_slice(&2_u32.to_le_bytes());
    bytes.extend_from_slice(&2_u32.to_le_bytes());
    for count in [1_i32, 1] {
        bytes.extend_from_slice(&count.to_le_bytes());
    }
    for value in [1.0_f32, 2.0, 3.0, 4.0, 5.0, 6.0] {
        bytes.extend_from_slice(&value.to_le_bytes());
    }
    bytes.extend_from_slice(&[7, 8, 9, 10, 11, 12]);
    for value in [0.1_f32, 0.2] {
        bytes.extend_from_slice(&value.to_le_bytes());
    }
    for value in [0.0_f32, 1.0, 2.0, 3.0, 4.0, 5.0] {
        bytes.extend_from_slice(&value.to_le_bytes());
    }
    for value in [1.0_f32, 0.0, 0.0, 0.0, 1.0, 0.0] {
        bytes.extend_from_slice(&value.to_le_bytes());
    }
    bytes
}

#[test]
fn cps1_reader_preserves_capi_cloud_and_rejects_count_mismatch() {
    let bytes = capi_bytes();
    let parsed = CppPr2CapiStreamOutput::read_cps1(&bytes).unwrap();
    assert_eq!(parsed.counts, vec![1, 1]);
    assert_eq!(
        parsed.xyz,
        bits([1.0, 2.0, 3.0, 4.0, 5.0, 6.0]).to_vec()
    );
    assert_eq!(parsed.rgb, vec![7, 8, 9, 10, 11, 12]);
    assert_eq!(parsed.radius, bits([0.1, 0.2]).to_vec());
    let mut invalid = bytes;
    invalid[20..24].copy_from_slice(&2_i32.to_le_bytes());
    assert_eq!(
        CppPr2CapiStreamOutput::read_cps1(&invalid),
        Err(CppPr2OracleError::InconsistentPayload)
    );
}

#[test]
fn vps2_decodes_without_optional_geometry_branches() {
    let fixture = fixture();
    let v3 = fixture.write_vps1().unwrap();
    let mut v2 = Vec::with_capacity(v3.len() - 4);
    v2.extend_from_slice(&v3[..4]);
    v2.extend_from_slice(&2_u32.to_le_bytes());
    v2.extend_from_slice(&v3[8..44]);
    v2.extend_from_slice(&v3[48..]);
    let decoded = CppPr2Fixture::read_vps1(&v2).unwrap();
    assert_eq!(decoded.branches, CppPr2StreamBranches::default());
    assert_eq!(decoded.window_views, fixture.window_views);
}

fn stream_bytes() -> Vec<u8> {
    let mut bytes = Vec::new();
    bytes.extend_from_slice(b"VPO1");
    for value in [1_u32, 1, 1, 1, 0, 0] {
        bytes.extend_from_slice(&value.to_le_bytes());
    }
    bytes.extend_from_slice(&0_i32.to_le_bytes());
    bytes.extend_from_slice(&0_i32.to_le_bytes());
    bytes.extend_from_slice(&0.0_f32.to_le_bytes());
    bytes.extend_from_slice(&[0_u8; 28]);
    bytes
}

#[test]
fn vpo1_reader_rejects_trailing_bytes() {
    let mut bytes = stream_bytes();
    assert_eq!(
        CppPr2StreamOutput::read_vpo1(&bytes).unwrap().counts,
        vec![0]
    );
    bytes.extend_from_slice(&[9]);
    assert_eq!(
        CppPr2StreamOutput::read_vpo1(&bytes),
        Err(CppPr2OracleError::TrailingBytes)
    );
}

#[test]
fn every_fixture_fault_has_its_error() {
    let bytes = fixture().write_vps1().unwrap();
    let mut magic = bytes.clone();
    magic[0] = b'X';
    assert_eq!(CppPr2Fixture::read_vps1(&magic), Err(CppPr2OracleError::Magic));
    let mut version = bytes.clone();
    version[4] = 9;
    assert_eq!(
        CppPr2Fixture::read_vps1(&version),
        Err(CppPr2OracleError::Version(9))
    );
    assert!(matches!(
        CppPr2Fixture::read_vps1(&bytes[..bytes.len() - 1]),
        Err(CppPr2OracleError::Io(_))
    ));
    let mut longer = bytes;
    longer.push(0);
    assert_eq!(
        CppPr2Fixture::read_vps1(&longer),
        Err(CppPr2OracleError::TrailingBytes)
    );
}

#[test]
fn branch_bits_round_trip_and_unknown_bits_are_refused() {
    for value in 0..4_u32 {
        assert_eq!(CppPr2StreamBranches::from_bits(value).unwrap().bits(), value);
    }
    assert_eq!(
        CppPr2StreamBranches::from_bits(4),
        Err(CppPr2OracleError::InvalidHeader)
    );
}

#[test]
fn a_foreign_artifact_is_no_model_output() {
    assert_eq!(
        CppPr2MultiViewOutput::read_mvo1(&stream_bytes()),
        Err(CppPr2OracleError::Magic)
    );
}

#[test]
fn every_prefix_of_an_artifact_is_truncated() {
    let bytes = fixture().write_vps1().unwrap();
    for length in 0..bytes.len() {
        assert_eq!(
            CppPr2Fixture::read_vps1(&bytes[..length]),
            CppPr2Fixture::read_vps1(&bytes[..bytes.len() - 1])
        );
    }
}
