use vestra::export::{
    export_fused_glb, export_fused_ply, exported_chunk, glb_buffer, glb_container, pad_binary,
    position_bounds, CornerText, ExportError, PlyRow,
};
use vestra::world::{surfel_is_sound, FusedPoint};

fn point() -> FusedPoint {
    FusedPoint {
        position: [1.0_f32, 2.0, 3.0].map(f32::to_bits),
        normal: [0.0_f32, 0.0, 1.0].map(f32::to_bits),
        color_srgb: [4, 5, 6],
        confidence: 0.7_f32.to_bits(),
        radius: 0.2_f32.to_bits(),
        first_observing_frame: -1,
        contributors: 3,
    }
}

fn text(value: u32) -> String {
    format!("{}", f32::from_bits(value))
}

fn row(point: &FusedPoint) -> PlyRow {
    PlyRow {
        x: text(point.position[0]),
        y: text(point.position[1]),
        z: text(point.position[2]),
        nx: text(point.normal[0]),
        ny: text(point.normal[1]),
        nz: text(point.normal[2]),
        color_srgb: point.color_srgb,
        confidence: text(point.confidence),
        radius: text(point.radius),
        contributors: point.contributors,
    }
}

#[test]
fn export_preserves_relative_world_attributes_in_ply() {
    let rows = vec![row(&point())];
    let document = String::from_utf8(export_fused_ply(&rows)).unwrap();
    assert!(document.contains("comment Vestra relative-scale fused world"));
    assert!(document.contains("element vertex 1\n"));
    assert!(document.ends_with("1 2 3 0 0 1 4 5 6 0.7 0.2 3\n"));
}

fn corner(values: [u32; 3]) -> CornerText {
    let spell = |value: u32| {
        serde_json::to_string(&serde_json::Value::from(f32::from_bits(value))).unwrap()
    };
    CornerText {
        x: spell(values[0]),
        y: spell(values[1]),
        z: spell(values[2]),
    }
}

fn glb_of(points: &Vec<FusedPoint>) -> Vec<u8> {
    let (low, high) = position_bounds(points);
    export_fused_glb(points, &corner(low), &corner(high)).unwrap()
}

#[test]
fn glb_export_is_a_gltf2_point_cloud_with_relative_metadata() {
    let glb = glb_of(&vec![point()]);
    assert_eq!(&glb[..4], b"glTF");
    assert_eq!(u32::from_le_bytes(glb[4..8].try_into().unwrap()), 2);
    assert_eq!(
        u32::from_le_bytes(glb[8..12].try_into().unwrap()) as usize,
        glb.len()
    );
    let json_length = u32::from_le_bytes(glb[12..16].try_into().unwrap()) as usize;
    let json: serde_json::Value = serde_json::from_slice(&glb[20..20 + json_length]).unwrap();
    assert_eq!(json["meshes"][0]["primitives"][0]["mode"], 0);
    assert_eq!(json["extras"]["vestra_scale"], "relative");
}

#[test]
fn glb_documents_are_compact_with_ordered_keys() {
    let mut other = point();
    other.position = [0.1_f32, -7.5, 3.0].map(f32::to_bits);
    let glb = glb_of(&vec![point(), other]);
    let json_length = u32::from_le_bytes(glb[12..16].try_into().unwrap()) as usize;
    let document = &glb[20..20 + json_length];
    let json: serde_json::Value = serde_json::from_slice(document).unwrap();
    let again = serde_json::to_vec(&json).unwrap();
    assert_eq!(&document[..again.len()], again.as_slice());
    assert!(document[again.len()..].iter().all(|byte| *byte == b' '));
    assert_eq!(json["accessors"][0]["count"], 2);
    assert_eq!(json["accessors"][0]["min"][1], -7.5);
    assert_eq!(json["accessors"][2]["normalized"], true);
    assert_eq!(json["bufferViews"][2]["byteOffset"], 48);
    assert_eq!(json["bufferViews"][2]["byteLength"], 6);
    assert_eq!(json["buffers"][0]["byteLength"], 56);
    assert_eq!(json["asset"]["version"], "2.0");
}

#[test]
fn a_container_frames_any_document() {
    let glb = glb_container(&b"{}".to_vec(), &vec![1, 2, 3, 4]).unwrap();
    assert_eq!(&glb[20..24], b"{}  ");
    assert_eq!(&glb[32..], &[1, 2, 3, 4]);
}

#[test]
fn glb_attributes_are_packed_one_after_another() {
    let buffer = glb_buffer(&vec![point(), point()]);
    assert_eq!(buffer.positions_offset, 0);
    assert_eq!(buffer.normals_offset, 24);
    assert_eq!(buffer.colors_offset, 48);
    assert_eq!(&buffer.binary[..4], &1.0_f32.to_le_bytes());
    assert_eq!(&buffer.binary[32..36], &1.0_f32.to_le_bytes());
    assert_eq!(buffer.binary.len() % 4, 0);
    let mut odd = vec![1, 2, 3, 4, 5];
    pad_binary(&mut odd);
    assert_eq!(odd.len(), 8);
}

#[test]
fn bounds_span_every_position() {
    let mut other = point();
    other.position = [-4.0_f32, 9.0, 3.0].map(f32::to_bits);
    let (low, high) = position_bounds(&vec![point(), other]);
    assert_eq!(low.map(f32::from_bits), [-4.0, 2.0, 3.0]);
    assert_eq!(high.map(f32::from_bits), [1.0, 9.0, 3.0]);
}

#[test]
fn only_fused_bundles_can_be_exported() {
    assert_eq!(exported_chunk(&None), Err(ExportError::MissingFusedWorld));
    assert_eq!(
        exported_chunk(&Some("hash".to_string())),
        Ok("hash".to_string())
    );
}

#[test]
fn a_surfel_without_extent_is_unsound() {
    assert!(surfel_is_sound(&point()));
    let mut flat = point();
    flat.radius = 0;
    assert!(!surfel_is_sound(&flat));
    let mut lost = point();
    lost.position[1] = f32::NAN.to_bits();
    assert!(!surfel_is_sound(&lost));
}
