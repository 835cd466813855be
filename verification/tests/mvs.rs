use vestra::mvs::{
    import_colmap_fused_ply, imported_normal, imported_points, MeasuredNormal, MvsImportError,
    PlyProblem, PlyVertex,
};

const HEADER: &[u8] = b"ply\nformat binary_little_endian 1.0\nelement vertex 2\nproperty float x\nproperty float y\nproperty float z\nproperty float nx\nproperty float ny\nproperty float nz\nproperty uchar red\nproperty uchar green\nproperty uchar blue\nend_header\n";

fn normal(vertex: &PlyVertex) -> [f32; 3] {
    let raw = vertex.normal.map(f32::from_bits);
    let length = (raw[0] * raw[0] + raw[1] * raw[1] + raw[2] * raw[2]).sqrt();
    imported_normal(length.to_bits(), raw.map(|value| (value / length).to_bits()))
        .map(f32::from_bits)
}

fn cloud() -> Vec<u8> {
    let mut bytes = HEADER.to_vec();
    for (position, normal, color) in [
        ([0.0_f32, 0.0, 0.0], [0.0, 3.0, 4.0], [1, 2, 3]),
        ([2.0_f32, 0.0, 0.0], [0.0, 0.0, 0.0], [4, 5, 6]),
    ] {
        for value in position.into_iter().chain(normal) {
            bytes.extend(value.to_le_bytes());
        }
        bytes.extend(color);
    }
    bytes
}

#[test]
fn imports_binary_colmap_vertices_and_normalizes_normals() {
    let vertices = import_colmap_fused_ply(&cloud()).unwrap();
    assert_eq!(vertices.len(), 2);
    assert_eq!(vertices[0].color_srgb, [1, 2, 3]);
    assert_eq!(normal(&vertices[0]), [0.0, 0.6, 0.8]);
    assert_eq!(normal(&vertices[1]), [0.0; 3]);
    assert_eq!(vertices[1].position.map(f32::from_bits), [2.0, 0.0, 0.0]);
    let normals: Vec<MeasuredNormal> = vertices
        .iter()
        .map(|vertex| {
            let raw = vertex.normal.map(f32::from_bits);
            let length = (raw[0] * raw[0] + raw[1] * raw[1] + raw[2] * raw[2]).sqrt();
            MeasuredNormal {
                length: length.to_bits(),
                unit: raw.map(|value| (value / length).to_bits()),
            }
        })
        .collect();
    let points = imported_points(&vertices, &normals, (2.0_f32 * 0.0007).to_bits());
    assert_eq!(points.len(), 2);
    assert_eq!(points[0].color_srgb, [1, 2, 3]);
    assert_eq!(points[0].normal.map(f32::from_bits), [0.0, 0.6, 0.8]);
    assert_eq!(points[1].normal.map(f32::from_bits), [0.0; 3]);
    assert!(points.iter().all(|point| f32::from_bits(point.radius) > 0.0));
}

#[test]
fn an_unknown_property_changes_nothing() {
    let known = "property float z\n";
    let header = String::from_utf8(HEADER.to_vec()).unwrap();
    let wider = header.replace(known, &format!("{known}property uchar label\n"));
    let mut bytes = wider.into_bytes();
    for record in cloud()[HEADER.len()..].chunks(27) {
        bytes.extend(&record[..12]);
        bytes.push(77);
        bytes.extend(&record[12..]);
    }
    assert_eq!(
        import_colmap_fused_ply(&bytes).unwrap(),
        import_colmap_fused_ply(&cloud()).unwrap()
    );
}

#[test]
fn an_unknown_number_may_stand_before_the_others() {
    let first = "element vertex 2\n";
    let header = String::from_utf8(HEADER.to_vec()).unwrap();
    let wider = header.replace(first, &format!("{first}property\tfloat32  gr\u{f6}\u{df}e\r\n"));
    let mut bytes = wider.into_bytes();
    for record in cloud()[HEADER.len()..].chunks(27) {
        bytes.extend(f32::NAN.to_le_bytes());
        bytes.extend(record);
    }
    assert_eq!(
        import_colmap_fused_ply(&bytes).unwrap(),
        import_colmap_fused_ply(&cloud()).unwrap()
    );
}

fn fault(bytes: &[u8]) -> MvsImportError {
    match import_colmap_fused_ply(bytes) {
        Err(error) => error,
        Ok(_) => panic!("the document should be refused"),
    }
}

#[test]
fn every_broken_document_has_its_reason() {
    let invalid = MvsImportError::Invalid;
    assert_eq!(fault(b"ply\n"), invalid(PlyProblem::MissingEndHeader));
    assert_eq!(
        fault(b"ply\xff\nend_header\n"),
        invalid(PlyProblem::HeaderNotUtf8)
    );
    assert_eq!(
        fault(b"ply\nformat ascii 1.0\nend_header\n"),
        invalid(PlyProblem::UnsupportedFormat)
    );
    assert_eq!(
        fault(b"ply\nelement vertex many\nend_header\n"),
        invalid(PlyProblem::InvalidVertexCount)
    );
    assert_eq!(
        fault(b"ply\nelement vertex 1\nproperty list uchar int a\nend_header\n"),
        invalid(PlyProblem::ListProperty)
    );
    assert_eq!(
        fault(b"ply\nelement vertex 1\nproperty double x\nend_header\n"),
        MvsImportError::UnsupportedType(b"double".to_vec())
    );
    assert_eq!(
        fault(b"element vertex 1\nend_header\n"),
        invalid(PlyProblem::MissingMagic)
    );
    assert_eq!(
        fault(b"ply\nend_header\n"),
        invalid(PlyProblem::MissingVertexElement)
    );
    assert_eq!(
        fault(b"ply\nelement vertex 1\nproperty float x\nend_header\n"),
        invalid(PlyProblem::TruncatedPayload)
    );
    assert_eq!(
        fault(b"ply\nelement vertex 1\nproperty float y\nend_header\n\0\0\0\0"),
        invalid(PlyProblem::MissingX)
    );
    assert_eq!(
        fault(b"ply\nelement vertex 1\nproperty uchar x\nproperty uchar y\nproperty uchar z\nend_header\n\0\0\0"),
        invalid(PlyProblem::PositionsNotF32)
    );
    assert_eq!(
        fault(b"ply\nelement vertex 0\nproperty float x\nproperty float y\nproperty float z\nend_header\n"),
        invalid(PlyProblem::NoFiniteVertices)
    );
    assert_eq!(PlyProblem::MissingEndHeader.message(), "missing end_header");
}

#[test]
fn vertices_without_a_finite_place_are_left_out() {
    let mut bytes = cloud();
    let start = HEADER.len();
    bytes[start..start + 4].copy_from_slice(&f32::INFINITY.to_le_bytes());
    let vertices = import_colmap_fused_ply(&bytes).unwrap();
    assert_eq!(vertices.len(), 1);
    assert_eq!(vertices[0].color_srgb, [4, 5, 6]);
}

#[test]
fn imported_points_share_one_radius() {
    let vertices = import_colmap_fused_ply(&cloud()).unwrap();
    let normals = vec![
        MeasuredNormal {
            length: 5.0_f32.to_bits(),
            unit: [0.0_f32, 0.6, 0.8].map(f32::to_bits),
        },
        MeasuredNormal {
            length: 0.0_f32.to_bits(),
            unit: [f32::NAN; 3].map(f32::to_bits),
        },
    ];
    let points = imported_points(&vertices, &normals, (2.0_f32 / 4_096.0).to_bits());
    assert_eq!(points.len(), 2);
    assert_eq!(points[0].normal.map(f32::from_bits), [0.0, 0.6, 0.8]);
    assert_eq!(points[1].normal.map(f32::from_bits), [0.0; 3]);
    assert_eq!(points[1].position.map(f32::from_bits), [2.0, 0.0, 0.0]);
    for point in &points {
        assert_eq!(f32::from_bits(point.radius), 2.0 / 4_096.0);
        assert_eq!(f32::from_bits(point.confidence), 1.0);
        assert_eq!(point.first_observing_frame, -1);
        assert_eq!(point.contributors, 1);
    }
    let small = imported_points(&vertices, &normals, 0.0_f32.to_bits());
    assert_eq!(f32::from_bits(small[0].radius), 1e-5);
    let unknown = imported_points(&vertices, &normals, f32::NAN.to_bits());
    assert_eq!(f32::from_bits(unknown[0].radius), 1e-5);
}
