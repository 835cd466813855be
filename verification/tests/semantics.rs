use vestra::semantics::{
    select_point, select_verified_floor_and_walls, ArchitectureClass, ArchitectureEvidenceError,
    ArchitectureSemanticEvidence, ArchitectureSemanticFrame, ArchitectureSemanticVolume,
    RasterSighting, Selection, VolumeProblem, Votes,
};
use vestra::world::FusedPoint;

fn point(position: [f32; 3]) -> FusedPoint {
    FusedPoint {
        position: position.map(f32::to_bits),
        normal: [0.0_f32, 0.0, 1.0].map(f32::to_bits),
        color_srgb: [180, 170, 160],
        confidence: 1.0_f32.to_bits(),
        radius: 0.01_f32.to_bits(),
        first_observing_frame: 4,
        contributors: 1,
    }
}

fn volume_bytes(width: u32, height: u32, frames: &[u32], classes: &[u8], sure: &[u8]) -> Vec<u8> {
    let mut bytes = b"VSEM1".to_vec();
    for value in [frames.len() as u32, width, height] {
        bytes.extend(value.to_le_bytes());
    }
    for value in frames {
        bytes.extend(value.to_le_bytes());
    }
    bytes.extend(classes);
    bytes.extend(sure);
    bytes
}

#[test]
fn semantic_volume_reads_exact_frame_pixel_labels() {
    let mut bytes = b"VSEM1".to_vec();
    for value in [2_u32, 2, 1, 3, 9] {
        bytes.extend(value.to_le_bytes());
    }
    bytes.extend([
        ArchitectureClass::Wall.code(),
        ArchitectureClass::DoorOrOpening.code(),
        ArchitectureClass::Floor.code(),
        ArchitectureClass::CeilingOrRoof.code(),
    ]);
    bytes.extend([255, 128, 64, 0]);
    let volume = ArchitectureSemanticVolume::read(&bytes).unwrap();
    assert_eq!(volume.dimensions(), (2, 1));
    assert_eq!(
        volume.sample(3, 1, 0),
        Some((
            ArchitectureClass::DoorOrOpening,
            (128.0_f32 / 255.0).to_bits()
        ))
    );
    assert_eq!(
        volume.sample(9, 0, 0),
        Some((ArchitectureClass::Floor, (64.0_f32 / 255.0).to_bits()))
    );
    assert_eq!(volume.sample(3, 2, 0), None);
}

#[test]
fn semantic_selection_requires_two_floor_or_wall_views_and_rejects_openings() {
    let floor = ArchitectureClass::Floor.code();
    let door = ArchitectureClass::DoorOrOpening.code();
    let mut classes = vec![floor; 8];
    classes.extend([door; 8]);
    let bytes = volume_bytes(2, 2, &[0, 1, 2, 3], &classes, &[255; 16]);
    let semantic = ArchitectureSemanticVolume::read(&bytes).unwrap();
    let sightings = |frames: usize| {
        vec![(0..frames)
            .map(|frame_index| RasterSighting {
                frame_index,
                x: 0,
                y: 0,
            })
            .collect::<Vec<_>>()]
    };
    let select = |frames: usize| {
        select_verified_floor_and_walls(
            &vec![point([0.0, 0.0, 1.0])],
            &semantic,
            &sightings(frames),
            (2, 2),
            true,
            0.65_f32.to_bits(),
            2,
        )
    };
    let selected = select(4);
    assert!(selected.floor_points.is_empty());
    assert_eq!(selected.rejected_points, 1);
    let agreed = select(2);
    assert_eq!(agreed.floor_points.len(), 1);
    assert_eq!(agreed.rejected_points, 0);
    let single = select(1);
    assert!(single.floor_points.is_empty());
}

fn evidence() -> ArchitectureSemanticEvidence {
    ArchitectureSemanticEvidence {
        schema: "vestra.architecture-semantics/v1".to_owned(),
        runner: "vestra-semantics/0.1".to_owned(),
        model_id: "local/indoor-scene-parser".to_owned(),
        model_revision: "0123456789abcdef".to_owned(),
        model_license: "research-only".to_owned(),
        frames: vec![ArchitectureSemanticFrame {
            frame_index: 7,
            width: 2,
            height: 2,
            classes: vec![
                ArchitectureClass::Wall,
                ArchitectureClass::DoorOrOpening,
                ArchitectureClass::Floor,
                ArchitectureClass::CeilingOrRoof,
            ],
            confidences: [0.99_f32, 0.95, 0.9, 0.9].map(f32::to_bits).to_vec(),
        }],
    }
}

#[test]
fn semantic_evidence_requires_exact_rasters_and_model_provenance() {
    let evidence = evidence();
    evidence.validate().unwrap();
    assert_eq!(
        evidence.frames[0].sample(1, 0),
        Some((ArchitectureClass::DoorOrOpening, 0.95_f32.to_bits()))
    );
    assert!(ArchitectureClass::Wall.supports_surface());
    assert!(ArchitectureClass::DoorOrOpening.is_opening());

    let mut malformed = evidence;
    malformed.frames[0].confidences.pop();
    assert!(matches!(
        malformed.validate(),
        Err(ArchitectureEvidenceError::MalformedFrame { frame_index: 7 })
    ));
}

#[test]
fn every_evidence_fault_is_told_apart() {
    let mut schema = evidence();
    schema.schema = "other".to_owned();
    assert!(matches!(
        schema.validate(),
        Err(ArchitectureEvidenceError::UnsupportedSchema { .. })
    ));
    let mut anonymous = evidence();
    anonymous.model_license = "  ".to_owned();
    assert!(matches!(
        anonymous.validate(),
        Err(ArchitectureEvidenceError::MissingProvenance)
    ));
    let mut twice = evidence();
    let frame = twice.frames[0].clone();
    twice.frames.push(frame);
    assert!(matches!(
        twice.validate(),
        Err(ArchitectureEvidenceError::UnorderedFrames)
    ));
}

#[test]
fn class_codes_name_classes() {
    for code in 0..=6_u8 {
        assert_eq!(ArchitectureClass::from_code(code).unwrap().code(), code);
    }
    assert_eq!(ArchitectureClass::from_code(7), None);
}

#[test]
fn broken_volumes_are_refused() {
    let problem = |bytes: &[u8]| match ArchitectureSemanticVolume::read(bytes) {
        Err(ArchitectureEvidenceError::InvalidBinary(problem)) => problem,
        _ => panic!("the volume should be refused"),
    };
    assert_eq!(problem(b"VSEM"), VolumeProblem::MissingHeader);
    let mut short = volume_bytes(1, 1, &[0], &[1], &[9]);
    short.pop();
    assert_eq!(problem(&short), VolumeProblem::UnexpectedLength);
    assert_eq!(
        problem(&volume_bytes(1, 1, &[4, 4], &[1, 1], &[9, 9])),
        VolumeProblem::UnorderedOrUnknown
    );
    assert_eq!(
        problem(&volume_bytes(1, 1, &[4], &[99], &[9])),
        VolumeProblem::UnorderedOrUnknown
    );
}

#[test]
fn an_opening_vetoes_a_surface() {
    let votes = |floor, wall, opening| Votes {
        floor,
        wall,
        opening,
    };
    assert_eq!(select_point(&votes(3, 0, 0), 2), Selection::Floor);
    assert_eq!(select_point(&votes(0, 3, 0), 2), Selection::Wall);
    assert_eq!(select_point(&votes(3, 0, 2), 2), Selection::Rejected);
    assert_eq!(select_point(&votes(1, 0, 0), 2), Selection::Rejected);
}
