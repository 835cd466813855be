use vestra::digest::{hex_text, sha256_hex};
use vestra::scene::{
    check_resume, fused_chunk_file, measured_chunk_file, ScaleStatus, SceneBundle,
    SceneBundleError, SceneProvenance,
};

fn provenance() -> SceneProvenance {
    SceneProvenance {
        engine_revision: "engine-test".to_owned(),
        kernel_revision: "kernel-test".to_owned(),
        model_fingerprint: "model-test".to_owned(),
        settings_fingerprint: "settings-test".to_owned(),
    }
}

const MEASURED: &[u8] = b"{\"window\":{\"index\":0,\"start\":0,\"end\":2},\"views\":[]}";
const FUSED: &[u8] = b"{\"alignments\":[],\"voxel_size\":0.25,\"points\":[]}";

#[test]
fn measured_chunks_are_content_addressed_and_idempotently_published() {
    let (bundle, mut manifest) =
        SceneBundle::create("scene".to_owned(), false, provenance()).unwrap();
    let first = bundle.write_measured_window(&mut manifest, MEASURED);
    let second = bundle.write_measured_window(&mut manifest, MEASURED);
    assert_eq!(first.hash, second.hash);
    assert!(first.manifest_changed);
    assert!(!second.manifest_changed);
    assert_eq!(manifest.measured_chunk_hashes, vec![first.hash.clone()]);
    assert_eq!(first.hash, sha256_hex(MEASURED));
    assert_eq!(first.file_name, measured_chunk_file(&first.hash));
}

#[test]
fn bundle_open_requires_an_atomic_manifest() {
    assert!(matches!(
        SceneBundle::open("scene".to_owned(), "scene/world-list".to_owned(), false),
        Err(SceneBundleError::MissingManifest(_))
    ));
    let bundle =
        SceneBundle::open("scene".to_owned(), "scene/world-list".to_owned(), true).unwrap();
    assert_eq!(bundle.root(), "scene");
}

#[test]
fn fused_scene_is_content_addressed_without_replacing_measured_evidence() {
    let (bundle, mut manifest) =
        SceneBundle::create("scene".to_owned(), false, provenance()).unwrap();
    let measured = bundle.write_measured_window(&mut manifest, MEASURED);
    let fused = bundle.write_fused_scene(&mut manifest, FUSED);
    assert_eq!(manifest.measured_chunk_hashes, vec![measured.hash.clone()]);
    assert_eq!(
        manifest.fused_chunk_hash.as_deref(),
        Some(fused.hash.as_str())
    );
    assert_eq!(fused.file_name, fused_chunk_file(&fused.hash));
    assert_ne!(measured.file_name, fused.file_name);
}

#[test]
fn publication_order_does_not_matter() {
    let publish = |payloads: [&[u8]; 2]| {
        let (bundle, mut manifest) =
            SceneBundle::create("scene".to_owned(), false, provenance()).unwrap();
        for payload in payloads {
            bundle.write_measured_window(&mut manifest, payload);
        }
        manifest.measured_chunk_hashes
    };
    assert_eq!(publish([b"one", b"two"]), publish([b"two", b"one"]));
}

#[test]
fn a_new_bundle_is_relative_and_empty() {
    let (_, manifest) = SceneBundle::create("scene".to_owned(), false, provenance()).unwrap();
    assert_eq!(manifest.scale, ScaleStatus::Relative);
    assert!(manifest.measured_chunk_hashes.is_empty());
    assert_eq!(manifest.fused_chunk_hash, None);
    assert!(matches!(
        SceneBundle::create("scene".to_owned(), true, provenance()),
        Err(SceneBundleError::AlreadyExists(_))
    ));
}

#[test]
fn resuming_needs_the_recorded_provenance() {
    assert_eq!(check_resume(&provenance(), &provenance()), Ok(()));
    let mut other = provenance();
    other.model_fingerprint = "another-model".to_owned();
    assert!(check_resume(&provenance(), &other).is_err());
}

#[test]
fn digests_are_the_published_ones() {
    assert_eq!(
        sha256_hex(b""),
        "e3b0c44298fc1c149afbf4c8996fb92427ae41e4649b934ca495991b7852b855"
    );
    assert_eq!(
        sha256_hex(b"abc"),
        "ba7816bf8f01cfea414140de5dae2223b00361a396177a9cb410ff61f20015ad"
    );
    assert_eq!(hex_text(&[0x00, 0x0f, 0xa5, 0xff]), "000fa5ff");
}

#[test]
fn a_bundle_lists_each_chunk_once_in_ascending_order() {
    let (bundle, mut manifest) =
        SceneBundle::create("scene".to_owned(), false, provenance()).unwrap();
    for payload in [&b"d"[..], b"a", b"c", b"a", b"b", b"d", b"e"] {
        bundle.write_measured_window(&mut manifest, payload);
        bundle.write_fused_scene(&mut manifest, payload);
    }
    assert_eq!(manifest.measured_chunk_hashes.len(), 5);
    assert!(manifest
        .measured_chunk_hashes
        .windows(2)
        .all(|pair| pair[0] < pair[1]));
}

#[test]
fn everything_published_stays_readable_by_its_name() {
    let (bundle, mut manifest) =
        SceneBundle::create("scene".to_owned(), false, provenance()).unwrap();
    let mut files: Vec<(String, Vec<u8>)> = Vec::new();
    let mut published = Vec::new();
    for payload in [&b"a"[..], b"b", b"a", b"c"] {
        for publication in [
            bundle.write_measured_window(&mut manifest, payload),
            bundle.write_fused_scene(&mut manifest, payload),
        ] {
            if files.iter().all(|(name, _)| *name != publication.file_name) {
                files.push((publication.file_name.clone(), payload.to_vec()));
            }
            published.push((publication.file_name, payload));
        }
        let world = manifest.fused_chunk_hash.clone().unwrap();
        assert_eq!(world, sha256_hex(payload));
    }
    assert_eq!(files.len(), 6);
    for (name, payload) in published {
        let stored = files.iter().find(|(stored, _)| *stored == name).unwrap();
        assert_eq!(stored.1, payload);
    }
    assert_eq!(manifest.measured_chunk_hashes.len(), 3);
}
