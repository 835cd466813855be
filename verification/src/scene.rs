//! Content-addressed scene bundles.
//!
//! Chunks are immutable and become visible before the manifest refers to them.
//! Measured evidence and derived worlds are separate references: publishing a
//! world never touches the measurements.

use vstd::prelude::*;
use vstd::multiset::Multiset;

use crate::digest;
use crate::digest::sha256_hex;
use crate::text;
use crate::text::same_text;

verus! {

/// Whether lengths in a scene have a unit.
#[derive(Debug, Clone, Copy, PartialEq, Eq, Structural)]
pub enum ScaleStatus {
    Relative,
    Metric,
}

/// Where geometry comes from.
#[derive(Debug, Clone, Copy, PartialEq, Eq, Structural)]
pub enum GeometryProvenance {
    Measured,
    Fused,
    Generated,
}

/// What a scene was made with.
#[derive(Debug, Clone, PartialEq, Eq)]
pub struct SceneProvenance {
    pub engine_revision: String,
    pub kernel_revision: String,
    pub model_fingerprint: String,
    pub settings_fingerprint: String,
}

/// What a scene holds, by reference.
#[derive(Debug, Clone, PartialEq, Eq)]
pub struct SceneManifest {
    pub schema: String,
    pub scale: ScaleStatus,
    pub coordinate_convention: String,
    pub provenance: SceneProvenance,
    pub measured_chunk_hashes: Vec<String>,
    /// The derived world built from measured chunks, if there is one yet.
    pub fused_chunk_hash: Option<String>,
}

/// Why a scene bundle cannot be used.
#[derive(Debug, Clone, PartialEq, Eq)]
pub enum SceneBundleError {
    AlreadyExists(String),
    MissingManifest(String),
    Serialize(String),
    Io(String),
}

/// A local scene bundle directory.
#[derive(Debug, Clone, PartialEq, Eq)]
pub struct SceneBundle {
    root: String,
}

/// The manifest of a bundle with nothing in it.
pub open spec fn is_initial(manifest: SceneManifest, provenance: SceneProvenance) -> bool {
    &&& manifest.schema@ == "vestra.scene/v1"@
    &&& manifest.scale == ScaleStatus::Relative
    &&& manifest.coordinate_convention@
        == "right-handed; world coordinates; camera poses are W2C"@
    &&& manifest.provenance == provenance
    &&& manifest.measured_chunk_hashes@.len() == 0
    &&& manifest.fused_chunk_hash is None
}

impl SceneBundle {
    /// The directory of the bundle.
    pub closed spec fn spec_root(self) -> Seq<char> {
        self.root@
    }

    /// Starts a bundle in a directory that does not exist yet. The initial
    /// manifest is already valid.
    pub fn create(root: String, exists: bool, provenance: SceneProvenance) -> (result: Result<
        (Self, SceneManifest),
        SceneBundleError,
    >)
        ensures
            match result {
                Ok((bundle, manifest)) => {
                    &&& !exists
                    &&& bundle.spec_root() == root@
                    &&& is_initial(manifest, provenance)
                    &&& listed_once(manifest.measured_chunk_hashes@)
                },
                Err(e) => exists && e == SceneBundleError::AlreadyExists(root),
            },
    {
        if exists {
            return Err(SceneBundleError::AlreadyExists(root));
        }
        let manifest = SceneManifest {
            schema: "vestra.scene/v1".to_owned(),
            scale: ScaleStatus::Relative,
            coordinate_convention:
                "right-handed; world coordinates; camera poses are W2C".to_owned(),
            provenance,
            measured_chunk_hashes: Vec::new(),
            fused_chunk_hash: None,
        };
        Ok((SceneBundle { root }, manifest))
    }

    /// Opens a bundle whose manifest is a file.
    pub fn open(root: String, manifest_path: String, manifest_is_file: bool) -> (result: Result<
        Self,
        SceneBundleError,
    >)
        ensures
            match result {
                Ok(bundle) => manifest_is_file && bundle.spec_root() == root@,
                Err(e) => !manifest_is_file && e == SceneBundleError::MissingManifest(
                    manifest_path,
                ),
            },
    {
        if !manifest_is_file {
            return Err(SceneBundleError::MissingManifest(manifest_path));
        }
        Ok(SceneBundle { root })
    }

    /// The directory of the bundle.
    pub fn root(&self) -> (root: &str)
        ensures
            root@ == self.spec_root(),
    {
        self.root.as_str()
    }
}

/// Byte-wise lexicographic order.
pub open spec fn precedes(a: Seq<u8>, b: Seq<u8>) -> bool
    decreases a.len(),
{
    if a.len() == 0 {
        true
    } else if b.len() == 0 {
        false
    } else if a[0] != b[0] {
        a[0] < b[0]
    } else {
        precedes(a.skip(1), b.skip(1))
    }
}

/// A list of texts is in order.
pub open spec fn texts_in_order(list: Seq<String>) -> bool {
    forall|i: int, j: int| #![trigger list[i], list[j]]
        0 <= i < j < list.len() ==> precedes(text::utf8(list[i]@), text::utf8(list[j]@))
}

/// A list of texts ascends strictly, so that each text is listed once.
pub open spec fn listed_once(list: Seq<String>) -> bool {
    &&& texts_in_order(list)
    &&& forall|i: int, j: int| #![trigger list[i], list[j]]
        0 <= i < j < list.len() ==> list[i]@ != list[j]@
}

/// What a list of texts holds, without order.
pub open spec fn held(list: Seq<String>) -> Multiset<Seq<char>> {
    contents(list).to_multiset()
}

/// What a list of texts holds.
pub open spec fn contents(list: Seq<String>) -> Seq<Seq<char>> {
    Seq::new(list.len(), |i: int| list[i]@)
}

fn precedes_bytes(a: &[u8], b: &[u8], from: usize) -> (answer: bool)
    requires
        from <= a@.len(),
        from <= b@.len(),
    ensures
        answer == precedes(a@.skip(from as int), b@.skip(from as int)),
    decreases a@.len() - from,
{
    let ghost left = a@.skip(from as int);
    let ghost right = b@.skip(from as int);
    if from == a.len() {
        return true;
    }
    if from == b.len() {
        return false;
    }
    assert(left[0] == a@[from as int] && right[0] == b@[from as int]);
    if a[from] != b[from] {
        return a[from] < b[from];
    }
    assert(left.skip(1) =~= a@.skip(from + 1));
    assert(right.skip(1) =~= b@.skip(from + 1));
    precedes_bytes(a, b, from + 1)
}

fn text_precedes(a: &str, b: &str) -> (answer: bool)
    ensures
        answer == precedes(text::utf8(a@), text::utf8(b@)),
{
    let left: &[u8] = a.as_bytes();
    let right: &[u8] = b.as_bytes();
    assert(left@.skip(0) =~= left@);
    assert(right@.skip(0) =~= right@);
    precedes_bytes(left, right, 0)
}

proof fn lemma_precedes_total(a: Seq<u8>, b: Seq<u8>)
    ensures
        precedes(a, b) || precedes(b, a),
    decreases a.len(),
{
    if a.len() > 0 && b.len() > 0 && a[0] == b[0] {
        lemma_precedes_total(a.skip(1), b.skip(1));
    }
}

proof fn lemma_precedes_transitive(a: Seq<u8>, b: Seq<u8>, c: Seq<u8>)
    requires
        precedes(a, b),
        precedes(b, c),
    ensures
        precedes(a, c),
    decreases a.len(),
{
    if a.len() > 0 && b.len() > 0 && c.len() > 0 && a[0] == b[0] && b[0] == c[0] {
        lemma_precedes_transitive(a.skip(1), b.skip(1), c.skip(1));
    }
}

proof fn lemma_precedes_antisymmetric(a: Seq<u8>, b: Seq<u8>)
    requires
        precedes(a, b),
        precedes(b, a),
    ensures
        a == b,
    decreases a.len(),
{
    if a.len() > 0 && b.len() > 0 {
        lemma_precedes_antisymmetric(a.skip(1), b.skip(1));
        assert(a =~= seq![a[0]] + a.skip(1));
        assert(b =~= seq![b[0]] + b.skip(1));
    } else {
        assert(a =~= b);
    }
}

/// Puts a text into an ordered list.
fn insert_ordered(list: &mut Vec<String>, item: String)
    requires
        texts_in_order(old(list)@),
    ensures
        texts_in_order(final(list)@),
        held(final(list)@) == held(old(list)@).insert(item@),
{
    let ghost before = list@;
    let mut place: usize = 0;
    while place < list.len() && text_precedes(list[place].as_str(), item.as_str())
        invariant
            place <= list@.len(),
            list@ == before,
            forall|i: int| #![trigger list@[i]]
                0 <= i < place ==> precedes(text::utf8(list@[i]@), text::utf8(item@)),
        decreases list@.len() - place,
    {
        place = place + 1;
    }
    proof {
        assert forall|i: int| #![trigger before[i]] place <= i < before.len() implies precedes(
            text::utf8(item@),
            text::utf8(before[i]@),
        ) by {
            lemma_precedes_total(text::utf8(item@), text::utf8(before[place as int]@));
            if i > place {
                lemma_precedes_transitive(
                    text::utf8(item@),
                    text::utf8(before[place as int]@),
                    text::utf8(before[i]@),
                );
            }
        }
        assert(contents(before.insert(place as int, item)) =~= contents(before).insert(
            place as int,
            item@,
        ));
        vstd::seq_lib::to_multiset_insert(contents(before), place as int, item@);
    }
    list.insert(place, item);
}

/// Orders a list of texts.
fn ordered(list: &Vec<String>) -> (result: Vec<String>)
    ensures
        texts_in_order(result@),
        held(result@) == held(list@),
{
    let mut result: Vec<String> = Vec::new();
    proof {
        assert(contents(result@) =~= contents(list@.take(0)));
    }
    for i in 0..list.len()
        invariant
            texts_in_order(result@),
            held(result@) == held(list@.take(i as int)),
    {
        insert_ordered(&mut result, list[i].clone());
        proof {
            let part = list@.take(i as int);
            assert(contents(list@.take(i + 1)) =~= contents(part).push(list@[i as int]@));
            vstd::seq_lib::to_multiset_build(contents(part), list@[i as int]@);
        }
    }
    assert(list@.take(list@.len() as int) =~= list@);
    result
}

/// Some text of a list has these characters.
pub open spec fn lists(list: Seq<String>, item: Seq<char>) -> bool {
    exists|i: int| #![trigger list[i]] 0 <= i < list.len() && list[i]@ == item
}

fn is_listed(list: &Vec<String>, item: &str) -> (answer: bool)
    ensures
        answer == lists(list@, item@),
{
    for i in 0..list.len()
        invariant
            forall|j: int| #![trigger list@[j]] 0 <= j < i ==> list@[j]@ != item@,
    {
        if same_text(list[i].as_str(), item) {
            assert(list@[i as int]@ == item@);
            return true;
        }
    }
    false
}

/// What has to be done to publish a chunk: the payload goes under `file_name`
/// in the chunk directory, unless that file exists, before the manifest is
/// replaced, if it changed.
#[derive(Debug, Clone, PartialEq, Eq)]
pub struct Publication {
    pub hash: String,
    pub file_name: String,
    pub manifest_changed: bool,
}

/// The file of a measured chunk.
pub open spec fn measured_file(hash: Seq<char>) -> Seq<char> {
    hash + ".json"@
}

/// The file of a fused chunk.
pub open spec fn fused_file(hash: Seq<char>) -> Seq<char> {
    "fused-"@ + hash + ".json"@
}

/// Everything but the measured references is unchanged.
pub open spec fn same_but_measured(a: SceneManifest, b: SceneManifest) -> bool {
    &&& a.schema == b.schema
    &&& a.scale == b.scale
    &&& a.coordinate_convention == b.coordinate_convention
    &&& a.provenance == b.provenance
    &&& a.fused_chunk_hash == b.fused_chunk_hash
}

/// Everything but the reference to the derived world is unchanged.
pub open spec fn same_but_world(a: SceneManifest, b: SceneManifest) -> bool {
    &&& a.schema == b.schema
    &&& a.scale == b.scale
    &&& a.coordinate_convention == b.coordinate_convention
    &&& a.provenance == b.provenance
    &&& a.measured_chunk_hashes == b.measured_chunk_hashes
}

/// The manifest refers to the derived world of a digest.
pub open spec fn names_world(manifest: SceneManifest, hash: Seq<char>) -> bool {
    manifest.fused_chunk_hash matches Some(named) && named@ == hash
}

/// The measured references after publishing a chunk: unchanged where the chunk
/// is listed, else in order with the chunk added.
pub open spec fn measured_published(
    before: Seq<String>,
    after: Seq<String>,
    hash: Seq<char>,
) -> bool {
    if lists(before, hash) {
        after == before
    } else {
        texts_in_order(after) && held(after) == held(before).insert(hash)
    }
}

/// The file of a measured chunk.
pub fn measured_chunk_file(hash: &str) -> (name: String)
    ensures
        name@ == measured_file(hash@),
{
    let mut name: String = hash.to_owned();
    name.append(".json");
    name
}

/// The file of a fused chunk.
pub fn fused_chunk_file(hash: &str) -> (name: String)
    ensures
        name@ == fused_file(hash@),
{
    let mut name: String = "fused-".to_owned();
    name.append(hash);
    name.append(".json");
    name
}

impl SceneBundle {
    /// Publishes a measured chunk under the digest of its payload.
    pub fn write_measured_window(&self, manifest: &mut SceneManifest, payload: &[u8]) -> (publication:
        Publication)
        ensures
            publication.hash@ == digest::hex_digest(payload@),
            publication.file_name@ == measured_file(publication.hash@),
            publication.manifest_changed == !lists(
                old(manifest).measured_chunk_hashes@,
                publication.hash@,
            ),
            same_but_measured(*final(manifest), *old(manifest)),
            measured_published(
                old(manifest).measured_chunk_hashes@,
                final(manifest).measured_chunk_hashes@,
                publication.hash@,
            ),
            listed_once(old(manifest).measured_chunk_hashes@) ==> listed_once(
                final(manifest).measured_chunk_hashes@,
            ),
    {
        let ghost before = manifest.measured_chunk_hashes@;
        let hash: String = sha256_hex(payload);
        let file_name: String = measured_chunk_file(hash.as_str());
        if is_listed(&manifest.measured_chunk_hashes, hash.as_str()) {
            return Publication { hash, file_name, manifest_changed: false };
        }
        let mut hashes: Vec<String> = ordered(&manifest.measured_chunk_hashes);
        insert_ordered(&mut hashes, hash.clone());
        proof {
            if listed_once(before) {
                law_publication_lists_once(before, hashes@, hash@);
            }
        }
        manifest.measured_chunk_hashes = hashes;
        Publication { hash, file_name, manifest_changed: true }
    }

    /// Publishes a derived world under the digest of its payload. A later world
    /// replaces only this reference.
    pub fn write_fused_scene(&self, manifest: &mut SceneManifest, payload: &[u8]) -> (publication:
        Publication)
        ensures
            publication.hash@ == digest::hex_digest(payload@),
            publication.file_name@ == fused_file(publication.hash@),
            publication.manifest_changed == !names_world(*old(manifest), publication.hash@),
            names_world(*final(manifest), publication.hash@),
            same_but_world(*final(manifest), *old(manifest)),
            !publication.manifest_changed ==> *final(manifest) == *old(manifest),
    {
        let hash: String = sha256_hex(payload);
        let file_name: String = fused_chunk_file(hash.as_str());
        let current: bool = match &manifest.fused_chunk_hash {
            Some(existing) => same_text(existing.as_str(), hash.as_str()),
            None => false,
        };
        if !current {
            manifest.fused_chunk_hash = Some(hash.clone());
        }
        Publication { hash, file_name, manifest_changed: !current }
    }
}

/// Two provenances agree in all of their parts.
pub open spec fn same_provenance(a: SceneProvenance, b: SceneProvenance) -> bool {
    &&& a.engine_revision@ == b.engine_revision@
    &&& a.kernel_revision@ == b.kernel_revision@
    &&& a.model_fingerprint@ == b.model_fingerprint@
    &&& a.settings_fingerprint@ == b.settings_fingerprint@
}

/// Admits a bundle for resumption: its provenance must match exactly.
pub fn check_resume(recorded: &SceneProvenance, wanted: &SceneProvenance) -> (result: Result<
    (),
    &'static str,
>)
    ensures
        match result {
            Ok(_) => same_provenance(*recorded, *wanted),
            Err(e) => !same_provenance(*recorded, *wanted) && e@
                == "resume bundle provenance does not match this video, model, engine, kernels, or reconstruction settings"@,
        },
{
    if same_text(recorded.engine_revision.as_str(), wanted.engine_revision.as_str()) && same_text(
        recorded.kernel_revision.as_str(),
        wanted.kernel_revision.as_str(),
    ) && same_text(recorded.model_fingerprint.as_str(), wanted.model_fingerprint.as_str())
        && same_text(
        recorded.settings_fingerprint.as_str(),
        wanted.settings_fingerprint.as_str(),
    ) {
        Ok(())
    } else {
        Err(
            "resume bundle provenance does not match this video, model, engine, kernels, or reconstruction settings",
        )
    }
}

/// A published chunk is listed, and so is everything listed before it.
pub proof fn law_publication_keeps_evidence(
    before: Seq<String>,
    after: Seq<String>,
    hash: Seq<char>,
)
    requires
        measured_published(before, after, hash),
    ensures
        lists(after, hash),
        forall|other: Seq<char>| #[trigger] lists(before, other) ==> lists(after, other),
        forall|other: Seq<char>| #[trigger]
            lists(after, other) ==> lists(before, other) || other == hash,
        after.len() == before.len() + (if lists(before, hash) {
            0int
        } else {
            1int
        }),
{
    if !lists(before, hash) {
        lemma_held(before, hash);
        lemma_held(after, hash);
        assert forall|other: Seq<char>| #[trigger] lists(before, other) implies lists(
            after,
            other,
        ) by {
            lemma_held(before, other);
            lemma_held(after, other);
        }
        assert forall|other: Seq<char>| #[trigger] lists(after, other) implies lists(
            before,
            other,
        ) || other == hash by {
            lemma_held(before, other);
            lemma_held(after, other);
        }
        vstd::seq_lib::to_multiset_len(contents(before));
        vstd::seq_lib::to_multiset_len(contents(after));
    }
}

proof fn lemma_held(list: Seq<String>, item: Seq<char>)
    ensures
        lists(list, item) <==> held(list).count(item) > 0,
{
    vstd::seq_lib::to_multiset_contains(contents(list), item);
    if lists(list, item) {
        let i = choose|i: int| #![trigger list[i]] 0 <= i < list.len() && list[i]@ == item;
        assert(contents(list)[i] == item);
    }
    if contents(list).contains(item) {
        let i = choose|i: int| 0 <= i < contents(list).len() && contents(list)[i] == item;
        assert(list[i]@ == item);
    }
}

/// Publishing the same chunk twice is publishing it once.
pub proof fn law_measured_publication_is_idempotent(
    before: Seq<String>,
    once: Seq<String>,
    twice: Seq<String>,
    hash: Seq<char>,
)
    requires
        measured_published(before, once, hash),
        measured_published(once, twice, hash),
    ensures
        twice == once,
{
    law_publication_keeps_evidence(before, once, hash);
}

/// The manifest does not remember in which order two chunks were published.
pub proof fn law_publication_order_is_irrelevant(
    before: Seq<String>,
    left: Seq<String>,
    right: Seq<String>,
    left_then_right: Seq<String>,
    right_then_left: Seq<String>,
    a: Seq<char>,
    b: Seq<char>,
)
    requires
        !lists(before, a),
        !lists(before, b),
        a != b,
        measured_published(before, left, a),
        measured_published(left, left_then_right, b),
        measured_published(before, right, b),
        measured_published(right, right_then_left, a),
    ensures
        contents(left_then_right) == contents(right_then_left),
{
    law_publication_keeps_evidence(before, left, a);
    law_publication_keeps_evidence(before, right, b);
    assert(!lists(left, b));
    assert(!lists(right, a));
    assert(held(before).insert(a).insert(b) =~= held(before).insert(b).insert(a));
    lemma_order_is_unique(left_then_right, right_then_left);
}

proof fn lemma_order_is_unique(x: Seq<String>, y: Seq<String>)
    requires
        texts_in_order(x),
        texts_in_order(y),
        held(x) == held(y),
    ensures
        contents(x) == contents(y),
{
    let leq = |p: Seq<char>, q: Seq<char>| precedes(text::utf8(p), text::utf8(q));
    assert(vstd::relations::total_ordering(leq)) by {
        assert forall|p: Seq<char>| #[trigger] leq(p, p) by {
            lemma_precedes_total(text::utf8(p), text::utf8(p));
        }
        assert forall|p: Seq<char>, q: Seq<char>| #[trigger] leq(p, q) && #[trigger] leq(
            q,
            p,
        ) implies p == q by {
            lemma_precedes_antisymmetric(text::utf8(p), text::utf8(q));
            vstd::utf8::encode_utf8_decode_utf8(p);
            vstd::utf8::encode_utf8_decode_utf8(q);
        }
        assert forall|p: Seq<char>, q: Seq<char>, r: Seq<char>|
            #[trigger] leq(p, q) && #[trigger] leq(q, r) implies leq(p, r) by {
            lemma_precedes_transitive(text::utf8(p), text::utf8(q), text::utf8(r));
        }
        assert forall|p: Seq<char>, q: Seq<char>| #[trigger] leq(p, q) || #[trigger] leq(q, p) by {
            lemma_precedes_total(text::utf8(p), text::utf8(q));
        }
    }
    assert forall|i: int, j: int| 0 <= i < j < contents(x).len() implies #[trigger] leq(
        contents(x)[i],
        contents(x)[j],
    ) by {
        assert(precedes(text::utf8(x[i]@), text::utf8(x[j]@)));
    }
    assert forall|i: int, j: int| 0 <= i < j < contents(y).len() implies #[trigger] leq(
        contents(y)[i],
        contents(y)[j],
    ) by {
        assert(precedes(text::utf8(y[i]@), text::utf8(y[j]@)));
    }
    vstd::seq_lib::lemma_sorted_unique(contents(x), contents(y), leq);
}

/// Publishing a chunk keeps each reference listed once, in strictly ascending
/// order.
pub proof fn law_publication_lists_once(before: Seq<String>, after: Seq<String>, hash: Seq<char>)
    requires
        listed_once(before),
        measured_published(before, after, hash),
    ensures
        listed_once(after),
{
    if !lists(before, hash) {
        let old_items = contents(before);
        let items = contents(after);
        assert(old_items.no_duplicates()) by {
            assert forall|i: int, j: int| 0 <= i < j < old_items.len() implies old_items[i]
                != old_items[j] by {
                assert(before[i]@ != before[j]@);
            }
        }
        old_items.lemma_multiset_has_no_duplicates();
        lemma_held(before, hash);
        assert forall|item: Seq<char>| items.to_multiset().contains(item) implies
            items.to_multiset().count(item) == 1 by {
            if item != hash {
                assert(old_items.to_multiset().contains(item));
            }
        }
        items.lemma_multiset_has_no_duplicates_conv();
        assert forall|i: int, j: int| #![trigger after[i], after[j]]
            0 <= i < j < after.len() implies after[i]@ != after[j]@ by {
            assert(items[i] != items[j]);
        }
    }
}

/// What is published in a bundle: the payload of a measured chunk or of a derived
/// world.
pub enum Published {
    Measured(Seq<u8>),
    World(Seq<u8>),
}

/// The bytes that are published.
pub open spec fn payload_of(publication: Published) -> Seq<u8> {
    match publication {
        Published::Measured(payload) => payload,
        Published::World(payload) => payload,
    }
}

/// The file that they are published under.
pub open spec fn file_of(publication: Published) -> Seq<char> {
    match publication {
        Published::Measured(payload) => measured_file(digest::hex_digest(payload)),
        Published::World(payload) => fused_file(digest::hex_digest(payload)),
    }
}

/// A bundle as it stands: its manifest, and its chunk files by name.
pub struct BundleModel {
    pub manifest: SceneManifest,
    pub files: Map<Seq<char>, Seq<u8>>,
}

/// The chunk files of a bundle after a publication: the payload stands under its
/// name, unless that file exists already.
pub open spec fn files_after(
    files: Map<Seq<char>, Seq<u8>>,
    name: Seq<char>,
    payload: Seq<u8>,
) -> Map<Seq<char>, Seq<u8>> {
    if files.dom().contains(name) {
        files
    } else {
        files.insert(name, payload)
    }
}

/// A bundle before and after a publication.
pub open spec fn publishes(
    before: BundleModel,
    after: BundleModel,
    publication: Published,
) -> bool {
    let hash = digest::hex_digest(payload_of(publication));
    &&& after.files == files_after(before.files, file_of(publication), payload_of(publication))
    &&& match publication {
        Published::Measured(_) => same_but_measured(after.manifest, before.manifest)
            && measured_published(
            before.manifest.measured_chunk_hashes@,
            after.manifest.measured_chunk_hashes@,
            hash,
        ),
        Published::World(_) => same_but_world(after.manifest, before.manifest) && names_world(
            after.manifest,
            hash,
        ),
    }
}

/// The states of a bundle that was created and changed by these publications only.
pub open spec fn is_history(
    states: Seq<BundleModel>,
    publications: Seq<Published>,
    provenance: SceneProvenance,
) -> bool {
    &&& states.len() == publications.len() + 1
    &&& is_initial(states[0].manifest, provenance)
    &&& states[0].files == Map::<Seq<char>, Seq<u8>>::empty()
    &&& forall|i: int|
        0 <= i < publications.len() ==> publishes(
            states[i],
            states[i + 1],
            #[trigger] publications[i],
        )
}

/// Some measured chunk among the publications has this digest.
pub open spec fn was_measured(publications: Seq<Published>, hash: Seq<char>) -> bool {
    exists|i: int|
        #![trigger publications[i]]
        0 <= i < publications.len() && (publications[i] matches Published::Measured(payload)
            && digest::hex_digest(payload) == hash)
}

proof fn lemma_shorter_history(
    states: Seq<BundleModel>,
    publications: Seq<Published>,
    provenance: SceneProvenance,
)
    requires
        is_history(states, publications, provenance),
        publications.len() > 0,
    ensures
        is_history(states.drop_last(), publications.drop_last(), provenance),
        states.drop_last().last() == states[publications.len() - 1],
        publishes(states[publications.len() - 1], states.last(), publications.last()),
{
    let earlier = states.drop_last();
    let few = publications.drop_last();
    assert forall|i: int| 0 <= i < few.len() implies publishes(
        earlier[i],
        earlier[i + 1],
        #[trigger] few[i],
    ) by {
        assert(publishes(states[i], states[i + 1], publications[i]));
    }
    let last = publications.len() - 1;
    assert(publishes(states[last], states[last + 1], publications[last]));
}

/// Whatever is published in a created bundle, and however often, its manifest
/// lists each measured chunk once, in strictly ascending order, and nothing else.
pub proof fn law_bundle_lists_each_chunk_once(
    states: Seq<BundleModel>,
    publications: Seq<Published>,
    provenance: SceneProvenance,
)
    requires
        is_history(states, publications, provenance),
    ensures
        listed_once(states.last().manifest.measured_chunk_hashes@),
        forall|hash: Seq<char>| #[trigger]
            lists(states.last().manifest.measured_chunk_hashes@, hash) <==> was_measured(
                publications,
                hash,
            ),
    decreases publications.len(),
{
    let listed = states.last().manifest.measured_chunk_hashes@;
    if publications.len() > 0 {
        let last = publications.len() - 1;
        let few = publications.drop_last();
        let before = states[last].manifest.measured_chunk_hashes@;
        lemma_shorter_history(states, publications, provenance);
        law_bundle_lists_each_chunk_once(states.drop_last(), few, provenance);
        if let Published::Measured(payload) = publications[last] {
            let hash = digest::hex_digest(payload);
            law_publication_lists_once(before, listed, hash);
            law_publication_keeps_evidence(before, listed, hash);
        }
        assert forall|hash: Seq<char>| #[trigger] lists(listed, hash) <==> was_measured(
            publications,
            hash,
        ) by {
            assert(lists(before, hash) <==> was_measured(few, hash));
            if was_measured(few, hash) {
                let i = choose|i: int|
                    #![trigger few[i]]
                    0 <= i < few.len() && (few[i] matches Published::Measured(payload)
                        && digest::hex_digest(payload) == hash);
                assert(publications[i] == few[i]);
            }
            if was_measured(publications, hash) {
                let i = choose|i: int|
                    #![trigger publications[i]]
                    0 <= i < publications.len() && (publications[i] matches Published::Measured(
                        payload,
                    ) && digest::hex_digest(payload) == hash);
                if i < last {
                    assert(few[i] == publications[i]);
                }
            }
        }
    }
}

/// The digest of the last world among the publications.
pub open spec fn last_world(publications: Seq<Published>) -> Option<Seq<char>>
    decreases publications.len(),
{
    if publications.len() == 0 {
        None
    } else {
        match publications.last() {
            Published::World(payload) => Some(digest::hex_digest(payload)),
            Published::Measured(_) => last_world(publications.drop_last()),
        }
    }
}

/// A created bundle refers to the world that was published last, if there is one,
/// and keeps everything else that it was created with.
pub proof fn law_bundle_names_its_last_world(
    states: Seq<BundleModel>,
    publications: Seq<Published>,
    provenance: SceneProvenance,
)
    requires
        is_history(states, publications, provenance),
    ensures
        match last_world(publications) {
            Some(hash) => names_world(states.last().manifest, hash),
            None => states.last().manifest.fused_chunk_hash is None,
        },
        states.last().manifest.schema == states[0].manifest.schema,
        states.last().manifest.scale == states[0].manifest.scale,
        states.last().manifest.coordinate_convention == states[0].manifest.coordinate_convention,
        states.last().manifest.provenance == provenance,
    decreases publications.len(),
{
    if publications.len() > 0 {
        lemma_shorter_history(states, publications, provenance);
        law_bundle_names_its_last_world(
            states.drop_last(),
            publications.drop_last(),
            provenance,
        );
    }
}

/// Two publications go under one name only where they are of one kind and have one
/// digest.
proof fn lemma_file_names(a: Published, b: Published)
    requires
        file_of(a) == file_of(b),
    ensures
        a is World <==> b is World,
        digest::hex_digest(payload_of(a)) == digest::hex_digest(payload_of(b)),
{
    let left = digest::hex_digest(payload_of(a));
    let right = digest::hex_digest(payload_of(b));
    reveal_strlit("fused-");
    reveal_strlit(".json");
    match (a, b) {
        (Published::Measured(_), Published::Measured(_)) => {
            let name = measured_file(left);
            let other = measured_file(right);
            assert(name == other);
            assert(name.len() == left.len() + 5 && other.len() == right.len() + 5);
            assert(name.take(left.len() as int) =~= left);
            assert(other.take(right.len() as int) =~= right);
        },
        (Published::World(_), Published::World(_)) => {
            let name = fused_file(left);
            let other = fused_file(right);
            assert(name == other);
            assert(name.len() == left.len() + 11 && other.len() == right.len() + 11);
            assert(name.skip(6).take(left.len() as int) =~= left);
            assert(other.skip(6).take(right.len() as int) =~= right);
        },
        (Published::Measured(_), Published::World(_)) => {
            lemma_kinds_differ(left, right);
        },
        (Published::World(_), Published::Measured(_)) => {
            lemma_kinds_differ(right, left);
        },
    }
}

/// The file of a digest as a measured chunk is never the file of a world.
proof fn lemma_kinds_differ(hash: Seq<char>, other: Seq<char>)
    requires
        exists|bytes: Seq<u8>| hash == #[trigger] digest::hex_of(bytes),
    ensures
        measured_file(hash) != fused_file(other),
{
    let name = measured_file(hash);
    let world = fused_file(other);
    reveal_strlit("fused-");
    reveal_strlit(".json");
    assert(world[0] == 'f' && world[1] == 'u');
    if hash.len() == 0 {
        assert(name[0] == '.');
    } else {
        assert(name[1] == hash[1]);
        assert(hash[1] != 'u');
    }
}

/// No other payload of the same kind among the publications has the digest of
/// publication `i`.
pub open spec fn digest_is_its_own(publications: Seq<Published>, i: int) -> bool {
    forall|j: int|
        0 <= j < publications.len() && file_of(#[trigger] publications[j]) == file_of(
            publications[i],
        ) ==> payload_of(publications[j]) == payload_of(publications[i])
}

/// Everything that was ever published in a created bundle reads back, measured
/// chunks and worlds alike, whatever was published after it: its file has its
/// digest, and holds its very bytes unless other bytes with the same digest were
/// published too.
pub proof fn law_published_chunks_read_back(
    states: Seq<BundleModel>,
    publications: Seq<Published>,
    provenance: SceneProvenance,
    i: int,
)
    requires
        is_history(states, publications, provenance),
        0 <= i < publications.len(),
    ensures
        ({
            let files = states.last().files;
            let name = file_of(publications[i]);
            &&& files.dom().contains(name)
            &&& digest::hex_digest(files[name]) == digest::hex_digest(payload_of(publications[i]))
            &&& digest_is_its_own(publications, i) ==> files[name] == payload_of(publications[i])
        }),
{
    let name = file_of(publications[i]);
    lemma_files_are_published(states, publications, provenance);
    lemma_files_are_kept(states, publications, provenance, i);
    let j = choose|j: int|
        0 <= j < publications.len() && file_of(#[trigger] publications[j]) == name && payload_of(
            publications[j],
        ) == states.last().files[name];
    lemma_file_names(publications[j], publications[i]);
}

/// Every file of a created bundle was published under its name.
proof fn lemma_files_are_published(
    states: Seq<BundleModel>,
    publications: Seq<Published>,
    provenance: SceneProvenance,
)
    requires
        is_history(states, publications, provenance),
    ensures
        forall|name: Seq<char>| #[trigger]
            states.last().files.dom().contains(name) ==> exists|j: int|
                0 <= j < publications.len() && file_of(#[trigger] publications[j]) == name
                    && payload_of(publications[j]) == states.last().files[name],
    decreases publications.len(),
{
    if publications.len() > 0 {
        let last = publications.len() - 1;
        let few = publications.drop_last();
        lemma_shorter_history(states, publications, provenance);
        lemma_files_are_published(states.drop_last(), few, provenance);
        let before = states[last].files;
        let after = states.last().files;
        assert forall|name: Seq<char>| #[trigger] after.dom().contains(name) implies exists|j: int|
            0 <= j < publications.len() && file_of(#[trigger] publications[j]) == name
                && payload_of(publications[j]) == after[name] by {
            if before.dom().contains(name) {
                let j = choose|j: int|
                    0 <= j < few.len() && file_of(#[trigger] few[j]) == name && payload_of(few[j])
                        == before[name];
                assert(file_of(publications[j]) == name);
            } else {
                assert(file_of(publications[last]) == name);
            }
        }
    }
}

/// A file stays once it was published.
proof fn lemma_files_are_kept(
    states: Seq<BundleModel>,
    publications: Seq<Published>,
    provenance: SceneProvenance,
    i: int,
)
    requires
        is_history(states, publications, provenance),
        0 <= i < publications.len(),
    ensures
        states.last().files.dom().contains(file_of(publications[i])),
    decreases publications.len(),
{
    lemma_shorter_history(states, publications, provenance);
    if i < publications.len() - 1 {
        lemma_files_are_kept(states.drop_last(), publications.drop_last(), provenance, i);
    }
}

/// A publication is there to be read: its file holds the payload unless it was
/// there before, and every other file, those of older worlds and of measured chunks
/// among them, is as it was. Publishing under the name again changes no file.
pub proof fn law_publication_touches_one_file(
    before: BundleModel,
    after: BundleModel,
    publication: Published,
    again: Seq<u8>,
)
    requires
        publishes(before, after, publication),
    ensures
        ({
            let name = file_of(publication);
            &&& after.files.dom().contains(name)
            &&& after.files[name] == (if before.files.dom().contains(name) {
                before.files[name]
            } else {
                payload_of(publication)
            })
            &&& forall|other: Seq<char>|
                #![trigger after.files.dom().contains(other)]
                other != name ==> (after.files.dom().contains(other)
                    <==> before.files.dom().contains(other)) && (before.files.dom().contains(
                    other,
                ) ==> after.files[other] == before.files[other])
            &&& files_after(after.files, name, again) == after.files
        }),
{
}

/// Publishing a world touches no measured chunk and no older world: they read as
/// before, and the manifest lists the same measured chunks.
pub proof fn law_worlds_leave_measurements(
    before: BundleModel,
    after: BundleModel,
    world: Seq<u8>,
    chunk: Seq<u8>,
    older: Seq<u8>,
)
    requires
        publishes(before, after, Published::World(world)),
    ensures
        after.manifest.measured_chunk_hashes == before.manifest.measured_chunk_hashes,
        ({
            let name = measured_file(digest::hex_digest(chunk));
            &&& after.files.dom().contains(name) <==> before.files.dom().contains(name)
            &&& before.files.dom().contains(name) ==> after.files[name] == before.files[name]
        }),
        ({
            let name = fused_file(digest::hex_digest(older));
            before.files.dom().contains(name) ==> after.files.dom().contains(name)
                && after.files[name] == before.files[name]
        }),
{
    lemma_kinds_differ(digest::hex_digest(chunk), digest::hex_digest(world));
}

/// Publishing the same bytes again changes nothing: no file, and nothing that the
/// manifest says.
pub proof fn law_publishing_again_changes_nothing(
    before: BundleModel,
    once: BundleModel,
    twice: BundleModel,
    publication: Published,
)
    requires
        publishes(before, once, publication),
        publishes(once, twice, publication),
    ensures
        twice.files == once.files,
        twice.manifest.measured_chunk_hashes@ == once.manifest.measured_chunk_hashes@,
        match (once.manifest.fused_chunk_hash, twice.manifest.fused_chunk_hash) {
            (Some(a), Some(b)) => a@ == b@,
            (None, None) => true,
            _ => false,
        },
        twice.manifest.schema == once.manifest.schema,
        twice.manifest.scale == once.manifest.scale,
        twice.manifest.coordinate_convention == once.manifest.coordinate_convention,
        twice.manifest.provenance == once.manifest.provenance,
{
    if let Published::Measured(payload) = publication {
        law_measured_publication_is_idempotent(
            before.manifest.measured_chunk_hashes@,
            once.manifest.measured_chunk_hashes@,
            twice.manifest.measured_chunk_hashes@,
            digest::hex_digest(payload),
        );
    }
}

/// Texts are ordered as in a dictionary: one precedes another where it is the beginning
/// of it, or where its byte is the smaller one at the first place where they differ.
pub proof fn law_texts_are_ordered_as_in_a_dictionary(a: Seq<u8>, b: Seq<u8>, k: int)
    requires
        0 <= k <= a.len(),
        k <= b.len(),
        forall|i: int| 0 <= i < k ==> #[trigger] a[i] == b[i],
    ensures
        k == a.len() ==> precedes(a, b),
        k == b.len() && k < a.len() ==> !precedes(a, b),
        k < a.len() && k < b.len() && a[k] < b[k] ==> precedes(a, b),
        k < a.len() && k < b.len() && a[k] > b[k] ==> !precedes(a, b),
    decreases k,
{
    if k > 0 {
        assert(a[0] == b[0]);
        assert forall|i: int| 0 <= i < k - 1 implies #[trigger] a.skip(1)[i] == b.skip(1)[i] by {
            assert(a[i + 1] == b[i + 1]);
        }
        law_texts_are_ordered_as_in_a_dictionary(a.skip(1), b.skip(1), k - 1);
    }
}

} // verus!
