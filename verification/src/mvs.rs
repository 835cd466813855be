//! Import boundary for dense multi-view-stereo point clouds.
//!
//! The accepted input is a binary little-endian PLY with scalar vertex
//! properties. Unknown scalar properties are stepped over; they never change
//! the vertex stride silently.

use vstd::prelude::*;

use crate::ieee;
use crate::order;
use crate::text;
use crate::text::{find, is_text, parse_usize, split_lines, split_words, stands_at};
use crate::wire;
use crate::wire::ByteReader;
use crate::world::FusedPoint;

verus! {

/// What is wrong with a PLY document.
#[derive(Debug, Clone, Copy, PartialEq, Eq, Structural)]
pub enum PlyProblem {
    MissingEndHeader,
    HeaderNotUtf8,
    UnsupportedFormat,
    InvalidVertexCount,
    ListProperty,
    MissingMagic,
    MissingVertexElement,
    TruncatedPayload,
    MissingX,
    MissingY,
    MissingZ,
    PositionsNotF32,
    NoFiniteVertices,
}

impl PlyProblem {
    /// The human-readable reason.
    pub fn message(&self) -> (reason: &'static str)
        ensures
            reason@ == (match self {
                PlyProblem::MissingEndHeader => "missing end_header"@,
                PlyProblem::HeaderNotUtf8 => "header is not UTF-8"@,
                PlyProblem::UnsupportedFormat => "only binary_little_endian PLY is supported"@,
                PlyProblem::InvalidVertexCount => "invalid vertex count"@,
                PlyProblem::ListProperty => "list-valued vertex properties are unsupported"@,
                PlyProblem::MissingMagic => "missing ply magic"@,
                PlyProblem::MissingVertexElement => "missing vertex element"@,
                PlyProblem::TruncatedPayload => "truncated vertex payload"@,
                PlyProblem::MissingX => "missing x"@,
                PlyProblem::MissingY => "missing y"@,
                PlyProblem::MissingZ => "missing z"@,
                PlyProblem::PositionsNotF32 => "positions must be f32"@,
                PlyProblem::NoFiniteVertices => "no finite vertices"@,
            }),
    {
        match self {
            PlyProblem::MissingEndHeader => "missing end_header",
            PlyProblem::HeaderNotUtf8 => "header is not UTF-8",
            PlyProblem::UnsupportedFormat => "only binary_little_endian PLY is supported",
            PlyProblem::InvalidVertexCount => "invalid vertex count",
            PlyProblem::ListProperty => "list-valued vertex properties are unsupported",
            PlyProblem::MissingMagic => "missing ply magic",
            PlyProblem::MissingVertexElement => "missing vertex element",
            PlyProblem::TruncatedPayload => "truncated vertex payload",
            PlyProblem::MissingX => "missing x",
            PlyProblem::MissingY => "missing y",
            PlyProblem::MissingZ => "missing z",
            PlyProblem::PositionsNotF32 => "positions must be f32",
            PlyProblem::NoFiniteVertices => "no finite vertices",
        }
    }
}

/// Why a cloud was not imported.
#[derive(Debug, PartialEq, Eq)]
pub enum MvsImportError {
    /// The document could not be read.
    Io(String),
    /// A vertex property of a type that has no fixed meaning here; the type is
    /// given as the document spells it.
    UnsupportedType(Vec<u8>),
    /// The document is not a cloud of the accepted kind.
    Invalid(PlyProblem),
}

/// The meaning of an [`MvsImportError`].
pub enum MvsFault {
    Io(Seq<char>),
    UnsupportedType(Seq<u8>),
    Invalid(PlyProblem),
}

impl View for MvsImportError {
    type V = MvsFault;

    open spec fn view(&self) -> MvsFault {
        match self {
            MvsImportError::Io(message) => MvsFault::Io(message@),
            MvsImportError::UnsupportedType(kind) => MvsFault::UnsupportedType(kind@),
            MvsImportError::Invalid(problem) => MvsFault::Invalid(*problem),
        }
    }
}

/// The scalar types of a vertex property.
#[derive(Debug, Clone, Copy, PartialEq, Eq, Structural)]
pub enum Scalar {
    F32,
    U8,
}

/// Bytes of one scalar.
pub open spec fn scalar_width(scalar: Scalar) -> int {
    match scalar {
        Scalar::F32 => 4,
        Scalar::U8 => 1,
    }
}

impl Scalar {
    /// Bytes of one scalar.
    pub fn width(self) -> (bytes: usize)
        ensures
            bytes == scalar_width(self),
    {
        match self {
            Scalar::F32 => 4,
            Scalar::U8 => 1,
        }
    }
}

/// The scalar type that a property type names.
pub open spec fn scalar_named(kind: Seq<u8>) -> Option<Scalar> {
    if kind == text::utf8("float"@) || kind == text::utf8("float32"@) {
        Some(Scalar::F32)
    } else if kind == text::utf8("uchar"@) || kind == text::utf8("uint8"@) {
        Some(Scalar::U8)
    } else {
        None
    }
}

/// One vertex property: its type and its name.
pub struct PlyProperty {
    pub scalar: Scalar,
    pub name: Vec<u8>,
}

/// What a header has declared so far.
pub struct PlyHeader {
    pub vertex_count: Option<usize>,
    pub in_vertex: bool,
    pub properties: Vec<PlyProperty>,
}

/// The contents of a [`PlyHeader`].
#[verifier::ext_equal]
pub struct HeaderModel {
    pub vertex_count: Option<int>,
    pub in_vertex: bool,
    pub properties: Seq<(Scalar, Seq<u8>)>,
}

impl View for PlyHeader {
    type V = HeaderModel;

    open spec fn view(&self) -> HeaderModel {
        HeaderModel {
            vertex_count: match self.vertex_count {
                Some(count) => Some(count as int),
                None => None,
            },
            in_vertex: self.in_vertex,
            properties: properties_model(self.properties@),
        }
    }
}

/// The contents of a property list.
pub open spec fn properties_model(list: Seq<PlyProperty>) -> Seq<(Scalar, Seq<u8>)> {
    Seq::new(list.len(), |i: int| (list[i].scalar, list[i].name@))
}

/// What one header line, given as its words, declares.
pub open spec fn header_step(state: HeaderModel, fields: Seq<Seq<u8>>) -> Result<
    HeaderModel,
    MvsFault,
> {
    if fields.len() == 0 {
        Ok(state)
    } else if fields[0] == text::utf8("format"@) {
        if fields.len() == 3 && fields[1] == text::utf8("binary_little_endian"@) && fields[2]
            == text::utf8("1.0"@) {
            Ok(state)
        } else {
            Err(MvsFault::Invalid(PlyProblem::UnsupportedFormat))
        }
    } else if fields[0] == text::utf8("element"@) {
        if fields.len() == 3 && fields[1] == text::utf8("vertex"@) {
            match text::decimal_up_to(fields[2], usize::MAX as int) {
                Some(count) => Ok(
                    HeaderModel { vertex_count: Some(count), in_vertex: true, ..state },
                ),
                None => Err(MvsFault::Invalid(PlyProblem::InvalidVertexCount)),
            }
        } else {
            Ok(HeaderModel { in_vertex: false, ..state })
        }
    } else if fields[0] == text::utf8("property"@) && state.in_vertex {
        if fields.len() == 3 {
            match scalar_named(fields[1]) {
                Some(scalar) => Ok(
                    HeaderModel { properties: state.properties.push((scalar, fields[2])), ..state },
                ),
                None => Err(MvsFault::UnsupportedType(fields[1])),
            }
        } else if fields.len() >= 2 && fields[1] == text::utf8("list"@) {
            Err(MvsFault::Invalid(PlyProblem::ListProperty))
        } else {
            Ok(state)
        }
    } else {
        Ok(state)
    }
}

/// A header with nothing declared.
pub open spec fn blank_header() -> HeaderModel {
    HeaderModel { vertex_count: None, in_vertex: false, properties: Seq::empty() }
}

/// What the first `count` lines of a header declare.
pub open spec fn header_after(lines: Seq<Seq<u8>>, count: int) -> Result<HeaderModel, MvsFault>
    decreases count,
{
    if count <= 0 {
        Ok(blank_header())
    } else {
        match header_after(lines, count - 1) {
            Ok(state) => header_step(state, text::words(lines[count - 1])),
            Err(fault) => Err(fault),
        }
    }
}

/// Bytes of the first `count` properties of a vertex record.
pub open spec fn record_offset(properties: Seq<(Scalar, Seq<u8>)>, count: int) -> int
    decreases count,
{
    if count <= 0 {
        0
    } else {
        record_offset(properties, count - 1) + scalar_width(properties[count - 1].0)
    }
}

/// Bytes of one vertex record.
pub open spec fn record_size(properties: Seq<(Scalar, Seq<u8>)>) -> int {
    record_offset(properties, properties.len() as int)
}

/// The first property from `from` on with a name.
pub open spec fn property_from(
    properties: Seq<(Scalar, Seq<u8>)>,
    name: Seq<u8>,
    from: int,
) -> Option<int>
    decreases properties.len() - from,
{
    if from >= properties.len() {
        None
    } else if properties[from].1 == name {
        Some(from)
    } else {
        property_from(properties, name, from + 1)
    }
}

/// The first property with a name.
pub open spec fn property_named(properties: Seq<(Scalar, Seq<u8>)>, name: Seq<char>) -> Option<
    int,
> {
    property_from(properties, text::utf8(name), 0)
}

/// The first property with a name, or else the first with its other name.
pub open spec fn property_either(
    properties: Seq<(Scalar, Seq<u8>)>,
    name: Seq<char>,
    other: Seq<char>,
) -> Option<int> {
    match property_named(properties, name) {
        Some(index) => Some(index),
        None => property_named(properties, other),
    }
}

/// Where in a record a property stands, if it exists with that type.
pub open spec fn place_of(
    properties: Seq<(Scalar, Seq<u8>)>,
    index: Option<int>,
    scalar: Scalar,
) -> Option<int> {
    match index {
        Some(i) => if properties[i].0 == scalar {
            Some(record_offset(properties, i))
        } else {
            None
        },
        None => None,
    }
}

/// A binary32 property of the record at a place; zero where it is missing.
pub open spec fn f32_or_zero(bytes: Seq<u8>, at: int, place: Option<int>) -> u32 {
    match place {
        Some(offset) => wire::u32_at(bytes, at + offset),
        None => 0,
    }
}

/// A byte property of the record at a place; full where it is missing.
pub open spec fn u8_or_full(bytes: Seq<u8>, at: int, place: Option<int>) -> u8 {
    match place {
        Some(offset) => bytes[at + offset],
        None => 255,
    }
}

/// A vertex as the document records it; its normal need not have unit length.
#[derive(Debug, Clone, Copy, PartialEq, Eq)]
pub struct PlyVertex {
    pub position: [u32; 3],
    pub normal: [u32; 3],
    pub color_srgb: [u8; 3],
}

/// The contents of a [`PlyVertex`].
#[verifier::ext_equal]
pub struct VertexModel {
    pub position: Seq<u32>,
    pub normal: Seq<u32>,
    pub color: Seq<u8>,
}

impl View for PlyVertex {
    type V = VertexModel;

    open spec fn view(&self) -> VertexModel {
        VertexModel {
            position: self.position@,
            normal: self.normal@,
            color: self.color_srgb@,
        }
    }
}

/// The contents of a vertex list.
pub open spec fn vertices_model(list: Seq<PlyVertex>) -> Seq<VertexModel> {
    Seq::new(list.len(), |i: int| list[i]@)
}

/// The vertex record at a place.
pub open spec fn vertex_at(
    bytes: Seq<u8>,
    at: int,
    properties: Seq<(Scalar, Seq<u8>)>,
) -> VertexModel {
    let number = |index: Option<int>|
        f32_or_zero(bytes, at, place_of(properties, index, Scalar::F32));
    let level = |index: Option<int>| u8_or_full(bytes, at, place_of(properties, index, Scalar::U8));
    VertexModel {
        position: seq![
            number(property_named(properties, "x"@)),
            number(property_named(properties, "y"@)),
            number(property_named(properties, "z"@)),
        ],
        normal: seq![
            number(property_either(properties, "nx"@, "normal_x"@)),
            number(property_either(properties, "ny"@, "normal_y"@)),
            number(property_either(properties, "nz"@, "normal_z"@)),
        ],
        color: seq![
            level(property_either(properties, "red"@, "r"@)),
            level(property_either(properties, "green"@, "g"@)),
            level(property_either(properties, "blue"@, "b"@)),
        ],
    }
}

/// The first `count` vertex records that have a finite position, in order.
pub open spec fn finite_vertices(
    bytes: Seq<u8>,
    start: int,
    properties: Seq<(Scalar, Seq<u8>)>,
    count: int,
) -> Seq<VertexModel>
    decreases count,
{
    if count <= 0 {
        Seq::empty()
    } else {
        let before = finite_vertices(bytes, start, properties, count - 1);
        let vertex = vertex_at(bytes, start + (count - 1) * record_size(properties), properties);
        if ieee::f32_all_finite(vertex.position) {
            before.push(vertex)
        } else {
            before
        }
    }
}

/// What the records behind a header are as a cloud.
pub open spec fn parse_records(bytes: Seq<u8>, start: int, header: HeaderModel) -> Result<
    Seq<VertexModel>,
    MvsFault,
> {
    let properties = header.properties;
    let x = property_named(properties, "x"@);
    let y = property_named(properties, "y"@);
    let z = property_named(properties, "z"@);
    match header.vertex_count {
        None => Err(MvsFault::Invalid(PlyProblem::MissingVertexElement)),
        Some(count) => {
            let vertices = finite_vertices(bytes, start, properties, count);
            if record_size(properties) == 0 || bytes.len() - start < count * record_size(
                properties,
            ) {
                Err(MvsFault::Invalid(PlyProblem::TruncatedPayload))
            } else if x is None {
                Err(MvsFault::Invalid(PlyProblem::MissingX))
            } else if y is None {
                Err(MvsFault::Invalid(PlyProblem::MissingY))
            } else if z is None {
                Err(MvsFault::Invalid(PlyProblem::MissingZ))
            } else if place_of(properties, x, Scalar::F32) is None || place_of(
                properties,
                y,
                Scalar::F32,
            ) is None || place_of(properties, z, Scalar::F32) is None {
                Err(MvsFault::Invalid(PlyProblem::PositionsNotF32))
            } else if vertices.len() == 0 {
                Err(MvsFault::Invalid(PlyProblem::NoFiniteVertices))
            } else {
                Ok(vertices)
            }
        },
    }
}

/// What a header declares.
pub open spec fn declared_by(header: Seq<u8>) -> Result<HeaderModel, MvsFault> {
    let lines = text::lines(header);
    header_after(lines, lines.len() as int)
}

/// What a document with a header that ends at `start` is as a cloud.
pub open spec fn parse_document(bytes: Seq<u8>, start: int) -> Result<
    Seq<VertexModel>,
    MvsFault,
> {
    let header = bytes.take(start);
    if !vstd::utf8::valid_utf8(header) {
        Err(MvsFault::Invalid(PlyProblem::HeaderNotUtf8))
    } else {
        match declared_by(header) {
            Err(fault) => Err(fault),
            Ok(declared) => if !text::matches_at(header, 0, text::utf8("ply\n"@)) {
                Err(MvsFault::Invalid(PlyProblem::MissingMagic))
            } else {
                parse_records(bytes, start, declared)
            },
        }
    }
}

/// `result` is what a byte sequence is as a cloud. The header ends behind the
/// first `end_header` that is followed by a line feed.
pub open spec fn is_import(bytes: Seq<u8>, result: Result<Seq<VertexModel>, MvsFault>) -> bool {
    let marker = end_marker();
    &&& text::no_match(bytes, 0, marker) ==> result == Err::<Seq<VertexModel>, MvsFault>(
        MvsFault::Invalid(PlyProblem::MissingEndHeader),
    )
    &&& forall|at: int| #[trigger]
        text::is_first_match(bytes, 0, marker, at) ==> result == parse_document(
            bytes,
            at + marker.len(),
        )
}

/// The scalar type that a property type names.
fn scalar_for(kind: &Vec<u8>) -> (scalar: Option<Scalar>)
    ensures
        scalar == scalar_named(kind@),
{
    if is_text(kind.as_slice(), "float") || is_text(kind.as_slice(), "float32") {
        Some(Scalar::F32)
    } else if is_text(kind.as_slice(), "uchar") || is_text(kind.as_slice(), "uint8") {
        Some(Scalar::U8)
    } else {
        None
    }
}

/// Takes in one header line.
fn read_header_line(header: &mut PlyHeader, line: &Vec<u8>) -> (result: Result<(), MvsImportError>)
    ensures
        match header_step(old(header)@, text::words(line@)) {
            Ok(state) => result is Ok && final(header)@ == state,
            Err(fault) => result matches Err(e) && e@ == fault,
        },
{
    let fields: Vec<Vec<u8>> = split_words(line.as_slice());
    let ghost model = text::pieces(fields@);
    let ghost before = header@;
    if fields.len() == 0 {
        return Ok(());
    }
    assert(model[0] == fields@[0]@);
    if is_text(fields[0].as_slice(), "format") {
        if fields.len() == 3 && is_text(fields[1].as_slice(), "binary_little_endian") && is_text(
            fields[2].as_slice(),
            "1.0",
        ) {
            return Ok(());
        }
        return Err(MvsImportError::Invalid(PlyProblem::UnsupportedFormat));
    }
    if is_text(fields[0].as_slice(), "element") {
        if fields.len() == 3 && is_text(fields[1].as_slice(), "vertex") {
            match parse_usize(fields[2].as_slice()) {
                Some(count) => {
                    header.vertex_count = Some(count);
                    header.in_vertex = true;
                    assert(header@ =~= HeaderModel {
                        vertex_count: Some(count as int),
                        in_vertex: true,
                        ..before
                    });
                    return Ok(());
                },
                None => return Err(MvsImportError::Invalid(PlyProblem::InvalidVertexCount)),
            }
        }
        header.in_vertex = false;
        assert(header@ =~= HeaderModel { in_vertex: false, ..before });
        return Ok(());
    }
    if is_text(fields[0].as_slice(), "property") && header.in_vertex {
        if fields.len() == 3 {
            match scalar_for(&fields[1]) {
                Some(scalar) => {
                    let name: Vec<u8> = text::slice(fields[2].as_slice(), 0, fields[2].len());
                    assert(name@ =~= model[2]);
                    header.properties.push(PlyProperty { scalar, name });
                    assert(header@.properties =~= before.properties.push((scalar, model[2])));
                    return Ok(());
                },
                None => {
                    let kind: Vec<u8> = text::slice(fields[1].as_slice(), 0, fields[1].len());
                    assert(kind@ =~= model[1]);
                    return Err(MvsImportError::UnsupportedType(kind));
                },
            }
        }
        if fields.len() >= 2 && is_text(fields[1].as_slice(), "list") {
            return Err(MvsImportError::Invalid(PlyProblem::ListProperty));
        }
    }
    Ok(())
}

proof fn lemma_header_fault_persists(lines: Seq<Seq<u8>>, few: int, many: int)
    requires
        few <= many,
        header_after(lines, few) is Err,
    ensures
        header_after(lines, many) == header_after(lines, few),
    decreases many,
{
    if few < many {
        lemma_header_fault_persists(lines, few, many - 1);
    }
}

/// Takes in every line of a header.
fn read_header(bytes: &[u8]) -> (result: Result<PlyHeader, MvsImportError>)
    ensures
        match declared_by(bytes@) {
            Ok(state) => result matches Ok(header) && header@ == state,
            Err(fault) => result matches Err(e) && e@ == fault,
        },
{
    let list: Vec<Vec<u8>> = split_lines(bytes);
    let ghost lines = text::lines(bytes@);
    let mut header = PlyHeader { vertex_count: None, in_vertex: false, properties: Vec::new() };
    assert(header@ =~= blank_header());
    for i in 0..list.len()
        invariant
            lines == text::lines(bytes@),
            text::pieces(list@) == lines,
            header_after(lines, i as int) == Ok::<HeaderModel, MvsFault>(header@),
    {
        assert(lines[i as int] == list@[i as int]@);
        match read_header_line(&mut header, &list[i]) {
            Ok(_) => {},
            Err(e) => {
                proof {
                    lemma_header_fault_persists(lines, i + 1, lines.len() as int);
                }
                return Err(e);
            },
        }
    }
    Ok(header)
}

/// The first property with a name.
fn property_index(properties: &Vec<PlyProperty>, name: &str) -> (index: Option<usize>)
    ensures
        match index {
            Some(i) => i < properties@.len() && property_named(
                properties_model(properties@),
                name@,
            ) == Some(i as int),
            None => property_named(properties_model(properties@), name@) is None,
        },
{
    let ghost model = properties_model(properties@);
    for i in 0..properties.len()
        invariant
            model == properties_model(properties@),
            property_named(model, name@) == property_from(model, text::utf8(name@), i as int),
    {
        assert(model[i as int].1 == properties@[i as int].name@);
        if is_text(properties[i].name.as_slice(), name) {
            return Some(i);
        }
    }
    None
}

/// The first property with a name, or else the first with its other name.
fn property_index_either(properties: &Vec<PlyProperty>, name: &str, other: &str) -> (index: Option<
    usize,
>)
    ensures
        match index {
            Some(i) => i < properties@.len() && property_either(
                properties_model(properties@),
                name@,
                other@,
            ) == Some(i as int),
            None => property_either(properties_model(properties@), name@, other@) is None,
        },
{
    match property_index(properties, name) {
        Some(index) => Some(index),
        None => property_index(properties, other),
    }
}

proof fn lemma_record_offset(properties: Seq<(Scalar, Seq<u8>)>, few: int, many: int)
    requires
        0 <= few <= many <= properties.len(),
    ensures
        few <= record_offset(properties, few) <= record_offset(properties, many) <= 4 * many,
        few < many ==> record_offset(properties, few) + scalar_width(properties[few].0)
            <= record_offset(properties, many),
    decreases many,
{
    if few < many {
        lemma_record_offset(properties, few, many - 1);
    } else if few > 0 {
        lemma_record_offset(properties, few - 1, many - 1);
    }
}

/// Bytes of one vertex record.
fn record_width(properties: &Vec<PlyProperty>) -> (size: u128)
    ensures
        size == record_size(properties_model(properties@)),
{
    let ghost model = properties_model(properties@);
    let mut size: u128 = 0;
    for i in 0..properties.len()
        invariant
            model == properties_model(properties@),
            size == record_offset(model, i as int),
            size <= 4 * i,
    {
        assert(model[i as int].0 == properties@[i as int].scalar);
        size = size + properties[i].scalar.width() as u128;
    }
    size
}

/// Where in a record a property stands, if it exists with that type.
fn place_for(properties: &Vec<PlyProperty>, index: Option<usize>, scalar: Scalar) -> (place: Option<
    usize,
>)
    requires
        index matches Some(i) ==> i < properties@.len(),
        record_size(properties_model(properties@)) <= usize::MAX,
    ensures
        match (index, place) {
            (Some(i), Some(p)) => place_of(
                properties_model(properties@),
                Some(i as int),
                scalar,
            ) == Some(p as int) && p + scalar_width(scalar) <= record_size(
                properties_model(properties@),
            ),
            (Some(i), None) => place_of(
                properties_model(properties@),
                Some(i as int),
                scalar,
            ) is None,
            (None, p) => p is None,
        },
{
    let ghost model = properties_model(properties@);
    match index {
        Some(index) => {
            assert(model[index as int].0 == properties@[index as int].scalar);
            if properties[index].scalar != scalar {
                return None;
            }
            let mut place: usize = 0;
            for i in 0..index
                invariant
                    model == properties_model(properties@),
                    index < properties@.len(),
                    record_size(model) <= usize::MAX,
                    place == record_offset(model, i as int),
            {
                assert(model[i as int].0 == properties@[i as int].scalar);
                proof {
                    lemma_record_offset(model, i as int, model.len() as int);
                }
                place = place + properties[i].scalar.width();
            }
            proof {
                lemma_record_offset(model, index as int, model.len() as int);
            }
            Some(place)
        },
        None => None,
    }
}

/// Reads a binary32 property of the record at a place.
fn number_at(bytes: &[u8], at: usize, place: Option<usize>) -> (value: u32)
    requires
        place matches Some(offset) ==> at + offset + 4 <= bytes@.len(),
    ensures
        value == f32_or_zero(
            bytes@,
            at as int,
            match place {
                Some(offset) => Some(offset as int),
                None => None,
            },
        ),
{
    match place {
        Some(offset) => {
            let _length: usize = bytes.len();
            let mut reader = ByteReader { bytes, position: at + offset };
            match reader.take_u32() {
                Some(value) => value,
                None => 0,
            }
        },
        None => 0,
    }
}

/// Reads a byte property of the record at a place.
fn level_at(bytes: &[u8], at: usize, place: Option<usize>) -> (value: u8)
    requires
        place matches Some(offset) ==> at + offset + 1 <= bytes@.len(),
    ensures
        value == u8_or_full(
            bytes@,
            at as int,
            match place {
                Some(offset) => Some(offset as int),
                None => None,
            },
        ),
{
    match place {
        Some(offset) => {
            let _length: usize = bytes.len();
            bytes[at + offset]
        },
        None => 255,
    }
}

/// Where in a record each used property stands.
struct VertexPlan {
    x: Option<usize>,
    y: Option<usize>,
    z: Option<usize>,
    nx: Option<usize>,
    ny: Option<usize>,
    nz: Option<usize>,
    red: Option<usize>,
    green: Option<usize>,
    blue: Option<usize>,
}

/// `place` is where the property stands, and the scalar fits in the record.
spec fn planned(
    properties: Seq<(Scalar, Seq<u8>)>,
    place: Option<usize>,
    index: Option<int>,
    scalar: Scalar,
) -> bool {
    match place {
        Some(p) => place_of(properties, index, scalar) == Some(p as int) && p + scalar_width(scalar)
            <= record_size(properties),
        None => place_of(properties, index, scalar) is None,
    }
}

impl VertexPlan {
    spec fn valid(self, properties: Seq<(Scalar, Seq<u8>)>) -> bool {
        &&& planned(properties, self.x, property_named(properties, "x"@), Scalar::F32)
        &&& planned(properties, self.y, property_named(properties, "y"@), Scalar::F32)
        &&& planned(properties, self.z, property_named(properties, "z"@), Scalar::F32)
        &&& planned(
            properties,
            self.nx,
            property_either(properties, "nx"@, "normal_x"@),
            Scalar::F32,
        )
        &&& planned(
            properties,
            self.ny,
            property_either(properties, "ny"@, "normal_y"@),
            Scalar::F32,
        )
        &&& planned(
            properties,
            self.nz,
            property_either(properties, "nz"@, "normal_z"@),
            Scalar::F32,
        )
        &&& planned(properties, self.red, property_either(properties, "red"@, "r"@), Scalar::U8)
        &&& planned(
            properties,
            self.green,
            property_either(properties, "green"@, "g"@),
            Scalar::U8,
        )
        &&& planned(properties, self.blue, property_either(properties, "blue"@, "b"@), Scalar::U8)
    }
}

/// Finds every used property.
fn vertex_plan(properties: &Vec<PlyProperty>) -> (plan: VertexPlan)
    requires
        record_size(properties_model(properties@)) <= usize::MAX,
    ensures
        plan.valid(properties_model(properties@)),
{
    let x = property_index(properties, "x");
    let y = property_index(properties, "y");
    let z = property_index(properties, "z");
    let nx = property_index_either(properties, "nx", "normal_x");
    let ny = property_index_either(properties, "ny", "normal_y");
    let nz = property_index_either(properties, "nz", "normal_z");
    let red = property_index_either(properties, "red", "r");
    let green = property_index_either(properties, "green", "g");
    let blue = property_index_either(properties, "blue", "b");
    VertexPlan {
        x: place_for(properties, x, Scalar::F32),
        y: place_for(properties, y, Scalar::F32),
        z: place_for(properties, z, Scalar::F32),
        nx: place_for(properties, nx, Scalar::F32),
        ny: place_for(properties, ny, Scalar::F32),
        nz: place_for(properties, nz, Scalar::F32),
        red: place_for(properties, red, Scalar::U8),
        green: place_for(properties, green, Scalar::U8),
        blue: place_for(properties, blue, Scalar::U8),
    }
}

/// Reads the vertex record at a place.
fn read_vertex(bytes: &[u8], at: usize, plan: &VertexPlan, properties: &Vec<PlyProperty>) -> (vertex:
    PlyVertex)
    requires
        plan.valid(properties_model(properties@)),
        at + record_size(properties_model(properties@)) <= bytes@.len(),
    ensures
        vertex@ == vertex_at(bytes@, at as int, properties_model(properties@)),
{
    let vertex = PlyVertex {
        position: [
            number_at(bytes, at, plan.x),
            number_at(bytes, at, plan.y),
            number_at(bytes, at, plan.z),
        ],
        normal: [
            number_at(bytes, at, plan.nx),
            number_at(bytes, at, plan.ny),
            number_at(bytes, at, plan.nz),
        ],
        color_srgb: [
            level_at(bytes, at, plan.red),
            level_at(bytes, at, plan.green),
            level_at(bytes, at, plan.blue),
        ],
    };
    assert(vertex@ =~= vertex_at(bytes@, at as int, properties_model(properties@)));
    vertex
}

/// Reads the records behind a header.
fn read_records(bytes: &[u8], start: usize, header: &PlyHeader) -> (result: Result<
    Vec<PlyVertex>,
    MvsImportError,
>)
    requires
        start <= bytes@.len(),
    ensures
        match parse_records(bytes@, start as int, header@) {
            Ok(vertices) => result matches Ok(list) && vertices_model(list@) == vertices,
            Err(fault) => result matches Err(e) && e@ == fault,
        },
{
    let properties: &Vec<PlyProperty> = &header.properties;
    let ghost model = properties_model(properties@);
    let count: usize = match header.vertex_count {
        Some(count) => count,
        None => return Err(MvsImportError::Invalid(PlyProblem::MissingVertexElement)),
    };
    let left: usize = bytes.len() - start;
    let wide: u128 = record_width(properties);
    if wide == 0 {
        return Err(MvsImportError::Invalid(PlyProblem::TruncatedPayload));
    }
    if count > 0 && (wide > left as u128 || count > left / wide as usize) {
        proof {
            let size = wide as int;
            if wide > left {
                assert(count * size >= size) by (nonlinear_arith)
                    requires
                        count > 0,
                        size > 0,
                ;
            } else {
                assert(count * size > left) by (nonlinear_arith)
                    requires
                        size > 0,
                        left >= 0,
                        count > left as int / size,
                ;
            }
        }
        return Err(MvsImportError::Invalid(PlyProblem::TruncatedPayload));
    }
    proof {
        let size = wide as int;
        assert(count * size <= left) by (nonlinear_arith)
            requires
                size > 0,
                left >= 0,
                count > 0 ==> count <= left as int / size,
                count >= 0,
        ;
    }
    let x: usize = match property_index(properties, "x") {
        Some(index) => index,
        None => return Err(MvsImportError::Invalid(PlyProblem::MissingX)),
    };
    let y: usize = match property_index(properties, "y") {
        Some(index) => index,
        None => return Err(MvsImportError::Invalid(PlyProblem::MissingY)),
    };
    let z: usize = match property_index(properties, "z") {
        Some(index) => index,
        None => return Err(MvsImportError::Invalid(PlyProblem::MissingZ)),
    };
    if properties[x].scalar != Scalar::F32 || properties[y].scalar != Scalar::F32
        || properties[z].scalar != Scalar::F32 {
        assert(model[x as int].0 == properties@[x as int].scalar);
        assert(model[y as int].0 == properties@[y as int].scalar);
        assert(model[z as int].0 == properties@[z as int].scalar);
        return Err(MvsImportError::Invalid(PlyProblem::PositionsNotF32));
    }
    assert(model[x as int].0 == properties@[x as int].scalar);
    assert(model[y as int].0 == properties@[y as int].scalar);
    assert(model[z as int].0 == properties@[z as int].scalar);
    if count == 0 {
        return Err(MvsImportError::Invalid(PlyProblem::NoFiniteVertices));
    }
    let size: usize = wide as usize;
    let plan: VertexPlan = vertex_plan(properties);
    let mut list: Vec<PlyVertex> = Vec::new();
    let mut at: usize = start;
    assert(0 * size == 0) by (nonlinear_arith);
    assert(vertices_model(list@) =~= Seq::empty());
    for i in 0..count
        invariant
            start + count * size <= bytes@.len(),
            bytes@.len() <= usize::MAX,
            size == record_size(model),
            at == start + i * size,
            model == properties_model(properties@),
            plan.valid(model),
            vertices_model(list@) == finite_vertices(bytes@, start as int, model, i as int),
    {
        proof {
            assert((i + 1) * size == i * size + size && (i + 1) * size <= count * size)
                by (nonlinear_arith)
                requires
                    i + 1 <= count,
                    size >= 0,
            ;
        }
        let vertex: PlyVertex = read_vertex(bytes, at, &plan, properties);
        if ieee::f32s_are_finite(&vertex.position) {
            let ghost before = vertices_model(list@);
            list.push(vertex);
            assert(vertices_model(list@) =~= before.push(vertex@));
        }
        at = at + size;
    }
    if list.len() == 0 {
        return Err(MvsImportError::Invalid(PlyProblem::NoFiniteVertices));
    }
    Ok(list)
}

/// Reads the vertices of a binary little-endian PLY document. Vertices with a
/// position that is not finite are left out.
pub fn import_colmap_fused_ply(bytes: &[u8]) -> (result: Result<Vec<PlyVertex>, MvsImportError>)
    ensures
        is_import(
            bytes@,
            match result {
                Ok(list) => Ok(vertices_model(list@)),
                Err(e) => Err(e@),
            },
        ),
{
    let marker: &[u8] = "end_header\n".as_bytes();
    let found: usize = match find(bytes, 0, marker) {
        Some(at) => at,
        None => {
            assert(forall|at: int| !#[trigger] text::matches_at(bytes@, at, marker@));
            return Err(MvsImportError::Invalid(PlyProblem::MissingEndHeader));
        },
    };
    let _length: usize = bytes.len();
    let start: usize = found + marker.len();
    assert(text::matches_at(bytes@, found as int, marker@));
    assert forall|at: int| #[trigger] text::is_first_match(bytes@, 0, marker@, at) implies at
        == found by {
        if at < found {
            assert(!text::matches_at(bytes@, at, marker@));
        }
    }
    let head: Vec<u8> = text::slice(bytes, 0, start);
    assert(head@ =~= bytes@.take(start as int));
    if !text::is_utf8(head.as_slice()) {
        return Err(MvsImportError::Invalid(PlyProblem::HeaderNotUtf8));
    }
    let header: PlyHeader = read_header(head.as_slice())?;
    if !stands_at(head.as_slice(), 0, "ply\n".as_bytes()) {
        return Err(MvsImportError::Invalid(PlyProblem::MissingMagic));
    }
    read_records(bytes, start, &header)
}

/// The normal of an imported vertex: its recorded direction scaled to unit
/// length, or none where that length is zero or not finite. `length` is the
/// Euclidean length of the recorded normal and `unit` its components divided
/// by it.
pub fn imported_normal(length: u32, unit: [u32; 3]) -> (normal: [u32; 3])
    ensures
        normal@ == (if ieee::f32_finite(length) && ieee::f32_less(0, length) {
            unit@
        } else {
            seq![0u32, 0u32, 0u32]
        }),
{
    if ieee::f32_is_finite(length) && ieee::f32_lt(0, length) {
        unit
    } else {
        let none = [0u32, 0u32, 0u32];
        assert(none@ =~= seq![0u32, 0u32, 0u32]);
        none
    }
}

/// The least radius of an imported point, the binary32 nearest to 1e-5.
pub const IMPORTED_RADIUS_FLOOR: u32 = 0x3727_c5ac;

/// The recorded normal of a vertex, measured: its Euclidean length, and its
/// components divided by that length.
#[derive(Debug, Clone, Copy)]
pub struct MeasuredNormal {
    pub length: u32,
    pub unit: [u32; 3],
}

/// The radius of all points of an imported cloud.
pub open spec fn radius_of_import(share: u32) -> u32 {
    if ieee::f32_less(IMPORTED_RADIUS_FLOOR, share) {
        share
    } else {
        IMPORTED_RADIUS_FLOOR
    }
}

/// Whether a point of the world stands for an imported vertex.
pub open spec fn stands_for_vertex(
    point: FusedPoint,
    vertex: PlyVertex,
    normal: MeasuredNormal,
    share: u32,
) -> bool {
    &&& point.position == vertex.position
    &&& point.normal@ == (if ieee::f32_finite(normal.length) && ieee::f32_less(0, normal.length) {
        normal.unit@
    } else {
        seq![0u32, 0u32, 0u32]
    })
    &&& point.color_srgb == vertex.color_srgb
    &&& point.confidence == ieee::F32_ONE
    &&& point.radius == radius_of_import(share)
    &&& point.first_observing_frame == -1
    &&& point.contributors == 1
}

/// The imported vertices as points of a world, in their order. Nothing is known
/// of the frames that observed them, so all count as one full observation, and
/// all have one radius: `share`, the share of the cloud's diagonal that a point
/// covers, but no less than the floor.
pub fn imported_points(
    vertices: &Vec<PlyVertex>,
    normals: &Vec<MeasuredNormal>,
    share: u32,
) -> (points: Vec<FusedPoint>)
    requires
        normals@.len() == vertices@.len(),
    ensures
        points@.len() == vertices@.len(),
        forall|i: int|
            0 <= i < points@.len() ==> stands_for_vertex(
                #[trigger] points@[i],
                vertices@[i],
                normals@[i],
                share,
            ),
{
    let radius: u32 = if ieee::f32_lt(IMPORTED_RADIUS_FLOOR, share) {
        share
    } else {
        IMPORTED_RADIUS_FLOOR
    };
    let mut points: Vec<FusedPoint> = Vec::new();
    for i in 0..vertices.len()
        invariant
            normals@.len() == vertices@.len(),
            radius == radius_of_import(share),
            points@.len() == i,
            forall|j: int|
                0 <= j < i ==> stands_for_vertex(
                    #[trigger] points@[j],
                    vertices@[j],
                    normals@[j],
                    share,
                ),
    {
        points.push(
            FusedPoint {
                position: vertices[i].position,
                normal: imported_normal(normals[i].length, normals[i].unit),
                color_srgb: vertices[i].color_srgb,
                confidence: ieee::F32_ONE,
                radius,
                first_observing_frame: -1,
                contributors: 1,
            },
        );
    }
    points
}

/// Every imported vertex has a finite position, and no more vertices come out
/// of a document than its header declares.
pub proof fn law_imported_vertices_are_finite(
    bytes: Seq<u8>,
    start: int,
    properties: Seq<(Scalar, Seq<u8>)>,
    count: int,
)
    requires
        count >= 0,
    ensures
        finite_vertices(bytes, start, properties, count).len() <= count,
        forall|i: int|
            0 <= i < finite_vertices(bytes, start, properties, count).len()
                ==> ieee::f32_all_finite(
                #[trigger] finite_vertices(bytes, start, properties, count)[i].position,
            ),
    decreases count,
{
    if count > 0 {
        law_imported_vertices_are_finite(bytes, start, properties, count - 1);
    }
}

/// A property name that the import gives a meaning to.
pub open spec fn is_known(name: Seq<u8>) -> bool {
    ||| name == text::utf8("x"@)
    ||| name == text::utf8("y"@)
    ||| name == text::utf8("z"@)
    ||| name == text::utf8("nx"@)
    ||| name == text::utf8("normal_x"@)
    ||| name == text::utf8("ny"@)
    ||| name == text::utf8("normal_y"@)
    ||| name == text::utf8("nz"@)
    ||| name == text::utf8("normal_z"@)
    ||| name == text::utf8("red"@)
    ||| name == text::utf8("r"@)
    ||| name == text::utf8("green"@)
    ||| name == text::utf8("g"@)
    ||| name == text::utf8("blue"@)
    ||| name == text::utf8("b"@)
}

/// Where an item stands once another one was put in at `place`.
pub open spec fn moved_by(place: int, width: int, i: int) -> int {
    if i < place {
        i
    } else {
        i + width
    }
}

/// Two records hold the same bytes, but that `width` more stand in the second one
/// from `hole` on.
pub open spec fn same_but_hole(
    bytes: Seq<u8>,
    at: int,
    other: Seq<u8>,
    start: int,
    size: int,
    hole: int,
    width: int,
) -> bool {
    forall|o: int|
        0 <= o < size ==> #[trigger] other[start + moved_by(hole, width, o)] == bytes[at + o]
}

proof fn lemma_named(
    properties: Seq<(Scalar, Seq<u8>)>,
    place: int,
    extra: (Scalar, Seq<u8>),
    name: Seq<u8>,
    from: int,
)
    requires
        0 <= place <= properties.len(),
        0 <= from <= properties.len(),
        extra.1 != name,
    ensures
        property_from(properties.insert(place, extra), name, moved_by(place, 1, from)) == (
        match property_from(properties, name, from) {
            Some(i) => Some(moved_by(place, 1, i)),
            None => None,
        }),
        property_from(properties, name, from) matches Some(i) ==> from <= i < properties.len(),
    decreases properties.len() - from,
{
    let more = properties.insert(place, extra);
    if from < properties.len() {
        assert(more[moved_by(place, 1, from)] == properties[from]);
        if properties[from].1 != name {
            lemma_named(properties, place, extra, name, from + 1);
            if from + 1 == place {
                assert(more[place] == extra);
                assert(property_from(more, name, place) == property_from(more, name, place + 1));
            }
        }
    }
}

proof fn lemma_property_named(
    properties: Seq<(Scalar, Seq<u8>)>,
    place: int,
    extra: (Scalar, Seq<u8>),
    name: Seq<char>,
)
    requires
        0 <= place <= properties.len(),
        extra.1 != text::utf8(name),
    ensures
        property_named(properties.insert(place, extra), name) == (match property_named(
            properties,
            name,
        ) {
            Some(i) => Some(moved_by(place, 1, i)),
            None => None,
        }),
        property_named(properties, name) matches Some(i) ==> 0 <= i < properties.len(),
{
    lemma_named(properties, place, extra, text::utf8(name), 0);
    if place == 0 {
        assert(properties.insert(place, extra)[0] == extra);
    }
}

proof fn lemma_offset_moved(
    properties: Seq<(Scalar, Seq<u8>)>,
    place: int,
    extra: (Scalar, Seq<u8>),
    count: int,
)
    requires
        0 <= place <= properties.len(),
        0 <= count <= properties.len() + 1,
    ensures
        record_offset(properties.insert(place, extra), count) == (if count <= place {
            record_offset(properties, count)
        } else {
            record_offset(properties, count - 1) + scalar_width(extra.0)
        }),
    decreases count,
{
    let more = properties.insert(place, extra);
    if count > 0 {
        lemma_offset_moved(properties, place, extra, count - 1);
        if count - 1 < place {
            assert(more[count - 1] == properties[count - 1]);
        } else if count - 1 == place {
            assert(more[count - 1] == extra);
        } else {
            assert(more[count - 1] == properties[count - 2]);
        }
    }
}

proof fn lemma_offset_ascends(properties: Seq<(Scalar, Seq<u8>)>, i: int, j: int)
    requires
        0 <= i < j <= properties.len(),
    ensures
        0 <= record_offset(properties, i),
        record_offset(properties, i) + scalar_width(properties[i].0) <= record_offset(
            properties,
            j,
        ),
    decreases j,
{
    if i == j - 1 {
        if i > 0 {
            lemma_offset_ascends(properties, i - 1, i);
        }
    } else {
        lemma_offset_ascends(properties, i, j - 1);
    }
}

/// A property reads the same in a record with a hole before or behind it.
proof fn lemma_property_reads(
    bytes: Seq<u8>,
    at: int,
    other: Seq<u8>,
    start: int,
    properties: Seq<(Scalar, Seq<u8>)>,
    place: int,
    extra: (Scalar, Seq<u8>),
    index: Option<int>,
)
    requires
        0 <= place <= properties.len(),
        index matches Some(i) ==> 0 <= i < properties.len(),
        same_but_hole(
            bytes,
            at,
            other,
            start,
            record_size(properties),
            record_offset(properties, place),
            scalar_width(extra.0),
        ),
    ensures
        ({
            let more = properties.insert(place, extra);
            let moved = match index {
                Some(i) => Some(moved_by(place, 1, i)),
                None => None,
            };
            &&& f32_or_zero(other, start, place_of(more, moved, Scalar::F32)) == f32_or_zero(
                bytes,
                at,
                place_of(properties, index, Scalar::F32),
            )
            &&& u8_or_full(other, start, place_of(more, moved, Scalar::U8)) == u8_or_full(
                bytes,
                at,
                place_of(properties, index, Scalar::U8),
            )
            &&& place_of(more, moved, Scalar::F32) is None <==> place_of(
                properties,
                index,
                Scalar::F32,
            ) is None
        }),
{
    let more = properties.insert(place, extra);
    if let Some(i) = index {
        let hole = record_offset(properties, place);
        let width = scalar_width(extra.0);
        let offset = record_offset(properties, i);
        assert(more[moved_by(place, 1, i)] == properties[i]);
        lemma_offset_moved(properties, place, extra, moved_by(place, 1, i));
        lemma_offset_ascends(properties, i, properties.len() as int);
        if i < place {
            lemma_offset_ascends(properties, i, place);
        } else if place < i {
            lemma_offset_ascends(properties, place, i);
        }
        let next = record_offset(more, moved_by(place, 1, i));
        assert forall|k: int| 0 <= k < scalar_width(properties[i].0) implies other[start + next + k]
            == #[trigger] bytes[at + offset + k] by {
            assert(other[start + moved_by(hole, width, offset + k)] == bytes[at + (offset + k)]);
        }
        if properties[i].0 == Scalar::F32 {
            wire::lemma_u32_at_frame(other, start + next, bytes, at + offset);
        } else {
            assert(other[start + next + 0] == bytes[at + offset + 0]);
        }
    }
}

proof fn lemma_either(
    properties: Seq<(Scalar, Seq<u8>)>,
    place: int,
    extra: (Scalar, Seq<u8>),
    name: Seq<char>,
    other: Seq<char>,
)
    requires
        0 <= place <= properties.len(),
        extra.1 != text::utf8(name),
        extra.1 != text::utf8(other),
    ensures
        property_either(properties.insert(place, extra), name, other) == (match property_either(
            properties,
            name,
            other,
        ) {
            Some(i) => Some(moved_by(place, 1, i)),
            None => None,
        }),
        property_either(properties, name, other) matches Some(i) ==> 0 <= i < properties.len(),
{
    lemma_property_named(properties, place, extra, name);
    lemma_property_named(properties, place, extra, other);
}

/// A vertex reads the same with one more property that means nothing here.
proof fn lemma_vertex_reads(
    bytes: Seq<u8>,
    at: int,
    other: Seq<u8>,
    start: int,
    properties: Seq<(Scalar, Seq<u8>)>,
    place: int,
    extra: (Scalar, Seq<u8>),
)
    requires
        0 <= place <= properties.len(),
        !is_known(extra.1),
        same_but_hole(
            bytes,
            at,
            other,
            start,
            record_size(properties),
            record_offset(properties, place),
            scalar_width(extra.0),
        ),
    ensures
        vertex_at(other, start, properties.insert(place, extra)) == vertex_at(
            bytes,
            at,
            properties,
        ),
{
    let more = properties.insert(place, extra);
    let x = property_named(properties, "x"@);
    let y = property_named(properties, "y"@);
    let z = property_named(properties, "z"@);
    let nx = property_either(properties, "nx"@, "normal_x"@);
    let ny = property_either(properties, "ny"@, "normal_y"@);
    let nz = property_either(properties, "nz"@, "normal_z"@);
    let red = property_either(properties, "red"@, "r"@);
    let green = property_either(properties, "green"@, "g"@);
    let blue = property_either(properties, "blue"@, "b"@);
    lemma_property_named(properties, place, extra, "x"@);
    lemma_property_named(properties, place, extra, "y"@);
    lemma_property_named(properties, place, extra, "z"@);
    lemma_either(properties, place, extra, "nx"@, "normal_x"@);
    lemma_either(properties, place, extra, "ny"@, "normal_y"@);
    lemma_either(properties, place, extra, "nz"@, "normal_z"@);
    lemma_either(properties, place, extra, "red"@, "r"@);
    lemma_either(properties, place, extra, "green"@, "g"@);
    lemma_either(properties, place, extra, "blue"@, "b"@);
    lemma_property_reads(bytes, at, other, start, properties, place, extra, x);
    lemma_property_reads(bytes, at, other, start, properties, place, extra, y);
    lemma_property_reads(bytes, at, other, start, properties, place, extra, z);
    lemma_property_reads(bytes, at, other, start, properties, place, extra, nx);
    lemma_property_reads(bytes, at, other, start, properties, place, extra, ny);
    lemma_property_reads(bytes, at, other, start, properties, place, extra, nz);
    lemma_property_reads(bytes, at, other, start, properties, place, extra, red);
    lemma_property_reads(bytes, at, other, start, properties, place, extra, green);
    lemma_property_reads(bytes, at, other, start, properties, place, extra, blue);
    let left = vertex_at(other, start, more);
    let right = vertex_at(bytes, at, properties);
    assert(left.position =~= right.position);
    assert(left.normal =~= right.normal);
    assert(left.color =~= right.color);
}

/// Every record of two payloads agrees but for the bytes of one more property.
pub open spec fn records_agree(
    bytes: Seq<u8>,
    start: int,
    other: Seq<u8>,
    other_start: int,
    properties: Seq<(Scalar, Seq<u8>)>,
    place: int,
    extra: (Scalar, Seq<u8>),
    count: int,
) -> bool {
    let size = record_size(properties);
    let width = scalar_width(extra.0);
    forall|k: int|
        #![trigger start + k * size]
        0 <= k < count ==> same_but_hole(
            bytes,
            start + k * size,
            other,
            other_start + k * (size + width),
            size,
            record_offset(properties, place),
            width,
        )
}

proof fn lemma_vertices_agree(
    bytes: Seq<u8>,
    start: int,
    other: Seq<u8>,
    other_start: int,
    properties: Seq<(Scalar, Seq<u8>)>,
    place: int,
    extra: (Scalar, Seq<u8>),
    count: int,
)
    requires
        0 <= place <= properties.len(),
        !is_known(extra.1),
        records_agree(bytes, start, other, other_start, properties, place, extra, count),
    ensures
        finite_vertices(other, other_start, properties.insert(place, extra), count)
            == finite_vertices(bytes, start, properties, count),
    decreases count,
{
    if count > 0 {
        let more = properties.insert(place, extra);
        let size = record_size(properties);
        lemma_offset_moved(properties, place, extra, more.len() as int);
        lemma_vertices_agree(
            bytes,
            start,
            other,
            other_start,
            properties,
            place,
            extra,
            count - 1,
        );
        let at = start + (count - 1) * size;
        lemma_vertex_reads(
            bytes,
            at,
            other,
            other_start + (count - 1) * (size + scalar_width(extra.0)),
            properties,
            place,
            extra,
        );
    }
}

/// One more scalar property that means nothing here, at any place of whole records
/// and with any contents, leaves what they are as a cloud: they give the same
/// vertices, or are refused for the same reason.
pub proof fn law_unknown_property_keeps_records(
    bytes: Seq<u8>,
    start: int,
    other: Seq<u8>,
    other_start: int,
    header: HeaderModel,
    place: int,
    extra: (Scalar, Seq<u8>),
)
    requires
        0 <= place <= header.properties.len(),
        !is_known(extra.1),
        record_size(header.properties) > 0,
        header.vertex_count matches Some(count) ==> {
            let size = record_size(header.properties);
            &&& 0 <= count
            &&& count * size <= bytes.len() - start
            &&& count * (size + scalar_width(extra.0)) <= other.len() - other_start
            &&& records_agree(
                bytes,
                start,
                other,
                other_start,
                header.properties,
                place,
                extra,
                count,
            )
        },
    ensures
        parse_records(
            other,
            other_start,
            HeaderModel { properties: header.properties.insert(place, extra), ..header },
        ) == parse_records(bytes, start, header),
{
    let properties = header.properties;
    let more = properties.insert(place, extra);
    lemma_offset_moved(properties, place, extra, more.len() as int);
    lemma_property_named(properties, place, extra, "x"@);
    lemma_property_named(properties, place, extra, "y"@);
    lemma_property_named(properties, place, extra, "z"@);
    if let Some(count) = header.vertex_count {
        lemma_vertices_agree(
            bytes,
            start,
            other,
            other_start,
            properties,
            place,
            extra,
            count,
        );
        assert forall|i: int| 0 <= i < properties.len() implies more[moved_by(place, 1, i)]
            == #[trigger] properties[i] by {}
    }
}

/// What ends the header of a document.
pub open spec fn end_marker() -> Seq<u8> {
    text::utf8("end_header\n"@)
}

/// A header line that declares one scalar property.
pub open spec fn declares(line: Seq<u8>, property: (Scalar, Seq<u8>)) -> bool {
    &&& vstd::utf8::valid_utf8(line)
    &&& line.len() > 0 && line.last() == 0x0a
    &&& text::lines(line).len() == 1
    &&& ({
        let fields = text::words(text::lines(line)[0]);
        &&& fields.len() == 3
        &&& fields[0] == text::utf8("property"@)
        &&& scalar_named(fields[1]) == Some(property.0)
        &&& fields[2] == property.1
    })
}

/// `other` is the document `file`, whose header ends at `start`, with one more
/// scalar vertex property: its line stands in the header at `cut`, where a line
/// begins and vertex properties are declared, and every vertex record has its
/// bytes, whatever they are, in the place that this gives them.
pub open spec fn is_widened(
    file: Seq<u8>,
    start: int,
    other: Seq<u8>,
    cut: int,
    line: Seq<u8>,
    extra: (Scalar, Seq<u8>),
) -> bool {
    let before = declared_by(file.take(cut))->Ok_0;
    let declared = declared_by(file.take(start))->Ok_0;
    let moved = start + line.len();
    &&& 0 < cut < start <= file.len()
    &&& file[cut - 1] == 0x0a
    &&& before.in_vertex
    &&& declares(line, extra)
    &&& moved <= other.len()
    &&& other.take(moved) == file.take(cut) + line + file.subrange(cut, start)
    &&& declared.vertex_count matches Some(count) ==> count * (record_size(declared.properties)
        + scalar_width(extra.0)) <= other.len() - moved && records_agree(
        file,
        start,
        other,
        moved,
        declared.properties,
        before.properties.len() as int,
        extra,
        count,
    )
}

/// One more scalar vertex property that means nothing here leaves the import of a
/// document as it is, wherever among the vertex properties it is declared and
/// whatever its bytes are: the same vertices come out in the same order. The line
/// must not end in the words that end a header.
pub proof fn law_unknown_property_changes_nothing(
    file: Seq<u8>,
    start: int,
    other: Seq<u8>,
    cut: int,
    line: Seq<u8>,
    extra: (Scalar, Seq<u8>),
    vertices: Seq<VertexModel>,
)
    requires
        text::is_first_match(file, 0, end_marker(), start - end_marker().len()),
        is_import(file, Ok(vertices)),
        is_widened(file, start, other, cut, line, extra),
        !is_known(extra.1),
        text::no_match(line, 0, end_marker()),
    ensures
        forall|result: Result<Seq<VertexModel>, MvsFault>| #[trigger]
            is_import(other, result) <==> result == Ok::<Seq<VertexModel>, MvsFault>(vertices),
{
    let found = start - end_marker().len();
    lemma_import_of_document(file, found);
    assert(is_import(file, Ok(vertices)));
    assert(parse_document(file, start) == Ok::<Seq<VertexModel>, MvsFault>(vertices));
    lemma_end_moves(file, start, other, cut, line);
    lemma_document_widened(file, start, other, cut, line, extra);
    lemma_import_of_document(other, found + line.len());
}

/// A document whose header ends somewhere is imported as that says, and in no other
/// way.
proof fn lemma_import_of_document(bytes: Seq<u8>, found: int)
    requires
        text::is_first_match(bytes, 0, end_marker(), found),
    ensures
        forall|result: Result<Seq<VertexModel>, MvsFault>| #[trigger]
            is_import(bytes, result) <==> result == parse_document(
                bytes,
                found + end_marker().len(),
            ),
{
    assert(text::matches_at(bytes, found, end_marker()));
    assert forall|at: int| #[trigger] text::is_first_match(bytes, 0, end_marker(), at) implies at
        == found by {
        if at < found {
            assert(!text::matches_at(bytes, at, end_marker()));
        }
    }
}

proof fn lemma_document_widened(
    file: Seq<u8>,
    start: int,
    other: Seq<u8>,
    cut: int,
    line: Seq<u8>,
    extra: (Scalar, Seq<u8>),
)
    requires
        parse_document(file, start) is Ok,
        is_widened(file, start, other, cut, line, extra),
        !is_known(extra.1),
    ensures
        parse_document(other, start + line.len()) == parse_document(file, start),
{
    let moved = start + line.len();
    let prefix = file.take(cut);
    let suffix = file.subrange(cut, start);
    let header = file.take(start);
    assert(header =~= prefix + suffix);
    assert(prefix.last() == 0x0a);
    text::lemma_utf8_parts(prefix, suffix);
    vstd::utf8::valid_utf8_concat(prefix, line);
    vstd::utf8::valid_utf8_concat(prefix + line, suffix);
    lemma_declared(prefix, line, suffix, extra);
    lemma_magic_stays(file, start, cut, line);
    let declared = declared_by(header)->Ok_0;
    let place = declared_by(prefix)->Ok_0.properties.len() as int;
    assert(parse_records(file, start, declared) is Ok);
    let count = declared.vertex_count->Some_0;
    if count <= 0 {
        assert(finite_vertices(file, start, declared.properties, count).len() == 0);
    }
    lemma_widths(declared.properties, declared.properties.len() as int);
    law_unknown_property_keeps_records(file, start, other, moved, declared, place, extra);
}

proof fn lemma_widths(properties: Seq<(Scalar, Seq<u8>)>, count: int)
    ensures
        record_offset(properties, count) >= 0,
    decreases count,
{
    if count > 0 {
        lemma_widths(properties, count - 1);
    }
}

/// The end of a header is one line feed behind other bytes.
proof fn lemma_marker()
    ensures
        end_marker().len() == 11,
        end_marker()[10] == 0x0a,
        forall|i: int| 0 <= i < 10 ==> #[trigger] end_marker()[i] != 0x0a,
{
    let chars = "end_header\n"@;
    reveal_strlit("end_header\n");
    vstd::utf8::is_ascii_chars_encode_utf8(chars);
    assert forall|i: int| 0 <= i < 10 implies #[trigger] end_marker()[i] != 0x0a by {
        assert(chars[i] != '\n');
        assert(chars[i] as u8 == end_marker()[i]);
    }
    assert(chars[10] as u8 == end_marker()[10]);
}

/// A line that does not end a header moves the end of the header by its length.
proof fn lemma_end_moves(file: Seq<u8>, start: int, other: Seq<u8>, cut: int, line: Seq<u8>)
    requires
        text::is_first_match(file, 0, end_marker(), start - end_marker().len()),
        0 < cut < start <= file.len(),
        file[cut - 1] == 0x0a,
        line.len() > 0,
        line.last() == 0x0a,
        text::no_match(line, 0, end_marker()),
        start + line.len() <= other.len(),
        other.take(start + line.len()) == file.take(cut) + line + file.subrange(cut, start),
    ensures
        text::is_first_match(
            other,
            0,
            end_marker(),
            start + line.len() - end_marker().len(),
        ),
{
    let marker = end_marker();
    let found = start - marker.len();
    let prefix = file.take(cut);
    let rest = file.skip(cut);
    let moved = start + line.len();
    let other_rest = other.skip(cut + line.len());
    lemma_marker();
    assert(prefix.last() == 0x0a);
    assert(file =~= prefix + rest);
    assert(other =~= prefix + (line + other_rest)) by {
        assert forall|i: int| 0 <= i < cut + line.len() implies other[i] == (prefix + (line
            + other_rest))[i] by {
            assert(other[i] == other.take(moved)[i]);
        }
    }
    assert forall|i: int| 0 <= i < start - cut implies #[trigger] other_rest[i] == rest[i] by {
        assert(other[cut + line.len() + i] == other.take(moved)[cut + line.len() + i]);
    }
    text::lemma_matches_joined(prefix, rest, found, marker);
    assert(!text::matches_at(prefix, found, marker));
    assert forall|at: int| at + marker.len() <= start - cut implies (#[trigger] text::matches_at(
        other_rest,
        at,
        marker,
    ) <==> text::matches_at(rest, at, marker)) by {
        if 0 <= at {
            assert(other_rest.subrange(at, at + marker.len()) =~= rest.subrange(
                at,
                at + marker.len(),
            ));
        }
    }
    let place = found + line.len();
    text::lemma_matches_joined(line, other_rest, place - cut, marker);
    text::lemma_matches_joined(prefix, line + other_rest, place, marker);
    assert(text::matches_at(other_rest, found - cut, marker));
    assert(text::matches_at(other, place, marker));
    assert forall|i: int| 0 <= i < place implies !#[trigger] text::matches_at(
        other,
        i,
        marker,
    ) by {
        text::lemma_matches_joined(prefix, line + other_rest, i, marker);
        text::lemma_matches_joined(line, other_rest, i - cut, marker);
        if text::matches_at(prefix, i, marker) {
            text::lemma_matches_joined(prefix, rest, i, marker);
            assert(i < found);
            assert(!text::matches_at(file, i, marker));
        }
        if text::matches_at(line, i - cut, marker) {
            assert(0 <= i - cut);
        }
        if text::matches_at(other_rest, i - cut - line.len(), marker) {
            let at = i - line.len();
            assert(text::matches_at(rest, at - cut, marker));
            text::lemma_matches_joined(prefix, rest, at, marker);
            assert(!text::matches_at(file, at, marker));
        }
    }
}

/// A document that begins as one must still does with a line put in behind another.
proof fn lemma_magic_stays(file: Seq<u8>, start: int, cut: int, line: Seq<u8>)
    requires
        0 < cut < start <= file.len(),
        file[cut - 1] == 0x0a,
        text::matches_at(file.take(start), 0, text::utf8("ply\n"@)),
    ensures
        text::matches_at(
            file.take(cut) + line + file.subrange(cut, start),
            0,
            text::utf8("ply\n"@),
        ),
{
    let magic = text::utf8("ply\n"@);
    let header = file.take(start);
    let wider = file.take(cut) + line + file.subrange(cut, start);
    reveal_strlit("ply\n");
    vstd::utf8::is_ascii_chars_encode_utf8("ply\n"@);
    assert forall|i: int| 0 <= i < 3 implies file[i] != 0x0a by {
        assert("ply\n"@[i] as u8 == magic[i]);
        assert(header.subrange(0, 4)[i] == magic[i]);
    }
    assert(cut >= 4);
    assert(wider.subrange(0, 4) =~= header.subrange(0, 4));
}

/// What lines declare depends on those lines only.
proof fn lemma_header_prefix(a: Seq<Seq<u8>>, b: Seq<Seq<u8>>, count: int)
    requires
        count <= a.len(),
        count <= b.len(),
        forall|i: int| 0 <= i < count ==> #[trigger] a[i] == b[i],
    ensures
        header_after(a, count) == header_after(b, count),
    decreases count,
{
    if count > 0 {
        lemma_header_prefix(a, b, count - 1);
        assert(a[count - 1] == b[count - 1]);
    }
}

/// A header with one more property.
spec fn with_property(
    header: HeaderModel,
    place: int,
    extra: (Scalar, Seq<u8>),
) -> HeaderModel {
    HeaderModel { properties: header.properties.insert(place, extra), ..header }
}

/// A line declares the same whether a property stands before it or not.
proof fn lemma_step_widened(
    state: HeaderModel,
    fields: Seq<Seq<u8>>,
    place: int,
    extra: (Scalar, Seq<u8>),
)
    requires
        0 <= place <= state.properties.len(),
        header_step(state, fields) is Ok,
    ensures
        header_step(with_property(state, place, extra), fields) == Ok::<HeaderModel, MvsFault>(
            with_property(header_step(state, fields)->Ok_0, place, extra),
        ),
        state.properties.len() <= header_step(state, fields)->Ok_0.properties.len(),
{
    let next = header_step(state, fields)->Ok_0;
    let wide = with_property(state, place, extra);
    if next.properties.len() > state.properties.len() {
        let property = next.properties.last();
        assert(wide.properties.push(property) =~= next.properties.insert(place, extra));
    }
}

/// A property line put in behind `prefix` adds one property to what is declared.
proof fn lemma_declared(
    prefix: Seq<u8>,
    line: Seq<u8>,
    suffix: Seq<u8>,
    extra: (Scalar, Seq<u8>),
)
    requires
        prefix.len() > 0,
        prefix.last() == 0x0a,
        declared_by(prefix + suffix) is Ok,
        declares(line, extra),
        declared_by(prefix)->Ok_0.in_vertex,
    ensures
        declared_by(prefix) is Ok,
        ({
            let place = declared_by(prefix)->Ok_0.properties.len() as int;
            let declared = declared_by(prefix + suffix)->Ok_0;
            &&& place <= declared.properties.len()
            &&& declared_by(prefix + line + suffix) == Ok::<HeaderModel, MvsFault>(
                with_property(declared, place, extra),
            )
        }),
{
    let head = text::lines(prefix);
    let tail = text::lines(suffix);
    let narrow = text::lines(prefix + suffix);
    let wide = text::lines(prefix + line + suffix);
    text::lemma_lines_joined(prefix, suffix);
    text::lemma_lines_joined(prefix, line);
    assert((prefix + line).last() == 0x0a);
    text::lemma_lines_joined(prefix + line, suffix);
    let first = head.len() as int;
    assert(narrow == head + tail);
    assert(wide == head + text::lines(line) + tail);
    lemma_header_prefix(head, narrow, first);
    lemma_header_prefix(head, wide, first);
    if header_after(narrow, first) is Err {
        lemma_header_fault_persists(narrow, first, narrow.len() as int);
    }
    let state = declared_by(prefix)->Ok_0;
    let place = state.properties.len() as int;
    assert(wide[first] == text::lines(line)[0]);
    assert(state.properties.push(extra) =~= state.properties.insert(place, extra));
    lemma_not_other_words();
    assert(header_after(wide, first + 1) == Ok::<HeaderModel, MvsFault>(
        with_property(state, place, extra),
    ));
    lemma_tail_widened(narrow, wide, first, place, extra, tail.len() as int);
}

/// The words that begin header lines differ.
proof fn lemma_not_other_words()
    ensures
        text::utf8("property"@) != text::utf8("format"@),
        text::utf8("property"@) != text::utf8("element"@),
        text::utf8("element"@) != text::utf8("format"@),
{
    reveal_strlit("property");
    reveal_strlit("format");
    reveal_strlit("element");
    vstd::utf8::is_ascii_chars_encode_utf8("property"@);
    vstd::utf8::is_ascii_chars_encode_utf8("format"@);
    vstd::utf8::is_ascii_chars_encode_utf8("element"@);
}

proof fn lemma_tail_widened(
    narrow: Seq<Seq<u8>>,
    wide: Seq<Seq<u8>>,
    first: int,
    place: int,
    extra: (Scalar, Seq<u8>),
    count: int,
)
    requires
        0 <= first,
        0 <= count,
        first + count <= narrow.len(),
        wide.len() == narrow.len() + 1,
        forall|i: int| first <= i < narrow.len() ==> #[trigger] narrow[i] == wide[i + 1],
        header_after(narrow, first) is Ok,
        header_after(narrow, narrow.len() as int) is Ok,
        place == header_after(narrow, first)->Ok_0.properties.len(),
        header_after(wide, first + 1) == Ok::<HeaderModel, MvsFault>(
            with_property(header_after(narrow, first)->Ok_0, place, extra),
        ),
    ensures
        header_after(narrow, first + count) is Ok,
        place <= header_after(narrow, first + count)->Ok_0.properties.len(),
        header_after(wide, first + count + 1) == Ok::<HeaderModel, MvsFault>(
            with_property(header_after(narrow, first + count)->Ok_0, place, extra),
        ),
    decreases count,
{
    if count > 0 {
        lemma_tail_widened(narrow, wide, first, place, extra, count - 1);
        if header_after(narrow, first + count) is Err {
            lemma_header_fault_persists(narrow, first + count, narrow.len() as int);
        }
        let at = first + count - 1;
        assert(narrow[at] == wide[at + 1]);
        lemma_step_widened(
            header_after(narrow, at)->Ok_0,
            text::words(narrow[at]),
            place,
            extra,
        );
    }
}

/// The width of a record is that of its properties together: four bytes for a number,
/// one for a level.
pub proof fn law_records_are_as_wide_as_their_properties(
    properties: Seq<(Scalar, Seq<u8>)>,
    count: int,
)
    requires
        0 <= count <= properties.len(),
    ensures
        record_offset(properties, count) == 4 * properties.take(count).filter(
            |property: (Scalar, Seq<u8>)| property.0 == Scalar::F32,
        ).len() + properties.take(count).filter(
            |property: (Scalar, Seq<u8>)| property.0 == Scalar::U8,
        ).len(),
    decreases count,
{
    reveal(Seq::filter);
    if count > 0 {
        law_records_are_as_wide_as_their_properties(properties, count - 1);
        assert(properties.take(count).drop_last() =~= properties.take(count - 1));
    }
}

/// Property `i` is the first of its record with a name.
pub open spec fn first_with(properties: Seq<(Scalar, Seq<u8>)>, name: Seq<char>, i: int) -> bool {
    &&& 0 <= i < properties.len()
    &&& properties[i].1 == text::utf8(name)
    &&& forall|j: int| 0 <= j < i ==> (#[trigger] properties[j]).1 != text::utf8(name)
}

/// No property of a record has a name.
pub open spec fn none_with(properties: Seq<(Scalar, Seq<u8>)>, name: Seq<char>) -> bool {
    forall|j: int| 0 <= j < properties.len() ==> (#[trigger] properties[j]).1 != text::utf8(name)
}

/// A property is found by its name: the first one with it.
pub proof fn law_properties_are_found(properties: Seq<(Scalar, Seq<u8>)>, name: Seq<char>)
    ensures
        property_named(properties, name) is None <==> none_with(properties, name),
        forall|i: int| #[trigger]
            first_with(properties, name, i) <==> property_named(properties, name) == Some(i),
{
    lemma_found_from(properties, text::utf8(name), 0);
    assert forall|i: int| #[trigger]
        first_with(properties, name, i) implies property_named(properties, name) == Some(i) by {
        let k = property_named(properties, name)->0;
        let property = properties[i];
        let other = properties[k];
    }
}

proof fn lemma_found_from(properties: Seq<(Scalar, Seq<u8>)>, name: Seq<u8>, from: int)
    requires
        0 <= from,
    ensures
        match property_from(properties, name, from) {
            Some(k) => from <= k < properties.len() && properties[k].1 == name && forall|j: int|
                from <= j < k ==> (#[trigger] properties[j]).1 != name,
            None => forall|j: int|
                from <= j < properties.len() ==> (#[trigger] properties[j]).1 != name,
        },
    decreases properties.len() - from,
{
    if from < properties.len() {
        lemma_found_from(properties, name, from + 1);
    }
}

/// The four bytes of property `i` of the record at `at`, lowest first, as a number.
pub open spec fn number_in(
    bytes: Seq<u8>,
    at: int,
    properties: Seq<(Scalar, Seq<u8>)>,
    i: int,
) -> int {
    let place = at + record_offset(properties, i);
    bytes[place] + 256 * bytes[place + 1] + 65536 * bytes[place + 2] + 16777216 * bytes[place + 3]
}

/// A vertex takes each coordinate from the first property of the record that has its
/// name.
pub proof fn law_vertex_position_is_that_of_its_record(
    bytes: Seq<u8>,
    at: int,
    properties: Seq<(Scalar, Seq<u8>)>,
    x: int,
    y: int,
    z: int,
)
    requires
        first_with(properties, "x"@, x),
        first_with(properties, "y"@, y),
        first_with(properties, "z"@, z),
        properties[x].0 == Scalar::F32,
        properties[y].0 == Scalar::F32,
        properties[z].0 == Scalar::F32,
    ensures
        vertex_at(bytes, at, properties).position.len() == 3,
        vertex_at(bytes, at, properties).position[0] == number_in(bytes, at, properties, x),
        vertex_at(bytes, at, properties).position[1] == number_in(bytes, at, properties, y),
        vertex_at(bytes, at, properties).position[2] == number_in(bytes, at, properties, z),
{
    law_properties_are_found(properties, "x"@);
    law_properties_are_found(properties, "y"@);
    law_properties_are_found(properties, "z"@);
}

/// A normal component is read from the property with its short name, without one from
/// that with its long name, and is zero without either or where that one is no number.
/// A level of colour likewise is read from its word, without one from its letter, and is
/// full otherwise.
pub proof fn law_vertex_reads_either_name(
    bytes: Seq<u8>,
    at: int,
    properties: Seq<(Scalar, Seq<u8>)>,
    axis: int,
    i: int,
)
    requires
        0 <= axis < 3,
    ensures
        ({
            let short = seq!["nx"@, "ny"@, "nz"@][axis];
            let long = seq!["normal_x"@, "normal_y"@, "normal_z"@][axis];
            let word = seq!["red"@, "green"@, "blue"@][axis];
            let letter = seq!["r"@, "g"@, "b"@][axis];
            let vertex = vertex_at(bytes, at, properties);
            &&& first_with(properties, short, i) || (none_with(properties, short) && first_with(
                properties,
                long,
                i,
            )) ==> vertex.normal[axis] == (if properties[i].0 == Scalar::F32 {
                number_in(bytes, at, properties, i)
            } else {
                0
            })
            &&& none_with(properties, short) && none_with(properties, long)
                ==> vertex.normal[axis] == 0
            &&& first_with(properties, word, i) || (none_with(properties, word) && first_with(
                properties,
                letter,
                i,
            )) ==> vertex.color[axis] == (if properties[i].0 == Scalar::U8 {
                bytes[at + record_offset(properties, i)]
            } else {
                255
            })
            &&& none_with(properties, word) && none_with(properties, letter)
                ==> vertex.color[axis] == 255
        }),
{
    law_properties_are_found(properties, seq!["nx"@, "ny"@, "nz"@][axis]);
    law_properties_are_found(properties, seq!["normal_x"@, "normal_y"@, "normal_z"@][axis]);
    law_properties_are_found(properties, seq!["red"@, "green"@, "blue"@][axis]);
    law_properties_are_found(properties, seq!["r"@, "g"@, "b"@][axis]);
}

/// The vertices are those of the records, one after the other, whose three coordinates
/// are below infinity in magnitude.
pub proof fn law_vertices_are_the_finite_records(
    bytes: Seq<u8>,
    start: int,
    properties: Seq<(Scalar, Seq<u8>)>,
    count: int,
)
    requires
        0 <= count,
    ensures
        finite_vertices(bytes, start, properties, count) == order::counted(count).map_values(
            |k: int|
                vertex_at(bytes, start + k * record_offset(properties, properties.len() as int), properties),
        ).filter(
            |vertex: VertexModel|
                ieee::f32_magnitude(vertex.position[0]) < 0x7f80_0000 && ieee::f32_magnitude(
                    vertex.position[1],
                ) < 0x7f80_0000 && ieee::f32_magnitude(vertex.position[2]) < 0x7f80_0000,
        ),
    decreases count,
{
    reveal(Seq::filter);
    let read = |n: int|
        order::counted(n).map_values(
            |k: int|
                vertex_at(bytes, start + k * record_offset(properties, properties.len() as int), properties),
        );
    if count > 0 {
        law_vertices_are_the_finite_records(bytes, start, properties, count - 1);
        order::lemma_counted(count);
        assert(read(count).drop_last() =~= read(count - 1));
        let vertex = vertex_at(bytes, start + (count - 1) * record_size(properties), properties);
        assert(read(count).last() == vertex);
        assert(ieee::f32_all_finite(vertex.position) <==> (ieee::f32_magnitude(vertex.position[0])
            < 0x7f80_0000 && ieee::f32_magnitude(vertex.position[1]) < 0x7f80_0000
            && ieee::f32_magnitude(vertex.position[2]) < 0x7f80_0000)) by {
            if ieee::f32_all_finite(vertex.position) {
                assert(ieee::f32_finite(vertex.position[0]));
                assert(ieee::f32_finite(vertex.position[1]));
                assert(ieee::f32_finite(vertex.position[2]));
            }
        }
    } else {
        assert(read(count) =~= Seq::empty());
    }
}

/// A header with its records is accepted exactly where it declares vertices, the records
/// have a width and are all there, each coordinate is given as a number, and some vertex
/// is finite.
pub proof fn law_records_need_positions(bytes: Seq<u8>, start: int, header: HeaderModel)
    ensures
        parse_records(bytes, start, header) is Ok <==> {
            let properties = header.properties;
            let number = |name: Seq<char>|
                exists|i: int| #[trigger]
                    first_with(properties, name, i) && properties[i].0 == Scalar::F32;
            &&& header.vertex_count is Some
            &&& record_offset(properties, properties.len() as int) != 0
            &&& header.vertex_count->0 * record_offset(properties, properties.len() as int)
                <= bytes.len() - start
            &&& number("x"@)
            &&& number("y"@)
            &&& number("z"@)
            &&& finite_vertices(bytes, start, properties, header.vertex_count->0).len() > 0
        },
        parse_records(bytes, start, header) matches Ok(vertices) ==> vertices == finite_vertices(
            bytes,
            start,
            header.properties,
            header.vertex_count->0,
        ),
{
    let properties = header.properties;
    lemma_number(properties, "x"@);
    lemma_number(properties, "y"@);
    lemma_number(properties, "z"@);
}

proof fn lemma_number(properties: Seq<(Scalar, Seq<u8>)>, name: Seq<char>)
    ensures
        place_of(properties, property_named(properties, name), Scalar::F32) is Some <==> exists|
            i: int,
        | #[trigger]
            first_with(properties, name, i) && properties[i].0 == Scalar::F32,
{
    law_properties_are_found(properties, name);
    if let Some(i) = property_named(properties, name) {
        assert(first_with(properties, name, i));
    }
}

/// An imported point is its vertex, seen once, with full confidence and in no known
/// frame. Its normal is kept where its length is a number above zero, and its radius is
/// the larger of the share and one in a hundred thousand, numerically.
pub proof fn law_imported_points_are_their_vertices(
    point: FusedPoint,
    vertex: PlyVertex,
    normal: MeasuredNormal,
    share: u32,
)
    requires
        stands_for_vertex(point, vertex, normal, share),
    ensures
        point.position == vertex.position,
        point.color_srgb == vertex.color_srgb,
        point.confidence == 0x3f80_0000,
        point.first_observing_frame == -1,
        point.contributors == 1,
        point.radius == 0x3727_c5ac || point.radius == share,
        !ieee::f32_nan(point.radius),
        ieee::f32_rank(point.radius) >= 0x3727_c5ac,
        !ieee::f32_nan(share) ==> ieee::f32_rank(point.radius) >= ieee::f32_rank(share),
        0 < ieee::f32_rank(normal.length) < 0x7f80_0000 ==> point.normal@ == normal.unit@,
        !(0 < ieee::f32_rank(normal.length) < 0x7f80_0000) ==> forall|axis: int|
            0 <= axis < 3 ==> #[trigger] point.normal@[axis] == 0,
{
}

/// Line `k` opens an element.
pub open spec fn opens_element(lines: Seq<Seq<u8>>, k: int) -> bool {
    text::words(lines[k]).len() > 0 && text::words(lines[k])[0] == text::utf8("element"@)
}

/// Line `k` opens the vertex element.
pub open spec fn opens_vertices(lines: Seq<Seq<u8>>, k: int) -> bool {
    opens_element(lines, k) && text::words(lines[k]).len() == 3 && text::words(lines[k])[1]
        == text::utf8("vertex"@)
}

/// The line before place `k` belongs to a vertex element: one is open there.
pub open spec fn among_vertices(lines: Seq<Seq<u8>>, k: int) -> bool {
    exists|j: int|
        0 <= j < k && #[trigger] opens_vertices(lines, j) && forall|i: int|
            j < i < k ==> !#[trigger] opens_element(lines, i)
}

/// Line `k` declares a property of the vertices.
pub open spec fn declares_property(lines: Seq<Seq<u8>>, k: int) -> bool {
    text::words(lines[k]).len() == 3 && text::words(lines[k])[0] == text::utf8("property"@)
        && among_vertices(lines, k)
}

/// A header that is accepted lists, in order, the properties that stand below a vertex
/// element and above the next element, each with the name that its line gives.
pub proof fn law_header_lists_the_vertex_properties(lines: Seq<Seq<u8>>, count: int)
    requires
        0 <= count <= lines.len(),
        header_after(lines, count) is Ok,
    ensures
        header_after(lines, count)->Ok_0.in_vertex <==> among_vertices(lines, count),
        header_after(lines, count)->Ok_0.vertex_count is Some <==> exists|j: int|
            0 <= j < count && #[trigger] opens_vertices(lines, j),
        header_after(lines, count)->Ok_0.properties.map_values(
            |property: (Scalar, Seq<u8>)| property.1,
        ) == order::counted(count).filter(|k: int| declares_property(lines, k)).map_values(
            |k: int| text::words(lines[k])[2],
        ),
    decreases count,
{
    reveal(Seq::filter);
    if count > 0 {
        let before = header_after(lines, count - 1);
        assert(before is Ok);
        law_header_lists_the_vertex_properties(lines, count - 1);
        order::lemma_counted(count);
        let k = count - 1;
        lemma_not_other_words();
        assert(among_vertices(lines, count) <==> opens_vertices(lines, k) || (among_vertices(
            lines,
            k,
        ) && !opens_element(lines, k))) by {
            if opens_vertices(lines, k) {
                assert(among_vertices(lines, count));
            }
            if among_vertices(lines, k) && !opens_element(lines, k) {
                let j = choose|j: int|
                    0 <= j < k && #[trigger] opens_vertices(lines, j) && forall|i: int|
                        j < i < k ==> !#[trigger] opens_element(lines, i);
                assert(opens_vertices(lines, j));
            }
            if among_vertices(lines, count) && !opens_vertices(lines, k) {
                let j = choose|j: int|
                    0 <= j < count && #[trigger] opens_vertices(lines, j) && forall|i: int|
                        j < i < count ==> !#[trigger] opens_element(lines, i);
                assert(opens_vertices(lines, j));
                assert(!opens_element(lines, k));
            }
        }
        if opens_vertices(lines, k) {
            assert(0 <= k < count && opens_vertices(lines, k));
        }
        let old_names = before->Ok_0.properties.map_values(
            |property: (Scalar, Seq<u8>)| property.1,
        );
        let names = header_after(lines, count)->Ok_0.properties.map_values(
            |property: (Scalar, Seq<u8>)| property.1,
        );
        if declares_property(lines, k) {
            assert(names =~= old_names.push(text::words(lines[k])[2]));
        } else {
            assert(names =~= old_names);
        }
    } else {
        assert(order::counted(count) =~= Seq::empty());
    }
    assert(header_after(lines, count)->Ok_0.properties.map_values(
        |property: (Scalar, Seq<u8>)| property.1,
    ) =~= order::counted(count).filter(|k: int| declares_property(lines, k)).map_values(
        |k: int| text::words(lines[k])[2],
    ));
}

/// A type is a number or a level by either of its two names.
pub proof fn law_types_have_two_names(kind: Seq<u8>)
    ensures
        scalar_named(kind) == Some(Scalar::F32) <==> kind == text::utf8("float"@) || kind
            == text::utf8("float32"@),
        scalar_named(kind) == Some(Scalar::U8) ==> kind == text::utf8("uchar"@) || kind
            == text::utf8("uint8"@),
        kind == text::utf8("uchar"@) || kind == text::utf8("uint8"@) ==> scalar_named(kind) is Some,
        scalar_width(Scalar::F32) == 4,
        scalar_width(Scalar::U8) == 1,
{
}

} // verus!
