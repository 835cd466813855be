//! Open exports of a fused relative-scale world: ASCII PLY and binary glTF.

use vstd::prelude::*;

use crate::ieee;
use crate::json::{put_number, put_text};
use crate::text;
use crate::wire;
use crate::wire::{put_bytes, put_u32};
use crate::world;
use crate::world::FusedPoint;

verus! {

/// Why a world was not exported.
#[derive(Debug, PartialEq, Eq)]
pub enum ExportError {
    /// The scene has no fused world yet.
    MissingFusedWorld,
    /// The scene could not be read.
    Scene(String),
    /// The export could not be written.
    Io(String),
    /// The container would not fit its 32-bit length field.
    TooLarge,
}

/// The chunk an export reads: the manifest's fused world, if there is one.
pub fn exported_chunk(fused_chunk_hash: &Option<String>) -> (result: Result<String, ExportError>)
    ensures
        match (fused_chunk_hash, result) {
            (Some(hash), Ok(chosen)) => chosen@ == hash@,
            (None, Err(e)) => e == ExportError::MissingFusedWorld,
            _ => false,
        },
{
    match fused_chunk_hash {
        Some(hash) => Ok(hash.clone()),
        None => Err(ExportError::MissingFusedWorld),
    }
}

/// A surface element with its floating-point fields already spelled out.
#[derive(Debug, Clone)]
pub struct PlyRow {
    pub x: String,
    pub y: String,
    pub z: String,
    pub nx: String,
    pub ny: String,
    pub nz: String,
    pub color_srgb: [u8; 3],
    pub confidence: String,
    pub radius: String,
    pub contributors: u32,
}

/// The header of a document with `count` vertices, up to the count.
pub open spec fn ply_header_start() -> Seq<u8> {
    text::utf8(
        "ply\nformat ascii 1.0\ncomment Vestra relative-scale fused world\nelement vertex "@,
    )
}

/// The header behind the count.
pub open spec fn ply_header_end() -> Seq<u8> {
    text::utf8(
        "\nproperty float x\nproperty float y\nproperty float z\nproperty float nx\nproperty float ny\nproperty float nz\nproperty uchar red\nproperty uchar green\nproperty uchar blue\nproperty float confidence\nproperty float radius\nproperty uint contributors\nend_header\n"@,
    )
}

/// Two fields with a space between them.
pub open spec fn spaced(left: Seq<u8>, right: Seq<u8>) -> Seq<u8> {
    left.push(0x20) + right
}

/// Three colour levels with spaces between them.
pub open spec fn ply_color(color: [u8; 3]) -> Seq<u8> {
    spaced(
        spaced(text::decimal(color@[0] as int), text::decimal(color@[1] as int)),
        text::decimal(color@[2] as int),
    )
}

/// One vertex line: twelve fields with spaces between them.
pub open spec fn ply_line(row: PlyRow) -> Seq<u8> {
    let position = spaced(spaced(text::utf8(row.x@), text::utf8(row.y@)), text::utf8(row.z@));
    let normal = spaced(spaced(text::utf8(row.nx@), text::utf8(row.ny@)), text::utf8(row.nz@));
    let color = ply_color(row.color_srgb);
    let quality = spaced(
        spaced(text::utf8(row.confidence@), text::utf8(row.radius@)),
        text::decimal(row.contributors as int),
    );
    spaced(spaced(spaced(position, normal), color), quality).push(0x0a)
}

/// The first `count` vertex lines.
pub open spec fn ply_lines(rows: Seq<PlyRow>, count: int) -> Seq<u8>
    decreases count,
{
    if count <= 0 {
        Seq::empty()
    } else {
        ply_lines(rows, count - 1) + ply_line(rows[count - 1])
    }
}

/// An ASCII PLY document: a header with the vertex count, then the vertices.
pub open spec fn ply_document(rows: Seq<PlyRow>) -> Seq<u8> {
    ply_header_start() + text::decimal(rows.len() as int) + ply_header_end() + ply_lines(
        rows,
        rows.len() as int,
    )
}

fn put_texts(out: &mut Vec<u8>, a: &str, b: &str, c: &str)
    ensures
        final(out)@ == old(out)@ + spaced(spaced(text::utf8(a@), text::utf8(b@)), text::utf8(c@)),
{
    put_text(out, a);
    out.push(0x20);
    put_text(out, b);
    out.push(0x20);
    put_text(out, c);
    assert(out@ =~= old(out)@ + spaced(
        spaced(text::utf8(a@), text::utf8(b@)),
        text::utf8(c@),
    ));
}

fn put_color(out: &mut Vec<u8>, color: &[u8; 3])
    ensures
        final(out)@ == old(out)@ + ply_color(*color),
{
    put_number(out, color[0] as u64);
    out.push(0x20);
    put_number(out, color[1] as u64);
    out.push(0x20);
    put_number(out, color[2] as u64);
    assert(out@ =~= old(out)@ + ply_color(*color));
}

fn put_line(out: &mut Vec<u8>, row: &PlyRow)
    ensures
        final(out)@ == old(out)@ + ply_line(*row),
{
    let ghost start = out@;
    let ghost position = spaced(
        spaced(text::utf8(row.x@), text::utf8(row.y@)),
        text::utf8(row.z@),
    );
    let ghost normal = spaced(
        spaced(text::utf8(row.nx@), text::utf8(row.ny@)),
        text::utf8(row.nz@),
    );
    let ghost color = ply_color(row.color_srgb);
    put_texts(out, row.x.as_str(), row.y.as_str(), row.z.as_str());
    out.push(0x20);
    put_texts(out, row.nx.as_str(), row.ny.as_str(), row.nz.as_str());
    assert(out@ =~= start + spaced(position, normal));
    out.push(0x20);
    put_color(out, &row.color_srgb);
    assert(out@ =~= start + spaced(spaced(position, normal), color));
    let ghost middle = out@;
    out.push(0x20);
    put_text(out, row.confidence.as_str());
    out.push(0x20);
    put_text(out, row.radius.as_str());
    out.push(0x20);
    put_number(out, row.contributors as u64);
    let ghost quality = spaced(
        spaced(text::utf8(row.confidence@), text::utf8(row.radius@)),
        text::decimal(row.contributors as int),
    );
    assert(out@ =~= spaced(middle, quality));
    assert(out@ =~= start + spaced(spaced(spaced(position, normal), color), quality));
    out.push(0x0a);
    assert(out@ =~= start + ply_line(*row));
}

/// Spells a world as an ASCII PLY document with relative coordinates, colour,
/// confidence, radius and contributor count.
pub fn export_fused_ply(rows: &Vec<PlyRow>) -> (document: Vec<u8>)
    ensures
        document@ == ply_document(rows@),
{
    let mut out: Vec<u8> = Vec::new();
    put_text(
        &mut out,
        "ply\nformat ascii 1.0\ncomment Vestra relative-scale fused world\nelement vertex ",
    );
    put_number(&mut out, rows.len() as u64);
    put_text(
        &mut out,
        "\nproperty float x\nproperty float y\nproperty float z\nproperty float nx\nproperty float ny\nproperty float nz\nproperty uchar red\nproperty uchar green\nproperty uchar blue\nproperty float confidence\nproperty float radius\nproperty uint contributors\nend_header\n",
    );
    let ghost head = out@;
    assert(head =~= ply_header_start() + text::decimal(rows@.len() as int) + ply_header_end());
    assert(head =~= head + ply_lines(rows@, 0));
    for i in 0..rows.len()
        invariant
            out@ == head + ply_lines(rows@, i as int),
    {
        put_line(&mut out, &rows[i]);
        assert(out@ =~= head + ply_lines(rows@, i + 1));
    }
    out
}

/// Bytes to add for a length that is a multiple of four.
pub open spec fn padding(length: int) -> int {
    (4 - length % 4) % 4
}

/// A byte string followed by fill bytes up to a multiple of four.
pub open spec fn padded(bytes: Seq<u8>, fill: u8) -> Seq<u8> {
    bytes + Seq::new(padding(bytes.len() as int) as nat, |i: int| fill)
}

fn pad_with(bytes: &mut Vec<u8>, fill: u8)
    ensures
        final(bytes)@ == padded(old(bytes)@, fill),
{
    let missing: usize = (4 - bytes.len() % 4) % 4;
    for i in 0..missing
        invariant
            missing == padding(old(bytes)@.len() as int),
            bytes@ == old(bytes)@ + Seq::new(i as nat, |j: int| fill),
    {
        bytes.push(fill);
        assert(bytes@ =~= old(bytes)@ + Seq::new((i + 1) as nat, |j: int| fill));
    }
    assert(bytes@ =~= padded(old(bytes)@, fill));
}

/// Fills a binary buffer with zeros up to a multiple of four.
pub fn pad_binary(bytes: &mut Vec<u8>)
    ensures
        final(bytes)@ == padded(old(bytes)@, 0),
{
    pad_with(bytes, 0);
}

/// The twelve bytes of each of the first `count` positions or normals.
pub open spec fn vectors_bytes(vectors: Seq<[u32; 3]>, count: int) -> Seq<u8>
    decreases count,
{
    if count <= 0 {
        Seq::empty()
    } else {
        vectors_bytes(vectors, count - 1) + wire::u32s_bytes(vectors[count - 1]@)
    }
}

/// The three bytes of each of the first `count` colours.
pub open spec fn colors_bytes(points: Seq<FusedPoint>, count: int) -> Seq<u8>
    decreases count,
{
    if count <= 0 {
        Seq::empty()
    } else {
        colors_bytes(points, count - 1) + points[count - 1].color_srgb@
    }
}

/// All positions.
pub open spec fn positions(points: Seq<FusedPoint>) -> Seq<[u32; 3]> {
    Seq::new(points.len(), |i: int| points[i].position)
}

/// All normals.
pub open spec fn normals(points: Seq<FusedPoint>) -> Seq<[u32; 3]> {
    Seq::new(points.len(), |i: int| points[i].normal)
}

/// The vertex buffer of a point cloud and where its three sections start.
#[derive(Debug, Clone, PartialEq, Eq)]
pub struct GlbBuffer {
    pub binary: Vec<u8>,
    pub positions_offset: usize,
    pub normals_offset: usize,
    pub colors_offset: usize,
}

/// The sections of a vertex buffer, each padded to a multiple of four.
pub open spec fn buffer_bytes(points: Seq<FusedPoint>) -> Seq<u8> {
    let count = points.len() as int;
    vectors_bytes(positions(points), count) + vectors_bytes(normals(points), count) + padded(
        colors_bytes(points, count),
        0,
    )
}

proof fn lemma_vectors_len(vectors: Seq<[u32; 3]>, count: int)
    requires
        0 <= count,
    ensures
        vectors_bytes(vectors, count).len() == 12 * count,
    decreases count,
{
    if count > 0 {
        lemma_vectors_len(vectors, count - 1);
    }
}

proof fn lemma_colors_len(points: Seq<FusedPoint>, count: int)
    requires
        0 <= count,
    ensures
        colors_bytes(points, count).len() == 3 * count,
    decreases count,
{
    if count > 0 {
        lemma_colors_len(points, count - 1);
    }
}

/// Lays out positions, normals and colours for a glTF buffer.
pub fn glb_buffer(points: &Vec<FusedPoint>) -> (buffer: GlbBuffer)
    ensures
        buffer.binary@ == buffer_bytes(points@),
        buffer.positions_offset == 0,
        buffer.normals_offset == 12 * points@.len(),
        buffer.colors_offset == 24 * points@.len(),
{
    let ghost all = points@;
    let ghost count = points@.len() as int;
    proof {
        lemma_vectors_len(positions(all), count);
        lemma_vectors_len(normals(all), count);
        lemma_colors_len(all, count);
    }
    let mut binary: Vec<u8> = Vec::new();
    let positions_offset: usize = binary.len();
    for i in 0..points.len()
        invariant
            all == points@,
            binary@ == vectors_bytes(positions(all), i as int),
    {
        crate::wire::put_u32s(&mut binary, &points[i].position);
        assert(binary@ =~= vectors_bytes(positions(all), i + 1));
    }
    let ghost first = binary@;
    pad_binary(&mut binary);
    assert(binary@ =~= first);
    let normals_offset: usize = binary.len();
    assert(first + vectors_bytes(normals(all), 0) =~= first);
    for i in 0..points.len()
        invariant
            all == points@,
            binary@ == first + vectors_bytes(normals(all), i as int),
    {
        crate::wire::put_u32s(&mut binary, &points[i].normal);
        assert(binary@ =~= first + vectors_bytes(normals(all), i + 1));
    }
    let ghost second = binary@;
    pad_binary(&mut binary);
    assert(binary@ =~= second);
    let colors_offset: usize = binary.len();
    assert(second + colors_bytes(all, 0) =~= second);
    for i in 0..points.len()
        invariant
            all == points@,
            binary@ == second + colors_bytes(all, i as int),
    {
        put_bytes(&mut binary, &points[i].color_srgb);
        assert(binary@ =~= second + colors_bytes(all, i + 1));
    }
    let ghost third = binary@;
    pad_binary(&mut binary);
    assert(binary@ =~= buffer_bytes(all));
    GlbBuffer { binary, positions_offset, normals_offset, colors_offset }
}

/// Length of a container: a header, and two chunks of eight bytes and payload.
pub open spec fn glb_length(json: Seq<u8>, binary: Seq<u8>) -> int {
    (28 + padded(json, 0x20).len() + binary.len()) as int
}

/// The container header and the header of its document chunk.
pub open spec fn glb_head(total: u32, document: u32) -> Seq<u8> {
    wire::u32_bytes(0x4654_6C67) + wire::u32_bytes(2) + wire::u32_bytes(total) + wire::u32_bytes(
        document,
    ) + wire::u32_bytes(0x4E4F_534A)
}

/// The buffer chunk.
pub open spec fn glb_tail(binary: Seq<u8>) -> Seq<u8> {
    wire::u32_bytes(binary.len() as u32) + wire::u32_bytes(0x004E_4942) + binary
}

/// A binary glTF container: the document padded with spaces, then the buffer.
pub open spec fn glb_bytes(json: Seq<u8>, binary: Seq<u8>) -> Seq<u8> {
    let document = padded(json, 0x20);
    glb_head(glb_length(json, binary) as u32, document.len() as u32) + document + glb_tail(binary)
}

/// Frames a glTF document and its buffer. Fails where the container would not
/// fit its length field.
pub fn glb_container(json: &Vec<u8>, binary: &Vec<u8>) -> (result: Result<Vec<u8>, ExportError>)
    ensures
        match result {
            Ok(bytes) => glb_length(json@, binary@) <= u32::MAX && bytes@ == glb_bytes(
                json@,
                binary@,
            ),
            Err(e) => glb_length(json@, binary@) > u32::MAX && e == ExportError::TooLarge,
        },
{
    let size: u128 = 28 + json.len() as u128 + ((4 - json.len() % 4) % 4) as u128
        + binary.len() as u128;
    if size > 0xffff_ffff {
        return Err(ExportError::TooLarge);
    }
    let total: u32 = size as u32;
    let mut document: Vec<u8> = Vec::new();
    put_bytes(&mut document, json.as_slice());
    assert(document@ =~= json@);
    pad_with(&mut document, 0x20);
    let mut out: Vec<u8> = Vec::new();
    put_u32(&mut out, 0x4654_6C67);
    put_u32(&mut out, 2);
    put_u32(&mut out, total);
    put_u32(&mut out, document.len() as u32);
    put_u32(&mut out, 0x4E4F_534A);
    assert(out@ =~= glb_head(total, document@.len() as u32));
    put_bytes(&mut out, document.as_slice());
    let ghost front = out@;
    put_u32(&mut out, binary.len() as u32);
    put_u32(&mut out, 0x004E_4942);
    put_bytes(&mut out, binary.as_slice());
    assert(out@ =~= front + glb_tail(binary@));
    Ok(out)
}

/// A container names its own length, its two chunks are where their lengths
/// say, and each chunk ends on a four-byte boundary.
pub proof fn law_container_is_self_describing(json: Seq<u8>, binary: Seq<u8>)
    requires
        glb_length(json, binary) <= u32::MAX,
        binary.len() % 4 == 0,
    ensures
        ({
            let bytes = glb_bytes(json, binary);
            let document = padded(json, 0x20);
            let json_length = wire::u32_at(bytes, 12) as int;
            let binary_length = wire::u32_at(bytes, 20 + json_length) as int;
            &&& wire::u32_at(bytes, 0) == 0x4654_6C67
            &&& wire::u32_at(bytes, 4) == 2
            &&& wire::u32_at(bytes, 8) == bytes.len()
            &&& json_length % 4 == 0
            &&& binary_length % 4 == 0
            &&& bytes.len() == 28 + json_length + binary_length
            &&& bytes.subrange(20, 20 + json_length) == document
            &&& bytes.subrange(20, (20 + json.len()) as int) == json
            &&& bytes.subrange(28 + json_length, bytes.len() as int) == binary
        }),
{
    let bytes = glb_bytes(json, binary);
    let document = padded(json, 0x20);
    let total = glb_length(json, binary) as u32;
    let head = glb_head(total, document.len() as u32);
    let tail = glb_tail(binary);
    let end = (20 + document.len()) as int;
    lemma_glb_head(total, document.len() as u32);
    lemma_glb_tail(binary);
    lemma_padded(json, 0x20);
    lemma_framed(head, document, tail);
    assert(bytes.subrange(end + 8, bytes.len() as int) == tail.subrange(8, tail.len() as int));
    assert(bytes.subrange(20, (20 + json.len()) as int) == document.subrange(
        0,
        json.len() as int,
    ));
}

/// A padded byte string starts with the string and has a length that is a
/// multiple of four.
proof fn lemma_padded(bytes: Seq<u8>, fill: u8)
    ensures
        padded(bytes, fill).len() % 4 == 0,
        padded(bytes, fill).len() >= bytes.len(),
        padded(bytes, fill).subrange(0, bytes.len() as int) == bytes,
{
    let length = bytes.len() as int;
    assert((length + (4 - length % 4) % 4) % 4 == 0);
    assert(padded(bytes, fill).subrange(0, length) =~= bytes);
}

/// Where the parts of a container stand in it.
proof fn lemma_framed(head: Seq<u8>, document: Seq<u8>, tail: Seq<u8>)
    requires
        head.len() == 20,
        tail.len() >= 8,
    ensures
        ({
            let bytes = head + document + tail;
            let end = (20 + document.len()) as int;
            &&& bytes.len() == end + tail.len()
            &&& wire::u32_at(bytes, 0) == wire::u32_at(head, 0)
            &&& wire::u32_at(bytes, 4) == wire::u32_at(head, 4)
            &&& wire::u32_at(bytes, 8) == wire::u32_at(head, 8)
            &&& wire::u32_at(bytes, 12) == wire::u32_at(head, 12)
            &&& wire::u32_at(bytes, end) == wire::u32_at(tail, 0)
            &&& bytes.subrange(20, end) == document
            &&& forall|to: int|
                0 <= to <= document.len() ==> #[trigger] bytes.subrange(20, 20 + to)
                    == document.subrange(0, to)
            &&& bytes.subrange(end + 8, bytes.len() as int) == tail.subrange(8, tail.len() as int)
        }),
{
    let bytes = head + document + tail;
    let end = (20 + document.len()) as int;
    wire::lemma_u32_at_frame(bytes, 0, head, 0);
    wire::lemma_u32_at_frame(bytes, 4, head, 4);
    wire::lemma_u32_at_frame(bytes, 8, head, 8);
    wire::lemma_u32_at_frame(bytes, 12, head, 12);
    wire::lemma_u32_at_frame(bytes, end, tail, 0);
    assert(bytes.subrange(20, end) =~= document);
    assert forall|to: int| 0 <= to <= document.len() implies #[trigger] bytes.subrange(20, 20 + to)
        == document.subrange(0, to) by {
        assert(bytes.subrange(20, 20 + to) =~= document.subrange(0, to));
    }
    assert(bytes.subrange(end + 8, bytes.len() as int) =~= tail.subrange(8, tail.len() as int));
}

proof fn lemma_glb_head(total: u32, document: u32)
    ensures
        glb_head(total, document).len() == 20,
        wire::u32_at(glb_head(total, document), 0) == 0x4654_6C67,
        wire::u32_at(glb_head(total, document), 4) == 2,
        wire::u32_at(glb_head(total, document), 8) == total,
        wire::u32_at(glb_head(total, document), 12) == document,
{
    let head = glb_head(total, document);
    assert(head.subrange(0, 4) =~= wire::u32_bytes(0x4654_6C67));
    assert(head.subrange(4, 8) =~= wire::u32_bytes(2));
    assert(head.subrange(8, 12) =~= wire::u32_bytes(total));
    assert(head.subrange(12, 16) =~= wire::u32_bytes(document));
    wire::lemma_u32_placed(head, 0, 0x4654_6C67);
    wire::lemma_u32_placed(head, 4, 2);
    wire::lemma_u32_placed(head, 8, total);
    wire::lemma_u32_placed(head, 12, document);
}

proof fn lemma_glb_tail(binary: Seq<u8>)
    ensures
        glb_tail(binary).len() == 8 + binary.len(),
        wire::u32_at(glb_tail(binary), 0) == binary.len() as u32,
        glb_tail(binary).subrange(8, (8 + binary.len()) as int) == binary,
{
    let tail = glb_tail(binary);
    assert(tail.subrange(8, (8 + binary.len()) as int) =~= binary);
    assert(tail.subrange(0, 4) =~= wire::u32_bytes(binary.len() as u32));
    wire::lemma_u32_placed(tail, 0, binary.len() as u32);
}

/// A corner of the bounds with its coordinates already spelled out.
#[derive(Debug, Clone)]
pub struct CornerText {
    pub x: String,
    pub y: String,
    pub z: String,
}

/// A corner as a JSON array.
pub open spec fn corner_bytes(corner: CornerText) -> Seq<u8> {
    seq![0x5bu8] + text::utf8(corner.x@) + seq![0x2cu8] + text::utf8(corner.y@) + seq![0x2cu8]
        + text::utf8(corner.z@) + seq![0x5du8]
}

/// The accessors of positions, normals and colours.
pub open spec fn accessors_json(count: int, minimum: CornerText, maximum: CornerText) -> Seq<u8> {
    text::utf8("{\"accessors\":[{\"bufferView\":0,\"componentType\":5126,\"count\":"@)
        + text::decimal(count) + text::utf8(",\"max\":"@) + corner_bytes(maximum) + text::utf8(
        ",\"min\":"@,
    ) + corner_bytes(minimum) + text::utf8(
        ",\"type\":\"VEC3\"},{\"bufferView\":1,\"componentType\":5126,\"count\":"@,
    ) + text::decimal(count) + text::utf8(
        ",\"type\":\"VEC3\"},{\"bufferView\":2,\"componentType\":5121,\"count\":"@,
    ) + text::decimal(count)
}

/// One view of the buffer, up to its target.
pub open spec fn buffer_view_json(length: int, offset: int) -> Seq<u8> {
    text::utf8("{\"buffer\":0,\"byteLength\":"@) + text::decimal(length) + text::utf8(
        ",\"byteOffset\":"@,
    ) + text::decimal(offset) + text::utf8(",\"target\":34962}"@)
}

/// The document between the accessors and the views of the buffer.
pub open spec fn asset_json() -> Seq<u8> {
    text::utf8(
        ",\"normalized\":true,\"type\":\"VEC3\"}],\"asset\":{\"generator\":\"Vestra relative-scale world exporter\",\"version\":\"2.0\"},\"bufferViews\":["@,
    )
}

/// The document behind the length of the buffer.
pub open spec fn scene_json() -> Seq<u8> {
    text::utf8(
        "}],\"extras\":{\"geometry_layer\":\"fused\",\"vestra_scale\":\"relative\"},\"meshes\":[{\"primitives\":[{\"attributes\":{\"COLOR_0\":2,\"NORMAL\":1,\"POSITION\":0},\"mode\":0}]}],\"nodes\":[{\"mesh\":0,\"name\":\"Vestra relative-scale fused world\"}],\"scene\":0,\"scenes\":[{\"nodes\":[0]}]}"@,
    )
}

/// The views of the buffer and its length.
pub open spec fn buffers_json(count: int, length: int) -> Seq<u8> {
    buffer_view_json(12 * count, 0) + seq![0x2cu8] + buffer_view_json(12 * count, 12 * count)
        + seq![0x2cu8] + buffer_view_json(3 * count, 24 * count) + text::utf8(
        "],\"buffers\":[{\"byteLength\":"@,
    ) + text::decimal(length)
}

/// A glTF document of `count` points, whose buffer has `length` bytes: one mesh
/// of points with position, normal and colour, marked as relative in scale.
pub open spec fn glb_json(
    count: int,
    length: int,
    minimum: CornerText,
    maximum: CornerText,
) -> Seq<u8> {
    accessors_json(count, minimum, maximum) + asset_json() + buffers_json(count, length)
        + scene_json()
}

fn put_corner(out: &mut Vec<u8>, corner: &CornerText)
    ensures
        final(out)@ == old(out)@ + corner_bytes(*corner),
{
    out.push(0x5b);
    put_text(out, corner.x.as_str());
    out.push(0x2c);
    put_text(out, corner.y.as_str());
    out.push(0x2c);
    put_text(out, corner.z.as_str());
    out.push(0x5d);
    assert(out@ =~= old(out)@ + corner_bytes(*corner));
}

fn put_accessors(out: &mut Vec<u8>, count: usize, minimum: &CornerText, maximum: &CornerText)
    ensures
        final(out)@ == old(out)@ + accessors_json(count as int, *minimum, *maximum),
{
    put_text(out, "{\"accessors\":[{\"bufferView\":0,\"componentType\":5126,\"count\":");
    put_number(out, count as u64);
    put_text(out, ",\"max\":");
    put_corner(out, maximum);
    put_text(out, ",\"min\":");
    put_corner(out, minimum);
    put_text(out, ",\"type\":\"VEC3\"},{\"bufferView\":1,\"componentType\":5126,\"count\":");
    put_number(out, count as u64);
    put_text(out, ",\"type\":\"VEC3\"},{\"bufferView\":2,\"componentType\":5121,\"count\":");
    put_number(out, count as u64);
    assert(out@ =~= old(out)@ + accessors_json(count as int, *minimum, *maximum));
}

fn put_buffer_view(out: &mut Vec<u8>, length: usize, offset: usize)
    ensures
        final(out)@ == old(out)@ + buffer_view_json(length as int, offset as int),
{
    put_text(out, "{\"buffer\":0,\"byteLength\":");
    put_number(out, length as u64);
    put_text(out, ",\"byteOffset\":");
    put_number(out, offset as u64);
    put_text(out, ",\"target\":34962}");
    assert(out@ =~= old(out)@ + buffer_view_json(length as int, offset as int));
}

fn put_buffers(out: &mut Vec<u8>, count: usize, length: usize)
    requires
        24 * count <= usize::MAX,
    ensures
        final(out)@ == old(out)@ + buffers_json(count as int, length as int),
{
    let ghost start = out@;
    let ghost first = buffer_view_json(12 * count, 0);
    let ghost second = buffer_view_json(12 * count, 12 * count);
    let ghost third = buffer_view_json(3 * count, 24 * count);
    put_buffer_view(out, 12 * count, 0);
    out.push(0x2c);
    put_buffer_view(out, 12 * count, 12 * count);
    assert(out@ =~= start + (first + seq![0x2cu8] + second));
    out.push(0x2c);
    put_buffer_view(out, 3 * count, 24 * count);
    assert(out@ =~= start + (first + seq![0x2cu8] + second + seq![0x2cu8] + third));
    put_text(out, "],\"buffers\":[{\"byteLength\":");
    put_number(out, length as u64);
    assert(out@ =~= old(out)@ + buffers_json(count as int, length as int));
}

/// Spells a world as a binary glTF point cloud. `minimum` and `maximum` spell
/// the corners of its bounds.
pub fn export_fused_glb(points: &Vec<FusedPoint>, minimum: &CornerText, maximum: &CornerText) -> (
    result: Result<Vec<u8>, ExportError>)
    ensures
        ({
            let binary = buffer_bytes(points@);
            let json = glb_json(points@.len() as int, binary.len() as int, *minimum, *maximum);
            match result {
                Ok(bytes) => glb_length(json, binary) <= u32::MAX && bytes@ == glb_bytes(
                    json,
                    binary,
                ),
                Err(e) => glb_length(json, binary) > u32::MAX && e == ExportError::TooLarge,
            }
        }),
{
    let buffer: GlbBuffer = glb_buffer(points);
    let length: usize = buffer.binary.len();
    proof {
        lemma_vectors_len(positions(points@), points@.len() as int);
        lemma_vectors_len(normals(points@), points@.len() as int);
    }
    let mut json: Vec<u8> = Vec::new();
    put_accessors(&mut json, points.len(), minimum, maximum);
    put_text(
        &mut json,
        ",\"normalized\":true,\"type\":\"VEC3\"}],\"asset\":{\"generator\":\"Vestra relative-scale world exporter\",\"version\":\"2.0\"},\"bufferViews\":[",
    );
    put_buffers(&mut json, points.len(), length);
    put_text(
        &mut json,
        "}],\"extras\":{\"geometry_layer\":\"fused\",\"vestra_scale\":\"relative\"},\"meshes\":[{\"primitives\":[{\"attributes\":{\"COLOR_0\":2,\"NORMAL\":1,\"POSITION\":0},\"mode\":0}]}],\"nodes\":[{\"mesh\":0,\"name\":\"Vestra relative-scale fused world\"}],\"scene\":0,\"scenes\":[{\"nodes\":[0]}]}",
    );
    assert(json@ =~= glb_json(points@.len() as int, length as int, *minimum, *maximum));
    glb_container(&json, &buffer.binary)
}

/// `bound` is the least of the values that are no NaN, or positive infinity
/// where there is none.
pub open spec fn is_minimum(values: Seq<u32>, bound: u32) -> bool {
    &&& bound == 0x7f80_0000 || exists|i: int| 0 <= i < values.len() && #[trigger] values[i] == bound
    &&& !ieee::f32_nan(bound)
    &&& forall|i: int|
        0 <= i < values.len() && !ieee::f32_nan(#[trigger] values[i]) ==> ieee::f32_rank(bound)
            <= ieee::f32_rank(values[i])
}

/// `bound` is the greatest of the values that are no NaN, or negative infinity
/// where there is none.
pub open spec fn is_maximum(values: Seq<u32>, bound: u32) -> bool {
    &&& bound == 0xff80_0000 || exists|i: int| 0 <= i < values.len() && #[trigger] values[i] == bound
    &&& !ieee::f32_nan(bound)
    &&& forall|i: int|
        0 <= i < values.len() && !ieee::f32_nan(#[trigger] values[i]) ==> ieee::f32_rank(values[i])
            <= ieee::f32_rank(bound)
}

fn axis_minimum(points: &Vec<FusedPoint>, axis: usize) -> (bound: u32)
    requires
        axis < 3,
    ensures
        is_minimum(world::coordinates(points@, axis as int), bound),
{
    let ghost values = world::coordinates(points@, axis as int);
    let mut bound: u32 = 0x7f80_0000;
    for i in 0..points.len()
        invariant
            axis < 3,
            values == world::coordinates(points@, axis as int),
            !ieee::f32_nan(bound),
            bound == 0x7f80_0000 || exists|j: int|
                0 <= j < values.len() && #[trigger] values[j] == bound,
            forall|j: int|
                0 <= j < i && !ieee::f32_nan(#[trigger] values[j]) ==> ieee::f32_rank(bound)
                    <= ieee::f32_rank(values[j]),
    {
        let value: u32 = points[i].position[axis];
        assert(values[i as int] == value);
        if ieee::f32_lt(value, bound) {
            bound = value;
        }
    }
    bound
}

fn axis_maximum(points: &Vec<FusedPoint>, axis: usize) -> (bound: u32)
    requires
        axis < 3,
    ensures
        is_maximum(world::coordinates(points@, axis as int), bound),
{
    let ghost values = world::coordinates(points@, axis as int);
    let mut bound: u32 = 0xff80_0000;
    for i in 0..points.len()
        invariant
            axis < 3,
            values == world::coordinates(points@, axis as int),
            !ieee::f32_nan(bound),
            bound == 0xff80_0000 || exists|j: int|
                0 <= j < values.len() && #[trigger] values[j] == bound,
            forall|j: int|
                0 <= j < i && !ieee::f32_nan(#[trigger] values[j]) ==> ieee::f32_rank(values[j])
                    <= ieee::f32_rank(bound),
    {
        let value: u32 = points[i].position[axis];
        assert(values[i as int] == value);
        if ieee::f32_lt(bound, value) {
            bound = value;
        }
    }
    bound
}

/// The axis-aligned bounds of all positions, or a box at the origin where the
/// least corner is not finite.
pub fn position_bounds(points: &Vec<FusedPoint>) -> (bounds: ([u32; 3], [u32; 3]))
    ensures
        exists|low: Seq<u32>, high: Seq<u32>| #![trigger low.len(), high.len()]
            {
                &&& low.len() == 3
                &&& high.len() == 3
                &&& forall|axis: int|
                    0 <= axis < 3 ==> is_minimum(
                        world::coordinates(points@, axis),
                        #[trigger] low[axis],
                    )
                &&& forall|axis: int|
                    0 <= axis < 3 ==> is_maximum(
                        world::coordinates(points@, axis),
                        #[trigger] high[axis],
                    )
                &&& if ieee::f32_all_finite(low) {
                    bounds.0@ == low && bounds.1@ == high
                } else {
                    bounds.0@ == seq![0u32, 0u32, 0u32] && bounds.1@ == seq![0u32, 0u32, 0u32]
                }
            },
{
    let minimum = [axis_minimum(points, 0), axis_minimum(points, 1), axis_minimum(points, 2)];
    let maximum = [axis_maximum(points, 0), axis_maximum(points, 1), axis_maximum(points, 2)];
    let ghost low = minimum@;
    let ghost high = maximum@;
    assert(low.len() == 3 && high.len() == 3);
    if !ieee::f32s_are_finite(&minimum) {
        let origin = [0u32, 0u32, 0u32];
        assert(origin@ =~= seq![0u32, 0u32, 0u32]);
        return (origin, origin);
    }
    (minimum, maximum)
}

/// The spelled fields of a row have no whitespace in them.
pub open spec fn row_spelled(row: PlyRow) -> bool {
    &&& text::is_word(text::utf8(row.x@))
    &&& text::is_word(text::utf8(row.y@))
    &&& text::is_word(text::utf8(row.z@))
    &&& text::is_word(text::utf8(row.nx@))
    &&& text::is_word(text::utf8(row.ny@))
    &&& text::is_word(text::utf8(row.nz@))
    &&& text::is_word(text::utf8(row.confidence@))
    &&& text::is_word(text::utf8(row.radius@))
}

/// A text made of words and single spaces holds no line feed and no carriage
/// return.
spec fn is_plain(bytes: Seq<u8>) -> bool {
    &&& bytes.len() > 0
    &&& !text::is_space(bytes.last())
    &&& forall|i: int| 0 <= i < bytes.len() ==> #[trigger] bytes[i] != 0x0a
}

proof fn lemma_spaced(left: Seq<u8>, right: Seq<u8>)
    requires
        is_plain(left),
        is_plain(right),
    ensures
        is_plain(spaced(left, right)),
        text::words(spaced(left, right)) == text::words(left) + text::words(right),
{
    text::lemma_words_joined(left, right);
    let whole = spaced(left, right);
    assert(whole.last() == right.last());
    assert forall|i: int| 0 <= i < whole.len() implies #[trigger] whole[i] != 0x0a by {
        if i < left.len() {
            assert(whole[i] == left[i]);
        } else if i > left.len() {
            assert(whole[i] == right[i - left.len() - 1]);
        }
    }
}

proof fn lemma_word_is_plain(bytes: Seq<u8>)
    requires
        text::is_word(bytes),
    ensures
        is_plain(bytes),
        text::words(bytes) == seq![bytes],
{
    text::lemma_word_alone(bytes);
    assert(!text::is_space(bytes[bytes.len() - 1]));
    assert forall|i: int| 0 <= i < bytes.len() implies #[trigger] bytes[i] != 0x0a by {
        assert(!text::is_space(bytes[i]));
    }
}

proof fn lemma_three_words(a: Seq<u8>, b: Seq<u8>, c: Seq<u8>)
    requires
        text::is_word(a),
        text::is_word(b),
        text::is_word(c),
    ensures
        is_plain(spaced(spaced(a, b), c)),
        text::words(spaced(spaced(a, b), c)) == seq![a, b, c],
{
    lemma_word_is_plain(a);
    lemma_word_is_plain(b);
    lemma_word_is_plain(c);
    lemma_spaced(a, b);
    lemma_spaced(spaced(a, b), c);
    assert(seq![a] + seq![b] + seq![c] =~= seq![a, b, c]);
}

proof fn lemma_row_line(row: PlyRow)
    requires
        row_spelled(row),
    ensures
        text::lines(ply_line(row)) == seq![ply_line(row).drop_last()],
        text::words(ply_line(row).drop_last()) == seq![
            text::utf8(row.x@),
            text::utf8(row.y@),
            text::utf8(row.z@),
            text::utf8(row.nx@),
            text::utf8(row.ny@),
            text::utf8(row.nz@),
            text::decimal(row.color_srgb@[0] as int),
            text::decimal(row.color_srgb@[1] as int),
            text::decimal(row.color_srgb@[2] as int),
            text::utf8(row.confidence@),
            text::utf8(row.radius@),
            text::decimal(row.contributors as int),
        ],
{
    let (red, green, blue) = (
        text::decimal(row.color_srgb@[0] as int),
        text::decimal(row.color_srgb@[1] as int),
        text::decimal(row.color_srgb@[2] as int),
    );
    let count = text::decimal(row.contributors as int);
    text::lemma_decimal_word(row.color_srgb@[0] as int);
    text::lemma_decimal_word(row.color_srgb@[1] as int);
    text::lemma_decimal_word(row.color_srgb@[2] as int);
    text::lemma_decimal_word(row.contributors as int);
    let position = spaced(spaced(text::utf8(row.x@), text::utf8(row.y@)), text::utf8(row.z@));
    let normal = spaced(spaced(text::utf8(row.nx@), text::utf8(row.ny@)), text::utf8(row.nz@));
    let color = spaced(spaced(red, green), blue);
    let quality = spaced(spaced(text::utf8(row.confidence@), text::utf8(row.radius@)), count);
    lemma_three_words(text::utf8(row.x@), text::utf8(row.y@), text::utf8(row.z@));
    lemma_three_words(text::utf8(row.nx@), text::utf8(row.ny@), text::utf8(row.nz@));
    lemma_three_words(red, green, blue);
    lemma_three_words(text::utf8(row.confidence@), text::utf8(row.radius@), count);
    lemma_spaced(position, normal);
    lemma_spaced(spaced(position, normal), color);
    let content = spaced(spaced(spaced(position, normal), color), quality);
    lemma_spaced(spaced(spaced(position, normal), color), quality);
    assert(ply_line(row) == content.push(0x0a));
    assert(ply_line(row).drop_last() =~= content);
    text::lemma_line_alone(content);
    assert(text::words(content) =~= seq![
        text::utf8(row.x@),
        text::utf8(row.y@),
        text::utf8(row.z@),
        text::utf8(row.nx@),
        text::utf8(row.ny@),
        text::utf8(row.nz@),
        red,
        green,
        blue,
        text::utf8(row.confidence@),
        text::utf8(row.radius@),
        count,
    ]);
}

proof fn lemma_row_lines(rows: Seq<PlyRow>, count: int)
    requires
        0 <= count <= rows.len(),
        forall|i: int| 0 <= i < rows.len() ==> row_spelled(#[trigger] rows[i]),
    ensures
        ply_lines(rows, count).len() > 0 ==> ply_lines(rows, count).last() == 0x0a,
        text::lines(ply_lines(rows, count)) == Seq::new(
            count as nat,
            |i: int| ply_line(rows[i]).drop_last(),
        ),
    decreases count,
{
    if count > 0 {
        lemma_row_lines(rows, count - 1);
        let before = ply_lines(rows, count - 1);
        let line = ply_line(rows[count - 1]);
        lemma_row_line(rows[count - 1]);
        text::lemma_lines_joined(before, line);
        assert((before + line).last() == line.last());
        assert(text::lines(before + line) =~= Seq::new(
            count as nat,
            |i: int| ply_line(rows[i]).drop_last(),
        ));
    } else {
        assert(text::lines(ply_lines(rows, count)) =~= Seq::new(
            count as nat,
            |i: int| ply_line(rows[i]).drop_last(),
        ));
    }
}

/// A written document reads back: behind its header there is one line per point, in
/// order, and line `i` holds the twelve fields of point `i` as its words. The
/// numbers among them read back as they were.
pub proof fn law_ply_reads_back(rows: Seq<PlyRow>, document: Seq<u8>)
    requires
        document == ply_document(rows),
        forall|i: int| 0 <= i < rows.len() ==> row_spelled(#[trigger] rows[i]),
    ensures
        ({
            let header = ply_header_start() + text::decimal(rows.len() as int) + ply_header_end();
            let lines = text::lines(document.skip(header.len() as int));
            &&& header.len() <= document.len()
            &&& document.take(header.len() as int) == header
            &&& lines.len() == rows.len()
            &&& forall|i: int|
                0 <= i < rows.len() ==> {
                    let words = text::words(#[trigger] lines[i]);
                    &&& words.len() == 12
                    &&& words[0] == text::utf8(rows[i].x@)
                    &&& words[1] == text::utf8(rows[i].y@)
                    &&& words[2] == text::utf8(rows[i].z@)
                    &&& words[3] == text::utf8(rows[i].nx@)
                    &&& words[4] == text::utf8(rows[i].ny@)
                    &&& words[5] == text::utf8(rows[i].nz@)
                    &&& text::decimal_up_to(words[6], 255) == Some(rows[i].color_srgb@[0] as int)
                    &&& text::decimal_up_to(words[7], 255) == Some(rows[i].color_srgb@[1] as int)
                    &&& text::decimal_up_to(words[8], 255) == Some(rows[i].color_srgb@[2] as int)
                    &&& words[9] == text::utf8(rows[i].confidence@)
                    &&& words[10] == text::utf8(rows[i].radius@)
                    &&& text::decimal_up_to(words[11], u32::MAX as int) == Some(
                        rows[i].contributors as int,
                    )
                }
        }),
{
    let header = ply_header_start() + text::decimal(rows.len() as int) + ply_header_end();
    let count = rows.len() as int;
    let body = ply_lines(rows, count);
    assert(document.skip(header.len() as int) =~= body);
    assert(document.take(header.len() as int) =~= header);
    lemma_row_lines(rows, count);
    let lines = text::lines(body);
    assert forall|i: int| 0 <= i < rows.len() implies text::words(#[trigger] lines[i]).len() == 12
        && text::words(lines[i])[0] == text::utf8(rows[i].x@) && text::words(lines[i])[1]
        == text::utf8(rows[i].y@) && text::words(lines[i])[2] == text::utf8(rows[i].z@)
        && text::words(lines[i])[3] == text::utf8(rows[i].nx@) && text::words(lines[i])[4]
        == text::utf8(rows[i].ny@) && text::words(lines[i])[5] == text::utf8(rows[i].nz@)
        && text::decimal_up_to(text::words(lines[i])[6], 255) == Some(
        rows[i].color_srgb@[0] as int,
    ) && text::decimal_up_to(text::words(lines[i])[7], 255) == Some(
        rows[i].color_srgb@[1] as int,
    ) && text::decimal_up_to(text::words(lines[i])[8], 255) == Some(
        rows[i].color_srgb@[2] as int,
    ) && text::words(lines[i])[9] == text::utf8(rows[i].confidence@)
        && text::words(lines[i])[10] == text::utf8(rows[i].radius@) && text::decimal_up_to(
        text::words(lines[i])[11],
        u32::MAX as int,
    ) == Some(rows[i].contributors as int) by {
        lemma_row_line(rows[i]);
        text::law_decimal_round_trip(rows[i].color_srgb@[0] as int, 255);
        text::law_decimal_round_trip(rows[i].color_srgb@[1] as int, 255);
        text::law_decimal_round_trip(rows[i].color_srgb@[2] as int, 255);
        text::law_decimal_round_trip(rows[i].contributors as int, u32::MAX as int);
    }
}

proof fn lemma_vector_at(vectors: Seq<[u32; 3]>, count: int, i: int, k: int)
    requires
        0 <= i < count <= vectors.len(),
        0 <= k < 3,
    ensures
        wire::u32_at(vectors_bytes(vectors, count), 12 * i + 4 * k) == vectors[i]@[k],
    decreases count,
{
    let before = vectors_bytes(vectors, count - 1);
    let last = wire::u32s_bytes(vectors[count - 1]@);
    let whole = vectors_bytes(vectors, count);
    lemma_vectors_len(vectors, count - 1);
    lemma_vectors_len(vectors, count);
    if i < count - 1 {
        lemma_vector_at(vectors, count - 1, i, k);
        wire::lemma_u32_at_frame(whole, 12 * i + 4 * k, before, 12 * i + 4 * k);
    } else {
        assert(whole.subrange(12 * i, 12 * i + 12) =~= last);
        wire::lemma_u32s_round_trip(whole, 12 * i, vectors[i]@);
        assert(wire::u32s_at(whole, 12 * i, 3)[k] == vectors[i]@[k]);
    }
}

proof fn lemma_color_at(points: Seq<FusedPoint>, count: int, i: int, k: int)
    requires
        0 <= i < count <= points.len(),
        0 <= k < 3,
    ensures
        colors_bytes(points, count)[3 * i + k] == points[i].color_srgb@[k],
    decreases count,
{
    lemma_colors_len(points, count - 1);
    if i < count - 1 {
        lemma_color_at(points, count - 1, i, k);
    }
}

/// The buffer of a world reads back: the coordinates of each position, then those of
/// each normal, then the three levels of each colour stand where the offsets of the
/// buffer say, point by point, and the buffer ends on a four-byte boundary.
pub proof fn law_buffer_reads_back(points: Seq<FusedPoint>, buffer: GlbBuffer, i: int, k: int)
    requires
        buffer.binary@ == buffer_bytes(points),
        buffer.positions_offset == 0,
        buffer.normals_offset == 12 * points.len(),
        buffer.colors_offset == 24 * points.len(),
        0 <= i < points.len(),
        0 <= k < 3,
    ensures
        wire::u32_at(buffer.binary@, buffer.positions_offset + 12 * i + 4 * k)
            == points[i].position@[k],
        wire::u32_at(buffer.binary@, buffer.normals_offset + 12 * i + 4 * k)
            == points[i].normal@[k],
        buffer.binary@[buffer.colors_offset + 3 * i + k] == points[i].color_srgb@[k],
        buffer.binary@.len() % 4 == 0,
        27 * points.len() <= buffer.binary@.len() < 27 * points.len() + 4,
{
    let count = points.len() as int;
    let first = vectors_bytes(positions(points), count);
    let second = vectors_bytes(normals(points), count);
    let third = padded(colors_bytes(points, count), 0);
    let whole = buffer.binary@;
    lemma_vectors_len(positions(points), count);
    lemma_vectors_len(normals(points), count);
    lemma_colors_len(points, count);
    lemma_padded(colors_bytes(points, count), 0);
    lemma_vector_at(positions(points), count, i, k);
    lemma_vector_at(normals(points), count, i, k);
    lemma_color_at(points, count, i, k);
    wire::lemma_u32_at_frame(whole, 12 * i + 4 * k, first, 12 * i + 4 * k);
    wire::lemma_u32_at_frame(whole, 12 * count + 12 * i + 4 * k, second, 12 * i + 4 * k);
    assert(whole[24 * count + 3 * i + k] == third[3 * i + k]);
    assert(third[3 * i + k] == colors_bytes(points, count)[3 * i + k]);
}

/// The bytes of an ASCII text that ends a line.
proof fn lemma_ascii_line(content: Seq<char>, line: Seq<char>)
    requires
        vstd::utf8::is_ascii_chars(content),
        line == content.push('\n'),
        content.len() > 0,
        forall|i: int|
            0 <= i < content.len() ==> #[trigger] content[i] != '\n' && content[i] != '\r',
    ensures
        text::utf8(line) == text::utf8(content).push(0x0a),
        text::lines(text::utf8(line)) == seq![text::utf8(content)],
{
    assert forall|i: int| 0 <= i < line.len() implies '\0' <= #[trigger] line[i] <= '\u{7f}' by {
        if i < content.len() {
            assert(line[i] == content[i]);
        }
    }
    vstd::utf8::is_ascii_chars_encode_utf8(content);
    vstd::utf8::is_ascii_chars_encode_utf8(line);
    let bytes = text::utf8(content);
    assert(text::utf8(line) =~= bytes.push(0x0a)) by {
        assert forall|i: int| 0 <= i < line.len() implies text::utf8(line)[i] == bytes.push(
            0x0a,
        )[i] by {
            assert(line[i] as u8 == text::utf8(line)[i]);
            if i < content.len() {
                assert(line[i] == content[i]);
                assert(content[i] as u8 == bytes[i]);
            }
        }
    }
    assert forall|i: int| 0 <= i < bytes.len() implies #[trigger] bytes[i] != 0x0a && bytes[i]
        != 0x0d by {
        assert(content[i] as u8 == bytes[i]);
    }
    text::lemma_line_alone(bytes);
}

/// The first lines of the header, each by itself.
proof fn lemma_header_lines_a()
    ensures
        text::utf8("ply\n"@) == text::utf8("ply"@).push(0x0a),
        text::lines(text::utf8("ply\n"@)) == seq![text::utf8("ply"@)],
        text::utf8("format ascii 1.0\n"@) == text::utf8("format ascii 1.0"@).push(0x0a),
        text::lines(text::utf8("format ascii 1.0\n"@)) == seq![text::utf8("format ascii 1.0"@)],
        text::utf8("comment Vestra relative-scale fused world\n"@) == text::utf8("comment Vestra relative-scale fused world"@).push(0x0a),
        text::lines(text::utf8("comment Vestra relative-scale fused world\n"@)) == seq![text::utf8("comment Vestra relative-scale fused world"@)],
        text::utf8("property float x\n"@) == text::utf8("property float x"@).push(0x0a),
        text::lines(text::utf8("property float x\n"@)) == seq![text::utf8("property float x"@)],
{
    assert(text::utf8("ply\n"@) == text::utf8("ply"@).push(0x0a) && text::lines(
        text::utf8("ply\n"@),
    ) == seq![text::utf8("ply"@)]) by {
        reveal_strlit("ply");
        reveal_strlit("ply\n");
        assert("ply\n"@ =~= "ply"@.push('\n'));
        lemma_ascii_line("ply"@, "ply\n"@);
    }
    assert(text::utf8("format ascii 1.0\n"@) == text::utf8("format ascii 1.0"@).push(0x0a) && text::lines(
        text::utf8("format ascii 1.0\n"@),
    ) == seq![text::utf8("format ascii 1.0"@)]) by {
        reveal_strlit("format ascii 1.0");
        reveal_strlit("format ascii 1.0\n");
        assert("format ascii 1.0\n"@ =~= "format ascii 1.0"@.push('\n'));
        lemma_ascii_line("format ascii 1.0"@, "format ascii 1.0\n"@);
    }
    assert(text::utf8("comment Vestra relative-scale fused world\n"@) == text::utf8("comment Vestra relative-scale fused world"@).push(0x0a) && text::lines(
        text::utf8("comment Vestra relative-scale fused world\n"@),
    ) == seq![text::utf8("comment Vestra relative-scale fused world"@)]) by {
        reveal_strlit("comment Vestra relative-scale fused world");
        reveal_strlit("comment Vestra relative-scale fused world\n");
        assert("comment Vestra relative-scale fused world\n"@ =~= "comment Vestra relative-scale fused world"@.push('\n'));
        lemma_ascii_line("comment Vestra relative-scale fused world"@, "comment Vestra relative-scale fused world\n"@);
    }
    assert(text::utf8("property float x\n"@) == text::utf8("property float x"@).push(0x0a) && text::lines(
        text::utf8("property float x\n"@),
    ) == seq![text::utf8("property float x"@)]) by {
        reveal_strlit("property float x");
        reveal_strlit("property float x\n");
        assert("property float x\n"@ =~= "property float x"@.push('\n'));
        lemma_ascii_line("property float x"@, "property float x\n"@);
    }
}

/// The next lines of the header, each by itself.
proof fn lemma_header_lines_b()
    ensures
        text::utf8("property float y\n"@) == text::utf8("property float y"@).push(0x0a),
        text::lines(text::utf8("property float y\n"@)) == seq![text::utf8("property float y"@)],
        text::utf8("property float z\n"@) == text::utf8("property float z"@).push(0x0a),
        text::lines(text::utf8("property float z\n"@)) == seq![text::utf8("property float z"@)],
        text::utf8("property float nx\n"@) == text::utf8("property float nx"@).push(0x0a),
        text::lines(text::utf8("property float nx\n"@)) == seq![text::utf8("property float nx"@)],
        text::utf8("property float ny\n"@) == text::utf8("property float ny"@).push(0x0a),
        text::lines(text::utf8("property float ny\n"@)) == seq![text::utf8("property float ny"@)],
{
    assert(text::utf8("property float y\n"@) == text::utf8("property float y"@).push(0x0a) && text::lines(
        text::utf8("property float y\n"@),
    ) == seq![text::utf8("property float y"@)]) by {
        reveal_strlit("property float y");
        reveal_strlit("property float y\n");
        assert("property float y\n"@ =~= "property float y"@.push('\n'));
        lemma_ascii_line("property float y"@, "property float y\n"@);
    }
    assert(text::utf8("property float z\n"@) == text::utf8("property float z"@).push(0x0a) && text::lines(
        text::utf8("property float z\n"@),
    ) == seq![text::utf8("property float z"@)]) by {
        reveal_strlit("property float z");
        reveal_strlit("property float z\n");
        assert("property float z\n"@ =~= "property float z"@.push('\n'));
        lemma_ascii_line("property float z"@, "property float z\n"@);
    }
    assert(text::utf8("property float nx\n"@) == text::utf8("property float nx"@).push(0x0a) && text::lines(
        text::utf8("property float nx\n"@),
    ) == seq![text::utf8("property float nx"@)]) by {
        reveal_strlit("property float nx");
        reveal_strlit("property float nx\n");
        assert("property float nx\n"@ =~= "property float nx"@.push('\n'));
        lemma_ascii_line("property float nx"@, "property float nx\n"@);
    }
    assert(text::utf8("property float ny\n"@) == text::utf8("property float ny"@).push(0x0a) && text::lines(
        text::utf8("property float ny\n"@),
    ) == seq![text::utf8("property float ny"@)]) by {
        reveal_strlit("property float ny");
        reveal_strlit("property float ny\n");
        assert("property float ny\n"@ =~= "property float ny"@.push('\n'));
        lemma_ascii_line("property float ny"@, "property float ny\n"@);
    }
}

/// The lines of the header behind those, each by itself.
proof fn lemma_header_lines_c()
    ensures
        text::utf8("property float nz\n"@) == text::utf8("property float nz"@).push(0x0a),
        text::lines(text::utf8("property float nz\n"@)) == seq![text::utf8("property float nz"@)],
        text::utf8("property uchar red\n"@) == text::utf8("property uchar red"@).push(0x0a),
        text::lines(text::utf8("property uchar red\n"@)) == seq![text::utf8("property uchar red"@)],
        text::utf8("property uchar green\n"@) == text::utf8("property uchar green"@).push(0x0a),
        text::lines(text::utf8("property uchar green\n"@)) == seq![text::utf8("property uchar green"@)],
        text::utf8("property uchar blue\n"@) == text::utf8("property uchar blue"@).push(0x0a),
        text::lines(text::utf8("property uchar blue\n"@)) == seq![text::utf8("property uchar blue"@)],
{
    assert(text::utf8("property float nz\n"@) == text::utf8("property float nz"@).push(0x0a) && text::lines(
        text::utf8("property float nz\n"@),
    ) == seq![text::utf8("property float nz"@)]) by {
        reveal_strlit("property float nz");
        reveal_strlit("property float nz\n");
        assert("property float nz\n"@ =~= "property float nz"@.push('\n'));
        lemma_ascii_line("property float nz"@, "property float nz\n"@);
    }
    assert(text::utf8("property uchar red\n"@) == text::utf8("property uchar red"@).push(0x0a) && text::lines(
        text::utf8("property uchar red\n"@),
    ) == seq![text::utf8("property uchar red"@)]) by {
        reveal_strlit("property uchar red");
        reveal_strlit("property uchar red\n");
        assert("property uchar red\n"@ =~= "property uchar red"@.push('\n'));
        lemma_ascii_line("property uchar red"@, "property uchar red\n"@);
    }
    assert(text::utf8("property uchar green\n"@) == text::utf8("property uchar green"@).push(0x0a) && text::lines(
        text::utf8("property uchar green\n"@),
    ) == seq![text::utf8("property uchar green"@)]) by {
        reveal_strlit("property uchar green");
        reveal_strlit("property uchar green\n");
        assert("property uchar green\n"@ =~= "property uchar green"@.push('\n'));
        lemma_ascii_line("property uchar green"@, "property uchar green\n"@);
    }
    assert(text::utf8("property uchar blue\n"@) == text::utf8("property uchar blue"@).push(0x0a) && text::lines(
        text::utf8("property uchar blue\n"@),
    ) == seq![text::utf8("property uchar blue"@)]) by {
        reveal_strlit("property uchar blue");
        reveal_strlit("property uchar blue\n");
        assert("property uchar blue\n"@ =~= "property uchar blue"@.push('\n'));
        lemma_ascii_line("property uchar blue"@, "property uchar blue\n"@);
    }
}

/// The last lines of the header, each by itself.
proof fn lemma_header_lines_d()
    ensures
        text::utf8("property float confidence\n"@) == text::utf8("property float confidence"@).push(0x0a),
        text::lines(text::utf8("property float confidence\n"@)) == seq![text::utf8("property float confidence"@)],
        text::utf8("property float radius\n"@) == text::utf8("property float radius"@).push(0x0a),
        text::lines(text::utf8("property float radius\n"@)) == seq![text::utf8("property float radius"@)],
        text::utf8("property uint contributors\n"@) == text::utf8("property uint contributors"@).push(0x0a),
        text::lines(text::utf8("property uint contributors\n"@)) == seq![text::utf8("property uint contributors"@)],
        text::utf8("end_header\n"@) == text::utf8("end_header"@).push(0x0a),
        text::lines(text::utf8("end_header\n"@)) == seq![text::utf8("end_header"@)],
{
    assert(text::utf8("property float confidence\n"@) == text::utf8("property float confidence"@).push(0x0a) && text::lines(
        text::utf8("property float confidence\n"@),
    ) == seq![text::utf8("property float confidence"@)]) by {
        reveal_strlit("property float confidence");
        reveal_strlit("property float confidence\n");
        assert("property float confidence\n"@ =~= "property float confidence"@.push('\n'));
        lemma_ascii_line("property float confidence"@, "property float confidence\n"@);
    }
    assert(text::utf8("property float radius\n"@) == text::utf8("property float radius"@).push(0x0a) && text::lines(
        text::utf8("property float radius\n"@),
    ) == seq![text::utf8("property float radius"@)]) by {
        reveal_strlit("property float radius");
        reveal_strlit("property float radius\n");
        assert("property float radius\n"@ =~= "property float radius"@.push('\n'));
        lemma_ascii_line("property float radius"@, "property float radius\n"@);
    }
    assert(text::utf8("property uint contributors\n"@) == text::utf8("property uint contributors"@).push(0x0a) && text::lines(
        text::utf8("property uint contributors\n"@),
    ) == seq![text::utf8("property uint contributors"@)]) by {
        reveal_strlit("property uint contributors");
        reveal_strlit("property uint contributors\n");
        assert("property uint contributors\n"@ =~= "property uint contributors"@.push('\n'));
        lemma_ascii_line("property uint contributors"@, "property uint contributors\n"@);
    }
    assert(text::utf8("end_header\n"@) == text::utf8("end_header"@).push(0x0a) && text::lines(
        text::utf8("end_header\n"@),
    ) == seq![text::utf8("end_header"@)]) by {
        reveal_strlit("end_header");
        reveal_strlit("end_header\n");
        assert("end_header\n"@ =~= "end_header"@.push('\n'));
        lemma_ascii_line("end_header"@, "end_header\n"@);
    }
}

/// The header is made of its lines.
proof fn lemma_header_pieces()
    ensures
        ply_header_start() == text::utf8("ply\n"@) + text::utf8("format ascii 1.0\n"@) + text::utf8(
            "comment Vestra relative-scale fused world\n"@,
        ) + text::utf8("element vertex "@),
        ply_header_end() == seq![0x0au8] + text::utf8(
            "property float x\n"@,
        ) + text::utf8(
            "property float y\n"@,
        ) + text::utf8(
            "property float z\n"@,
        ) + text::utf8(
            "property float nx\n"@,
        ) + text::utf8(
            "property float ny\n"@,
        ) + text::utf8(
            "property float nz\n"@,
        ) + text::utf8(
            "property uchar red\n"@,
        ) + text::utf8(
            "property uchar green\n"@,
        ) + text::utf8(
            "property uchar blue\n"@,
        ) + text::utf8(
            "property float confidence\n"@,
        ) + text::utf8(
            "property float radius\n"@,
        ) + text::utf8(
            "property uint contributors\n"@,
        ) + text::utf8(
            "end_header\n"@,
        ),
{
    reveal_strlit(
        "\nproperty float x\nproperty float y\nproperty float z\nproperty float nx\nproperty float ny\nproperty float nz\nproperty uchar red\nproperty uchar green\nproperty uchar blue\nproperty float confidence\nproperty float radius\nproperty uint contributors\nend_header\n",
    );
    reveal_strlit(
        "ply\nformat ascii 1.0\ncomment Vestra relative-scale fused world\nelement vertex ",
    );
    reveal_strlit("element vertex ");
    reveal_strlit("ply\n");
    reveal_strlit("format ascii 1.0\n");
    reveal_strlit("comment Vestra relative-scale fused world\n");
    reveal_strlit("property float x\n");
    reveal_strlit("property float y\n");
    reveal_strlit("property float z\n");
    reveal_strlit("property float nx\n");
    reveal_strlit("property float ny\n");
    reveal_strlit("property float nz\n");
    reveal_strlit("property uchar red\n");
    reveal_strlit("property uchar green\n");
    reveal_strlit("property uchar blue\n");
    reveal_strlit("property float confidence\n");
    reveal_strlit("property float radius\n");
    reveal_strlit("property uint contributors\n");
    reveal_strlit("end_header\n");
    vstd::utf8::is_ascii_chars_encode_utf8("ply\n"@);
    vstd::utf8::is_ascii_chars_encode_utf8("format ascii 1.0\n"@);
    vstd::utf8::is_ascii_chars_encode_utf8("comment Vestra relative-scale fused world\n"@);
    vstd::utf8::is_ascii_chars_encode_utf8("property float x\n"@);
    vstd::utf8::is_ascii_chars_encode_utf8("property float y\n"@);
    vstd::utf8::is_ascii_chars_encode_utf8("property float z\n"@);
    vstd::utf8::is_ascii_chars_encode_utf8("property float nx\n"@);
    vstd::utf8::is_ascii_chars_encode_utf8("property float ny\n"@);
    vstd::utf8::is_ascii_chars_encode_utf8("property float nz\n"@);
    vstd::utf8::is_ascii_chars_encode_utf8("property uchar red\n"@);
    vstd::utf8::is_ascii_chars_encode_utf8("property uchar green\n"@);
    vstd::utf8::is_ascii_chars_encode_utf8("property uchar blue\n"@);
    vstd::utf8::is_ascii_chars_encode_utf8("property float confidence\n"@);
    vstd::utf8::is_ascii_chars_encode_utf8("property float radius\n"@);
    vstd::utf8::is_ascii_chars_encode_utf8("property uint contributors\n"@);
    vstd::utf8::is_ascii_chars_encode_utf8("end_header\n"@);
    vstd::utf8::is_ascii_chars_encode_utf8("element vertex "@);
    vstd::utf8::is_ascii_chars_encode_utf8(
        "ply\nformat ascii 1.0\ncomment Vestra relative-scale fused world\nelement vertex "@,
    );
    vstd::utf8::is_ascii_chars_encode_utf8(
        "\nproperty float x\nproperty float y\nproperty float z\nproperty float nx\nproperty float ny\nproperty float nz\nproperty uchar red\nproperty uchar green\nproperty uchar blue\nproperty float confidence\nproperty float radius\nproperty uint contributors\nend_header\n"@,
    );
    assert(ply_header_start() =~= text::utf8("ply\n"@) + text::utf8("format ascii 1.0\n"@)
        + text::utf8("comment Vestra relative-scale fused world\n"@) + text::utf8(
        "element vertex "@,
    ));
    assert(ply_header_end() =~= seq![0x0au8] + text::utf8(
        "property float x\n"@,
    ) + text::utf8(
        "property float y\n"@,
    ) + text::utf8(
        "property float z\n"@,
    ) + text::utf8(
        "property float nx\n"@,
    ) + text::utf8(
        "property float ny\n"@,
    ) + text::utf8(
        "property float nz\n"@,
    ) + text::utf8(
        "property uchar red\n"@,
    ) + text::utf8(
        "property uchar green\n"@,
    ) + text::utf8(
        "property uchar blue\n"@,
    ) + text::utf8(
        "property float confidence\n"@,
    ) + text::utf8(
        "property float radius\n"@,
    ) + text::utf8(
        "property uint contributors\n"@,
    ) + text::utf8(
        "end_header\n"@,
    ));
}

/// The first `count` of a list of lines, each ended by a line feed.
spec fn terminated(contents: Seq<Seq<u8>>, count: int) -> Seq<u8>
    decreases count,
{
    if count <= 0 {
        Seq::empty()
    } else {
        terminated(contents, count - 1) + contents[count - 1].push(0x0a)
    }
}

/// Terminated lines read back.
proof fn lemma_terminated(contents: Seq<Seq<u8>>, count: int)
    requires
        0 <= count <= contents.len(),
        forall|i: int|
            0 <= i < contents.len() ==> text::lines((#[trigger] contents[i]).push(0x0a)) == seq![
                contents[i],
            ],
    ensures
        text::lines(terminated(contents, count)) == contents.take(count),
        count > 0 ==> terminated(contents, count).last() == 0x0a,
        terminated(contents, count).len() > 0 ==> terminated(contents, count).last() == 0x0a,
    decreases count,
{
    if count > 0 {
        lemma_terminated(contents, count - 1);
        let content = contents[count - 1];
        text::lemma_lines_joined(terminated(contents, count - 1), content.push(0x0a));
        assert(contents.take(count) =~= contents.take(count - 1) + seq![content]);
    } else {
        assert(text::lines(terminated(contents, count)) =~= contents.take(count));
    }
}

/// The lines of the header.
spec fn header_contents(number: Seq<u8>) -> Seq<Seq<u8>> {
    seq![
        text::utf8("ply"@),
        text::utf8("format ascii 1.0"@),
        text::utf8("comment Vestra relative-scale fused world"@),
        text::utf8("element vertex "@) + number,
        text::utf8("property float x"@),
        text::utf8("property float y"@),
        text::utf8("property float z"@),
        text::utf8("property float nx"@),
        text::utf8("property float ny"@),
        text::utf8("property float nz"@),
        text::utf8("property uchar red"@),
        text::utf8("property uchar green"@),
        text::utf8("property uchar blue"@),
        text::utf8("property float confidence"@),
        text::utf8("property float radius"@),
        text::utf8("property uint contributors"@),
        text::utf8("end_header"@),
    ]
}

proof fn lemma_header_terminated(number: Seq<u8>)
    ensures
        ply_header_start() + number + ply_header_end() == terminated(header_contents(number), 17),
{
    lemma_header_pieces();
    lemma_header_lines_a();
    lemma_header_lines_b();
    lemma_header_lines_c();
    lemma_header_lines_d();
    let contents = header_contents(number);
    let front = ply_header_start() + number;
    let feed = seq![0x0au8];
    assert(terminated(contents, 4) == front + feed) by {
        reveal_with_fuel(terminated, 5);
        assert(terminated(contents, 4) =~= front + feed);
    }
    let e0 = feed + text::utf8("property float x"@).push(0x0a);
    lemma_one_more(contents, 4, front, feed);
    let e1 = e0 + text::utf8("property float y"@).push(0x0a);
    lemma_one_more(contents, 5, front, e0);
    let e2 = e1 + text::utf8("property float z"@).push(0x0a);
    lemma_one_more(contents, 6, front, e1);
    let e3 = e2 + text::utf8("property float nx"@).push(0x0a);
    lemma_one_more(contents, 7, front, e2);
    let e4 = e3 + text::utf8("property float ny"@).push(0x0a);
    lemma_one_more(contents, 8, front, e3);
    let e5 = e4 + text::utf8("property float nz"@).push(0x0a);
    lemma_one_more(contents, 9, front, e4);
    let e6 = e5 + text::utf8("property uchar red"@).push(0x0a);
    lemma_one_more(contents, 10, front, e5);
    let e7 = e6 + text::utf8("property uchar green"@).push(0x0a);
    lemma_one_more(contents, 11, front, e6);
    let e8 = e7 + text::utf8("property uchar blue"@).push(0x0a);
    lemma_one_more(contents, 12, front, e7);
    let e9 = e8 + text::utf8("property float confidence"@).push(0x0a);
    lemma_one_more(contents, 13, front, e8);
    let e10 = e9 + text::utf8("property float radius"@).push(0x0a);
    lemma_one_more(contents, 14, front, e9);
    let e11 = e10 + text::utf8("property uint contributors"@).push(0x0a);
    lemma_one_more(contents, 15, front, e10);
    let e12 = e11 + text::utf8("end_header"@).push(0x0a);
    lemma_one_more(contents, 16, front, e11);
    assert(ply_header_end() == e12);
}

proof fn lemma_one_more(contents: Seq<Seq<u8>>, count: int, front: Seq<u8>, behind: Seq<u8>)
    requires
        0 <= count < contents.len(),
        terminated(contents, count) == front + behind,
    ensures
        terminated(contents, count + 1) == front + (behind + contents[count].push(0x0a)),
{
    assert(terminated(contents, count + 1) =~= front + (behind + contents[count].push(0x0a)));
}

/// The line that announces the vertices.
proof fn lemma_element_line(count: int)
    requires
        0 <= count,
    ensures
        ({
            let element = text::utf8("element vertex "@) + text::decimal(count);
            text::lines(element.push(0x0a)) == seq![element]
        }),
{
    let number = text::decimal(count);
    let element = text::utf8("element vertex "@) + number;
    text::lemma_decimal_word(count);
    reveal_strlit("element vertex ");
    vstd::utf8::is_ascii_chars_encode_utf8("element vertex "@);
    assert forall|i: int| 0 <= i < element.len() implies #[trigger] element[i] != 0x0a by {
        if i < 15 {
            assert("element vertex "@[i] as u8 == text::utf8("element vertex "@)[i]);
        } else {
            assert(element[i] == number[i - 15]);
            assert(!text::is_space(number[i - 15]));
        }
    }
    assert(element.last() == number[number.len() - 1]);
    assert(!text::is_space(number[number.len() - 1]));
    text::lemma_line_alone(element);
}

/// The header of a written document declares its columns: it announces as many
/// vertices as there are points, and then names, in the order of the words of a
/// vertex line, the coordinates of the position and of the normal, the colour
/// levels, the confidence, the radius and the contributors.
pub proof fn law_ply_header_names_the_columns(rows: Seq<PlyRow>)
    ensures
        ({
            let header = ply_header_start() + text::decimal(rows.len() as int) + ply_header_end();
            let lines = text::lines(header);
            &&& lines.len() == 17
            &&& lines[0] == text::utf8("ply"@)
            &&& lines[1] == text::utf8("format ascii 1.0"@)
            &&& lines[3] == text::utf8("element vertex "@) + text::decimal(rows.len() as int)
            &&& lines[4] == text::utf8("property float x"@)
            &&& lines[5] == text::utf8("property float y"@)
            &&& lines[6] == text::utf8("property float z"@)
            &&& lines[7] == text::utf8("property float nx"@)
            &&& lines[8] == text::utf8("property float ny"@)
            &&& lines[9] == text::utf8("property float nz"@)
            &&& lines[10] == text::utf8("property uchar red"@)
            &&& lines[11] == text::utf8("property uchar green"@)
            &&& lines[12] == text::utf8("property uchar blue"@)
            &&& lines[13] == text::utf8("property float confidence"@)
            &&& lines[14] == text::utf8("property float radius"@)
            &&& lines[15] == text::utf8("property uint contributors"@)
            &&& lines[16] == text::utf8("end_header"@)
            &&& header.last() == 0x0a
        }),
{
    let number = text::decimal(rows.len() as int);
    let contents = header_contents(number);
    lemma_header_lines_a();
    lemma_header_lines_b();
    lemma_header_lines_c();
    lemma_header_lines_d();
    lemma_element_line(rows.len() as int);
    assert forall|i: int| 0 <= i < contents.len() implies text::lines(
        (#[trigger] contents[i]).push(0x0a),
    ) == seq![contents[i]] by {
        lemma_header_content(number, i);
    }
    lemma_terminated(contents, 17);
    lemma_header_terminated(number);
    assert(contents.take(17) =~= contents);
}

proof fn lemma_header_content(number: Seq<u8>, i: int)
    requires
        0 <= i < 17,
        text::lines((text::utf8("element vertex "@) + number).push(0x0a)) == seq![
            text::utf8("element vertex "@) + number,
        ],
    ensures
        text::lines(header_contents(number)[i].push(0x0a)) == seq![header_contents(number)[i]],
{
    lemma_header_lines_a();
    lemma_header_lines_b();
    lemma_header_lines_c();
    lemma_header_lines_d();
}

/// The corners of an exported cloud bound every coordinate that is a number, and each is
/// a coordinate of some point where any point has one there below infinity.
pub proof fn law_corners_bound_the_cloud(points: Seq<FusedPoint>, axis: int, low: u32, high: u32)
    requires
        0 <= axis < 3,
        is_minimum(world::coordinates(points, axis), low),
        is_maximum(world::coordinates(points, axis), high),
    ensures
        forall|i: int|
            0 <= i < points.len() && !ieee::f32_nan(#[trigger] points[i].position@[axis])
                ==> ieee::f32_rank(low) <= ieee::f32_rank(points[i].position@[axis])
                <= ieee::f32_rank(high),
        (exists|i: int|
            0 <= i < points.len() && ieee::f32_magnitude(#[trigger] points[i].position@[axis])
                < 0x7f80_0000) ==> (exists|i: int|
            0 <= i < points.len() && #[trigger] points[i].position@[axis] == low) && (exists|
            i: int,
        | 0 <= i < points.len() && #[trigger] points[i].position@[axis] == high),
        points.len() == 0 ==> low == 0x7f80_0000 && high == 0xff80_0000,
{
    let values = world::coordinates(points, axis);
    assert forall|i: int|
        0 <= i < points.len() && !ieee::f32_nan(
            #[trigger] points[i].position@[axis],
        ) implies ieee::f32_rank(low) <= ieee::f32_rank(points[i].position@[axis])
        <= ieee::f32_rank(high) by {
        assert(values[i] == points[i].position@[axis]);
    }
    if exists|i: int|
        0 <= i < points.len() && ieee::f32_magnitude(#[trigger] points[i].position@[axis])
            < 0x7f80_0000 {
        let i = choose|i: int|
            0 <= i < points.len() && ieee::f32_magnitude(#[trigger] points[i].position@[axis])
                < 0x7f80_0000;
        assert(values[i] == points[i].position@[axis]);
        let a = choose|i: int| 0 <= i < values.len() && #[trigger] values[i] == low;
        let b = choose|i: int| 0 <= i < values.len() && #[trigger] values[i] == high;
        assert(points[a].position@[axis] == low);
        assert(points[b].position@[axis] == high);
    }
}

/// The buffer holds three views that follow each other without a gap: twelve bytes of
/// position for each point, twelve of normal and three of colour. The document says so in
/// this order.
pub proof fn law_views_follow_each_other(count: int, length: int)
    requires
        0 <= count,
    ensures
        ({
            let first = buffer_view_json(12 * count, 0);
            let second = buffer_view_json(12 * count, 0 + 12 * count);
            let third = buffer_view_json(3 * count, 12 * count + 12 * count);
            let total = text::utf8("],\"buffers\":[{\"byteLength\":"@) + text::decimal(length);
            buffers_json(count, length) == first + seq![0x2cu8] + second + seq![0x2cu8] + third
                + total
        }),
{
    let first = buffer_view_json(12 * count, 0);
    let second = buffer_view_json(12 * count, 0 + 12 * count);
    let third = buffer_view_json(3 * count, 12 * count + 12 * count);
    let total = text::utf8("],\"buffers\":[{\"byteLength\":"@) + text::decimal(length);
    assert(buffers_json(count, length) =~= first + seq![0x2cu8] + second + seq![0x2cu8] + third
        + total);
}

} // verus!
