//! Semantic evidence: classes of raster pixels that can select measured
//! geometry and are never geometry by themselves.

use vstd::prelude::*;

use crate::ieee;
use crate::order;
use crate::ratio;
use crate::text;
use crate::wire;
use crate::wire::ByteReader;
use crate::world::FusedPoint;

verus! {

/// What a pixel shows. The codes are stable because masks are evidence assets.
#[derive(Debug, Clone, Copy, PartialEq, Eq, Structural)]
pub enum ArchitectureClass {
    Unknown,
    Floor,
    Wall,
    CeilingOrRoof,
    DoorOrOpening,
    Window,
    NonArchitectural,
}

/// The class of a code.
pub open spec fn class_of(code: u8) -> Option<ArchitectureClass> {
    if code == 0 {
        Some(ArchitectureClass::Unknown)
    } else if code == 1 {
        Some(ArchitectureClass::Floor)
    } else if code == 2 {
        Some(ArchitectureClass::Wall)
    } else if code == 3 {
        Some(ArchitectureClass::CeilingOrRoof)
    } else if code == 4 {
        Some(ArchitectureClass::DoorOrOpening)
    } else if code == 5 {
        Some(ArchitectureClass::Window)
    } else if code == 6 {
        Some(ArchitectureClass::NonArchitectural)
    } else {
        None
    }
}

impl ArchitectureClass {
    /// The class of a code, where the code has one.
    pub fn from_code(code: u8) -> (class: Option<Self>)
        ensures
            class == class_of(code),
    {
        match code {
            0 => Some(ArchitectureClass::Unknown),
            1 => Some(ArchitectureClass::Floor),
            2 => Some(ArchitectureClass::Wall),
            3 => Some(ArchitectureClass::CeilingOrRoof),
            4 => Some(ArchitectureClass::DoorOrOpening),
            5 => Some(ArchitectureClass::Window),
            6 => Some(ArchitectureClass::NonArchitectural),
            _ => None,
        }
    }

    /// The code of a class.
    pub fn code(self) -> (code: u8)
        ensures
            class_of(code) == Some(self),
    {
        match self {
            ArchitectureClass::Unknown => 0,
            ArchitectureClass::Floor => 1,
            ArchitectureClass::Wall => 2,
            ArchitectureClass::CeilingOrRoof => 3,
            ArchitectureClass::DoorOrOpening => 4,
            ArchitectureClass::Window => 5,
            ArchitectureClass::NonArchitectural => 6,
        }
    }

    /// Floors, walls and ceilings are surfaces.
    pub fn supports_surface(self) -> (answer: bool)
        ensures
            answer == (self is Floor || self is Wall || self is CeilingOrRoof),
    {
        matches!(self, ArchitectureClass::Floor | ArchitectureClass::Wall | ArchitectureClass::CeilingOrRoof)
    }

    /// Doors and windows are openings.
    pub fn is_opening(self) -> (answer: bool)
        ensures
            answer == (self is DoorOrOpening || self is Window),
    {
        matches!(self, ArchitectureClass::DoorOrOpening | ArchitectureClass::Window)
    }
}

/// A class has one code.
pub proof fn law_codes_name_classes(a: u8, b: u8)
    requires
        class_of(a) is Some,
        class_of(a) == class_of(b),
    ensures
        a == b,
{
}

/// One decoded source-frame mask: dense row-major rasters of classes and of
/// binary32 confidences.
#[derive(Debug, Clone, PartialEq, Eq)]
pub struct ArchitectureSemanticFrame {
    pub frame_index: usize,
    pub width: usize,
    pub height: usize,
    pub classes: Vec<ArchitectureClass>,
    pub confidences: Vec<u32>,
}

/// A confidence between zero and one.
pub open spec fn is_share(bits: u32) -> bool {
    ieee::f32_finite(bits) && ieee::f32_at_most(0, bits) && ieee::f32_at_most(bits, ieee::F32_ONE)
}

fn share(bits: u32) -> (answer: bool)
    ensures
        answer == is_share(bits),
{
    ieee::f32_is_finite(bits) && ieee::f32_le(0, bits) && ieee::f32_le(bits, ieee::F32_ONE)
}

/// A mask with one class and one usable confidence per pixel.
pub open spec fn frame_well_formed(frame: ArchitectureSemanticFrame) -> bool {
    &&& frame.width > 0
    &&& frame.height > 0
    &&& frame.classes@.len() == (if frame.width * frame.height > usize::MAX {
        usize::MAX as int
    } else {
        frame.width * frame.height
    })
    &&& frame.confidences@.len() == frame.classes@.len()
    &&& forall|i: int| 0 <= i < frame.confidences@.len() ==> is_share(#[trigger] frame.confidences@[i])
}

/// The evidence of a pixel, where the mask has it.
pub open spec fn frame_sample(
    frame: ArchitectureSemanticFrame,
    x: int,
    y: int,
) -> Option<(ArchitectureClass, u32)> {
    let index = y * frame.width + x;
    if x < frame.width && y < frame.height && index < frame.classes@.len() && index
        < frame.confidences@.len() && is_share(frame.confidences@[index]) {
        Some((frame.classes@[index], frame.confidences@[index]))
    } else {
        None
    }
}

impl ArchitectureSemanticFrame {
    /// The class and confidence of an exact decoded-raster pixel.
    pub fn sample(&self, x: usize, y: usize) -> (found: Option<(ArchitectureClass, u32)>)
        ensures
            found == frame_sample(*self, x as int, y as int),
    {
        if x >= self.width || y >= self.height {
            return None;
        }
        let classes: usize = self.classes.len();
        let confidences: usize = self.confidences.len();
        assert(0 <= y * self.width) by (nonlinear_arith)
            requires
                0 <= y,
                0 <= self.width,
        ;
        let row: usize = match y.checked_mul(self.width) {
            None => {
                return None;
            },
            Some(row) => row,
        };
        let index: usize = match row.checked_add(x) {
            None => {
                return None;
            },
            Some(index) => index,
        };
        if index >= classes || index >= confidences || !share(self.confidences[index]) {
            return None;
        }
        Some((self.classes[index], self.confidences[index]))
    }

    /// Whether the mask has one class and one usable confidence per pixel.
    pub fn is_well_formed(&self) -> (answer: bool)
        ensures
            answer == frame_well_formed(*self),
    {
        let pixels: usize = match self.width.checked_mul(self.height) {
            Some(pixels) => pixels,
            None => usize::MAX,
        };
        if self.width == 0 || self.height == 0 || self.classes.len() != pixels
            || self.confidences.len() != self.classes.len() {
            return false;
        }
        for i in 0..self.confidences.len()
            invariant
                forall|k: int| 0 <= k < i ==> is_share(#[trigger] self.confidences@[k]),
        {
            if !share(self.confidences[i]) {
                return false;
            }
        }
        true
    }
}

/// Masks with the provenance of the model that made them.
#[derive(Debug, Clone, PartialEq, Eq)]
pub struct ArchitectureSemanticEvidence {
    pub schema: String,
    pub runner: String,
    pub model_id: String,
    pub model_revision: String,
    pub model_license: String,
    pub frames: Vec<ArchitectureSemanticFrame>,
}

/// What is wrong with a raster payload.
#[derive(Debug, Clone, Copy, PartialEq, Eq, Structural)]
pub enum VolumeProblem {
    MissingHeader,
    DimensionOverflow,
    FrameIndexCountOverflow,
    RasterCountOverflow,
    FrameIndexOffsetOverflow,
    ClassOffsetOverflow,
    ConfidenceOffsetOverflow,
    UnexpectedLength,
    UnorderedOrUnknown,
}

impl VolumeProblem {
    /// The reason in words.
    pub fn message(&self) -> (text: &'static str)
        ensures
            text@ == match *self {
                VolumeProblem::MissingHeader => "missing VSEM1 header"@,
                VolumeProblem::DimensionOverflow => "raster dimensions overflow"@,
                VolumeProblem::FrameIndexCountOverflow => "frame-index count overflow"@,
                VolumeProblem::RasterCountOverflow => "raster count overflow"@,
                VolumeProblem::FrameIndexOffsetOverflow => "frame-index offset overflow"@,
                VolumeProblem::ClassOffsetOverflow => "class offset overflow"@,
                VolumeProblem::ConfidenceOffsetOverflow => "confidence offset overflow"@,
                VolumeProblem::UnexpectedLength =>
                    "unexpected binary length or zero raster dimension"@,
                VolumeProblem::UnorderedOrUnknown =>
                    "unordered frame indices or unknown class code"@,
            },
    {
        match self {
            VolumeProblem::MissingHeader => "missing VSEM1 header",
            VolumeProblem::DimensionOverflow => "raster dimensions overflow",
            VolumeProblem::FrameIndexCountOverflow => "frame-index count overflow",
            VolumeProblem::RasterCountOverflow => "raster count overflow",
            VolumeProblem::FrameIndexOffsetOverflow => "frame-index offset overflow",
            VolumeProblem::ClassOffsetOverflow => "class offset overflow",
            VolumeProblem::ConfidenceOffsetOverflow => "confidence offset overflow",
            VolumeProblem::UnexpectedLength => "unexpected binary length or zero raster dimension",
            VolumeProblem::UnorderedOrUnknown => "unordered frame indices or unknown class code",
        }
    }
}

/// Why semantic evidence is refused.
#[derive(Debug, Clone, PartialEq, Eq)]
pub enum ArchitectureEvidenceError {
    UnsupportedSchema { actual: String },
    MissingProvenance,
    MalformedFrame { frame_index: usize },
    UnorderedFrames,
    Io(String),
    InvalidBinary(VolumeProblem),
}

/// The kind of a refusal.
#[derive(PartialEq, Eq, Structural)]
pub enum EvidenceFault {
    UnsupportedSchema,
    MissingProvenance,
    MalformedFrame { frame_index: usize },
    UnorderedFrames,
}

/// The fault of the first faulty frame from place `start` on: a mask that is
/// not well formed, or one that does not follow the frame before it.
pub open spec fn frames_fault(
    frames: Seq<ArchitectureSemanticFrame>,
    start: int,
) -> Option<EvidenceFault>
    decreases frames.len() - start,
{
    if start >= frames.len() {
        None
    } else if !frame_well_formed(frames[start]) {
        Some(EvidenceFault::MalformedFrame { frame_index: frames[start].frame_index })
    } else if start > 0 && frames[start - 1].frame_index >= frames[start].frame_index {
        Some(EvidenceFault::UnorderedFrames)
    } else {
        frames_fault(frames, start + 1)
    }
}

/// Why evidence is refused, if it is.
pub open spec fn evidence_fault(evidence: ArchitectureSemanticEvidence) -> Option<EvidenceFault> {
    if evidence.schema@ != "vestra.architecture-semantics/v1"@ {
        Some(EvidenceFault::UnsupportedSchema)
    } else if text::blank(text::utf8(evidence.runner@)) || text::blank(
        text::utf8(evidence.model_id@),
    ) || text::blank(text::utf8(evidence.model_revision@)) || text::blank(
        text::utf8(evidence.model_license@),
    ) {
        Some(EvidenceFault::MissingProvenance)
    } else {
        frames_fault(evidence.frames@, 0)
    }
}

/// An error says what the fault is; a refused schema is handed back.
pub open spec fn tells(
    error: ArchitectureEvidenceError,
    fault: EvidenceFault,
    schema: Seq<char>,
) -> bool {
    match fault {
        EvidenceFault::UnsupportedSchema => error matches ArchitectureEvidenceError::UnsupportedSchema {
            actual,
        } && actual@ == schema,
        EvidenceFault::MissingProvenance => error is MissingProvenance,
        EvidenceFault::MalformedFrame { frame_index } => error == (
        ArchitectureEvidenceError::MalformedFrame { frame_index }),
        EvidenceFault::UnorderedFrames => error is UnorderedFrames,
    }
}

impl ArchitectureSemanticEvidence {
    /// Refuses evidence of another schema, without provenance or with faulty
    /// masks, so that a bad mask cannot pass for a wall or an opening.
    pub fn validate(&self) -> (result: Result<(), ArchitectureEvidenceError>)
        ensures
            match result {
                Ok(_) => evidence_fault(*self) is None,
                Err(e) => evidence_fault(*self) matches Some(fault) && tells(
                    e,
                    fault,
                    self.schema@,
                ),
            },
    {
        if !text::same_text(self.schema.as_str(), "vestra.architecture-semantics/v1") {
            return Err(
                ArchitectureEvidenceError::UnsupportedSchema {
                    actual: self.schema.as_str().to_owned(),
                },
            );
        }
        if text::is_blank(self.runner.as_str()) || text::is_blank(self.model_id.as_str())
            || text::is_blank(self.model_revision.as_str()) || text::is_blank(
            self.model_license.as_str(),
        ) {
            return Err(ArchitectureEvidenceError::MissingProvenance);
        }
        for i in 0..self.frames.len()
            invariant
                evidence_fault(*self) == frames_fault(self.frames@, i as int),
        {
            if !self.frames[i].is_well_formed() {
                return Err(
                    ArchitectureEvidenceError::MalformedFrame {
                        frame_index: self.frames[i].frame_index,
                    },
                );
            }
            if i > 0 && self.frames[i - 1].frame_index >= self.frames[i].frame_index {
                return Err(ArchitectureEvidenceError::UnorderedFrames);
            }
        }
        Ok(())
    }
}

/// Compact raster payload: masks of many frames under one raster.
#[derive(Debug, PartialEq, Eq)]
pub struct ArchitectureSemanticVolume {
    frame_indices: Vec<usize>,
    width: usize,
    height: usize,
    classes: Vec<u8>,
    confidences: Vec<u8>,
}

/// What a payload holds.
#[verifier::ext_equal]
pub struct VolumeModel {
    pub frames: Seq<usize>,
    pub width: int,
    pub height: int,
    pub classes: Seq<u8>,
    pub confidences: Seq<u8>,
}

impl View for ArchitectureSemanticVolume {
    type V = VolumeModel;

    closed spec fn view(&self) -> VolumeModel {
        VolumeModel {
            frames: self.frame_indices@,
            width: self.width as int,
            height: self.height as int,
            classes: self.classes@,
            confidences: self.confidences@,
        }
    }
}

impl ArchitectureSemanticVolume {
    #[verifier::type_invariant]
    spec fn wf(self) -> bool {
        volume_well_formed(self@)
    }
}

/// Bytes before the frame indices.
pub const VOLUME_HEADER: usize = 17;

/// Frame indices that strictly ascend.
pub open spec fn ascending(frames: Seq<usize>) -> bool {
    forall|i: int, j: int| 0 <= i < j < frames.len() ==> #[trigger] frames[i] < #[trigger] frames[j]
}

/// Every code names a class.
pub open spec fn codes_known(classes: Seq<u8>) -> bool {
    forall|i: int| 0 <= i < classes.len() ==> class_of(#[trigger] classes[i]) is Some
}

/// What a payload says: frame count, width and height behind the magic, then
/// the frame indices, then one class and one confidence byte per pixel.
pub open spec fn volume_of(bytes: Seq<u8>) -> Result<VolumeModel, VolumeProblem> {
    let count = wire::u32_at(bytes, 5) as int;
    let width = wire::u32_at(bytes, 9) as int;
    let height = wire::u32_at(bytes, 13) as int;
    let data = count * (width * height);
    let classes_start = VOLUME_HEADER + count * 4;
    let confidences_start = classes_start + data;
    let end = confidences_start + data;
    let frames = Seq::new(
        count as nat,
        |i: int| wire::u32_at(bytes, VOLUME_HEADER + 4 * i) as usize,
    );
    let classes = bytes.subrange(classes_start, confidences_start);
    if bytes.len() < VOLUME_HEADER || bytes.take(5) != seq![0x56u8, 0x53u8, 0x45u8, 0x4du8, 0x31u8] {
        Err(VolumeProblem::MissingHeader)
    } else if width * height > usize::MAX {
        Err(VolumeProblem::DimensionOverflow)
    } else if count * 4 > usize::MAX {
        Err(VolumeProblem::FrameIndexCountOverflow)
    } else if data > usize::MAX {
        Err(VolumeProblem::RasterCountOverflow)
    } else if classes_start > usize::MAX {
        Err(VolumeProblem::FrameIndexOffsetOverflow)
    } else if confidences_start > usize::MAX {
        Err(VolumeProblem::ClassOffsetOverflow)
    } else if end > usize::MAX {
        Err(VolumeProblem::ConfidenceOffsetOverflow)
    } else if width == 0 || height == 0 || bytes.len() != end {
        Err(VolumeProblem::UnexpectedLength)
    } else if !ascending(frames) || !codes_known(classes) {
        Err(VolumeProblem::UnorderedOrUnknown)
    } else {
        Ok(
            VolumeModel {
                frames,
                width,
                height,
                classes,
                confidences: bytes.subrange(confidences_start, end),
            },
        )
    }
}

fn read_u32(bytes: &[u8], at: usize) -> (value: u32)
    requires
        at + 4 <= bytes@.len(),
    ensures
        value == wire::u32_at(bytes@, at as int),
{
    let mut reader = ByteReader { bytes, position: at };
    reader.take_u32().unwrap()
}

fn has_magic(bytes: &[u8]) -> (answer: bool)
    ensures
        answer == (bytes@.len() >= VOLUME_HEADER && bytes@.take(5) == seq![
            0x56u8,
            0x53u8,
            0x45u8,
            0x4du8,
            0x31u8,
        ]),
{
    if bytes.len() < VOLUME_HEADER {
        return false;
    }
    let answer = bytes[0] == 0x56 && bytes[1] == 0x53 && bytes[2] == 0x45 && bytes[3] == 0x4d
        && bytes[4] == 0x31;
    proof {
        let magic = seq![0x56u8, 0x53u8, 0x45u8, 0x4du8, 0x31u8];
        let head = bytes@.take(5);
        assert(head[0] == bytes@[0] && head[1] == bytes@[1] && head[2] == bytes@[2] && head[3]
            == bytes@[3] && head[4] == bytes@[4]);
        if answer {
            assert(head =~= magic);
        } else {
            assert(magic[0] == 0x56u8 && magic[1] == 0x53u8 && magic[2] == 0x45u8 && magic[3]
                == 0x4du8 && magic[4] == 0x31u8);
        }
    }
    answer
}

fn read_indices(bytes: &[u8], count: usize) -> (frames: Vec<usize>)
    requires
        VOLUME_HEADER + count * 4 <= bytes@.len(),
    ensures
        frames@ == Seq::new(
            count as nat,
            |i: int| wire::u32_at(bytes@, VOLUME_HEADER + 4 * i) as usize,
        ),
{
    let _length: usize = bytes.len();
    let ghost whole = Seq::new(
        count as nat,
        |i: int| wire::u32_at(bytes@, VOLUME_HEADER + 4 * i) as usize,
    );
    let mut frames: Vec<usize> = Vec::new();
    for i in 0..count
        invariant
            VOLUME_HEADER + count * 4 <= bytes@.len() <= usize::MAX,
            whole == Seq::new(
                count as nat,
                |i: int| wire::u32_at(bytes@, VOLUME_HEADER + 4 * i) as usize,
            ),
            frames@ == whole.take(i as int),
    {
        frames.push(read_u32(bytes, VOLUME_HEADER + 4 * i) as usize);
        assert(frames@ =~= whole.take(i + 1));
    }
    assert(whole.take(count as int) =~= whole);
    frames
}

fn are_ascending(frames: &Vec<usize>) -> (answer: bool)
    ensures
        answer == ascending(frames@),
{
    let mut i: usize = 1;
    while i < frames.len()
        invariant
            1 <= i,
            i <= frames@.len() || frames@.len() == 0,
            forall|a: int, b: int| 0 <= a < b < i ==> #[trigger] frames@[a] < #[trigger] frames@[b],
        decreases (if i < frames@.len() { frames@.len() - i } else { 0 }),
    {
        if frames[i - 1] >= frames[i] {
            return false;
        }
        i = i + 1;
    }
    true
}

fn are_known(codes: &Vec<u8>) -> (answer: bool)
    ensures
        answer == codes_known(codes@),
{
    for i in 0..codes.len()
        invariant
            forall|k: int| 0 <= k < i ==> class_of(#[trigger] codes@[k]) is Some,
    {
        if ArchitectureClass::from_code(codes[i]).is_none() {
            return false;
        }
    }
    true
}

/// Where the parts of a payload stand.
struct VolumeLayout {
    count: usize,
    width: usize,
    height: usize,
    classes_start: usize,
    confidences_start: usize,
}

/// The layout follows the header.
spec fn is_layout(bytes: Seq<u8>, layout: VolumeLayout) -> bool {
    let data = layout.count * (layout.width * layout.height);
    &&& layout.count == wire::u32_at(bytes, 5)
    &&& layout.width == wire::u32_at(bytes, 9)
    &&& layout.height == wire::u32_at(bytes, 13)
    &&& layout.width > 0
    &&& layout.height > 0
    &&& layout.classes_start == VOLUME_HEADER + layout.count * 4
    &&& layout.confidences_start == layout.classes_start + data
    &&& bytes.len() == layout.confidences_start + data
}

fn read_layout(bytes: &[u8]) -> (result: Result<VolumeLayout, VolumeProblem>)
    ensures
        match result {
            Ok(layout) => {
                &&& is_layout(bytes@, layout)
                &&& volume_of(bytes@) matches Err(e) ==> e is UnorderedOrUnknown
            },
            Err(e) => volume_of(bytes@) == Err::<VolumeModel, VolumeProblem>(e),
        },
{
    let length: usize = bytes.len();
    if !has_magic(bytes) {
        return Err(VolumeProblem::MissingHeader);
    }
    let count: usize = read_u32(bytes, 5) as usize;
    let width: usize = read_u32(bytes, 9) as usize;
    let height: usize = read_u32(bytes, 13) as usize;
    let pixels: usize = match width.checked_mul(height) {
        Some(pixels) => pixels,
        None => {
            return Err(VolumeProblem::DimensionOverflow);
        },
    };
    let index_bytes: usize = match count.checked_mul(4) {
        Some(size) => size,
        None => {
            return Err(VolumeProblem::FrameIndexCountOverflow);
        },
    };
    let data: usize = match count.checked_mul(pixels) {
        Some(data) => data,
        None => {
            return Err(VolumeProblem::RasterCountOverflow);
        },
    };
    let classes_start: usize = match VOLUME_HEADER.checked_add(index_bytes) {
        Some(start) => start,
        None => {
            return Err(VolumeProblem::FrameIndexOffsetOverflow);
        },
    };
    let confidences_start: usize = match classes_start.checked_add(data) {
        Some(start) => start,
        None => {
            return Err(VolumeProblem::ClassOffsetOverflow);
        },
    };
    let end: usize = match confidences_start.checked_add(data) {
        Some(end) => end,
        None => {
            return Err(VolumeProblem::ConfidenceOffsetOverflow);
        },
    };
    if width == 0 || height == 0 || length != end {
        return Err(VolumeProblem::UnexpectedLength);
    }
    Ok(VolumeLayout { count, width, height, classes_start, confidences_start })
}

impl ArchitectureSemanticVolume {
    /// Reads a raster payload.
    pub fn read(bytes: &[u8]) -> (result: Result<Self, ArchitectureEvidenceError>)
        ensures
            match result {
                Ok(volume) => volume_of(bytes@) == Ok::<VolumeModel, VolumeProblem>(volume@),
                Err(e) => e matches ArchitectureEvidenceError::InvalidBinary(problem) && volume_of(
                    bytes@,
                ) == Err::<VolumeModel, VolumeProblem>(problem),
            },
    {
        let layout: VolumeLayout = match read_layout(bytes) {
            Ok(layout) => layout,
            Err(problem) => {
                return Err(ArchitectureEvidenceError::InvalidBinary(problem));
            },
        };
        assert(0 <= layout.count * (layout.width * layout.height)) by (nonlinear_arith)
            requires
                0 <= layout.count,
                0 <= layout.width,
                0 <= layout.height,
        ;
        let frame_indices: Vec<usize> = read_indices(bytes, layout.count);
        let classes: Vec<u8> = text::slice(bytes, layout.classes_start, layout.confidences_start);
        if !are_ascending(&frame_indices) || !are_known(&classes) {
            return Err(ArchitectureEvidenceError::InvalidBinary(VolumeProblem::UnorderedOrUnknown));
        }
        let confidences: Vec<u8> = text::slice(bytes, layout.confidences_start, bytes.len());
        Ok(
            ArchitectureSemanticVolume {
                frame_indices,
                width: layout.width,
                height: layout.height,
                classes,
                confidences,
            },
        )
    }
}

/// The evidence of a pixel of a frame. A confidence byte stands for its share
/// of 255.
pub open spec fn volume_sample(
    volume: VolumeModel,
    frame_index: usize,
    x: int,
    y: int,
) -> Option<(ArchitectureClass, u32)> {
    if exists|f: int| 0 <= f < volume.frames.len() && #[trigger] volume.frames[f] == frame_index {
        let f = choose|f: int| 0 <= f < volume.frames.len() && #[trigger] volume.frames[f] == frame_index;
        let index = f * (volume.width * volume.height) + (y * volume.width + x);
        if x < volume.width && y < volume.height && index < volume.classes.len() && index
            < volume.confidences.len() && class_of(volume.classes[index]) is Some {
            Some(
                (
                    class_of(volume.classes[index]).unwrap(),
                    ratio::f32_quotient(volume.confidences[index] as int, 255),
                ),
            )
        } else {
            None
        }
    } else {
        None
    }
}

/// What [`ArchitectureSemanticVolume::read`] hands out.
pub open spec fn volume_well_formed(volume: VolumeModel) -> bool {
    &&& ascending(volume.frames)
    &&& volume.classes.len() == volume.frames.len() * (volume.width * volume.height)
    &&& volume.confidences.len() == volume.classes.len()
    &&& codes_known(volume.classes)
}

/// A payload that is read is well formed: frames ascend, and every frame has
/// one known class and one confidence per pixel.
pub proof fn law_read_volume_is_well_formed(bytes: Seq<u8>)
    requires
        volume_of(bytes) is Ok,
    ensures
        volume_well_formed(volume_of(bytes)->Ok_0),
        volume_of(bytes)->Ok_0.width > 0,
        volume_of(bytes)->Ok_0.height > 0,
{
    let count = wire::u32_at(bytes, 5) as int;
    let width = wire::u32_at(bytes, 9) as int;
    let height = wire::u32_at(bytes, 13) as int;
    assert(0 <= count * (width * height)) by (nonlinear_arith)
        requires
            0 <= count,
            0 <= width,
            0 <= height,
    ;
}

proof fn lemma_pixel(frame: int, frames: int, x: int, y: int, width: int, height: int)
    requires
        0 <= frame < frames,
        0 <= x < width,
        0 <= y < height,
    ensures
        0 <= y * width,
        0 <= y * width + x < width * height,
        0 <= frame * (width * height),
        frame * (width * height) + (y * width + x) < frames * (width * height),
        width * height <= frames * (width * height),
{
    assert(0 <= y * width && y * width + x < width * height) by (nonlinear_arith)
        requires
            0 <= x < width,
            0 <= y < height,
    ;
    let raster = width * height;
    assert(0 <= frame * raster && frame * raster + raster <= frames * raster && raster <= frames
        * raster) by (nonlinear_arith)
        requires
            0 <= frame < frames,
            0 <= raster,
    ;
}

impl ArchitectureSemanticVolume {
    fn frame_place(&self, frame_index: usize) -> (place: Option<usize>)
        requires
            ascending(self@.frames),
        ensures
            match place {
                None => forall|f: int|
                    0 <= f < self@.frames.len() ==> #[trigger] self@.frames[f] != frame_index,
                Some(f) => f < self@.frames.len() && self@.frames[f as int] == frame_index,
            },
    {
        let mut low: usize = 0;
        let mut high: usize = self.frame_indices.len();
        while low < high
            invariant
                ascending(self@.frames),
                low <= high <= self@.frames.len(),
                forall|f: int| 0 <= f < low ==> #[trigger] self@.frames[f] < frame_index,
                forall|f: int|
                    high <= f < self@.frames.len() ==> frame_index < #[trigger] self@.frames[f],
            decreases high - low,
        {
            let middle: usize = low + (high - low) / 2;
            let probe: usize = self.frame_indices[middle];
            assert(self@.frames[middle as int] == probe);
            if probe == frame_index {
                return Some(middle);
            }
            if probe < frame_index {
                low = middle + 1;
            } else {
                high = middle;
            }
        }
        None
    }

    /// The class and confidence of an exact pixel of a frame.
    pub fn sample(&self, frame_index: usize, x: usize, y: usize) -> (found: Option<
        (ArchitectureClass, u32),
    >)
        ensures
            found == volume_sample(self@, frame_index, x as int, y as int),
    {
        proof {
            use_type_invariant(self);
        }
        let frame: usize = match self.frame_place(frame_index) {
            None => {
                return None;
            },
            Some(frame) => frame,
        };
        proof {
            let f = choose|f: int|
                0 <= f < self@.frames.len() && #[trigger] self@.frames[f] == frame_index;
            assert(self@.frames[f] == self@.frames[frame as int]);
            assert(f == frame);
        }
        if x >= self.width || y >= self.height {
            return None;
        }
        let _classes: usize = self.classes.len();
        let _confidences: usize = self.confidences.len();
        proof {
            lemma_pixel(
                frame as int,
                self@.frames.len() as int,
                x as int,
                y as int,
                self@.width,
                self@.height,
            );
        }
        let index: usize = frame * (self.width * self.height) + (y * self.width + x);
        let confidence: u32 = ratio::f32_ratio(self.confidences[index] as usize, 255);
        match ArchitectureClass::from_code(self.classes[index]) {
            None => None,
            Some(class) => Some((class, confidence)),
        }
    }

    /// Width and height of the raster.
    pub fn dimensions(&self) -> (size: (usize, usize))
        ensures
            size.0 == self@.width,
            size.1 == self@.height,
    {
        (self.width, self.height)
    }
}

/// Where a point projects into the raster of a frame.
#[derive(Debug, Clone, Copy, PartialEq, Eq, Structural)]
pub struct RasterSighting {
    pub frame_index: usize,
    pub x: usize,
    pub y: usize,
}

/// What the views of a point say.
#[derive(Debug, Clone, Copy, PartialEq, Eq, Structural)]
pub struct Votes {
    pub floor: usize,
    pub wall: usize,
    pub opening: usize,
}

/// What one sighting says: nothing where it has no evidence or too little
/// confidence.
pub open spec fn sighting_class(
    volume: VolumeModel,
    sighting: RasterSighting,
    minimum_confidence: u32,
) -> Option<ArchitectureClass> {
    match volume_sample(volume, sighting.frame_index, sighting.x as int, sighting.y as int) {
        None => None,
        Some((class, confidence)) => if ieee::f32_less(confidence, minimum_confidence) {
            None
        } else {
            Some(class)
        },
    }
}

/// The votes of the first `count` sightings.
pub open spec fn votes_of(
    volume: VolumeModel,
    sightings: Seq<RasterSighting>,
    minimum_confidence: u32,
    count: int,
) -> Votes
    decreases count,
{
    if count <= 0 {
        Votes { floor: 0, wall: 0, opening: 0 }
    } else {
        let rest = votes_of(volume, sightings, minimum_confidence, count - 1);
        match sighting_class(volume, sightings[count - 1], minimum_confidence) {
            Some(ArchitectureClass::Floor) => Votes { floor: (rest.floor + 1) as usize, ..rest },
            Some(ArchitectureClass::Wall) => Votes { wall: (rest.wall + 1) as usize, ..rest },
            Some(ArchitectureClass::DoorOrOpening) => Votes {
                opening: (rest.opening + 1) as usize,
                ..rest
            },
            Some(ArchitectureClass::Window) => Votes {
                opening: (rest.opening + 1) as usize,
                ..rest
            },
            _ => rest,
        }
    }
}

/// What becomes of a point.
#[derive(Debug, Clone, Copy, PartialEq, Eq, Structural)]
pub enum Selection {
    Floor,
    Wall,
    Rejected,
}

/// A point is a surface where enough views agree, more on one kind than on the
/// other, and no opening has independent support.
pub open spec fn selection_of(votes: Votes, minimum: usize) -> Selection {
    if votes.opening >= minimum || (votes.floor < minimum && votes.wall < minimum) {
        Selection::Rejected
    } else if votes.floor > votes.wall {
        Selection::Floor
    } else if votes.wall > votes.floor {
        Selection::Wall
    } else {
        Selection::Rejected
    }
}

/// Decides on a point.
pub fn select_point(votes: &Votes, minimum: usize) -> (selection: Selection)
    ensures
        selection == selection_of(*votes, minimum),
{
    if votes.opening >= minimum || (votes.floor < minimum && votes.wall < minimum) {
        Selection::Rejected
    } else if votes.floor > votes.wall {
        Selection::Floor
    } else if votes.wall > votes.floor {
        Selection::Wall
    } else {
        Selection::Rejected
    }
}

/// An opening with independent support vetoes a surface, and nothing becomes a
/// surface on fewer views than asked for.
pub proof fn law_openings_veto_surfaces(votes: Votes, minimum: usize)
    ensures
        votes.opening >= minimum ==> selection_of(votes, minimum) is Rejected,
        selection_of(votes, minimum) is Floor ==> votes.floor >= minimum && votes.floor
            > votes.wall,
        selection_of(votes, minimum) is Wall ==> votes.wall >= minimum && votes.wall > votes.floor,
{
}

/// Points selected as floor and as wall.
#[derive(Debug, Clone, PartialEq, Eq)]
pub struct VerifiedArchitectureSelection {
    pub floor_points: Vec<FusedPoint>,
    pub wall_points: Vec<FusedPoint>,
    pub rejected_points: usize,
    pub minimum_agreeing_views: usize,
}

/// A point in the colour of its kind.
pub open spec fn tinted(point: FusedPoint, selection: Selection) -> FusedPoint {
    FusedPoint {
        color_srgb: if selection is Floor {
            [164u8, 142u8, 108u8]
        } else {
            [122u8, 143u8, 157u8]
        },
        ..point
    }
}

/// What becomes of point `i`.
pub open spec fn point_selection(
    volume: VolumeModel,
    sightings: Seq<Vec<RasterSighting>>,
    minimum_confidence: u32,
    minimum: usize,
    i: int,
) -> Selection {
    selection_of(
        votes_of(volume, sightings[i]@, minimum_confidence, sightings[i]@.len() as int),
        minimum,
    )
}

/// The points among the first `count` that are of a kind, in its colour.
pub open spec fn selected_points(
    points: Seq<FusedPoint>,
    volume: VolumeModel,
    sightings: Seq<Vec<RasterSighting>>,
    minimum_confidence: u32,
    minimum: usize,
    kind: Selection,
    count: int,
) -> Seq<FusedPoint>
    decreases count,
{
    if count <= 0 {
        Seq::empty()
    } else {
        let rest = selected_points(
            points,
            volume,
            sightings,
            minimum_confidence,
            minimum,
            kind,
            count - 1,
        );
        if point_selection(volume, sightings, minimum_confidence, minimum, count - 1) == kind {
            rest.push(tinted(points[count - 1], kind))
        } else {
            rest
        }
    }
}

/// The evidence can select anything: a usable confidence, at least one view
/// asked for, masks at the raster of the capture and a global trajectory.
pub open spec fn can_select(
    volume: VolumeModel,
    raster: (usize, usize),
    has_trajectory: bool,
    minimum_confidence: u32,
    minimum: usize,
) -> bool {
    &&& is_share(minimum_confidence)
    &&& minimum > 0
    &&& volume.width == raster.0
    &&& volume.height == raster.1
    &&& has_trajectory
}

fn count_votes(
    semantic: &ArchitectureSemanticVolume,
    sightings: &Vec<RasterSighting>,
    minimum_confidence: u32,
) -> (votes: Votes)
    ensures
        votes == votes_of(
            semantic@,
            sightings@,
            minimum_confidence,
            sightings@.len() as int,
        ),
{
    let mut votes = Votes { floor: 0, wall: 0, opening: 0 };
    for i in 0..sightings.len()
        invariant
            votes == votes_of(semantic@, sightings@, minimum_confidence, i as int),
            votes.floor + votes.wall + votes.opening <= i,
    {
        let sighting = sightings[i];
        if let Some((class, confidence)) = semantic.sample(
            sighting.frame_index,
            sighting.x,
            sighting.y,
        ) {
            if !ieee::f32_lt(confidence, minimum_confidence) {
                match class {
                    ArchitectureClass::Floor => {
                        votes.floor = votes.floor + 1;
                    },
                    ArchitectureClass::Wall => {
                        votes.wall = votes.wall + 1;
                    },
                    ArchitectureClass::DoorOrOpening => {
                        votes.opening = votes.opening + 1;
                    },
                    ArchitectureClass::Window => {
                        votes.opening = votes.opening + 1;
                    },
                    _ => {},
                }
            }
        }
    }
    votes
}

/// Selects supported points as floor or wall where registered views agree with
/// the semantic evidence. No point is added or moved.
pub fn select_verified_floor_and_walls(
    support_points: &Vec<FusedPoint>,
    semantic: &ArchitectureSemanticVolume,
    sightings: &Vec<Vec<RasterSighting>>,
    raster: (usize, usize),
    has_trajectory: bool,
    minimum_confidence: u32,
    minimum_agreeing_views: usize,
) -> (selection: VerifiedArchitectureSelection)
    requires
        sightings@.len() == support_points@.len(),
    ensures
        selection.minimum_agreeing_views == minimum_agreeing_views,
        ({
            let total = support_points@.len() as int;
            let usable = can_select(
                semantic@,
                raster,
                has_trajectory,
                minimum_confidence,
                minimum_agreeing_views,
            );
            let floor = selected_points(
                support_points@,
                semantic@,
                sightings@,
                minimum_confidence,
                minimum_agreeing_views,
                Selection::Floor,
                total,
            );
            let wall = selected_points(
                support_points@,
                semantic@,
                sightings@,
                minimum_confidence,
                minimum_agreeing_views,
                Selection::Wall,
                total,
            );
            if usable {
                &&& selection.floor_points@ == floor
                &&& selection.wall_points@ == wall
                &&& selection.rejected_points + floor.len() + wall.len() == total
            } else {
                &&& selection.floor_points@.len() == 0
                &&& selection.wall_points@.len() == 0
                &&& selection.rejected_points == total
            }
        }),
{
    let (width, height): (usize, usize) = semantic.dimensions();
    let mut floor_points: Vec<FusedPoint> = Vec::new();
    let mut wall_points: Vec<FusedPoint> = Vec::new();
    let mut rejected_points: usize = 0;
    if !share(minimum_confidence) || minimum_agreeing_views == 0 || width != raster.0 || height
        != raster.1 || !has_trajectory {
        return VerifiedArchitectureSelection {
            floor_points,
            wall_points,
            rejected_points: support_points.len(),
            minimum_agreeing_views,
        };
    }
    for i in 0..support_points.len()
        invariant
            sightings@.len() == support_points@.len(),
            floor_points@ == selected_points(
                support_points@,
                semantic@,
                sightings@,
                minimum_confidence,
                minimum_agreeing_views,
                Selection::Floor,
                i as int,
            ),
            wall_points@ == selected_points(
                support_points@,
                semantic@,
                sightings@,
                minimum_confidence,
                minimum_agreeing_views,
                Selection::Wall,
                i as int,
            ),
            rejected_points + floor_points@.len() + wall_points@.len() == i,
    {
        let votes = count_votes(semantic, &sightings[i], minimum_confidence);
        let mut point = support_points[i];
        match select_point(&votes, minimum_agreeing_views) {
            Selection::Floor => {
                point.color_srgb = [164, 142, 108];
                floor_points.push(point);
            },
            Selection::Wall => {
                point.color_srgb = [122, 143, 157];
                wall_points.push(point);
            },
            Selection::Rejected => {
                rejected_points = rejected_points + 1;
            },
        }
    }
    VerifiedArchitectureSelection {
        floor_points,
        wall_points,
        rejected_points,
        minimum_agreeing_views,
    }
}

/// The codes of a raster name the classes in this order: unknown, floor, wall, ceiling or
/// roof, door or opening, window, and what is not architecture.
pub proof fn law_class_codes(code: u8)
    ensures
        class_of(code) == (match code {
            0u8 => Some(ArchitectureClass::Unknown),
            1u8 => Some(ArchitectureClass::Floor),
            2u8 => Some(ArchitectureClass::Wall),
            3u8 => Some(ArchitectureClass::CeilingOrRoof),
            4u8 => Some(ArchitectureClass::DoorOrOpening),
            5u8 => Some(ArchitectureClass::Window),
            6u8 => Some(ArchitectureClass::NonArchitectural),
            _ => None,
        }),
{
}

/// A volume reads back what its payload holds: the index of frame `f`, and at each pixel
/// of it the class code and the confidence byte that stand there, all codes before all
/// confidences.
pub proof fn law_volume_reads_its_payload(bytes: Seq<u8>, f: int, x: int, y: int)
    requires
        volume_of(bytes) is Ok,
        0 <= f < volume_of(bytes)->Ok_0.frames.len(),
        0 <= x < volume_of(bytes)->Ok_0.width,
        0 <= y < volume_of(bytes)->Ok_0.height,
    ensures
        ({
            let volume = volume_of(bytes)->Ok_0;
            let frames = wire::u32_at(bytes, 5) as int;
            let pixels = wire::u32_at(bytes, 9) * wire::u32_at(bytes, 13);
            let at = f * pixels + (y * volume.width + x);
            &&& volume.frames.len() == frames
            &&& volume.width == wire::u32_at(bytes, 9)
            &&& volume.height == wire::u32_at(bytes, 13)
            &&& volume.frames[f] == wire::u32_at(bytes, 17 + 4 * f)
            &&& bytes.len() == 17 + 4 * frames + 2 * (frames * pixels)
            &&& volume_sample(volume, volume.frames[f], x, y) == Some(
                (
                    class_of(bytes[17 + 4 * frames + at]).unwrap(),
                    ratio::f32_quotient(
                        bytes[17 + 4 * frames + frames * pixels + at] as int,
                        255,
                    ),
                ),
            )
            &&& class_of(bytes[17 + 4 * frames + at]) is Some
        }),
{
    let volume = volume_of(bytes)->Ok_0;
    let frames = wire::u32_at(bytes, 5) as int;
    let width = volume.width;
    let height = volume.height;
    let data = frames * (width * height);
    law_read_volume_is_well_formed(bytes);
    lemma_pixel(f, frames, x, y, width, height);
    let frame_index = volume.frames[f];
    assert(volume.frames[f] == frame_index);
    let g = choose|g: int|
        0 <= g < volume.frames.len() && #[trigger] volume.frames[g] == frame_index;
    assert(g == f) by {
        if g < f {
            assert(volume.frames[g] < volume.frames[f]);
        } else if f < g {
            assert(volume.frames[f] < volume.frames[g]);
        }
    }
    let at = f * (width * height) + (y * width + x);
    assert(volume.classes[at] == bytes[17 + 4 * frames + at]);
    assert(volume.confidences[at] == bytes[17 + 4 * frames + data + at]);
    assert(class_of(volume.classes[at]) is Some);
}

/// The votes of a point count its sightings: a sighting votes where the volume knows a
/// class there with enough confidence, for the floor, for a wall, or for an opening where
/// it is a door or a window.
pub proof fn law_votes_count_sightings(
    volume: VolumeModel,
    sightings: Seq<RasterSighting>,
    minimum_confidence: u32,
    count: int,
)
    requires
        0 <= count <= sightings.len() <= usize::MAX,
        !ieee::f32_nan(minimum_confidence),
    ensures
        ({
            let votes = votes_of(volume, sightings, minimum_confidence, count);
            let seen = |sighting: RasterSighting, class: ArchitectureClass|
                volume_sample(
                    volume,
                    sighting.frame_index,
                    sighting.x as int,
                    sighting.y as int,
                ) matches Some(found) && found.0 == class && (ieee::f32_nan(found.1)
                    || ieee::f32_rank(minimum_confidence) <= ieee::f32_rank(found.1));
            let listed = sightings.take(count);
            &&& votes.floor == listed.filter(
                |s: RasterSighting| seen(s, ArchitectureClass::Floor),
            ).len()
            &&& votes.wall == listed.filter(
                |s: RasterSighting| seen(s, ArchitectureClass::Wall),
            ).len()
            &&& votes.opening == listed.filter(
                |s: RasterSighting|
                    seen(s, ArchitectureClass::DoorOrOpening) || seen(s, ArchitectureClass::Window),
            ).len()
            &&& votes.floor + votes.wall + votes.opening <= count
        }),
    decreases count,
{
    reveal(Seq::filter);
    if count > 0 {
        law_votes_count_sightings(volume, sightings, minimum_confidence, count - 1);
        assert(sightings.take(count).drop_last() =~= sightings.take(count - 1));
        assert(sightings.take(count).last() == sightings[count - 1]);
    }
}

/// A point is floor exactly where enough views call it floor, more than call it wall, and
/// fewer than enough see an opening there; and wall likewise.
pub proof fn law_selection_needs_agreement(votes: Votes, minimum: usize)
    requires
        minimum > 0,
    ensures
        selection_of(votes, minimum) is Floor <==> votes.floor >= minimum && votes.floor
            > votes.wall && votes.opening < minimum,
        selection_of(votes, minimum) is Wall <==> votes.wall >= minimum && votes.wall > votes.floor
            && votes.opening < minimum,
{
}

/// The selected points of a kind are those that the views select so, in their order and
/// unchanged but for the tint of the kind.
pub proof fn law_selected_points_are_tinted(
    points: Seq<FusedPoint>,
    volume: VolumeModel,
    sightings: Seq<Vec<RasterSighting>>,
    minimum_confidence: u32,
    minimum: usize,
    kind: Selection,
    count: int,
)
    requires
        0 <= count <= points.len() == sightings.len(),
        kind is Floor || kind is Wall,
    ensures
        selected_points(
            points,
            volume,
            sightings,
            minimum_confidence,
            minimum,
            kind,
            count,
        ) == order::counted(count).filter_map(
            |i: int|
                if selection_of(
                    votes_of(volume, sightings[i]@, minimum_confidence, sightings[i]@.len() as int),
                    minimum,
                ) == kind {
                    Some(
                        FusedPoint {
                            color_srgb: if kind is Floor {
                                [164u8, 142u8, 108u8]
                            } else {
                                [122u8, 143u8, 157u8]
                            },
                            ..points[i]
                        },
                    )
                } else {
                    None
                },
        ),
    decreases count,
{
    if count > 0 {
        law_selected_points_are_tinted(
            points,
            volume,
            sightings,
            minimum_confidence,
            minimum,
            kind,
            count - 1,
        );
        order::lemma_counted(count);
        let rest = selected_points(
            points,
            volume,
            sightings,
            minimum_confidence,
            minimum,
            kind,
            count - 1,
        );
        let all = selected_points(
            points,
            volume,
            sightings,
            minimum_confidence,
            minimum,
            kind,
            count,
        );
        if all.len() > rest.len() {
            assert(all =~= rest + seq![all.last()]);
        }
    }
}

/// Semantic rasters are admitted exactly where every frame is well formed and the frames
/// ascend: each has pixels, one class and one confidence per pixel, and confidences
/// between zero and one.
pub proof fn law_admitted_frames_are_well_formed(
    frames: Seq<ArchitectureSemanticFrame>,
    start: int,
)
    requires
        0 <= start <= frames.len(),
        frames_fault(frames, start) is None,
    ensures
        forall|i: int|
            start <= i < frames.len() ==> {
                let frame = #[trigger] frames[i];
                &&& frame.width > 0 && frame.height > 0
                &&& frame.classes@.len() == frame.confidences@.len()
                &&& frame.width * frame.height <= usize::MAX ==> frame.classes@.len() == frame.width
                    * frame.height
                &&& forall|k: int|
                    0 <= k < frame.confidences@.len() ==> 0 <= ieee::f32_rank(
                        #[trigger] frame.confidences@[k],
                    ) <= 0x3f80_0000
                &&& i > 0 ==> frames[i - 1].frame_index < frame.frame_index
            },
    decreases frames.len() - start,
{
    if start < frames.len() {
        law_admitted_frames_are_well_formed(frames, start + 1);
        let frame = frames[start];
        assert forall|k: int| 0 <= k < frame.confidences@.len() implies 0 <= ieee::f32_rank(
            #[trigger] frame.confidences@[k],
        ) <= 0x3f80_0000 by {
            assert(is_share(frame.confidences@[k]));
        }
    }
}

/// The evidence of a pixel is the class and the confidence at its place, line by line,
/// where the pixel is on the mask, the mask reaches it and the confidence is a number
/// from zero to one.
pub proof fn law_frame_evidence_is_line_by_line(frame: ArchitectureSemanticFrame, x: int, y: int)
    requires
        0 <= x,
        0 <= y,
        frame_well_formed(frame),
        frame.width * frame.height <= usize::MAX,
    ensures
        frame_sample(frame, x, y) is Some <==> x < frame.width && y < frame.height,
        frame_sample(frame, x, y) matches Some((class, confidence)) ==> {
            &&& class == frame.classes@[y * frame.width + x]
            &&& confidence == frame.confidences@[y * frame.width + x]
            &&& 0 <= ieee::f32_rank(confidence) <= 0x3f80_0000
        },
{
    if x < frame.width && y < frame.height {
        assert(0 <= y * frame.width + x < frame.width * frame.height) by (nonlinear_arith)
            requires
                0 <= x < frame.width,
                0 <= y < frame.height,
        ;
        assert(is_share(frame.confidences@[y * frame.width + x]));
    }
}

/// Evidence is admitted where it says its version, names its runner and the model with
/// revision and license, and its frames are admitted.
pub proof fn law_evidence_names_its_origin(evidence: ArchitectureSemanticEvidence)
    ensures
        evidence_fault(evidence) is None <==> {
            &&& evidence.schema@ == "vestra.architecture-semantics/v1"@
            &&& !text::blank(text::utf8(evidence.runner@))
            &&& !text::blank(text::utf8(evidence.model_id@))
            &&& !text::blank(text::utf8(evidence.model_revision@))
            &&& !text::blank(text::utf8(evidence.model_license@))
            &&& frames_fault(evidence.frames@, 0) is None
        },
        evidence_fault(evidence) == Some(EvidenceFault::UnsupportedSchema)
            || evidence_fault(evidence) is None || evidence.schema@
            == "vestra.architecture-semantics/v1"@,
{
}

/// A sighting says the class of its pixel where the confidence there is no less than the
/// minimum, numerically, and nothing otherwise.
pub proof fn law_sightings_need_confidence(
    volume: VolumeModel,
    sighting: RasterSighting,
    minimum_confidence: u32,
)
    requires
        !ieee::f32_nan(minimum_confidence),
    ensures
        ({
            let sample = volume_sample(
                volume,
                sighting.frame_index,
                sighting.x as int,
                sighting.y as int,
            );
            let said = sighting_class(volume, sighting, minimum_confidence);
            &&& sample is None ==> said is None
            &&& sample matches Some((class, confidence)) ==> {
                let enough = ieee::f32_nan(confidence) || ieee::f32_rank(confidence)
                    >= ieee::f32_rank(minimum_confidence);
                &&& enough ==> said == Some(class)
                &&& !enough ==> said is None
            }
        }),
{
}

/// Evidence can select anything only with a minimum confidence from zero to one, a view
/// asked for, masks as large as the raster and a trajectory.
pub proof fn law_selection_needs_fitting_masks(
    volume: VolumeModel,
    raster: (usize, usize),
    has_trajectory: bool,
    minimum_confidence: u32,
    minimum: usize,
)
    ensures
        can_select(volume, raster, has_trajectory, minimum_confidence, minimum) <==> {
            &&& 0 <= ieee::f32_rank(minimum_confidence) <= 0x3f80_0000
            &&& minimum >= 1
            &&& volume.width == raster.0
            &&& volume.height == raster.1
            &&& has_trajectory
        },
{
}

} // verus!
