//! Strict binary interchange with the streaming stitcher oracle.
//!
//! Four artifacts are understood: `VPS1` fixtures (window-scoped model
//! evidence), `VPO1` and `CPS1` clouds, and `MVO1` multi-view tensors. All are
//! little-endian and fully determined by their headers; a reader refuses both
//! a truncated artifact and one with trailing bytes.

use vstd::prelude::*;

use crate::schedule;
use crate::schedule::WindowSettings;
use crate::wire;
use crate::wire::ByteReader;

verus! {

pub const FIXTURE_VERSION: u32 = 3;

pub const LEGACY_FIXTURE_VERSION: u32 = 2;

pub const OUTPUT_VERSION: u32 = 1;

pub const CAPI_STREAM_VERSION: u32 = 1;

pub const MULTIVIEW_VERSION: u32 = 1;

/// `VPS1`.
pub open spec fn fixture_magic() -> Seq<u8> {
    seq![0x56u8, 0x50u8, 0x53u8, 0x31u8]
}

/// `VPO1`.
pub open spec fn output_magic() -> Seq<u8> {
    seq![0x56u8, 0x50u8, 0x4fu8, 0x31u8]
}

/// `CPS1`.
pub open spec fn capi_stream_magic() -> Seq<u8> {
    seq![0x43u8, 0x50u8, 0x53u8, 0x31u8]
}

/// `MVO1`.
pub open spec fn multiview_magic() -> Seq<u8> {
    seq![0x4du8, 0x56u8, 0x4fu8, 0x31u8]
}

/// What a reader says of an artifact that ends too early.
pub open spec fn truncation_text() -> Seq<char> {
    "failed to fill whole buffer"@
}

/// Optional geometry phases to take part in one oracle run.
#[derive(Debug, Clone, Copy, PartialEq, Eq, Structural)]
pub struct CppPr2StreamBranches {
    pub icp_refine: bool,
    pub loop_close: bool,
}

impl Default for CppPr2StreamBranches {
    fn default() -> (branches: Self)
        ensures
            branches == no_branches(),
    {
        CppPr2StreamBranches { icp_refine: false, loop_close: false }
    }
}

/// No optional phase.
pub open spec fn no_branches() -> CppPr2StreamBranches {
    CppPr2StreamBranches { icp_refine: false, loop_close: false }
}

/// The branch word: bit 0 for seam refinement, bit 1 for loop closure.
pub open spec fn branch_bits(branches: CppPr2StreamBranches) -> u32 {
    match (branches.icp_refine, branches.loop_close) {
        (false, false) => 0u32,
        (true, false) => 1u32,
        (false, true) => 2u32,
        (true, true) => 3u32,
    }
}

/// The phases a branch word asks for.
pub open spec fn branches_of(bits: u32) -> CppPr2StreamBranches {
    CppPr2StreamBranches { icp_refine: bits % 2 == 1, loop_close: bits / 2 % 2 == 1 }
}

impl CppPr2StreamBranches {
    /// The branch word of these phases.
    pub fn bits(self) -> (bits: u32)
        ensures
            bits == branch_bits(self),
    {
        let refine: u32 = if self.icp_refine {
            1
        } else {
            0
        };
        let close: u32 = if self.loop_close {
            2
        } else {
            0
        };
        refine + close
    }

    /// The phases of a branch word; a word with any other bit set is refused.
    pub fn from_bits(bits: u32) -> (result: Result<Self, CppPr2OracleError>)
        ensures
            match result {
                Ok(branches) => bits <= 3 && branches == branches_of(bits),
                Err(e) => bits > 3 && e@ == OracleFault::InvalidHeader,
            },
    {
        if bits > 3 {
            return Err(CppPr2OracleError::InvalidHeader);
        }
        Ok(CppPr2StreamBranches { icp_refine: bits % 2 == 1, loop_close: bits / 2 % 2 == 1 })
    }
}

/// Why an artifact was refused.
#[derive(Debug, PartialEq, Eq)]
pub enum CppPr2OracleError {
    /// The bytes could not be read.
    Io(String),
    /// Another kind of artifact.
    Magic,
    /// A version this reader does not know.
    Version(u32),
    /// Dimensions or parameters out of range.
    InvalidHeader,
    /// Payload lengths that contradict the header.
    InconsistentPayload,
    /// Bytes after the end of the artifact.
    TrailingBytes,
}

/// The meaning of a [`CppPr2OracleError`].
pub enum OracleFault {
    Io(Seq<char>),
    Magic,
    Version(u32),
    InvalidHeader,
    InconsistentPayload,
    TrailingBytes,
}

impl View for CppPr2OracleError {
    type V = OracleFault;

    open spec fn view(&self) -> OracleFault {
        match self {
            CppPr2OracleError::Io(text) => OracleFault::Io(text@),
            CppPr2OracleError::Magic => OracleFault::Magic,
            CppPr2OracleError::Version(version) => OracleFault::Version(*version),
            CppPr2OracleError::InvalidHeader => OracleFault::InvalidHeader,
            CppPr2OracleError::InconsistentPayload => OracleFault::InconsistentPayload,
            CppPr2OracleError::TrailingBytes => OracleFault::TrailingBytes,
        }
    }
}

/// The fault of an artifact that ends too early.
pub open spec fn truncated() -> OracleFault {
    OracleFault::Io(truncation_text())
}

/// The error of a failed read, from what the system said of it.
pub fn io_error(message: &str) -> (error: CppPr2OracleError)
    ensures
        error@ == OracleFault::Io(message@),
{
    CppPr2OracleError::Io(message.to_owned())
}

pub(crate) fn truncation() -> (error: CppPr2OracleError)
    ensures
        error@ == truncated(),
{
    io_error("failed to fill whole buffer")
}

/// Reads four bytes and compares them with a magic.
pub(crate) fn read_magic(reader: &mut ByteReader<'_>, a: u8, b: u8, c: u8, d: u8) -> (result: Result<
    (),
    CppPr2OracleError,
>)
    requires
        old(reader).valid(),
        old(reader).position == 0,
    ensures
        final(reader).valid(),
        match result {
            Ok(_) => {
                &&& old(reader).bytes@.len() >= 4
                &&& old(reader).bytes@.take(4) == seq![a, b, c, d]
                &&& final(reader).advanced(*old(reader), 4)
            },
            Err(e) => if old(reader).bytes@.len() < 4 {
                e@ == truncated()
            } else {
                old(reader).bytes@.take(4) != seq![a, b, c, d] && e@ == OracleFault::Magic
            },
        },
{
    match reader.take_bytes(4) {
        Some(magic) => {
            let ghost taken = magic@;
            assert(taken =~= old(reader).bytes@.take(4));
            if magic[0] == a && magic[1] == b && magic[2] == c && magic[3] == d {
                assert(taken =~= seq![a, b, c, d]);
                Ok(())
            } else {
                assert(taken != seq![a, b, c, d]) by {
                    let wanted = seq![a, b, c, d];
                    assert(wanted[0] == a && wanted[1] == b && wanted[2] == c && wanted[3] == d);
                }
                Err(CppPr2OracleError::Magic)
            }
        },
        None => Err(truncation()),
    }
}

/// Reads one unsigned 32-bit value.
pub(crate) fn read_u32(reader: &mut ByteReader<'_>) -> (result: Result<u32, CppPr2OracleError>)
    requires
        old(reader).valid(),
    ensures
        final(reader).valid(),
        match result {
            Ok(v) => {
                &&& old(reader).position + 4 <= old(reader).bytes@.len()
                &&& v == wire::u32_at(old(reader).bytes@, old(reader).position as int)
                &&& final(reader).advanced(*old(reader), 4)
            },
            Err(e) => old(reader).position + 4 > old(reader).bytes@.len() && e@ == truncated(),
        },
{
    match reader.take_u32() {
        Some(value) => Ok(value),
        None => Err(truncation()),
    }
}

/// Reads one signed 32-bit value.
pub(crate) fn read_i32(reader: &mut ByteReader<'_>) -> (result: Result<i32, CppPr2OracleError>)
    requires
        old(reader).valid(),
    ensures
        final(reader).valid(),
        match result {
            Ok(v) => {
                &&& old(reader).position + 4 <= old(reader).bytes@.len()
                &&& v == wire::i32_of(
                    wire::u32_at(old(reader).bytes@, old(reader).position as int),
                )
                &&& final(reader).advanced(*old(reader), 4)
            },
            Err(e) => old(reader).position + 4 > old(reader).bytes@.len() && e@ == truncated(),
        },
{
    match reader.take_i32() {
        Some(value) => Ok(value),
        None => Err(truncation()),
    }
}

/// Reads one binary64 pattern.
pub(crate) fn read_f64(reader: &mut ByteReader<'_>) -> (result: Result<u64, CppPr2OracleError>)
    requires
        old(reader).valid(),
    ensures
        final(reader).valid(),
        match result {
            Ok(v) => {
                &&& old(reader).position + 8 <= old(reader).bytes@.len()
                &&& v == wire::u64_at(old(reader).bytes@, old(reader).position as int)
                &&& final(reader).advanced(*old(reader), 8)
            },
            Err(e) => old(reader).position + 8 > old(reader).bytes@.len() && e@ == truncated(),
        },
{
    match reader.take_u64() {
        Some(value) => Ok(value),
        None => Err(truncation()),
    }
}

/// Reads `count` binary32 patterns.
pub(crate) fn read_f32_vec(reader: &mut ByteReader<'_>, count: usize) -> (result: Result<
    Vec<u32>,
    CppPr2OracleError,
>)
    requires
        old(reader).valid(),
    ensures
        final(reader).valid(),
        match result {
            Ok(v) => {
                &&& old(reader).position + 4 * count <= old(reader).bytes@.len()
                &&& v@ == wire::u32s_at(old(reader).bytes@, old(reader).position as int, count as int)
                &&& final(reader).advanced(*old(reader), 4 * count)
            },
            Err(e) => old(reader).position + 4 * count > old(reader).bytes@.len() && e@
                == truncated(),
        },
{
    match reader.take_u32s(count) {
        Some(values) => Ok(values),
        None => Err(truncation()),
    }
}

/// Reads `count` signed 32-bit values.
pub(crate) fn read_i32_vec(reader: &mut ByteReader<'_>, count: usize) -> (result: Result<
    Vec<i32>,
    CppPr2OracleError,
>)
    requires
        old(reader).valid(),
    ensures
        final(reader).valid(),
        match result {
            Ok(v) => {
                &&& old(reader).position + 4 * count <= old(reader).bytes@.len()
                &&& v@ == wire::i32s_at(old(reader).bytes@, old(reader).position as int, count as int)
                &&& final(reader).advanced(*old(reader), 4 * count)
            },
            Err(e) => old(reader).position + 4 * count > old(reader).bytes@.len() && e@
                == truncated(),
        },
{
    match reader.take_i32s(count) {
        Some(values) => Ok(values),
        None => Err(truncation()),
    }
}

/// Reads `count` bytes.
pub(crate) fn read_u8_vec(reader: &mut ByteReader<'_>, count: usize) -> (result: Result<
    Vec<u8>,
    CppPr2OracleError,
>)
    requires
        old(reader).valid(),
    ensures
        final(reader).valid(),
        match result {
            Ok(v) => {
                &&& old(reader).position + count <= old(reader).bytes@.len()
                &&& v@ == old(reader).bytes@.subrange(
                    old(reader).position as int,
                    old(reader).position + count,
                )
                &&& final(reader).advanced(*old(reader), count as int)
            },
            Err(e) => old(reader).position + count > old(reader).bytes@.len() && e@
                == truncated(),
        },
{
    match reader.take_bytes(count) {
        Some(values) => Ok(values),
        None => Err(truncation()),
    }
}

/// Reads the nine entries of an intrinsics matrix.
pub(crate) fn read_intrinsics(reader: &mut ByteReader<'_>) -> (result: Result<[u32; 9], CppPr2OracleError>)
    requires
        old(reader).valid(),
    ensures
        final(reader).valid(),
        match result {
            Ok(v) => {
                &&& old(reader).position + 36 <= old(reader).bytes@.len()
                &&& v@ == wire::u32s_at(old(reader).bytes@, old(reader).position as int, 9)
                &&& final(reader).advanced(*old(reader), 36)
            },
            Err(e) => old(reader).position + 36 > old(reader).bytes@.len() && e@ == truncated(),
        },
{
    let v: Vec<u32> = read_f32_vec(reader, 9)?;
    let matrix = [v[0], v[1], v[2], v[3], v[4], v[5], v[6], v[7], v[8]];
    assert(matrix@ =~= v@);
    Ok(matrix)
}

/// Reads the twelve entries of a world-to-camera matrix.
pub(crate) fn read_world_to_camera(reader: &mut ByteReader<'_>) -> (result: Result<
    [u32; 12],
    CppPr2OracleError,
>)
    requires
        old(reader).valid(),
    ensures
        final(reader).valid(),
        match result {
            Ok(v) => {
                &&& old(reader).position + 48 <= old(reader).bytes@.len()
                &&& v@ == wire::u32s_at(old(reader).bytes@, old(reader).position as int, 12)
                &&& final(reader).advanced(*old(reader), 48)
            },
            Err(e) => old(reader).position + 48 > old(reader).bytes@.len() && e@ == truncated(),
        },
{
    let v: Vec<u32> = read_f32_vec(reader, 12)?;
    let matrix = [
        v[0],
        v[1],
        v[2],
        v[3],
        v[4],
        v[5],
        v[6],
        v[7],
        v[8],
        v[9],
        v[10],
        v[11],
    ];
    assert(matrix@ =~= v@);
    Ok(matrix)
}

/// Number of views of each window: the last one may be shorter.
pub open spec fn lengths_of(frame_count: int, settings: WindowSettings) -> Seq<int> {
    if settings.valid() {
        Seq::new(
            schedule::window_count(frame_count, settings) as nat,
            |k: int| schedule::window_end(k, frame_count, settings) - schedule::window_start(k, settings),
        )
    } else {
        Seq::empty()
    }
}

/// The view counts of a schedule, for settings that advance.
pub(crate) fn window_lengths(frame_count: usize, windows: WindowSettings) -> (lengths: Vec<usize>)
    requires
        windows.valid(),
    ensures
        lengths@.len() == lengths_of(frame_count as int, windows).len(),
        forall|k: int| 0 <= k < lengths@.len() ==> #[trigger] lengths@[k] == lengths_of(
            frame_count as int,
            windows,
        )[k],
{
    let step: usize = windows.chunk_size - windows.overlap;
    let mut lengths: Vec<usize> = Vec::new();
    if frame_count == 0 {
        return lengths;
    }
    let mut start: usize = 0;
    let ghost wanted = lengths_of(frame_count as int, windows);
    loop
        invariant
            windows.valid(),
            step == windows.step(),
            start < frame_count,
            start == schedule::window_start(lengths@.len() as int, windows),
            lengths@.len() < schedule::window_count(frame_count as int, windows),
            wanted == lengths_of(frame_count as int, windows),
            forall|k: int| 0 <= k < lengths@.len() ==> #[trigger] lengths@[k] == wanted[k],
        decreases frame_count - start,
    {
        let left: usize = frame_count - start;
        let ghost index = lengths@.len() as int;
        proof {
            schedule::lemma_terminal_window(index, frame_count as int, windows);
        }
        if windows.chunk_size >= left {
            lengths.push(left);
            return lengths;
        }
        lengths.push(windows.chunk_size);
        proof {
            assert(schedule::window_start(index + 1, windows) == start + step) by (nonlinear_arith)
                requires
                    start == schedule::window_start(index, windows),
                    step == windows.step(),
            ;
        }
        start = start + step;
    }
}

/// The view counts of a schedule; none where the settings do not advance.
pub(crate) fn expected_window_lengths(frame_count: usize, settings: WindowSettings) -> (lengths: Vec<usize>)
    ensures
        lengths@.len() == lengths_of(frame_count as int, settings).len(),
        forall|k: int| 0 <= k < lengths@.len() ==> #[trigger] lengths@[k] == lengths_of(
            frame_count as int,
            settings,
        )[k],
{
    if frame_count == 0 || settings.chunk_size < 2 || settings.overlap >= settings.chunk_size {
        return Vec::new();
    }
    window_lengths(frame_count, settings)
}

} // verus!
