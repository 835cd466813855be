//! The fused relative-scale world and the evidence behind its seams.

use vstd::prelude::*;

use crate::ieee;
use crate::order;

verus! {

/// One fused surface element.
#[derive(Debug, Clone, Copy, PartialEq, Eq)]
pub struct FusedPoint {
    pub position: [u32; 3],
    pub normal: [u32; 3],
    pub color_srgb: [u8; 3],
    pub confidence: u32,
    pub radius: u32,
    /// First source frame that observed the surface, or a negative number.
    pub first_observing_frame: i32,
    pub contributors: u32,
}

/// A similarity of three-space: scale, row-major rotation, translation.
#[derive(Debug, Clone, Copy, PartialEq, Eq)]
pub struct SimilarityTransform {
    pub scale: u32,
    pub rotation: [u32; 9],
    pub translation: [u32; 3],
}

/// The similarity that moves nothing.
pub open spec fn is_identity(transform: SimilarityTransform) -> bool {
    &&& transform.scale == ieee::F32_ONE
    &&& transform.rotation@ == seq![
        ieee::F32_ONE,
        0u32,
        0u32,
        0u32,
        ieee::F32_ONE,
        0u32,
        0u32,
        0u32,
        ieee::F32_ONE,
    ]
    &&& transform.translation@ == seq![0u32, 0u32, 0u32]
}

/// The similarity that moves nothing.
pub fn identity_transform() -> (transform: SimilarityTransform)
    ensures
        is_identity(transform),
{
    let one: u32 = ieee::F32_ONE;
    let transform = SimilarityTransform {
        scale: one,
        rotation: [one, 0, 0, 0, one, 0, 0, 0, one],
        translation: [0, 0, 0],
    };
    assert(transform.rotation@ =~= seq![one, 0u32, 0u32, 0u32, one, 0u32, 0u32, 0u32, one]);
    assert(transform.translation@ =~= seq![0u32, 0u32, 0u32]);
    transform
}

/// How well two overlapping windows agree.
#[derive(Debug, Clone, Copy, PartialEq, Eq)]
pub struct AlignmentReport {
    pub transform: SimilarityTransform,
    pub correspondence_count: usize,
    pub inlier_count: usize,
    pub rms_residual: u32,
    pub normalized_rms_residual: u32,
}

/// A fused world with the seams it rests on. `loop_edges` is present only
/// where verified loop constraints were optimized before publication.
#[derive(Debug, Clone, PartialEq, Eq)]
pub struct FusedSceneChunk {
    pub alignments: Vec<AlignmentReport>,
    pub loop_edges: Option<usize>,
    pub voxel_size: u32,
    pub points: Vec<FusedPoint>,
}

/// Position and normal are finite, and the radius is finite and positive.
pub open spec fn surfel_sound(point: FusedPoint) -> bool {
    &&& ieee::f32_all_finite(point.position@)
    &&& ieee::f32_all_finite(point.normal@)
    &&& ieee::f32_finite(point.radius)
    &&& ieee::f32_less(0, point.radius)
}

/// Whether position, normal and radius of a surface element are usable.
pub fn surfel_is_sound(point: &FusedPoint) -> (sound: bool)
    ensures
        sound == surfel_sound(*point),
{
    ieee::f32s_are_finite(&point.position) && ieee::f32s_are_finite(&point.normal)
        && ieee::f32_is_finite(point.radius) && ieee::f32_lt(0, point.radius)
}

/// Coordinate `axis` of every position.
pub open spec fn coordinates(points: Seq<FusedPoint>, axis: int) -> Seq<u32> {
    Seq::new(points.len(), |i: int| points[i].position@[axis])
}

/// The observations behind a list of points.
pub open spec fn contributions(points: Seq<FusedPoint>) -> nat {
    order::total(Seq::new(points.len(), |i: int| points[i].contributors as nat))
}

/// Points that are added bring their observations.
pub proof fn lemma_contributions_add(points: Seq<FusedPoint>, more: Seq<FusedPoint>)
    ensures
        contributions(points + more) == contributions(points) + contributions(more),
{
    let counts = Seq::new(points.len(), |i: int| points[i].contributors as nat);
    let others = Seq::new(more.len(), |i: int| more[i].contributors as nat);
    order::lemma_total_add(counts, others);
    assert(Seq::new(
        (points + more).len(),
        |i: int| (points + more)[i].contributors as nat,
    ) =~= counts + others);
}

/// A surfel is sound where its place, its normal and its radius are finite and its
/// radius is above zero.
pub proof fn law_sound_surfels_have_extent(point: FusedPoint)
    ensures
        surfel_sound(point) <==> (forall|axis: int|
            0 <= axis < 3 ==> ieee::f32_magnitude(#[trigger] point.position@[axis]) < 0x7f80_0000)
            && (forall|axis: int|
            0 <= axis < 3 ==> ieee::f32_magnitude(#[trigger] point.normal@[axis]) < 0x7f80_0000)
            && 0 < ieee::f32_rank(point.radius) < 0x7f80_0000,
{
    if surfel_sound(point) {
        assert forall|axis: int| 0 <= axis < 3 implies ieee::f32_magnitude(
            #[trigger] point.position@[axis],
        ) < 0x7f80_0000 by {
            assert(ieee::f32_finite(point.position@[axis]));
        }
        assert forall|axis: int| 0 <= axis < 3 implies ieee::f32_magnitude(
            #[trigger] point.normal@[axis],
        ) < 0x7f80_0000 by {
            assert(ieee::f32_finite(point.normal@[axis]));
        }
    }
}

/// The identity keeps sizes and places, with ones on the diagonal of its rotation and
/// zeros elsewhere.
pub proof fn law_identity_is_diagonal(transform: SimilarityTransform, row: int, column: int)
    requires
        is_identity(transform),
        0 <= row < 3,
        0 <= column < 3,
    ensures
        transform.scale == 0x3f80_0000,
        transform.rotation@[3 * row + column] == (if row == column {
            0x3f80_0000u32
        } else {
            0u32
        }),
        transform.translation@[row] == 0,
{
}

} // verus!
