//! Counting agreements between a reference reconstruction and its replay.

use vstd::prelude::*;

use crate::fixture::{CppPr2Fixture, CppPr2Frame};
use crate::ieee;
use crate::order;
use crate::stream_output::{CppPr2MultiViewOutput, CppPr2MultiViewView};
use crate::world::FusedPoint;

verus! {

/// Which cloud of a fixture is compared.
#[derive(Debug, Clone, Copy, PartialEq, Eq, Structural)]
pub enum CloudKind {
    Surface,
    LoopClosed,
    Sequential,
}

/// The cloud a comparison asks for: a fused surface if requested, else the
/// trajectory branch the fixture recorded.
pub fn cloud_kind(tsdf: bool, loop_close: bool) -> (kind: CloudKind)
    ensures
        kind == (if tsdf {
            CloudKind::Surface
        } else if loop_close {
            CloudKind::LoopClosed
        } else {
            CloudKind::Sequential
        }),
{
    if tsdf {
        CloudKind::Surface
    } else if loop_close {
        CloudKind::LoopClosed
    } else {
        CloudKind::Sequential
    }
}

/// Point `i` of a flat cloud is finite and has a positive radius.
pub open spec fn point_sound(xyz: Seq<u32>, radius: Seq<u32>, i: int) -> bool {
    &&& ieee::f32_finite(xyz[3 * i])
    &&& ieee::f32_finite(xyz[3 * i + 1])
    &&& ieee::f32_finite(xyz[3 * i + 2])
    &&& ieee::f32_positive(radius[i])
}

/// How many of the first `count` points are sound.
pub open spec fn sound_among(xyz: Seq<u32>, radius: Seq<u32>, count: int) -> nat
    decreases count,
{
    if count <= 0 {
        0
    } else {
        sound_among(xyz, radius, count - 1) + if point_sound(xyz, radius, count - 1) {
            1nat
        } else {
            0nat
        }
    }
}

/// The points a flat cloud holds: whole triples that have a radius.
pub open spec fn cloud_size(xyz: int, radius: int) -> int {
    if xyz / 3 < radius {
        xyz / 3
    } else {
        radius
    }
}

/// Counts the finite points with a positive radius.
pub fn finite_positive_points(xyz: &Vec<u32>, radius: &Vec<u32>) -> (count: usize)
    ensures
        count == sound_among(
            xyz@,
            radius@,
            cloud_size(xyz@.len() as int, radius@.len() as int),
        ),
{
    let size: usize = if xyz.len() / 3 < radius.len() {
        xyz.len() / 3
    } else {
        radius.len()
    };
    let mut count: usize = 0;
    for i in 0..size
        invariant
            size <= radius@.len(),
            3 * size <= xyz@.len() <= usize::MAX,
            count == sound_among(xyz@, radius@, i as int),
            count <= i,
    {
        if ieee::f32_is_finite(xyz[3 * i]) && ieee::f32_is_finite(xyz[3 * i + 1])
            && ieee::f32_is_finite(xyz[3 * i + 2]) && ieee::f32_is_positive(radius[i]) {
            count = count + 1;
        }
    }
    count
}

/// The colour of point `i` differs from the reference.
pub open spec fn color_differs(points: Seq<FusedPoint>, rgb: Seq<u8>, i: int) -> bool {
    let color = points[i].color_srgb@;
    color[0] != rgb[3 * i] || color[1] != rgb[3 * i + 1] || color[2] != rgb[3 * i + 2]
}

/// How many of the first `count` colours differ.
pub open spec fn colors_differing(points: Seq<FusedPoint>, rgb: Seq<u8>, count: int) -> nat
    decreases count,
{
    if count <= 0 {
        0
    } else {
        colors_differing(points, rgb, count - 1) + if color_differs(points, rgb, count - 1) {
            1nat
        } else {
            0nat
        }
    }
}

/// What two clouds share, in numbers.
#[derive(Debug, Clone, Copy, PartialEq, Eq, Structural)]
pub struct CloudAgreement {
    pub counts_match: bool,
    pub shared: usize,
    pub rgb_mismatches: usize,
}

/// Compares the colours of two clouds over the points both have.
pub fn compare_clouds(points: &Vec<FusedPoint>, reference_points: usize, rgb: &Vec<u8>) -> (agreement:
    CloudAgreement)
    requires
        rgb@.len() == 3 * reference_points,
    ensures
        agreement.counts_match == (points@.len() == reference_points),
        agreement.shared == (if points@.len() < reference_points {
            points@.len() as int
        } else {
            reference_points as int
        }),
        agreement.rgb_mismatches == colors_differing(points@, rgb@, agreement.shared as int),
{
    let _bytes: usize = rgb.len();
    let shared: usize = if points.len() < reference_points {
        points.len()
    } else {
        reference_points
    };
    let mut mismatches: usize = 0;
    for i in 0..shared
        invariant
            shared <= points@.len(),
            3 * shared <= rgb@.len() <= usize::MAX,
            mismatches == colors_differing(points@, rgb@, i as int),
            mismatches <= i,
    {
        let color: [u8; 3] = points[i].color_srgb;
        if color[0] != rgb[3 * i] || color[1] != rgb[3 * i + 1] || color[2] != rgb[3 * i + 2] {
            mismatches = mismatches + 1;
        }
    }
    CloudAgreement {
        counts_match: points.len() == reference_points,
        shared,
        rgb_mismatches: mismatches,
    }
}

/// Whether two counts per frame are the same.
pub fn same_counts(a: &Vec<i32>, b: &Vec<i32>) -> (answer: bool)
    ensures
        answer == (a@ == b@),
{
    if a.len() != b.len() {
        return false;
    }
    for i in 0..a.len()
        invariant
            a@.len() == b@.len(),
            forall|k: int| 0 <= k < i ==> a@[k] == b@[k],
    {
        if a[i] != b[i] {
            return false;
        }
    }
    assert(a@ =~= b@);
    true
}

/// Values compared bit by bit.
#[derive(Debug, Clone, Copy, PartialEq, Eq, Structural)]
pub struct DifferenceCounts {
    pub count: usize,
    pub bitwise_mismatches: usize,
}

/// How many of the first `count` values differ.
pub open spec fn differing(left: Seq<u32>, right: Seq<u32>, count: int) -> nat
    decreases count,
{
    if count <= 0 {
        0
    } else {
        differing(left, right, count - 1) + if left[count - 1] != right[count - 1] {
            1nat
        } else {
            0nat
        }
    }
}

/// The values two lists both have.
pub open spec fn common(left: int, right: int) -> int {
    if left < right {
        left
    } else {
        right
    }
}

impl DifferenceCounts {
    /// Counts the values of two lists, as far as both go.
    pub fn extend(&mut self, left: &[u32], right: &[u32])
        requires
            old(self).count + common(left@.len() as int, right@.len() as int) <= usize::MAX,
            old(self).bitwise_mismatches <= old(self).count,
        ensures
            final(self).count == old(self).count + common(left@.len() as int, right@.len() as int),
            final(self).bitwise_mismatches == old(self).bitwise_mismatches + differing(
                left@,
                right@,
                common(left@.len() as int, right@.len() as int),
            ),
            final(self).bitwise_mismatches <= final(self).count,
    {
        let shared: usize = if left.len() < right.len() {
            left.len()
        } else {
            right.len()
        };
        let ghost start = *self;
        for i in 0..shared
            invariant
                start == *old(self),
                shared <= left@.len(),
                shared <= right@.len(),
                start.count + shared <= usize::MAX,
                start.bitwise_mismatches <= start.count,
                self.count == start.count + i,
                self.bitwise_mismatches == start.bitwise_mismatches + differing(
                    left@,
                    right@,
                    i as int,
                ),
                self.bitwise_mismatches <= self.count,
        {
            self.count = self.count + 1;
            if left[i] != right[i] {
                self.bitwise_mismatches = self.bitwise_mismatches + 1;
            }
        }
    }
}

/// A reference has the schedule and the raster of a fixture.
pub open spec fn schedule_matches(reference: CppPr2MultiViewOutput, fixture: CppPr2Fixture) -> bool {
    &&& reference.frame_count == fixture.frame_count
    &&& reference.windows == fixture.windows
    &&& reference.width == fixture.width
    &&& reference.height == fixture.height
    &&& reference.views@.len() == fixture.window_views@.len()
}

/// Whether a reference has the schedule and the raster of a fixture.
pub fn schedules_match(reference: &CppPr2MultiViewOutput, fixture: &CppPr2Fixture) -> (answer: bool)
    ensures
        answer == schedule_matches(*reference, *fixture),
{
    reference.frame_count == fixture.frame_count && reference.windows.chunk_size
        == fixture.windows.chunk_size && reference.windows.overlap == fixture.windows.overlap
        && reference.width == fixture.width && reference.height == fixture.height
        && reference.views.len() == fixture.window_views.len()
}

/// Two windows have tensors of the same shape.
pub open spec fn shapes_match(
    reference: Seq<CppPr2MultiViewView>,
    window: Seq<CppPr2Frame>,
) -> bool {
    &&& reference.len() == window.len()
    &&& forall|i: int|
        0 <= i < reference.len() ==> (#[trigger] reference[i]).depth@.len() == window[i].depth@.len()
            && reference[i].confidence@.len() == window[i].confidence@.len()
}

/// Whether two windows have tensors of the same shape.
pub fn window_shapes_match(reference: &Vec<CppPr2MultiViewView>, window: &Vec<CppPr2Frame>) -> (answer:
    bool)
    ensures
        answer == shapes_match(reference@, window@),
{
    if reference.len() != window.len() {
        return false;
    }
    for i in 0..reference.len()
        invariant
            reference@.len() == window@.len(),
            forall|k: int|
                0 <= k < i ==> (#[trigger] reference@[k]).depth@.len() == window@[k].depth@.len()
                    && reference@[k].confidence@.len() == window@[k].confidence@.len(),
    {
        if reference[i].depth.len() != window[i].depth.len() || reference[i].confidence.len()
            != window[i].confidence.len() {
            return false;
        }
    }
    true
}

/// How many of the first `count` values reach a threshold.
pub open spec fn reaching(values: Seq<u32>, threshold: u32, count: int) -> nat
    decreases count,
{
    if count <= 0 {
        0
    } else {
        reaching(values, threshold, count - 1) + if ieee::f32_at_most(
            threshold,
            values[count - 1],
        ) {
            1nat
        } else {
            0nat
        }
    }
}

/// Counts the values that reach a threshold.
pub fn count_reaching(values: &Vec<u32>, threshold: u32) -> (count: usize)
    ensures
        count == reaching(values@, threshold, values@.len() as int),
{
    let mut count: usize = 0;
    for i in 0..values.len()
        invariant
            count == reaching(values@, threshold, i as int),
            count <= i,
    {
        if ieee::f32_le(threshold, values[i]) {
            count = count + 1;
        }
    }
    count
}

/// The sorted values between which a percentile lies, by the places below and
/// above it. A single value is its own percentile.
pub fn percentile_neighbours(values: &Vec<u32>, lower: usize, upper: usize) -> (pair: Option<
    (u32, u32),
>)
    ensures
        ({
            let inside = lower < values@.len() && upper < values@.len();
            match pair {
                None => !inside,
                Some((low, high)) => inside && exists|sorted: Seq<u32>| #[trigger]
                    order::is_sorted(values@, sorted) && sorted.len() == values@.len() && low
                        == sorted[lower as int] && high == sorted[upper as int],
            }
        }),
{
    if lower >= values.len() || upper >= values.len() {
        return None;
    }
    let sorted: Vec<u32> = order::sort_total(values);
    assert(order::is_sorted(values@, sorted@));
    Some((sorted[lower], sorted[upper]))
}

/// A value differs from itself nowhere: comparing a list with itself finds no
/// mismatch.
pub proof fn law_identical_values_agree(values: Seq<u32>, count: int)
    ensures
        differing(values, values, count) == 0,
    decreases count,
{
    if count > 0 {
        law_identical_values_agree(values, count - 1);
    }
}

/// A flat cloud has as many points as both of its lists hold, three coordinates and one
/// radius for each, and the sound ones among them are those whose coordinates are finite
/// and whose radius is a finite number above zero.
pub proof fn law_sound_points_are_counted(xyz: Seq<u32>, radius: Seq<u32>, count: int)
    requires
        0 <= count,
    ensures
        sound_among(xyz, radius, count) == order::counted(count).filter(
            |i: int|
                ieee::f32_magnitude(xyz[3 * i]) < 0x7f80_0000 && ieee::f32_magnitude(
                    xyz[3 * i + 1],
                ) < 0x7f80_0000 && ieee::f32_magnitude(xyz[3 * i + 2]) < 0x7f80_0000 && 0
                    < ieee::f32_rank(radius[i]) < 0x7f80_0000,
        ).len(),
        3 * cloud_size(xyz.len() as int, radius.len() as int) <= xyz.len(),
        cloud_size(xyz.len() as int, radius.len() as int) <= radius.len(),
        3 * (cloud_size(xyz.len() as int, radius.len() as int) + 1) > xyz.len() || cloud_size(
            xyz.len() as int,
            radius.len() as int,
        ) == radius.len(),
    decreases count,
{
    reveal(Seq::filter);
    if count > 0 {
        law_sound_points_are_counted(xyz, radius, count - 1);
        order::lemma_counted(count);
    } else {
        assert(order::counted(count) =~= Seq::empty());
    }
}

/// Colours differ at the points where any of the three channels does.
pub proof fn law_differing_colors_are_counted(points: Seq<FusedPoint>, rgb: Seq<u8>, count: int)
    requires
        0 <= count <= points.len(),
        3 * count <= rgb.len(),
    ensures
        colors_differing(points, rgb, count) == order::counted(count).filter(
            |i: int| points[i].color_srgb@ != rgb.subrange(3 * i, 3 * i + 3),
        ).len(),
    decreases count,
{
    reveal(Seq::filter);
    if count > 0 {
        law_differing_colors_are_counted(points, rgb, count - 1);
        order::lemma_counted(count);
        let i = count - 1;
        let color = points[i].color_srgb@;
        let other = rgb.subrange(3 * i, 3 * i + 3);
        assert(other[0] == rgb[3 * i] && other[1] == rgb[3 * i + 1] && other[2] == rgb[3 * i + 2]);
        if !color_differs(points, rgb, i) {
            assert(color =~= other);
        }
    } else {
        assert(order::counted(count) =~= Seq::empty());
    }
}

/// Values are compared place by place, as far as both lists go.
pub proof fn law_differing_values_are_counted(left: Seq<u32>, right: Seq<u32>, count: int)
    requires
        0 <= count,
    ensures
        differing(left, right, count) == order::counted(count).filter(
            |i: int| left[i] != right[i],
        ).len(),
        common(left.len() as int, right.len() as int) == left.len() || common(
            left.len() as int,
            right.len() as int,
        ) == right.len(),
        common(left.len() as int, right.len() as int) <= left.len(),
        common(left.len() as int, right.len() as int) <= right.len(),
    decreases count,
{
    reveal(Seq::filter);
    if count > 0 {
        law_differing_values_are_counted(left, right, count - 1);
        order::lemma_counted(count);
    } else {
        assert(order::counted(count) =~= Seq::empty());
    }
}

/// A value reaches a threshold where it is a number no less.
pub proof fn law_reaching_values_are_counted(values: Seq<u32>, threshold: u32, count: int)
    requires
        0 <= count <= values.len(),
        !ieee::f32_nan(threshold),
    ensures
        reaching(values, threshold, count) == values.take(count).filter(
            |value: u32|
                !ieee::f32_nan(value) && ieee::f32_rank(value) >= ieee::f32_rank(threshold),
        ).len(),
    decreases count,
{
    reveal(Seq::filter);
    if count > 0 {
        law_reaching_values_are_counted(values, threshold, count - 1);
        assert(values.take(count).drop_last() =~= values.take(count - 1));
    }
}

/// Two runs have the same schedule where their frames, windows and extents agree and
/// they have as many windows.
pub proof fn law_schedules_agree_in_everything(
    reference: CppPr2MultiViewOutput,
    fixture: CppPr2Fixture,
)
    requires
        schedule_matches(reference, fixture),
    ensures
        reference.frame_count == fixture.frame_count,
        reference.windows.chunk_size == fixture.windows.chunk_size,
        reference.windows.overlap == fixture.windows.overlap,
        reference.width == fixture.width,
        reference.height == fixture.height,
        reference.views@.len() == fixture.window_views@.len(),
{
}

/// Two windows have the same shape where they have as many views, each with as many
/// depths and confidences as the other.
pub proof fn law_shapes_agree_in_every_view(
    reference: Seq<CppPr2MultiViewView>,
    window: Seq<CppPr2Frame>,
    i: int,
)
    requires
        shapes_match(reference, window),
        0 <= i < window.len(),
    ensures
        reference.len() == window.len(),
        reference[i].depth@.len() == window[i].depth@.len(),
        reference[i].confidence@.len() == window[i].confidence@.len(),
{
    let view = reference[i];
}

} // verus!
