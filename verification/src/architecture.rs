//! Conservative architectural planes of an already global world.
//!
//! The extraction is a separate interpretation: the measured layer is never
//! changed, and no rectangle is filled between plane extrema. Every emitted
//! cell has direct planar support, so a door-sized absence in a wall stays an
//! opening.

use vstd::prelude::*;

use crate::cells;
use crate::cells::{group_cells, Cell, CellGroup};
use crate::ieee;
use crate::order;
use crate::world;
use crate::world::FusedPoint;

verus! {

/// Bounds of the extraction. Distances are fractions of the scene diagonal.
#[derive(Debug, Clone, Copy, PartialEq, Eq)]
pub struct ArchitectureSettings {
    /// Source points examined at most.
    pub maximum_source_points: usize,
    /// Planes emitted at most.
    pub maximum_planes: usize,
    /// Plane inlier distance.
    pub plane_distance_fraction: u32,
    /// Least absolute cosine between a source normal and a fitted plane.
    pub minimum_normal_alignment: u32,
    /// Support points a visible plane needs.
    pub minimum_plane_support: usize,
    /// Hypotheses evaluated for each plane.
    pub ransac_trials_per_plane: usize,
    /// Support samples a surface cell needs.
    pub minimum_cell_support: usize,
    /// Grid-cell edge.
    pub cell_size_fraction: u32,
}

impl Default for ArchitectureSettings {
    fn default() -> (settings: Self)
        ensures
            settings == (ArchitectureSettings {
                maximum_source_points: 250_000,
                maximum_planes: 12,
                plane_distance_fraction: 0x3b44_9ba6,
                minimum_normal_alignment: 0x3f70_a3d7,
                minimum_plane_support: 900,
                ransac_trials_per_plane: 256,
                minimum_cell_support: 2,
                cell_size_fraction: 0x3b65_6042,
            }),
            settings_valid(settings),
    {
        ArchitectureSettings {
            maximum_source_points: 250_000,
            maximum_planes: 12,
            plane_distance_fraction: 0x3b44_9ba6,
            minimum_normal_alignment: 0x3f70_a3d7,
            minimum_plane_support: 900,
            ransac_trials_per_plane: 256,
            minimum_cell_support: 2,
            cell_size_fraction: 0x3b65_6042,
        }
    }
}

/// Settings an extraction can run with.
pub open spec fn settings_valid(settings: ArchitectureSettings) -> bool {
    &&& settings.maximum_source_points > 0
    &&& settings.maximum_planes > 0
    &&& ieee::f32_positive(settings.plane_distance_fraction)
    &&& ieee::f32_finite(settings.minimum_normal_alignment)
    &&& ieee::f32_at_most(0, settings.minimum_normal_alignment)
    &&& ieee::f32_at_most(settings.minimum_normal_alignment, ieee::F32_ONE)
    &&& settings.minimum_plane_support >= 3
    &&& settings.ransac_trials_per_plane > 0
    &&& settings.minimum_cell_support > 0
    &&& ieee::f32_positive(settings.cell_size_fraction)
}

/// Whether an extraction can run with the settings.
pub fn settings_are_valid(settings: &ArchitectureSettings) -> (answer: bool)
    ensures
        answer == settings_valid(*settings),
{
    settings.maximum_source_points > 0 && settings.maximum_planes > 0 && ieee::f32_is_positive(
        settings.plane_distance_fraction,
    ) && ieee::f32_is_finite(settings.minimum_normal_alignment) && ieee::f32_le(
        0,
        settings.minimum_normal_alignment,
    ) && ieee::f32_le(settings.minimum_normal_alignment, ieee::F32_ONE)
        && settings.minimum_plane_support >= 3 && settings.ransac_trials_per_plane > 0
        && settings.minimum_cell_support > 0 && ieee::f32_is_positive(settings.cell_size_fraction)
}

/// One extracted plane with its evidence.
#[derive(Debug, Clone, Copy, PartialEq, Eq)]
pub struct ArchitecturalPlane {
    pub normal: [u32; 3],
    pub offset: u32,
    pub support_points: usize,
    pub emitted_surface_cells: usize,
}

/// A conservative architecture layer.
#[derive(Debug, Clone, PartialEq, Eq)]
pub struct ArchitectureExtraction {
    pub planes: Vec<ArchitecturalPlane>,
    pub points: Vec<FusedPoint>,
}

/// A point with finite position and normal.
pub open spec fn usable(point: FusedPoint) -> bool {
    ieee::f32_all_finite(point.position@) && ieee::f32_all_finite(point.normal@)
}

/// Whether a point can be examined.
pub fn valid_point(point: &FusedPoint) -> (answer: bool)
    ensures
        answer == usable(*point),
{
    ieee::f32s_are_finite(&point.position) && ieee::f32s_are_finite(&point.normal)
}

/// The places of the usable ones of the first `count` points.
pub open spec fn usable_places(points: Seq<FusedPoint>, count: int) -> Seq<usize>
    decreases count,
{
    if count <= 0 {
        Seq::empty()
    } else if usable(points[count - 1]) {
        usable_places(points, count - 1).push((count - 1) as usize)
    } else {
        usable_places(points, count - 1)
    }
}

/// The least extent of a scene that has planes: the binary32 step at one.
pub const EXTENT_FLOOR: u32 = 0x3400_0000;

/// A scene has something to extract: the settings are valid, some point can be
/// examined, and its points are spread over some extent.
pub open spec fn extractable(
    points: Seq<FusedPoint>,
    diagonal: u32,
    settings: ArchitectureSettings,
) -> bool {
    &&& settings_valid(settings)
    &&& usable_places(points, points.len() as int).len() > 0
    &&& ieee::f32_finite(diagonal)
    &&& ieee::f32_less(EXTENT_FLOOR, diagonal)
}

/// Whether a scene has something to extract. `diagonal` is that of the bounds of
/// its usable points.
pub fn can_extract(points: &Vec<FusedPoint>, diagonal: u32, settings: &ArchitectureSettings) -> (answer:
    bool)
    ensures
        answer == extractable(points@, diagonal, *settings),
{
    if !settings_are_valid(settings) || !ieee::f32_is_finite(diagonal) || !ieee::f32_lt(
        EXTENT_FLOOR,
        diagonal,
    ) {
        return false;
    }
    for i in 0..points.len()
        invariant
            settings_valid(*settings),
            ieee::f32_finite(diagonal),
            ieee::f32_less(EXTENT_FLOOR, diagonal),
            usable_places(points@, i as int).len() == 0,
    {
        if valid_point(&points[i]) {
            proof {
                lemma_usable_grows(points@, i + 1, points@.len() as int);
            }
            return true;
        }
    }
    false
}

proof fn lemma_usable_grows(points: Seq<FusedPoint>, few: int, many: int)
    requires
        few <= many,
    ensures
        usable_places(points, few).len() <= usable_places(points, many).len(),
    decreases many,
{
    if few < many && many > 0 {
        lemma_usable_grows(points, few, many - 1);
    }
}

/// Every how many points one is examined.
pub open spec fn sample_stride(count: int, maximum: int) -> int {
    (count + maximum - 1) / maximum
}

/// A sample of a list: all of it where it is short enough, else evenly spaced
/// items from the first, at most `maximum` of them.
pub open spec fn is_sample(items: Seq<usize>, maximum: int, sample: Seq<usize>) -> bool {
    let stride = sample_stride(items.len() as int, maximum);
    if items.len() <= maximum {
        sample == items
    } else {
        &&& sample.len() == (items.len() + stride - 1) / stride
        &&& sample.len() <= maximum
        &&& forall|i: int|
            0 <= i < sample.len() ==> #[trigger] sample[i] == items[i * stride] && i * stride
                < items.len()
    }
}

proof fn lemma_sample(count: int, maximum: int)
    requires
        maximum > 0,
        count > maximum,
    ensures
        sample_stride(count, maximum) >= 2,
        (count + sample_stride(count, maximum) - 1) / sample_stride(count, maximum) <= maximum,
        forall|i: int|
            0 <= i < (count + sample_stride(count, maximum) - 1) / sample_stride(
                count,
                maximum,
            ) <==> 0 <= i && #[trigger] (i * sample_stride(count, maximum)) < count,
{
    let s = sample_stride(count, maximum);
    let r = (count + maximum - 1) % maximum;
    assert(count + maximum - 1 == s * maximum + r && 0 <= r < maximum) by (nonlinear_arith)
        requires
            maximum > 0,
            s == (count + maximum - 1) / maximum,
            r == (count + maximum - 1) % maximum,
    ;
    assert(s >= 2) by (nonlinear_arith)
        requires
            count + maximum - 1 == s * maximum + r,
            r < maximum,
            count > maximum,
            maximum > 0,
    ;
    let q = (count + s - 1) / s;
    let t = (count + s - 1) % s;
    assert(count + s - 1 == q * s + t && 0 <= t < s) by (nonlinear_arith)
        requires
            s > 0,
            q == (count + s - 1) / s,
            t == (count + s - 1) % s,
    ;
    assert(count <= s * maximum) by (nonlinear_arith)
        requires
            count + maximum - 1 == s * maximum + r,
            r < maximum,
    ;
    assert(q <= maximum) by (nonlinear_arith)
        requires
            count + s - 1 == q * s + t,
            0 <= t < s,
            count <= s * maximum,
            s > 0,
    ;
    assert forall|i: int| 0 <= i < q <==> 0 <= i && #[trigger] (i * s) < count by {
        if i < q {
            assert(i * s <= q * s - s) by (nonlinear_arith)
                requires
                    i <= q - 1,
                    s > 0,
            ;
        } else {
            assert(q * s <= i * s) by (nonlinear_arith)
                requires
                    q <= i,
                    s > 0,
            ;
        }
    }
}

/// The points to examine: usable ones, thinned to the configured bound.
pub fn deterministic_sample(points: &Vec<FusedPoint>, maximum: usize) -> (sample: Vec<usize>)
    requires
        maximum > 0,
    ensures
        is_sample(usable_places(points@, points@.len() as int), maximum as int, sample@),
{
    let mut places: Vec<usize> = Vec::new();
    for i in 0..points.len()
        invariant
            places@ == usable_places(points@, i as int),
    {
        if valid_point(&points[i]) {
            places.push(i);
        }
    }
    if places.len() <= maximum {
        return places;
    }
    let count: usize = places.len();
    proof {
        lemma_sample(count as int, maximum as int);
    }
    let stride: usize = (count - 1) / maximum + 1;
    assert(stride == sample_stride(count as int, maximum as int)) by {
        assert((count - 1) / (maximum as int) + 1 == (count + maximum - 1) / (maximum as int))
            by (nonlinear_arith)
            requires
                maximum > 0,
                count > 0,
        ;
    }
    let ghost length = (count + stride - 1) / stride as int;
    let mut sample: Vec<usize> = Vec::new();
    let mut at: usize = 0;
    let mut more = true;
    assert(0 * stride == 0) by (nonlinear_arith);
    while more
        invariant
            count == places@.len(),
            count > maximum > 0,
            stride == sample_stride(count as int, maximum as int),
            stride >= 2,
            length == (count + stride - 1) / stride as int,
            length <= maximum,
            forall|i: int|
                0 <= i < length <==> 0 <= i && #[trigger] (i * stride) < count,
            sample@.len() <= length,
            more ==> at < count && at == sample@.len() * stride && sample@.len() < length,
            !more ==> sample@.len() == length,
            forall|i: int|
                0 <= i < sample@.len() ==> #[trigger] sample@[i] == places@[i * stride] && i
                    * stride < count,
        decreases length - sample@.len(),
    {
        let ghost k = sample@.len() as int;
        sample.push(places[at]);
        assert((k + 1) * stride == k * stride + stride) by (nonlinear_arith);
        if stride < count - at {
            at = at + stride;
            assert((k + 1) * stride < count);
        } else {
            more = false;
            assert(!((k + 1) * stride < count));
        }
    }
    sample
}

/// The place a hypothesis draws: a fixed mix of its seed, below the bound.
pub open spec fn drawn(seed: u64, bound: usize) -> usize {
    let a = seed ^ 0x9e37_79b9_7f4a_7c15u64;
    let b = (a ^ (a >> 30u64)).wrapping_mul(0xbf58_476d_1ce4_e5b9u64);
    let c = (b ^ (b >> 27u64)).wrapping_mul(0x94d0_49bb_1331_11ebu64);
    let d = c ^ (c >> 31u64);
    (d % bound as u64) as usize
}

/// Draws a place below `bound`.
pub fn deterministic_index(seed: u64, bound: usize) -> (index: usize)
    requires
        bound > 0,
    ensures
        index == drawn(seed, bound),
        index < bound,
{
    let a: u64 = seed ^ 0x9e37_79b9_7f4a_7c15u64;
    let b: u64 = (a ^ (a >> 30u64)).wrapping_mul(0xbf58_476d_1ce4_e5b9u64);
    let c: u64 = (b ^ (b >> 27u64)).wrapping_mul(0x94d0_49bb_1331_11ebu64);
    let d: u64 = c ^ (c >> 31u64);
    (d % bound as u64) as usize
}

/// Trials beyond this would run out of seeds.
pub const TRIAL_LIMIT: u64 = 0x5555_5555_5555_5554;

/// The three points of a hypothesis, where they are three.
pub open spec fn hypothesis_of(remaining: Seq<usize>, trial: int) -> Option<(usize, usize, usize)> {
    let bound = remaining.len() as usize;
    let a = remaining[drawn((trial * 3 + 1) as u64, bound) as int];
    let b = remaining[drawn((trial * 3 + 2) as u64, bound) as int];
    let c = remaining[drawn((trial * 3 + 3) as u64, bound) as int];
    if a == b || a == c || b == c {
        None
    } else {
        Some((a, b, c))
    }
}

/// The three points of a hypothesis. A draw that repeats a point is skipped.
pub fn hypothesis(remaining: &Vec<usize>, trial: u64) -> (points: Option<(usize, usize, usize)>)
    requires
        remaining@.len() > 0,
        trial <= TRIAL_LIMIT,
    ensures
        points == hypothesis_of(remaining@, trial as int),
{
    let bound: usize = remaining.len();
    let a: usize = remaining[deterministic_index(trial * 3 + 1, bound)];
    let b: usize = remaining[deterministic_index(trial * 3 + 2, bound)];
    let c: usize = remaining[deterministic_index(trial * 3 + 3, bound)];
    if a == b || a == c || b == c {
        None
    } else {
        Some((a, b, c))
    }
}

/// A plane can be looked for.
pub fn can_seed(remaining: usize, trials: usize) -> (answer: bool)
    ensures
        answer == (remaining >= 3 && trials > 0),
{
    remaining >= 3 && trials > 0
}

/// `best` is the first trial of greatest support; none where no trial has any.
pub open spec fn is_best_trial(supports: Seq<usize>, best: Option<int>) -> bool {
    match best {
        None => forall|i: int| 0 <= i < supports.len() ==> #[trigger] supports[i] == 0,
        Some(k) => {
            &&& 0 <= k < supports.len()
            &&& supports[k] > 0
            &&& forall|i: int| 0 <= i < supports.len() ==> #[trigger] supports[i] <= supports[k]
            &&& forall|i: int| 0 <= i < k ==> #[trigger] supports[i] < supports[k]
        },
    }
}

/// The trial whose plane has the greatest support. A skipped trial has none.
pub fn best_trial(supports: &Vec<usize>) -> (best: Option<usize>)
    ensures
        is_best_trial(
            supports@,
            match best {
                None => None,
                Some(k) => Some(k as int),
            },
        ),
{
    let mut best: Option<usize> = None;
    let mut support: usize = 0;
    for i in 0..supports.len()
        invariant
            forall|k: int| 0 <= k < i ==> #[trigger] supports@[k] <= support,
            match best {
                None => support == 0,
                Some(b) => {
                    &&& b < i
                    &&& supports@[b as int] == support
                    &&& support > 0
                    &&& forall|k: int| 0 <= k < b ==> #[trigger] supports@[k] < support
                },
            },
    {
        if supports[i] > support {
            support = supports[i];
            best = Some(i);
        }
    }
    best
}

/// A point lies on a plane: its absolute distance is within the tolerance.
pub open spec fn on_plane(distance: u32, tolerance: u32) -> bool {
    ieee::f32_at_most(ieee::f32_magnitude(distance) as u32, tolerance)
}

/// The items among the first `count` that lie, or do not lie, on a hypothesis.
pub open spec fn plane_part(
    remaining: Seq<usize>,
    distances: Seq<u32>,
    tolerance: u32,
    inside: bool,
    count: int,
) -> Seq<usize>
    decreases count,
{
    if count <= 0 {
        Seq::empty()
    } else {
        let rest = plane_part(remaining, distances, tolerance, inside, count - 1);
        if on_plane(distances[count - 1], tolerance) == inside {
            rest.push(remaining[count - 1])
        } else {
            rest
        }
    }
}

/// The points of a plane and the points left for further planes.
#[derive(Debug, Clone, PartialEq, Eq)]
pub struct PlaneSplit {
    pub support: Vec<usize>,
    pub rest: Vec<usize>,
}

/// Parts the remaining points at a hypothesis by their signed distances.
pub fn split_at_plane(remaining: &Vec<usize>, distances: &Vec<u32>, tolerance: u32) -> (split:
    PlaneSplit)
    requires
        distances@.len() == remaining@.len(),
    ensures
        split.support@ == plane_part(
            remaining@,
            distances@,
            tolerance,
            true,
            remaining@.len() as int,
        ),
        split.rest@ == plane_part(
            remaining@,
            distances@,
            tolerance,
            false,
            remaining@.len() as int,
        ),
{
    let mut support: Vec<usize> = Vec::new();
    let mut rest: Vec<usize> = Vec::new();
    for i in 0..remaining.len()
        invariant
            distances@.len() == remaining@.len(),
            support@ == plane_part(remaining@, distances@, tolerance, true, i as int),
            rest@ == plane_part(remaining@, distances@, tolerance, false, i as int),
    {
        let distance: u32 = distances[i];
        let absolute: u32 = if distance >= 0x8000_0000 {
            distance - 0x8000_0000
        } else {
            distance
        };
        if ieee::f32_le(absolute, tolerance) {
            support.push(remaining[i]);
        } else {
            rest.push(remaining[i]);
        }
    }
    PlaneSplit { support, rest }
}

/// Every remaining point lies on a hypothesis or is left over, never both.
pub proof fn law_plane_split_is_a_partition(
    remaining: Seq<usize>,
    distances: Seq<u32>,
    tolerance: u32,
    count: int,
)
    requires
        distances.len() == remaining.len(),
        0 <= count <= remaining.len(),
    ensures
        plane_part(remaining, distances, tolerance, true, count).len() + plane_part(
            remaining,
            distances,
            tolerance,
            false,
            count,
        ).len() == count,
    decreases count,
{
    if count > 0 {
        law_plane_split_is_a_partition(remaining, distances, tolerance, count - 1);
    }
}

/// A point supports a fitted plane: it lies on the plane, and the absolute cosine
/// between its normal and that of the plane is no less than the minimum.
pub open spec fn supports_plane(distance: u32, tolerance: u32, cosine: u32, minimum: u32) -> bool {
    on_plane(distance, tolerance) && ieee::f32_at_most(
        minimum,
        ieee::f32_magnitude(cosine) as u32,
    )
}

/// The places among the first `count` that support a fitted plane, or that do not.
pub open spec fn support_places(
    distances: Seq<u32>,
    tolerance: u32,
    cosines: Seq<u32>,
    minimum: u32,
    inside: bool,
    count: int,
) -> Seq<usize>
    decreases count,
{
    if count <= 0 {
        Seq::empty()
    } else {
        let rest = support_places(distances, tolerance, cosines, minimum, inside, count - 1);
        if supports_plane(distances[count - 1], tolerance, cosines[count - 1], minimum) == inside {
            rest.push((count - 1) as usize)
        } else {
            rest
        }
    }
}

fn absolute(bits: u32) -> (magnitude: u32)
    ensures
        magnitude == ieee::f32_magnitude(bits),
{
    if bits >= 0x8000_0000 {
        bits - 0x8000_0000
    } else {
        bits
    }
}

/// Parts the points at a fitted plane by their signed distances and by the cosines
/// of their normals. Both parts are lists of places.
pub fn split_at_fitted_plane(
    distances: &Vec<u32>,
    tolerance: u32,
    cosines: &Vec<u32>,
    minimum: u32,
) -> (split: PlaneSplit)
    requires
        cosines@.len() == distances@.len(),
    ensures
        split.support@ == support_places(
            distances@,
            tolerance,
            cosines@,
            minimum,
            true,
            distances@.len() as int,
        ),
        split.rest@ == support_places(
            distances@,
            tolerance,
            cosines@,
            minimum,
            false,
            distances@.len() as int,
        ),
{
    let mut support: Vec<usize> = Vec::new();
    let mut rest: Vec<usize> = Vec::new();
    for i in 0..distances.len()
        invariant
            cosines@.len() == distances@.len(),
            support@ == support_places(distances@, tolerance, cosines@, minimum, true, i as int),
            rest@ == support_places(distances@, tolerance, cosines@, minimum, false, i as int),
    {
        if ieee::f32_le(absolute(distances[i]), tolerance) && ieee::f32_le(
            minimum,
            absolute(cosines[i]),
        ) {
            support.push(i);
        } else {
            rest.push(i);
        }
    }
    PlaneSplit { support, rest }
}

/// Every point supports a fitted plane or is left over, never both.
pub proof fn law_fitted_split_is_a_partition(
    distances: Seq<u32>,
    tolerance: u32,
    cosines: Seq<u32>,
    minimum: u32,
    count: int,
)
    requires
        cosines.len() == distances.len(),
        0 <= count <= distances.len() <= usize::MAX,
    ensures
        ({
            let support = support_places(distances, tolerance, cosines, minimum, true, count);
            let rest = support_places(distances, tolerance, cosines, minimum, false, count);
            &&& support.len() + rest.len() == count
            &&& forall|i: int| 0 <= i < support.len() ==> #[trigger] support[i] < count
            &&& forall|i: int| 0 <= i < rest.len() ==> #[trigger] rest[i] < count
            &&& forall|i: int|
                0 <= i < support.len() ==> supports_plane(
                    distances[(#[trigger] support[i]) as int],
                    tolerance,
                    cosines[support[i] as int],
                    minimum,
                )
            &&& forall|i: int|
                0 <= i < rest.len() ==> !supports_plane(
                    distances[(#[trigger] rest[i]) as int],
                    tolerance,
                    cosines[rest[i] as int],
                    minimum,
                )
        }),
    decreases count,
{
    if count > 0 {
        law_fitted_split_is_a_partition(distances, tolerance, cosines, minimum, count - 1);
        let old_support = support_places(
            distances,
            tolerance,
            cosines,
            minimum,
            true,
            count - 1,
        );
        let old_rest = support_places(distances, tolerance, cosines, minimum, false, count - 1);
        let support = support_places(distances, tolerance, cosines, minimum, true, count);
        let rest = support_places(distances, tolerance, cosines, minimum, false, count);
        assert forall|i: int| 0 <= i < support.len() implies #[trigger] support[i] < count
            && supports_plane(
            distances[support[i] as int],
            tolerance,
            cosines[support[i] as int],
            minimum,
        ) by {
            if i < old_support.len() {
                assert(support[i] == old_support[i]);
            }
        }
        assert forall|i: int| 0 <= i < rest.len() implies #[trigger] rest[i] < count
            && !supports_plane(
            distances[rest[i] as int],
            tolerance,
            cosines[rest[i] as int],
            minimum,
        ) by {
            if i < old_rest.len() {
                assert(rest[i] == old_rest[i]);
            }
        }
    }
}

/// What to do with a plane.
#[derive(Debug, Clone, Copy, PartialEq, Eq, Structural)]
pub enum PlaneVerdict {
    Emit,
    Finish,
}

/// A plane is emitted where it has enough support and some supported cell, and
/// the extraction ends where it has not.
pub fn judge_plane(support: usize, cells: usize, settings: &ArchitectureSettings) -> (verdict:
    PlaneVerdict)
    ensures
        verdict is Emit <==> support >= settings.minimum_plane_support && cells > 0,
{
    if support >= settings.minimum_plane_support && cells > 0 {
        PlaneVerdict::Emit
    } else {
        PlaneVerdict::Finish
    }
}

/// An extraction between two planes.
#[derive(Debug, Clone, PartialEq, Eq)]
pub struct PlaneSearch {
    /// The points that no plane has taken yet.
    pub remaining: Vec<usize>,
    pub extraction: ArchitectureExtraction,
}

/// What a round of the search came to.
#[derive(Debug, Clone, PartialEq, Eq)]
pub enum PlaneRound {
    /// No three points span a plane, or none fits its support.
    NoPlane,
    /// A fitted plane and how near a point has to be; of each remaining point the
    /// signed distance, the cosine between its normal and that of the plane, and
    /// its grid cell; and where each supported cell stands, in cell order.
    Fitted {
        normal: [u32; 3],
        offset: u32,
        tolerance: u32,
        distances: Vec<u32>,
        cosines: Vec<u32>,
        keys: Vec<Cell>,
        geometry: Vec<CellGeometry>,
    },
}

/// The places of the remaining points that support a round's plane, or of those
/// that do not.
pub open spec fn round_places(
    remaining: Seq<usize>,
    round: PlaneRound,
    settings: ArchitectureSettings,
    inside: bool,
) -> Seq<usize> {
    match round {
        PlaneRound::NoPlane => if inside {
            Seq::empty()
        } else {
            Seq::new(remaining.len(), |i: int| i as usize)
        },
        PlaneRound::Fitted { distances, tolerance, cosines, .. } => support_places(
            distances@,
            tolerance,
            cosines@,
            settings.minimum_normal_alignment,
            inside,
            remaining.len() as int,
        ),
    }
}

/// The remaining points that a round's plane takes, or those it leaves.
pub open spec fn round_part(
    remaining: Seq<usize>,
    round: PlaneRound,
    settings: ArchitectureSettings,
    inside: bool,
) -> Seq<usize> {
    order::picked(remaining, round_places(remaining, round, settings, inside))
}

/// The supported cells of a round's plane.
pub open spec fn round_cells(
    sampled: Seq<FusedPoint>,
    remaining: Seq<usize>,
    round: PlaneRound,
    settings: ArchitectureSettings,
    emitted: Seq<PlaneCell>,
) -> bool {
    match round {
        PlaneRound::NoPlane => emitted.len() == 0,
        PlaneRound::Fitted { keys, .. } => is_emission(
            order::picked(sampled, round_part(remaining, round, settings, true)),
            order::picked(keys@, round_places(remaining, round, settings, true)),
            settings.minimum_cell_support,
            emitted,
        ),
    }
}

/// A round measured every remaining point, and placed every supported cell.
pub open spec fn round_fits(
    sampled: Seq<FusedPoint>,
    remaining: Seq<usize>,
    round: PlaneRound,
    settings: ArchitectureSettings,
) -> bool {
    round matches PlaneRound::Fitted { distances, cosines, keys, geometry, .. } ==> {
        &&& distances@.len() == remaining.len()
        &&& cosines@.len() == remaining.len()
        &&& keys@.len() == remaining.len()
        &&& forall|emitted: Seq<PlaneCell>| #[trigger]
            round_cells(sampled, remaining, round, settings, emitted) ==> geometry@.len()
                == emitted.len()
    }
}

/// The search takes another round.
pub open spec fn searches(planes: nat, settings: ArchitectureSettings) -> bool {
    planes < settings.maximum_planes
}

/// A round's plane is taken into the extraction.
pub open spec fn takes_plane(
    remaining: Seq<usize>,
    round: PlaneRound,
    settings: ArchitectureSettings,
) -> bool {
    match round {
        PlaneRound::NoPlane => false,
        PlaneRound::Fitted { geometry, .. } => round_part(remaining, round, settings, true).len()
            >= settings.minimum_plane_support && geometry@.len() > 0,
    }
}

/// The cells that each plane emitted.
pub open spec fn emitted_counts(planes: Seq<ArchitecturalPlane>) -> Seq<nat> {
    Seq::new(planes.len(), |i: int| planes[i].emitted_surface_cells as nat)
}

/// What holds of a search over so many sampled points: no more planes than
/// allowed, each with enough support; as many points as its planes have cells,
/// each with enough contributors; and no sampled point counted twice.
pub open spec fn search_sound(
    search: PlaneSearch,
    sampled: int,
    settings: ArchitectureSettings,
) -> bool {
    let planes = search.extraction.planes@;
    let points = search.extraction.points@;
    &&& planes.len() <= settings.maximum_planes
    &&& forall|i: int|
        0 <= i < planes.len() ==> (#[trigger] planes[i]).support_points
            >= settings.minimum_plane_support
    &&& points.len() == order::total(emitted_counts(planes))
    &&& forall|i: int|
        0 <= i < points.len() ==> (#[trigger] points[i]).contributors
            >= settings.minimum_cell_support
    &&& world::contributions(points) + search.remaining@.len() <= sampled
    &&& forall|i: int|
        0 <= i < search.remaining@.len() ==> #[trigger] search.remaining@[i] < sampled
}

/// A search over a sample of points that has found nothing yet.
pub fn begin_plane_search(sampled: usize) -> (search: PlaneSearch)
    ensures
        search.remaining@ == Seq::new(sampled as nat, |i: int| i as usize),
        search.extraction.planes@.len() == 0,
        search.extraction.points@.len() == 0,
        forall|settings: ArchitectureSettings| #[trigger]
            search_sound(search, sampled as int, settings),
{
    let mut remaining: Vec<usize> = Vec::new();
    for i in 0..sampled
        invariant
            remaining@ == Seq::new(i as nat, |k: int| k as usize),
    {
        remaining.push(i);
        assert(remaining@ =~= Seq::new((i + 1) as nat, |k: int| k as usize));
    }
    PlaneSearch {
        remaining,
        extraction: ArchitectureExtraction { planes: Vec::new(), points: Vec::new() },
    }
}

fn pick_places(items: &Vec<usize>, places: &Vec<usize>) -> (list: Vec<usize>)
    requires
        forall|i: int| 0 <= i < places@.len() ==> #[trigger] places@[i] < items@.len(),
    ensures
        list@ == order::picked(items@, places@),
{
    let mut list: Vec<usize> = Vec::new();
    for i in 0..places.len()
        invariant
            forall|i: int| 0 <= i < places@.len() ==> #[trigger] places@[i] < items@.len(),
            list@ == order::picked(items@, places@).take(i as int),
    {
        let place: usize = places[i];
        list.push(items[place]);
        assert(list@ =~= order::picked(items@, places@).take(i + 1));
    }
    assert(list@ =~= order::picked(items@, places@));
    list
}

fn pick_points(items: &Vec<FusedPoint>, places: &Vec<usize>) -> (list: Vec<FusedPoint>)
    requires
        forall|i: int| 0 <= i < places@.len() ==> #[trigger] places@[i] < items@.len(),
    ensures
        list@ == order::picked(items@, places@),
{
    let mut list: Vec<FusedPoint> = Vec::new();
    for i in 0..places.len()
        invariant
            forall|i: int| 0 <= i < places@.len() ==> #[trigger] places@[i] < items@.len(),
            list@ == order::picked(items@, places@).take(i as int),
    {
        let place: usize = places[i];
        list.push(items[place]);
        assert(list@ =~= order::picked(items@, places@).take(i + 1));
    }
    assert(list@ =~= order::picked(items@, places@));
    list
}

fn pick_cells(items: &Vec<Cell>, places: &Vec<usize>) -> (list: Vec<Cell>)
    requires
        forall|i: int| 0 <= i < places@.len() ==> #[trigger] places@[i] < items@.len(),
    ensures
        list@ == order::picked(items@, places@),
{
    let mut list: Vec<Cell> = Vec::new();
    for i in 0..places.len()
        invariant
            forall|i: int| 0 <= i < places@.len() ==> #[trigger] places@[i] < items@.len(),
            list@ == order::picked(items@, places@).take(i as int),
    {
        let place: usize = places[i];
        list.push(items[place]);
        assert(list@ =~= order::picked(items@, places@).take(i + 1));
    }
    assert(list@ =~= order::picked(items@, places@));
    list
}

/// Takes a round's plane with its cells and leaves its support behind, or ends
/// the search. The answer tells whether the search goes on.
pub fn extend_architecture(
    search: &mut PlaneSearch,
    sampled: &Vec<FusedPoint>,
    round: PlaneRound,
    settings: &ArchitectureSettings,
) -> (goes_on: bool)
    requires
        sampled@.len() <= u32::MAX,
        search_sound(*old(search), sampled@.len() as int, *settings),
        searches(old(search).extraction.planes@.len(), *settings),
        round_fits(sampled@, old(search).remaining@, round, *settings),
    ensures
        search_sound(*final(search), sampled@.len() as int, *settings),
        !takes_plane(old(search).remaining@, round, *settings) ==> *final(search) == *old(search)
            && !goes_on,
        takes_plane(old(search).remaining@, round, *settings) ==> match round {
            PlaneRound::NoPlane => false,
            PlaneRound::Fitted { normal, offset, geometry, .. } => {
                &&& final(search).remaining@ == round_part(
                    old(search).remaining@,
                    round,
                    *settings,
                    false,
                )
                &&& final(search).extraction.planes@ == old(search).extraction.planes@.push(
                    ArchitecturalPlane {
                        normal,
                        offset,
                        support_points: round_part(
                            old(search).remaining@,
                            round,
                            *settings,
                            true,
                        ).len() as usize,
                        emitted_surface_cells: geometry@.len() as usize,
                    },
                )
                &&& exists|emitted: Seq<PlaneCell>| #[trigger]
                    round_cells(
                        sampled@,
                        old(search).remaining@,
                        round,
                        *settings,
                        emitted,
                    ) && final(search).extraction.points@ == old(search).extraction.points@
                        + cell_points(emitted, geometry@, normal)
                &&& goes_on == searches(final(search).extraction.planes@.len(), *settings)
            },
        },
{
    let ghost before = *search;
    let ghost given = round;
    let ghost left = search.remaining@;
    match round {
        PlaneRound::NoPlane => false,
        PlaneRound::Fitted { normal, offset, tolerance, distances, cosines, keys, geometry } => {
            let _count: usize = distances.len();
            let split: PlaneSplit = split_at_fitted_plane(
                &distances,
                tolerance,
                &cosines,
                settings.minimum_normal_alignment,
            );
            proof {
                law_fitted_split_is_a_partition(
                    distances@,
                    tolerance,
                    cosines@,
                    settings.minimum_normal_alignment,
                    left.len() as int,
                );
            }
            let support_points: usize = split.support.len();
            let emitted_surface_cells: usize = geometry.len();
            match judge_plane(support_points, emitted_surface_cells, settings) {
                PlaneVerdict::Finish => false,
                PlaneVerdict::Emit => {
                    let taken: Vec<usize> = pick_places(&search.remaining, &split.support);
                    let support: Vec<FusedPoint> = pick_points(sampled, &taken);
                    let support_keys: Vec<Cell> = pick_cells(&keys, &split.support);
                    let emitted: Vec<PlaneCell> = emit_supported_plane_cells(
                        &support,
                        &support_keys,
                        settings.minimum_cell_support,
                    );
                    assert(round_cells(sampled@, left, given, *settings, emitted@));
                    proof {
                        lemma_emission_counts(
                            support@,
                            support_keys@,
                            settings.minimum_cell_support,
                            emitted@,
                        );
                    }
                    let cells: Vec<FusedPoint> = plane_points(&emitted, &geometry, normal);
                    search.remaining = pick_places(&search.remaining, &split.rest);
                    search.extraction.planes.push(
                        ArchitecturalPlane {
                            normal,
                            offset,
                            support_points,
                            emitted_surface_cells,
                        },
                    );
                    let ghost points = search.extraction.points@;
                    let ghost planes = search.extraction.planes@;
                    let ghost rest = search.remaining@;
                    for i in 0..cells.len()
                        invariant
                            search.remaining@ == rest,
                            search.extraction.planes@ == planes,
                            search.extraction.points@ == points + cells@.take(i as int),
                    {
                        search.extraction.points.push(cells[i]);
                        assert(points + cells@.take(i + 1) =~= (points + cells@.take(
                            i as int,
                        )).push(cells@[i as int]));
                    }
                    assert(cells@.take(cells@.len() as int) =~= cells@);
                    proof {
                        lemma_cell_contributions(
                            emitted@,
                            geometry@,
                            normal,
                            support@.len() as int,
                        );
                        world::lemma_contributions_add(points, cells@);
                        assert(emitted_counts(planes) =~= emitted_counts(
                            before.extraction.planes@,
                        ).push(emitted_surface_cells as nat));
                        order::lemma_total_push(
                            emitted_counts(before.extraction.planes@),
                            emitted_surface_cells as nat,
                        );
                        assert forall|i: int|
                            0 <= i < search.extraction.points@.len() implies (
                        #[trigger] search.extraction.points@[i]).contributors
                            >= settings.minimum_cell_support by {
                            if i < points.len() {
                                assert(search.extraction.points@[i] == points[i]);
                            } else {
                                let k = i - points.len();
                                assert(search.extraction.points@[i] == cell_point(
                                    emitted@[k],
                                    geometry@[k],
                                    normal,
                                ));
                                assert(emitted@[k].members@.len()
                                    >= settings.minimum_cell_support);
                            }
                        }
                    }
                    search.extraction.planes.len() < settings.maximum_planes
                },
            }
        },
    }
}

/// A plane that is taken leaves fewer points behind than there were, so a
/// search ends after at most as many planes as it had points.
pub proof fn law_plane_search_ends(
    remaining: Seq<usize>,
    round: PlaneRound,
    settings: ArchitectureSettings,
)
    requires
        settings.minimum_plane_support > 0,
        remaining.len() <= usize::MAX,
        round matches PlaneRound::Fitted { distances, cosines, .. } ==> distances@.len()
            == remaining.len() && cosines@.len() == remaining.len(),
        takes_plane(remaining, round, settings),
    ensures
        round_part(remaining, round, settings, false).len() + settings.minimum_plane_support
            <= remaining.len(),
{
    if let PlaneRound::Fitted { distances, tolerance, cosines, .. } = round {
        law_fitted_split_is_a_partition(
            distances@,
            tolerance,
            cosines@,
            settings.minimum_normal_alignment,
            remaining.len() as int,
        );
    }
}

/// Points whose normals do not agree with a plane never make one, however near
/// they lie: where no cosine reaches the minimum the search ends as it was.
pub proof fn law_crossing_normals_make_no_plane(
    remaining: Seq<usize>,
    round: PlaneRound,
    settings: ArchitectureSettings,
)
    requires
        settings_valid(settings),
        remaining.len() <= usize::MAX,
        round matches PlaneRound::Fitted { distances, cosines, .. } ==> {
            &&& distances@.len() == remaining.len()
            &&& cosines@.len() == remaining.len()
            &&& forall|i: int|
                0 <= i < cosines@.len() ==> ieee::f32_less(
                    ieee::f32_magnitude(#[trigger] cosines@[i]) as u32,
                    settings.minimum_normal_alignment,
                )
        },
    ensures
        !takes_plane(remaining, round, settings),
{
    if let PlaneRound::Fitted { distances, tolerance, cosines, .. } = round {
        let minimum = settings.minimum_normal_alignment;
        law_fitted_split_is_a_partition(
            distances@,
            tolerance,
            cosines@,
            minimum,
            remaining.len() as int,
        );
        let support = support_places(
            distances@,
            tolerance,
            cosines@,
            minimum,
            true,
            remaining.len() as int,
        );
        if support.len() > 0 {
            let place = support[0] as int;
            assert(supports_plane(distances@[place], tolerance, cosines@[place], minimum));
            assert(ieee::f32_less(ieee::f32_magnitude(cosines@[place]) as u32, minimum));
        }
    }
}

/// The earlier of two frames; a frame of `-1` is unknown.
pub open spec fn earlier_frame(left: i32, right: i32) -> i32 {
    if left == -1 {
        right
    } else if right == -1 {
        left
    } else if left < right {
        left
    } else {
        right
    }
}

/// The first frame of the first `count` members.
pub open spec fn cell_frame(support: Seq<FusedPoint>, members: Seq<usize>, count: int) -> i32
    decreases count,
{
    if count <= 1 {
        support[members[0] as int].first_observing_frame
    } else {
        earlier_frame(
            cell_frame(support, members, count - 1),
            support[members[count - 1] as int].first_observing_frame,
        )
    }
}

/// The sum of all colour bytes of the first `count` members.
pub open spec fn color_sum(support: Seq<FusedPoint>, members: Seq<usize>, count: int) -> nat
    decreases count,
{
    if count <= 0 {
        0
    } else {
        let color = support[members[count - 1] as int].color_srgb;
        (color_sum(support, members, count - 1) + color@[0] + color@[1] + color@[2]) as nat
    }
}

/// The neutral brightness of a cell: its mean colour byte, kept between 70 and
/// 225.
pub open spec fn brightness_of(sum: int, count: int) -> int {
    let mean = sum / (3 * count);
    if mean < 70 {
        70
    } else if mean > 225 {
        225
    } else {
        mean
    }
}

/// A grid cell of a plane with enough support.
#[derive(Debug, Clone, PartialEq, Eq)]
pub struct PlaneCell {
    pub cell: Cell,
    pub members: Vec<usize>,
    pub color_srgb: [u8; 3],
    pub first_frame: i32,
}

/// What is said of one emitted cell.
pub open spec fn is_plane_cell(
    support: Seq<FusedPoint>,
    group: CellGroup,
    cell: PlaneCell,
) -> bool {
    let count = group.members@.len() as int;
    let brightness = brightness_of(color_sum(support, group.members@, count) as int, count);
    &&& cell.cell == group.cell
    &&& cell.members@ == group.members@
    &&& cell.color_srgb@ == seq![
        (brightness - 16) as u8,
        brightness as u8,
        (brightness - 24) as u8,
    ]
    &&& cell.first_frame == cell_frame(support, group.members@, count)
}

/// The groups among the first `count` with enough members.
pub open spec fn supported_groups(
    groups: Seq<CellGroup>,
    minimum: usize,
    count: int,
) -> Seq<CellGroup>
    decreases count,
{
    if count <= 0 {
        Seq::empty()
    } else if groups[count - 1].members@.len() >= minimum {
        supported_groups(groups, minimum, count - 1).push(groups[count - 1])
    } else {
        supported_groups(groups, minimum, count - 1)
    }
}

/// The emitted cells: in cell order, each occupied cell with enough support and
/// no other.
pub open spec fn is_emission(
    support: Seq<FusedPoint>,
    keys: Seq<Cell>,
    minimum: usize,
    emitted: Seq<PlaneCell>,
) -> bool {
    exists|groups: Seq<CellGroup>| #[trigger]
        cells::is_grouping(keys, groups) && {
            let kept = supported_groups(groups, minimum, groups.len() as int);
            &&& emitted.len() == kept.len()
            &&& forall|i: int|
                0 <= i < kept.len() ==> is_plane_cell(support, kept[i], #[trigger] emitted[i])
        }
}

fn sum_colors(support: &Vec<FusedPoint>, members: &Vec<usize>) -> (sum: u64)
    requires
        forall|i: int| 0 <= i < members@.len() ==> #[trigger] members@[i] < support@.len(),
        members@.len() <= u32::MAX,
    ensures
        sum == color_sum(support@, members@, members@.len() as int),
        sum <= members@.len() * 765,
{
    let mut sum: u64 = 0;
    for i in 0..members.len()
        invariant
            forall|i: int| 0 <= i < members@.len() ==> #[trigger] members@[i] < support@.len(),
            members@.len() <= u32::MAX,
            sum == color_sum(support@, members@, i as int),
            sum <= i * 765,
    {
        let color: [u8; 3] = support[members[i]].color_srgb;
        sum = sum + color[0] as u64 + color[1] as u64 + color[2] as u64;
    }
    sum
}

fn first_frame_of(support: &Vec<FusedPoint>, members: &Vec<usize>) -> (frame: i32)
    requires
        members@.len() > 0,
        forall|i: int| 0 <= i < members@.len() ==> #[trigger] members@[i] < support@.len(),
    ensures
        frame == cell_frame(support@, members@, members@.len() as int),
{
    let mut frame: i32 = support[members[0]].first_observing_frame;
    for i in 1..members.len()
        invariant
            forall|i: int| 0 <= i < members@.len() ==> #[trigger] members@[i] < support@.len(),
            frame == cell_frame(support@, members@, i as int),
    {
        let next: i32 = support[members[i]].first_observing_frame;
        frame = if frame == -1 {
            next
        } else if next == -1 {
            frame
        } else if frame < next {
            frame
        } else {
            next
        };
    }
    frame
}

fn neutral_color(sum: u64, count: u64) -> (color: [u8; 3])
    requires
        0 < count <= u32::MAX,
        sum <= count * 765,
    ensures
        ({
            let brightness = brightness_of(sum as int, count as int);
            color@ == seq![(brightness - 16) as u8, brightness as u8, (brightness - 24) as u8]
        }),
{
    let mean: u64 = sum / (3 * count);
    let brightness: u8 = if mean < 70 {
        70
    } else if mean > 225 {
        225
    } else {
        mean as u8
    };
    let color: [u8; 3] = [brightness - 16, brightness, brightness - 24];
    assert(color@ =~= seq![(brightness - 16) as u8, brightness as u8, (brightness - 24) as u8]);
    color
}

/// Turns the support of a plane into occupied grid cells. Empty cells and
/// cells with too little support stay holes.
pub fn emit_supported_plane_cells(
    support: &Vec<FusedPoint>,
    keys: &Vec<Cell>,
    minimum_cell_support: usize,
) -> (emitted: Vec<PlaneCell>)
    requires
        keys@.len() == support@.len(),
        support@.len() <= u32::MAX,
    ensures
        is_emission(support@, keys@, minimum_cell_support, emitted@),
{
    let groups: Vec<CellGroup> = group_cells(keys);
    let ghost grouping = groups@;
    let mut emitted: Vec<PlaneCell> = Vec::new();
    for g in 0..groups.len()
        invariant
            groups@ == grouping,
            cells::is_grouping(keys@, grouping),
            keys@.len() == support@.len(),
            support@.len() <= u32::MAX,
            emitted@.len() == supported_groups(grouping, minimum_cell_support, g as int).len(),
            forall|i: int|
                0 <= i < emitted@.len() ==> is_plane_cell(
                    support@,
                    supported_groups(grouping, minimum_cell_support, g as int)[i],
                    #[trigger] emitted@[i],
                ),
    {
        let group = &groups[g];
        proof {
            assert(cells::is_members(keys@, group.cell, group.members@));
            lemma_few_members(keys@, group.cell, group.members@);
        }
        if group.members.len() >= minimum_cell_support {
            let sum: u64 = sum_colors(support, &group.members);
            let color_srgb: [u8; 3] = neutral_color(sum, group.members.len() as u64);
            let first_frame: i32 = first_frame_of(support, &group.members);
            let mut members: Vec<usize> = Vec::new();
            for i in 0..group.members.len()
                invariant
                    members@ == group.members@.take(i as int),
            {
                members.push(group.members[i]);
                assert(members@ =~= group.members@.take(i + 1));
            }
            assert(members@ =~= group.members@);
            emitted.push(PlaneCell { cell: group.cell, members, color_srgb, first_frame });
        }
    }
    emitted
}

/// Where a supported cell of a plane stands: its centre, the mean confidence of
/// its members and its radius.
#[derive(Debug, Clone, Copy, PartialEq, Eq)]
pub struct CellGeometry {
    pub position: [u32; 3],
    pub confidence: u32,
    pub radius: u32,
}

/// The surface element of a supported cell. It faces as its plane does.
pub open spec fn cell_point(
    cell: PlaneCell,
    geometry: CellGeometry,
    normal: [u32; 3],
) -> FusedPoint {
    FusedPoint {
        position: geometry.position,
        normal,
        color_srgb: cell.color_srgb,
        confidence: geometry.confidence,
        radius: geometry.radius,
        first_observing_frame: cell.first_frame,
        contributors: cell.members@.len() as u32,
    }
}

/// The surface elements of supported cells.
pub open spec fn cell_points(
    cells: Seq<PlaneCell>,
    geometry: Seq<CellGeometry>,
    normal: [u32; 3],
) -> Seq<FusedPoint> {
    Seq::new(cells.len(), |i: int| cell_point(cells[i], geometry[i], normal))
}

/// The supported cells as surface elements, each with all its members counted.
pub fn plane_points(
    cells: &Vec<PlaneCell>,
    geometry: &Vec<CellGeometry>,
    normal: [u32; 3],
) -> (points: Vec<FusedPoint>)
    requires
        geometry@.len() == cells@.len(),
        forall|i: int| 0 <= i < cells@.len() ==> (#[trigger] cells@[i]).members@.len() <= u32::MAX,
    ensures
        points@ == cell_points(cells@, geometry@, normal),
{
    let ghost whole = cell_points(cells@, geometry@, normal);
    let mut points: Vec<FusedPoint> = Vec::new();
    for i in 0..cells.len()
        invariant
            geometry@.len() == cells@.len(),
            forall|k: int|
                0 <= k < cells@.len() ==> (#[trigger] cells@[k]).members@.len() <= u32::MAX,
            whole == cell_points(cells@, geometry@, normal),
            points@ == whole.take(i as int),
    {
        let cell = &cells[i];
        let place = geometry[i];
        assert(cells@[i as int].members@.len() <= u32::MAX);
        points.push(
            FusedPoint {
                position: place.position,
                normal,
                color_srgb: cell.color_srgb,
                confidence: place.confidence,
                radius: place.radius,
                first_observing_frame: cell.first_frame,
                contributors: cell.members.len() as u32,
            },
        );
        assert(points@ =~= whole.take(i + 1));
    }
    assert(points@ =~= whole);
    points
}

/// How many members each cell has.
spec fn cell_counts(cells: Seq<PlaneCell>) -> Seq<nat> {
    Seq::new(cells.len(), |i: int| cells[i].members@.len())
}

proof fn lemma_supported_counts(groups: Seq<CellGroup>, minimum: usize, count: int)
    requires
        0 <= count <= groups.len(),
    ensures
        order::total(cells::member_counts(supported_groups(groups, minimum, count)))
            <= order::total(cells::member_counts(groups).take(count)),
    decreases count,
{
    let counts = cells::member_counts(groups);
    if count > 0 {
        lemma_supported_counts(groups, minimum, count - 1);
        let rest = supported_groups(groups, minimum, count - 1);
        let next = groups[count - 1].members@.len();
        assert(counts.take(count) =~= counts.take(count - 1).push(next));
        order::lemma_total_push(counts.take(count - 1), next);
        assert(cells::member_counts(rest.push(groups[count - 1])) =~= cells::member_counts(
            rest,
        ).push(next));
        order::lemma_total_push(cells::member_counts(rest), next);
    } else {
        assert(cells::member_counts(supported_groups(groups, minimum, count)) =~= Seq::empty());
    }
}

/// Emitted cells have enough members, and share none.
proof fn lemma_emission_counts(
    support: Seq<FusedPoint>,
    keys: Seq<Cell>,
    minimum: usize,
    emitted: Seq<PlaneCell>,
)
    requires
        is_emission(support, keys, minimum, emitted),
        keys.len() <= u32::MAX,
    ensures
        order::total(cell_counts(emitted)) <= keys.len(),
        forall|i: int|
            0 <= i < emitted.len() ==> minimum <= (#[trigger] emitted[i]).members@.len()
                <= keys.len(),
{
    let groups = choose|groups: Seq<CellGroup>| #[trigger]
        cells::is_grouping(keys, groups) && {
            let kept = supported_groups(groups, minimum, groups.len() as int);
            &&& emitted.len() == kept.len()
            &&& forall|i: int|
                0 <= i < kept.len() ==> is_plane_cell(support, kept[i], #[trigger] emitted[i])
        };
    let kept = supported_groups(groups, minimum, groups.len() as int);
    lemma_supported_counts(groups, minimum, groups.len() as int);
    let counts = cells::member_counts(groups);
    assert(counts.take(groups.len() as int) =~= counts);
    cells::law_grouping_counts_every_item(keys, groups);
    assert(cell_counts(emitted) =~= cells::member_counts(kept)) by {
        assert forall|i: int| 0 <= i < emitted.len() implies cell_counts(emitted)[i]
            == cells::member_counts(kept)[i] by {
            assert(is_plane_cell(support, kept[i], emitted[i]));
        }
    }
    assert forall|i: int| 0 <= i < emitted.len() implies minimum <= (
    #[trigger] emitted[i]).members@.len() <= keys.len() by {
        law_only_observed_cells_are_emitted(support, keys, minimum, emitted, i);
        lemma_few_members(keys, emitted[i].cell, emitted[i].members@);
    }
}

proof fn lemma_cell_contributions(
    cells: Seq<PlaneCell>,
    geometry: Seq<CellGeometry>,
    normal: [u32; 3],
    bound: int,
)
    requires
        order::total(cell_counts(cells)) <= bound,
        forall|i: int| 0 <= i < cells.len() ==> (#[trigger] cells[i]).members@.len() <= u32::MAX,
    ensures
        world::contributions(cell_points(cells, geometry, normal)) <= bound,
{
    let points = cell_points(cells, geometry, normal);
    assert(Seq::new(points.len(), |i: int| points[i].contributors as nat) =~= cell_counts(cells))
        by {
        assert forall|i: int| 0 <= i < cells.len() implies points[i].contributors as nat
            == cell_counts(cells)[i] by {
            assert(cells[i].members@.len() <= u32::MAX);
        }
    }
}

/// Distinct ascending places below a bound are no more than the bound.
proof fn lemma_few_members(keys: Seq<Cell>, cell: Cell, members: Seq<usize>)
    requires
        cells::is_members(keys, cell, members),
    ensures
        members.len() <= keys.len(),
{
    if members.len() > 0 {
        lemma_ascending_bound(members, members.len() - 1);
    }
}

proof fn lemma_ascending_bound(members: Seq<usize>, i: int)
    requires
        0 <= i < members.len(),
        forall|a: int, b: int|
            0 <= a < b < members.len() ==> #[trigger] members[a] < #[trigger] members[b],
    ensures
        i <= members[i],
    decreases i,
{
    if i > 0 {
        lemma_ascending_bound(members, i - 1);
        assert(members[i - 1] < members[i]);
    }
}

/// Only observed cells are emitted: an emitted cell holds at least the asked
/// support, all of it from points that fall into the cell.
pub proof fn law_only_observed_cells_are_emitted(
    support: Seq<FusedPoint>,
    keys: Seq<Cell>,
    minimum: usize,
    emitted: Seq<PlaneCell>,
    i: int,
)
    requires
        is_emission(support, keys, minimum, emitted),
        0 <= i < emitted.len(),
    ensures
        emitted[i].members@.len() >= minimum,
        emitted[i].members@.len() > 0,
        cells::is_members(keys, emitted[i].cell, emitted[i].members@),
{
    let groups = choose|groups: Seq<CellGroup>| #[trigger]
        cells::is_grouping(keys, groups) && {
            let kept = supported_groups(groups, minimum, groups.len() as int);
            &&& emitted.len() == kept.len()
            &&& forall|i: int|
                0 <= i < kept.len() ==> is_plane_cell(support, kept[i], #[trigger] emitted[i])
        };
    let kept = supported_groups(groups, minimum, groups.len() as int);
    assert(is_plane_cell(support, kept[i], emitted[i]));
    lemma_supported(groups, minimum, groups.len() as int, i);
}

/// The supported cells of a plane are emitted in one way only.
pub proof fn law_emission_is_unique(
    support: Seq<FusedPoint>,
    keys: Seq<Cell>,
    minimum: usize,
    a: Seq<PlaneCell>,
    b: Seq<PlaneCell>,
)
    requires
        is_emission(support, keys, minimum, a),
        is_emission(support, keys, minimum, b),
    ensures
        a.len() == b.len(),
        forall|i: int|
            0 <= i < a.len() ==> (#[trigger] a[i]).cell == b[i].cell && a[i].members@
                == b[i].members@ && a[i].color_srgb@ == b[i].color_srgb@ && a[i].first_frame
                == b[i].first_frame,
{
    let left = choose|groups: Seq<CellGroup>| #[trigger]
        cells::is_grouping(keys, groups) && {
            let kept = supported_groups(groups, minimum, groups.len() as int);
            &&& a.len() == kept.len()
            &&& forall|i: int|
                0 <= i < kept.len() ==> is_plane_cell(support, kept[i], #[trigger] a[i])
        };
    let right = choose|groups: Seq<CellGroup>| #[trigger]
        cells::is_grouping(keys, groups) && {
            let kept = supported_groups(groups, minimum, groups.len() as int);
            &&& b.len() == kept.len()
            &&& forall|i: int|
                0 <= i < kept.len() ==> is_plane_cell(support, kept[i], #[trigger] b[i])
        };
    cells::law_grouping_is_unique(keys, left, right);
    lemma_supported_unique(left, right, minimum, left.len() as int);
    let kept = supported_groups(left, minimum, left.len() as int);
    let held = supported_groups(right, minimum, right.len() as int);
    assert forall|i: int| 0 <= i < a.len() implies (#[trigger] a[i]).cell == b[i].cell
        && a[i].members@ == b[i].members@ && a[i].color_srgb@ == b[i].color_srgb@
        && a[i].first_frame == b[i].first_frame by {
        assert(is_plane_cell(support, kept[i], a[i]));
        assert(is_plane_cell(support, held[i], b[i]));
        assert(kept[i].cell == held[i].cell);
    }
}

proof fn lemma_supported_unique(
    a: Seq<CellGroup>,
    b: Seq<CellGroup>,
    minimum: usize,
    count: int,
)
    requires
        0 <= count <= a.len(),
        a.len() == b.len(),
        forall|i: int|
            0 <= i < a.len() ==> (#[trigger] a[i]).cell == b[i].cell && a[i].members@
                == b[i].members@,
    ensures
        ({
            let kept = supported_groups(a, minimum, count);
            let held = supported_groups(b, minimum, count);
            &&& kept.len() == held.len()
            &&& forall|i: int|
                0 <= i < kept.len() ==> (#[trigger] kept[i]).cell == held[i].cell
                    && kept[i].members@ == held[i].members@
        }),
    decreases count,
{
    if count > 0 {
        lemma_supported_unique(a, b, minimum, count - 1);
        assert(a[count - 1].members@ == b[count - 1].members@);
    }
}

proof fn lemma_supported(groups: Seq<CellGroup>, minimum: usize, count: int, i: int)
    requires
        0 <= count <= groups.len(),
        0 <= i < supported_groups(groups, minimum, count).len(),
    ensures
        supported_groups(groups, minimum, count)[i].members@.len() >= minimum,
        exists|g: int|
            0 <= g < count && #[trigger] groups[g] == supported_groups(groups, minimum, count)[i],
    decreases count,
{
    if count > 0 {
        let rest = supported_groups(groups, minimum, count - 1);
        if i < rest.len() {
            lemma_supported(groups, minimum, count - 1, i);
            let g = choose|g: int| 0 <= g < count - 1 && #[trigger] groups[g] == rest[i];
            assert(groups[g] == supported_groups(groups, minimum, count)[i]);
        } else {
            assert(groups[count - 1] == supported_groups(groups, minimum, count)[i]);
        }
    }
}

/// A vertex of the surface layer.
#[derive(Debug, Clone, Copy, PartialEq, Eq)]
pub struct ArchitectureMeshVertex {
    pub position: [u32; 3],
    pub normal: [u32; 3],
    pub color_srgb: [u8; 3],
}

/// A surface layer of separate quads.
#[derive(Debug, Clone, PartialEq, Eq)]
pub struct ArchitectureMesh {
    pub vertices: Vec<ArchitectureMeshVertex>,
    pub indices: Vec<u32>,
}

/// The corners of a cell's quad, in order, and its unit normal.
#[derive(Debug, Clone, Copy, PartialEq, Eq)]
pub struct QuadGeometry {
    pub corners: [[u32; 3]; 4],
    pub normal: [u32; 3],
}

/// A support point becomes a quad: it is usable, has a positive radius and a
/// quad could be formed.
pub open spec fn has_quad(point: FusedPoint, quad: Option<QuadGeometry>) -> bool {
    usable(point) && ieee::f32_positive(point.radius) && quad is Some
}

/// The quads of the first `count` points.
pub open spec fn quads(
    points: Seq<FusedPoint>,
    geometry: Seq<Option<QuadGeometry>>,
    count: int,
) -> Seq<int>
    decreases count,
{
    if count <= 0 {
        Seq::empty()
    } else if has_quad(points[count - 1], geometry[count - 1]) {
        quads(points, geometry, count - 1).push(count - 1)
    } else {
        quads(points, geometry, count - 1)
    }
}

/// Vertex `i` of the layer: corner `i % 4` of quad `i / 4`.
pub open spec fn mesh_vertex(
    points: Seq<FusedPoint>,
    geometry: Seq<Option<QuadGeometry>>,
    list: Seq<int>,
    i: int,
) -> ArchitectureMeshVertex {
    let p = list[i / 4];
    let quad = geometry[p].unwrap();
    ArchitectureMeshVertex {
        position: quad.corners@[i % 4],
        normal: quad.normal,
        color_srgb: points[p].color_srgb,
    }
}

/// Index `i` of the layer: two triangles over the corners of quad `i / 6`.
pub open spec fn mesh_index(i: int) -> int {
    let base = 4 * (i / 6);
    let k = i % 6;
    if k == 0 || k == 3 {
        base
    } else if k == 1 {
        base + 1
    } else if k == 2 || k == 4 {
        base + 2
    } else {
        base + 3
    }
}

/// The quads that still get numbers: a vertex number has 32 bits.
pub open spec fn numbered(list: Seq<int>) -> Seq<int> {
    if list.len() > 0x4000_0000 {
        list.take(0x4000_0000)
    } else {
        list
    }
}

/// Turns support cells into quads. Tiles stay separate in place of being
/// joined, so that no gap is ever closed.
pub fn architecture_mesh_from_support_points(
    points: &Vec<FusedPoint>,
    geometry: &Vec<Option<QuadGeometry>>,
) -> (mesh: ArchitectureMesh)
    requires
        geometry@.len() == points@.len(),
    ensures
        ({
            let list = numbered(quads(points@, geometry@, points@.len() as int));
            &&& mesh.vertices@ == Seq::new(
                4 * list.len(),
                |i: int| mesh_vertex(points@, geometry@, list, i),
            )
            &&& mesh.indices@ == Seq::new(6 * list.len(), |i: int| mesh_index(i) as u32)
        }),
{
    let mut vertices: Vec<ArchitectureMeshVertex> = Vec::new();
    let mut indices: Vec<u32> = Vec::new();
    for i in 0..points.len()
        invariant
            geometry@.len() == points@.len(),
            ({
                let list = numbered(quads(points@, geometry@, i as int));
                &&& vertices@ == Seq::new(
                    4 * list.len(),
                    |i: int| mesh_vertex(points@, geometry@, list, i),
                )
                &&& indices@ == Seq::new(6 * list.len(), |i: int| mesh_index(i) as u32)
            }),
    {
        let ghost all = quads(points@, geometry@, i as int);
        let ghost list = numbered(all);
        let point = points[i];
        if valid_point(&point) && ieee::f32_is_positive(point.radius) {
            if let Some(quad) = geometry[i] {
                if vertices.len() <= 0xffff_fffc {
                    let base: u32 = vertices.len() as u32;
                    let ghost next = all.push(i as int);
                    assert(numbered(next) =~= next);
                    put_quad(&quad, point.color_srgb, &mut vertices);
                    indices.push(base);
                    indices.push(base + 1);
                    indices.push(base + 2);
                    indices.push(base);
                    indices.push(base + 2);
                    indices.push(base + 3);
                    assert(vertices@ =~= Seq::new(
                        4 * next.len(),
                        |k: int| mesh_vertex(points@, geometry@, next, k),
                    ));
                    assert(indices@ =~= Seq::new(6 * next.len(), |k: int| mesh_index(k) as u32));
                } else {
                    assert(numbered(all.push(i as int)) =~= list);
                }
            }
        }
    }
    ArchitectureMesh { vertices, indices }
}

fn put_quad(quad: &QuadGeometry, color_srgb: [u8; 3], vertices: &mut Vec<ArchitectureMeshVertex>)
    ensures
        final(vertices)@ == old(vertices)@ + Seq::new(
            4,
            |i: int|
                ArchitectureMeshVertex {
                    position: quad.corners@[i],
                    normal: quad.normal,
                    color_srgb,
                },
        ),
{
    let ghost start = vertices@;
    for i in 0..4usize
        invariant
            start == old(vertices)@,
            vertices@ == start + Seq::new(
                i as nat,
                |i: int|
                    ArchitectureMeshVertex {
                        position: quad.corners@[i],
                        normal: quad.normal,
                        color_srgb,
                    },
            ),
    {
        vertices.push(
            ArchitectureMeshVertex { position: quad.corners[i], normal: quad.normal, color_srgb },
        );
        assert(vertices@ =~= start + Seq::new(
            (i + 1) as nat,
            |i: int|
                ArchitectureMeshVertex {
                    position: quad.corners@[i],
                    normal: quad.normal,
                    color_srgb,
                },
        ));
    }
}

/// No triangle joins two cells: its three vertices belong to one quad.
pub proof fn law_triangles_stay_in_their_cell(triangle: int)
    requires
        0 <= triangle,
    ensures
        mesh_index(3 * triangle) / 4 == triangle / 2,
        mesh_index(3 * triangle + 1) / 4 == triangle / 2,
        mesh_index(3 * triangle + 2) / 4 == triangle / 2,
{
    assert((3 * triangle) / 6 == triangle / 2);
    assert((3 * triangle + 1) / 6 == triangle / 2);
    assert((3 * triangle + 2) / 6 == triangle / 2);
}

/// The usable places are exactly those, in order, of the points whose six position and
/// normal components are all below infinity in magnitude.
pub proof fn law_usable_points_are_finite(points: Seq<FusedPoint>, count: int)
    requires
        0 <= count <= points.len() <= usize::MAX,
    ensures
        usable_places(points, count) == order::counted(count).filter(
            |i: int|
                forall|axis: int|
                    0 <= axis < 3 ==> ieee::f32_magnitude(#[trigger] points[i].position@[axis])
                        < 0x7f80_0000 && ieee::f32_magnitude(points[i].normal@[axis])
                        < 0x7f80_0000,
        ).map_values(|i: int| i as usize),
    decreases count,
{
    reveal(Seq::filter);
    if count > 0 {
        law_usable_points_are_finite(points, count - 1);
        order::lemma_counted(count);
        let point = points[count - 1];
        let finite = forall|axis: int|
            0 <= axis < 3 ==> ieee::f32_magnitude(#[trigger] point.position@[axis]) < 0x7f80_0000
                && ieee::f32_magnitude(point.normal@[axis]) < 0x7f80_0000;
        assert(usable(point) == finite) by {
            if usable(point) {
                assert forall|axis: int| 0 <= axis < 3 implies ieee::f32_magnitude(
                    #[trigger] point.position@[axis],
                ) < 0x7f80_0000 && ieee::f32_magnitude(point.normal@[axis]) < 0x7f80_0000 by {
                    assert(ieee::f32_finite(point.position@[axis]));
                    assert(ieee::f32_finite(point.normal@[axis]));
                }
            }
            if finite {
                assert forall|axis: int| 0 <= axis < 3 implies ieee::f32_finite(
                    #[trigger] point.normal@[axis],
                ) by {
                    let known = point.position@[axis];
                }
            }
        }
        let kept = order::counted(count).filter(
            |i: int|
                forall|axis: int|
                    0 <= axis < 3 ==> ieee::f32_magnitude(#[trigger] points[i].position@[axis])
                        < 0x7f80_0000 && ieee::f32_magnitude(points[i].normal@[axis])
                        < 0x7f80_0000,
        );
        assert(usable_places(points, count) =~= kept.map_values(|i: int| i as usize));
    } else {
        assert(order::counted(count) =~= Seq::empty());
        assert(usable_places(points, count) =~= order::counted(count).filter(
            |i: int|
                forall|axis: int|
                    0 <= axis < 3 ==> ieee::f32_magnitude(#[trigger] points[i].position@[axis])
                        < 0x7f80_0000 && ieee::f32_magnitude(points[i].normal@[axis])
                        < 0x7f80_0000,
        ).map_values(|i: int| i as usize));
    }
}

/// A sample takes one item for every `step`, the last step perhaps a shorter one, and no
/// smaller step keeps within the maximum.
pub open spec fn equal_steps(
    items: Seq<usize>,
    maximum: int,
    sample: Seq<usize>,
    step: int,
) -> bool {
    &&& step >= 1
    &&& (step - 1) * maximum < items.len() <= step * maximum
    &&& (sample.len() - 1) * step < items.len() <= sample.len() * step
    &&& forall|i: int|
        0 <= i < sample.len() ==> #[trigger] sample[i] == items[i * step] && i * step < items.len()
}

/// A sample holds at most the maximum, begins with the first item and goes on in equal
/// steps of the fewest items that keep it within the maximum, to the end.
pub proof fn law_sample_goes_in_equal_steps(items: Seq<usize>, maximum: int, sample: Seq<usize>)
    requires
        maximum > 0,
        items.len() > 0,
        is_sample(items, maximum, sample),
    ensures
        0 < sample.len() <= maximum,
        exists|step: int| #[trigger] equal_steps(items, maximum, sample, step),
{
    let count = items.len() as int;
    if count <= maximum {
        assert(equal_steps(items, maximum, sample, 1));
    } else {
        let step = sample_stride(count, maximum);
        assert(step >= 1 && step * maximum >= count && (step - 1) * maximum < count)
            by (nonlinear_arith)
            requires
                step == (count + maximum - 1) / maximum,
                maximum > 0,
                count > maximum,
        ;
        let length = sample.len() as int;
        assert((length - 1) * step < count <= length * step && length > 0) by (nonlinear_arith)
            requires
                length == (count + step - 1) / step,
                step >= 1,
                count > 0,
        ;
        assert forall|i: int| 0 <= i < sample.len() implies #[trigger] sample[i] == items[i * step]
            && i * step < items.len() by {
            let item = sample[i];
        }
        assert(equal_steps(items, maximum, sample, step));
    }
}

/// The points of a plane are exactly those, in order, whose distance is a number of
/// magnitude at most the tolerance; the others are the rest.
pub proof fn law_plane_takes_what_is_near(
    remaining: Seq<usize>,
    distances: Seq<u32>,
    tolerance: u32,
    inside: bool,
    count: int,
)
    requires
        distances.len() == remaining.len(),
        0 <= count <= remaining.len(),
    ensures
        plane_part(remaining, distances, tolerance, inside, count) == order::counted(count).filter(
            |i: int|
                inside == (!ieee::f32_nan(distances[i]) && !ieee::f32_nan(tolerance)
                    && ieee::f32_magnitude(distances[i]) <= ieee::f32_rank(tolerance)),
        ).map_values(|i: int| remaining[i]),
    decreases count,
{
    reveal(Seq::filter);
    if count > 0 {
        law_plane_takes_what_is_near(remaining, distances, tolerance, inside, count - 1);
        order::lemma_counted(count);
    } else {
        assert(order::counted(count) =~= Seq::empty());
    }
    assert(plane_part(remaining, distances, tolerance, inside, count) =~= order::counted(
        count,
    ).filter(
        |i: int|
            inside == (!ieee::f32_nan(distances[i]) && !ieee::f32_nan(tolerance)
                && ieee::f32_magnitude(distances[i]) <= ieee::f32_rank(tolerance)),
    ).map_values(|i: int| remaining[i]));
}

/// A fitted plane is supported by exactly the points that lie within the tolerance of
/// it on either side and whose normal is aligned with its own, facing either way, by
/// at least the minimum.
pub proof fn law_support_is_near_and_aligned(
    distances: Seq<u32>,
    tolerance: u32,
    cosines: Seq<u32>,
    minimum: u32,
    inside: bool,
    count: int,
)
    requires
        cosines.len() == distances.len(),
        0 <= count <= distances.len() <= usize::MAX,
        !ieee::f32_nan(tolerance),
        !ieee::f32_nan(minimum),
    ensures
        support_places(distances, tolerance, cosines, minimum, inside, count) == order::counted(
            count,
        ).filter(
            |i: int|
                inside == (ieee::f32_magnitude(distances[i]) <= 0x7f80_0000 && ieee::f32_magnitude(
                    distances[i],
                ) <= ieee::f32_rank(tolerance) && ieee::f32_magnitude(cosines[i]) <= 0x7f80_0000
                    && ieee::f32_magnitude(cosines[i]) >= ieee::f32_rank(minimum)),
        ).map_values(|i: int| i as usize),
    decreases count,
{
    reveal(Seq::filter);
    if count > 0 {
        law_support_is_near_and_aligned(
            distances,
            tolerance,
            cosines,
            minimum,
            inside,
            count - 1,
        );
        order::lemma_counted(count);
    } else {
        assert(order::counted(count) =~= Seq::empty());
    }
    assert(support_places(distances, tolerance, cosines, minimum, inside, count)
        =~= order::counted(count).filter(
        |i: int|
            inside == (ieee::f32_magnitude(distances[i]) <= 0x7f80_0000 && ieee::f32_magnitude(
                distances[i],
            ) <= ieee::f32_rank(tolerance) && ieee::f32_magnitude(cosines[i]) <= 0x7f80_0000
                && ieee::f32_magnitude(cosines[i]) >= ieee::f32_rank(minimum)),
    ).map_values(|i: int| i as usize));
}

/// A plane is taken out of a search exactly where it has at least the minimum support
/// and at least one of its cells has a shape.
pub proof fn law_taken_planes_are_supported(
    remaining: Seq<usize>,
    round: PlaneRound,
    settings: ArchitectureSettings,
)
    requires
        remaining.len() <= usize::MAX,
        round matches PlaneRound::Fitted { distances, tolerance, cosines, .. } ==> distances@.len()
            == remaining.len() && cosines@.len() == remaining.len() && !ieee::f32_nan(tolerance),
        !ieee::f32_nan(settings.minimum_normal_alignment),
    ensures
        takes_plane(remaining, round, settings) <==> (round matches PlaneRound::Fitted {
            distances,
            tolerance,
            cosines,
            geometry,
            ..
        } && geometry@.len() >= 1 && order::counted(remaining.len() as int).filter(
            |i: int|
                true == (ieee::f32_magnitude(distances@[i]) <= 0x7f80_0000 && ieee::f32_magnitude(
                    distances@[i],
                ) <= ieee::f32_rank(tolerance) && ieee::f32_magnitude(cosines@[i]) <= 0x7f80_0000
                    && ieee::f32_magnitude(cosines@[i]) >= ieee::f32_rank(
                    settings.minimum_normal_alignment,
                )),
        ).len() >= settings.minimum_plane_support),
{
    if let PlaneRound::Fitted { distances, tolerance, cosines, geometry, .. } = round {
        law_support_is_near_and_aligned(
            distances@,
            tolerance,
            cosines@,
            settings.minimum_normal_alignment,
            true,
            remaining.len() as int,
        );
    }
}

/// The winning hypothesis has the most support of all, and nothing before it has as
/// much; without support there is none.
pub proof fn law_best_trial_has_the_most_support(supports: Seq<usize>, best: Option<int>)
    requires
        is_best_trial(supports, best),
    ensures
        best is None <==> !(exists|i: int| 0 <= i < supports.len() && #[trigger] supports[i] >= 1),
        best matches Some(k) ==> {
            &&& 0 <= k < supports.len()
            &&& forall|i: int|
                0 <= i < supports.len() && #[trigger] supports[i] >= supports[k] ==> i >= k
                    && supports[i] == supports[k]
        },
{
    if let Some(k) = best {
        assert(supports[k] >= 1);
    }
}

/// A hypothesis is made of three different points of those that remain, drawn with
/// three seeds of its own.
pub proof fn law_hypothesis_is_three_points(remaining: Seq<usize>, trial: int)
    requires
        0 < remaining.len() <= usize::MAX,
        0 <= trial <= TRIAL_LIMIT,
    ensures
        ({
            let bound = remaining.len() as usize;
            let first = remaining[drawn((3 * trial + 1) as u64, bound) as int];
            let second = remaining[drawn((3 * trial + 2) as u64, bound) as int];
            let third = remaining[drawn((3 * trial + 3) as u64, bound) as int];
            &&& hypothesis_of(remaining, trial) is Some <==> first != second && second != third
                && first != third
            &&& hypothesis_of(remaining, trial) matches Some(points) ==> points.0 == first
                && points.1 == second && points.2 == third
        }),
        hypothesis_of(remaining, trial) matches Some(points) ==> remaining.contains(points.0)
            && remaining.contains(points.1) && remaining.contains(points.2),
{
    let bound = remaining.len() as usize;
    assert(0 <= drawn((trial * 3 + 1) as u64, bound) < bound);
    assert(0 <= drawn((trial * 3 + 2) as u64, bound) < bound);
    assert(0 <= drawn((trial * 3 + 3) as u64, bound) < bound);
}

/// A cell was first seen in the earliest frame that any of its members knows, and in
/// none that is known where no member knows one.
pub proof fn law_cell_is_first_seen_with_its_earliest_member(
    support: Seq<FusedPoint>,
    members: Seq<usize>,
    count: int,
)
    requires
        0 < count <= members.len(),
    ensures
        ({
            let frame = cell_frame(support, members, count);
            let seen = |i: int| support[members[i] as int].first_observing_frame;
            &&& frame == -1 <==> (forall|i: int| 0 <= i < count ==> #[trigger] seen(i) == -1)
            &&& frame != -1 ==> (exists|i: int| 0 <= i < count && #[trigger] seen(i) == frame)
            &&& frame != -1 ==> forall|i: int|
                0 <= i < count && #[trigger] seen(i) != -1 ==> frame <= seen(i)
        }),
    decreases count,
{
    let seen = |i: int| support[members[i] as int].first_observing_frame;
    let frame = cell_frame(support, members, count);
    if count > 1 {
        law_cell_is_first_seen_with_its_earliest_member(support, members, count - 1);
        let before = cell_frame(support, members, count - 1);
        assert(seen(count - 1) == support[members[count - 1] as int].first_observing_frame);
        if before != -1 {
            let k = choose|i: int| 0 <= i < count - 1 && #[trigger] seen(i) == before;
            assert(seen(k) == before);
        }
        if frame == -1 {
            assert forall|i: int| 0 <= i < count implies #[trigger] seen(i) == -1 by {}
        }
    } else {
        assert(seen(0) == frame);
    }
}

/// The light of a cell is the sum over its members and their three channels.
pub proof fn law_cell_light_is_summed(
    support: Seq<FusedPoint>,
    members: Seq<usize>,
    count: int,
)
    requires
        0 <= count <= members.len(),
    ensures
        color_sum(support, members, count) == order::total(
            Seq::new(
                count as nat,
                |i: int|
                    {
                        let color = support[members[i] as int].color_srgb@;
                        (color[0] + color[1] + color[2]) as nat
                    },
            ),
        ),
    decreases count,
{
    let light = |n: nat|
        Seq::new(
            n,
            |i: int|
                {
                    let color = support[members[i] as int].color_srgb@;
                    (color[0] + color[1] + color[2]) as nat
                },
        );
    if count > 0 {
        law_cell_light_is_summed(support, members, count - 1);
        assert(light(count as nat).drop_last() =~= light((count - 1) as nat));
    }
    assert(light(count as nat) =~= Seq::new(
        count as nat,
        |i: int|
            {
                let color = support[members[i] as int].color_srgb@;
                (color[0] + color[1] + color[2]) as nat
            },
    ));
}

/// A cell is coloured by the mean light of its members, kept between 70 and 225: green
/// has the mean, red 16 less and blue 24 less. It lists its members and takes their
/// first frame.
pub proof fn law_cell_has_the_mean_light(
    support: Seq<FusedPoint>,
    group: CellGroup,
    cell: PlaneCell,
)
    requires
        group.members@.len() > 0,
        is_plane_cell(support, group, cell),
    ensures
        ({
            let count = group.members@.len() as int;
            let sum = color_sum(support, group.members@, count);
            let green = cell.color_srgb@[1] as int;
            &&& 70 <= green <= 225
            &&& green * 3 * count <= sum || green == 70
            &&& sum < (green + 1) * 3 * count || green == 225
            &&& cell.color_srgb@[0] == green - 16
            &&& cell.color_srgb@[2] == green - 24
        }),
        cell.cell == group.cell,
        cell.members@ == group.members@,
        cell.first_frame == cell_frame(support, group.members@, group.members@.len() as int),
{
    let count = group.members@.len() as int;
    let sum = color_sum(support, group.members@, count) as int;
    let mean = sum / (3 * count);
    let green = cell.color_srgb@[1] as int;
    assert(mean * 3 * count <= sum < (mean + 1) * 3 * count) by (nonlinear_arith)
        requires
            mean == sum / (3 * count),
            count > 0,
    ;
    if green != 70 && green != 225 {
        assert(green == mean);
    }
    assert(mean < 70 ==> (mean + 1) * 3 * count <= (70 + 1) * 3 * count) by (nonlinear_arith)
        requires
            count > 0,
    ;
    assert(mean > 225 ==> 225 * 3 * count <= mean * 3 * count) by (nonlinear_arith)
        requires
            count > 0,
    ;
}

/// The cells that are emitted are exactly those, in order, with enough members.
pub proof fn law_emitted_cells_have_enough_members(
    groups: Seq<CellGroup>,
    minimum: usize,
    count: int,
)
    requires
        0 <= count <= groups.len(),
    ensures
        supported_groups(groups, minimum, count) == groups.take(count).filter(
            |group: CellGroup| group.members@.len() >= minimum,
        ),
    decreases count,
{
    reveal(Seq::filter);
    if count > 0 {
        law_emitted_cells_have_enough_members(groups, minimum, count - 1);
        assert(groups.take(count).drop_last() =~= groups.take(count - 1));
    }
}

/// Every point of a plane stands where the shape of its cell says, faces along the
/// plane, and has the colour, the first frame and the number of members of its cell.
pub proof fn law_plane_points_are_their_cells(
    cells: Seq<PlaneCell>,
    geometry: Seq<CellGeometry>,
    normal: [u32; 3],
    i: int,
)
    requires
        0 <= i < cells.len(),
        geometry.len() == cells.len(),
        cells[i].members@.len() <= u32::MAX,
    ensures
        cell_points(cells, geometry, normal).len() == cells.len(),
        cell_points(cells, geometry, normal)[i].position == geometry[i].position,
        cell_points(cells, geometry, normal)[i].normal == normal,
        cell_points(cells, geometry, normal)[i].color_srgb == cells[i].color_srgb,
        cell_points(cells, geometry, normal)[i].confidence == geometry[i].confidence,
        cell_points(cells, geometry, normal)[i].radius == geometry[i].radius,
        cell_points(cells, geometry, normal)[i].first_observing_frame == cells[i].first_frame,
        cell_points(cells, geometry, normal)[i].contributors == cells[i].members@.len(),
{
}

/// The points that become quads are exactly those, in order, that are usable, have a
/// radius above zero and a shape.
pub proof fn law_quads_have_extent(
    points: Seq<FusedPoint>,
    geometry: Seq<Option<QuadGeometry>>,
    count: int,
)
    requires
        geometry.len() == points.len(),
        0 <= count <= points.len(),
    ensures
        quads(points, geometry, count) == order::counted(count).filter(
            |i: int|
                usable(points[i]) && 0 < ieee::f32_rank(points[i].radius) < 0x7f80_0000
                    && geometry[i] is Some,
        ),
    decreases count,
{
    reveal(Seq::filter);
    if count > 0 {
        law_quads_have_extent(points, geometry, count - 1);
        order::lemma_counted(count);
    } else {
        assert(order::counted(count) =~= Seq::empty());
    }
}

/// Quad `q` of a mesh has the four vertices from `4 * q` on: the corners of its point's
/// shape in order, with the normal of the shape and the colour of the point. Its two
/// triangles are made of its corners 0, 1, 2 and 0, 2, 3.
pub proof fn law_mesh_spells_out_its_quads(
    points: Seq<FusedPoint>,
    geometry: Seq<Option<QuadGeometry>>,
    list: Seq<int>,
    q: int,
    corner: int,
)
    requires
        0 <= q < list.len(),
        0 <= corner < 4,
        geometry[list[q]] is Some,
    ensures
        mesh_vertex(points, geometry, list, 4 * q + corner).position
            == geometry[list[q]]->0.corners@[corner],
        mesh_vertex(points, geometry, list, 4 * q + corner).normal == geometry[list[q]]->0.normal,
        mesh_vertex(points, geometry, list, 4 * q + corner).color_srgb
            == points[list[q]].color_srgb,
        mesh_index(6 * q) == 4 * q,
        mesh_index(6 * q + 1) == 4 * q + 1,
        mesh_index(6 * q + 2) == 4 * q + 2,
        mesh_index(6 * q + 3) == 4 * q,
        mesh_index(6 * q + 4) == 4 * q + 2,
        mesh_index(6 * q + 5) == 4 * q + 3,
{
    assert((4 * q + corner) / 4 == q && (4 * q + corner) % 4 == corner);
}

/// An extraction is tried exactly where its settings are sound, something can be used
/// and the diagonal of the scene is a number above two to the power of minus 23.
pub proof fn law_extraction_needs_extent(
    points: Seq<FusedPoint>,
    diagonal: u32,
    settings: ArchitectureSettings,
)
    requires
        points.len() <= usize::MAX,
    ensures
        extractable(points, diagonal, settings) <==> {
            &&& settings_valid(settings)
            &&& exists|i: int| 0 <= i < points.len() && usable(#[trigger] points[i])
            &&& 0x3400_0000 < ieee::f32_rank(diagonal) < 0x7f80_0000
        },
        settings_valid(settings) <==> {
            &&& settings.maximum_source_points >= 1
            &&& settings.maximum_planes >= 1
            &&& settings.minimum_plane_support >= 3
            &&& settings.ransac_trials_per_plane >= 1
            &&& settings.minimum_cell_support >= 1
            &&& 0 < ieee::f32_rank(settings.plane_distance_fraction) < 0x7f80_0000
            &&& 0 < ieee::f32_rank(settings.cell_size_fraction) < 0x7f80_0000
            &&& 0 <= ieee::f32_rank(settings.minimum_normal_alignment) <= 0x3f80_0000
        },
{
    lemma_some_usable(points, points.len() as int);
}

proof fn lemma_some_usable(points: Seq<FusedPoint>, count: int)
    requires
        0 <= count <= points.len(),
    ensures
        usable_places(points, count).len() > 0 <==> exists|i: int|
            0 <= i < count && usable(#[trigger] points[i]),
    decreases count,
{
    if count > 0 {
        lemma_some_usable(points, count - 1);
        if usable(points[count - 1]) {
            assert(0 <= count - 1 < count && usable(points[count - 1]));
        }
    }
}

} // verus!
