//! Relative-scale alignment of overlapping measured windows.
//!
//! Matching source pixels of the same video frame are direct correspondence
//! evidence. This module pairs them, trims outliers, judges seams, chains the
//! windows and merges the aligned points into voxels. Failed or degenerate
//! estimates are errors: no alignment is invented.

use std::collections::HashMap;

use vstd::prelude::*;

use crate::cells;
use crate::cells::{group_cells, Cell, CellGroup};
use crate::geometry::{MeasuredFrameChunk, MeasuredPoint};
use crate::ieee;
use crate::order;
use crate::pose_graph;
use crate::pose_graph::{count_loops, PoseGraphEdge, PoseGraphError, RelativePoseGraph};
use crate::ratio;
use crate::world;
use crate::world::{AlignmentReport, FusedPoint, FusedSceneChunk, SimilarityTransform};

verus! {

broadcast use vstd::std_specs::hash::group_hash_axioms;

/// Quality gates of one sequential seam, stricter than the three points that
/// determine a similarity.
#[derive(Debug, Clone, Copy, PartialEq, Eq)]
pub struct StitchSettings {
    pub minimum_correspondences: usize,
    pub minimum_inlier_ratio: u32,
    pub minimum_scale: u32,
    pub maximum_scale: u32,
}

impl Default for StitchSettings {
    fn default() -> (settings: Self)
        ensures
            settings == (StitchSettings {
                minimum_correspondences: 50,
                minimum_inlier_ratio: 0x3f19_999a,
                minimum_scale: 0x3dcc_cccd,
                maximum_scale: 0x4120_0000,
            }),
    {
        StitchSettings {
            minimum_correspondences: 50,
            minimum_inlier_ratio: 0x3f19_999a,
            minimum_scale: 0x3dcc_cccd,
            maximum_scale: 0x4120_0000,
        }
    }
}

/// Why windows cannot be stitched.
#[derive(Debug, Clone, Copy, PartialEq, Eq, Structural)]
pub enum StitchError {
    InsufficientCorrespondences,
    DegenerateGeometry,
    QualityGate,
    PoseGraph(PoseGraphError),
}

/// The least number of pixel pairs that determine a similarity.
pub const MINIMUM_MATCHES: usize = 3;

/// Trimming rounds of one alignment.
pub const TRIM_ROUNDS: usize = 3;

/// The places of a pixel seen in both windows.
#[derive(Debug, Clone, Copy, PartialEq, Eq, Structural)]
pub struct PixelMatch {
    pub source_view: usize,
    pub source_point: usize,
    pub target_view: usize,
    pub target_point: usize,
}

/// A pixel as one number.
pub open spec fn pixel_code(pixel: [u32; 2]) -> int {
    pixel@[0] * 0x1_0000_0000 + pixel@[1]
}

/// The last of the first `count` points measured at a pixel.
pub open spec fn latest_point(points: Seq<MeasuredPoint>, code: int, count: int) -> Option<int>
    decreases count,
{
    if count <= 0 {
        None
    } else if pixel_code(points[count - 1].source_pixel) == code {
        Some(count - 1)
    } else {
        latest_point(points, code, count - 1)
    }
}

/// The last point that the first `count` views of a frame measured at a pixel.
pub open spec fn latest(
    views: Seq<MeasuredFrameChunk>,
    frame_index: usize,
    code: int,
    count: int,
) -> Option<(int, int)>
    decreases count,
{
    if count <= 0 {
        None
    } else {
        let view = views[count - 1];
        let rest = latest(views, frame_index, code, count - 1);
        if view.frame_index != frame_index {
            rest
        } else {
            match latest_point(view.points@, code, view.points@.len() as int) {
                Some(p) => Some((count - 1, p)),
                None => rest,
            }
        }
    }
}

/// The matches of the first `count` points of a source view.
pub open spec fn view_matches(
    source: Seq<MeasuredFrameChunk>,
    target: Seq<MeasuredFrameChunk>,
    view: int,
    count: int,
) -> Seq<PixelMatch>
    decreases count,
{
    if count <= 0 {
        Seq::empty()
    } else {
        let point = source[view].points@[count - 1];
        let rest = view_matches(source, target, view, count - 1);
        match latest(
            target,
            source[view].frame_index,
            pixel_code(point.source_pixel),
            target.len() as int,
        ) {
            None => rest,
            Some((v, p)) => rest.push(
                PixelMatch {
                    source_view: view as usize,
                    source_point: (count - 1) as usize,
                    target_view: v as usize,
                    target_point: p as usize,
                },
            ),
        }
    }
}

/// The matches of the first `count` source views: every source point whose
/// frame and pixel the target has too, with the target's last such point.
pub open spec fn all_matches(
    source: Seq<MeasuredFrameChunk>,
    target: Seq<MeasuredFrameChunk>,
    count: int,
) -> Seq<PixelMatch>
    decreases count,
{
    if count <= 0 {
        Seq::empty()
    } else {
        all_matches(source, target, count - 1) + view_matches(
            source,
            target,
            count - 1,
            source[count - 1].points@.len() as int,
        )
    }
}

fn code_of(pixel: [u32; 2]) -> (code: u64)
    ensures
        code == pixel_code(pixel),
{
    pixel[0] as u64 * 0x1_0000_0000 + pixel[1] as u64
}

/// A table of the pixels of one frame says what [`latest`] says.
spec fn table_says(
    table: Map<u64, (usize, usize)>,
    code: u64,
    found: Option<(int, int)>,
) -> bool {
    match found {
        None => !table.contains_key(code),
        Some((v, p)) => table.contains_key(code) && table[code].0 == v && table[code].1 == p,
    }
}

/// What [`latest`] says once the first `points` points of view `v`, which is of
/// the frame, are counted in.
spec fn partly(
    views: Seq<MeasuredFrameChunk>,
    frame_index: usize,
    code: int,
    v: int,
    points: int,
) -> Option<(int, int)> {
    match latest_point(views[v].points@, code, points) {
        Some(q) => Some((v, q)),
        None => latest(views, frame_index, code, v),
    }
}

/// A table agrees with [`partly`] on a pixel.
spec fn says(
    table: Map<u64, (usize, usize)>,
    views: Seq<MeasuredFrameChunk>,
    frame_index: usize,
    code: u64,
    v: int,
    points: int,
) -> bool {
    table_says(table, code, partly(views, frame_index, code as int, v, points))
}

/// A table agrees with [`partly`] on every pixel.
spec fn is_table(
    table: Map<u64, (usize, usize)>,
    views: Seq<MeasuredFrameChunk>,
    frame_index: usize,
    v: int,
    points: int,
) -> bool {
    forall|code: u64| #[trigger] says(table, views, frame_index, code, v, points)
}

fn frame_table(views: &Vec<MeasuredFrameChunk>, frame_index: usize) -> (table: HashMap<
    u64,
    (usize, usize),
>)
    ensures
        is_table(table@, views@, frame_index, views@.len() as int, 0),
{
    let mut table: HashMap<u64, (usize, usize)> = HashMap::new();
    for v in 0..views.len()
        invariant
            is_table(table@, views@, frame_index, v as int, 0),
    {
        let view = &views[v];
        if view.frame_index == frame_index {
            for p in 0..view.points.len()
                invariant
                    v < views@.len(),
                    view == views@[v as int],
                    is_table(table@, views@, frame_index, v as int, p as int),
            {
                let code: u64 = code_of(view.points[p].source_pixel);
                let ghost last = table@;
                table.insert(code, (v, p));
                assert forall|c: u64| #[trigger]
                    says(table@, views@, frame_index, c, v as int, p + 1) by {
                    assert(says(last, views@, frame_index, c, v as int, p as int));
                }
            }
            assert forall|c: u64| #[trigger]
                says(table@, views@, frame_index, c, v + 1, 0) by {
                assert(says(
                    table@,
                    views@,
                    frame_index,
                    c,
                    v as int,
                    view.points@.len() as int,
                ));
            }
        } else {
            assert forall|c: u64| #[trigger]
                says(table@, views@, frame_index, c, v + 1, 0) by {
                assert(says(table@, views@, frame_index, c, v as int, 0));
            }
        }
    }
    table
}

/// Pairs the pixels of two overlapping windows.
pub fn match_pixels(
    source: &Vec<MeasuredFrameChunk>,
    target: &Vec<MeasuredFrameChunk>,
) -> (matches: Vec<PixelMatch>)
    ensures
        matches@ == all_matches(source@, target@, source@.len() as int),
{
    let mut matches: Vec<PixelMatch> = Vec::new();
    for s in 0..source.len()
        invariant
            matches@ == all_matches(source@, target@, s as int),
    {
        let view = &source[s];
        let table: HashMap<u64, (usize, usize)> = frame_table(target, view.frame_index);
        let ghost start = matches@;
        assert(start + view_matches(source@, target@, s as int, 0) =~= start);
        for p in 0..view.points.len()
            invariant
                s < source@.len(),
                view == source@[s as int],
                is_table(table@, target@, view.frame_index, target@.len() as int, 0),
                matches@ == start + view_matches(source@, target@, s as int, p as int),
        {
            let code: u64 = code_of(view.points[p].source_pixel);
            assert(says(table@, target@, view.frame_index, code, target@.len() as int, 0));
            if let Some(found) = table.get(&code) {
                matches.push(
                    PixelMatch {
                        source_view: s,
                        source_point: p,
                        target_view: found.0,
                        target_point: found.1,
                    },
                );
                assert(matches@ =~= start + view_matches(source@, target@, s as int, p + 1));
            }
        }
    }
    matches
}

/// Every match joins points of one frame and one pixel.
pub proof fn law_matches_share_frame_and_pixel(
    source: Seq<MeasuredFrameChunk>,
    target: Seq<MeasuredFrameChunk>,
    count: int,
    i: int,
)
    requires
        0 <= count <= source.len() <= usize::MAX,
        target.len() <= usize::MAX,
        forall|v: int| 0 <= v < source.len() ==> (#[trigger] source[v]).points@.len() <= usize::MAX,
        forall|v: int| 0 <= v < target.len() ==> (#[trigger] target[v]).points@.len() <= usize::MAX,
        0 <= i < all_matches(source, target, count).len(),
    ensures
        ({
            let m = all_matches(source, target, count)[i];
            let s = source[m.source_view as int];
            let t = target[m.target_view as int];
            &&& m.source_view < source.len() && m.source_point < s.points@.len()
            &&& m.target_view < target.len() && m.target_point < t.points@.len()
            &&& s.frame_index == t.frame_index
            &&& s.points@[m.source_point as int].source_pixel@[0]
                == t.points@[m.target_point as int].source_pixel@[0]
            &&& s.points@[m.source_point as int].source_pixel@[1]
                == t.points@[m.target_point as int].source_pixel@[1]
        }),
    decreases count,
{
    let rest = all_matches(source, target, count - 1);
    if i < rest.len() {
        law_matches_share_frame_and_pixel(source, target, count - 1, i);
    } else {
        lemma_view_match(
            source,
            target,
            count - 1,
            source[count - 1].points@.len() as int,
            i - rest.len(),
        );
    }
}

proof fn lemma_latest(views: Seq<MeasuredFrameChunk>, frame_index: usize, code: int, count: int)
    requires
        0 <= count <= views.len(),
    ensures
        latest(views, frame_index, code, count) matches Some((v, p)) ==> {
            &&& 0 <= v < count
            &&& 0 <= p < views[v].points@.len()
            &&& views[v].frame_index == frame_index
            &&& pixel_code(views[v].points@[p].source_pixel) == code
        },
    decreases count,
{
    if count > 0 {
        lemma_latest(views, frame_index, code, count - 1);
        lemma_latest_code(
            views[count - 1].points@,
            code,
            views[count - 1].points@.len() as int,
        );
    }
}

proof fn lemma_latest_code(points: Seq<MeasuredPoint>, code: int, count: int)
    ensures
        latest_point(points, code, count) matches Some(p) ==> 0 <= p < count && pixel_code(
            points[p].source_pixel,
        ) == code,
    decreases count,
{
    if count > 0 {
        lemma_latest_code(points, code, count - 1);
    }
}

proof fn lemma_view_match(
    source: Seq<MeasuredFrameChunk>,
    target: Seq<MeasuredFrameChunk>,
    view: int,
    count: int,
    i: int,
)
    requires
        0 <= view < source.len() <= usize::MAX,
        target.len() <= usize::MAX,
        forall|v: int| 0 <= v < target.len() ==> (#[trigger] target[v]).points@.len() <= usize::MAX,
        0 <= count <= source[view].points@.len() <= usize::MAX,
        0 <= i < view_matches(source, target, view, count).len(),
    ensures
        ({
            let m = view_matches(source, target, view, count)[i];
            let s = source[view];
            let t = target[m.target_view as int];
            &&& m.source_view == view && m.source_point < count
            &&& m.target_view < target.len() && m.target_point < t.points@.len()
            &&& s.frame_index == t.frame_index
            &&& pixel_code(s.points@[m.source_point as int].source_pixel) == pixel_code(
                t.points@[m.target_point as int].source_pixel,
            )
        }),
    decreases count,
{
    if count > 0 {
        let rest = view_matches(source, target, view, count - 1);
        if i < rest.len() {
            lemma_view_match(source, target, view, count - 1, i);
        } else {
            lemma_latest(
                target,
                source[view].frame_index,
                pixel_code(source[view].points@[count - 1].source_pixel),
                target.len() as int,
            );
        }
    }
}

/// Enough pixel pairs to determine a similarity.
pub fn enough_matches(matches: usize) -> (result: Result<(), StitchError>)
    ensures
        result is Ok <==> matches >= MINIMUM_MATCHES,
        result matches Err(e) ==> e is InsufficientCorrespondences,
{
    if matches < MINIMUM_MATCHES {
        Err(StitchError::InsufficientCorrespondences)
    } else {
        Ok(())
    }
}

/// The upper middle residual in total order.
pub fn upper_median(values: &Vec<u32>) -> (median: u32)
    requires
        values@.len() > 0,
    ensures
        exists|sorted: Seq<u32>| #[trigger]
            order::is_sorted(values@, sorted) && sorted.len() == values@.len() && median
                == sorted[values@.len() as int / 2],
{
    let sorted: Vec<u32> = order::sort_total(values);
    assert(order::is_sorted(values@, sorted@));
    sorted[sorted.len() / 2]
}

/// The inliers among the first `count` whose residual is within the limit.
pub open spec fn kept_inliers(
    inliers: Seq<usize>,
    residuals: Seq<u32>,
    limit: u32,
    count: int,
) -> Seq<usize>
    decreases count,
{
    if count <= 0 {
        Seq::empty()
    } else if ieee::f32_at_most(residuals[count - 1], limit) {
        kept_inliers(inliers, residuals, limit, count - 1).push(inliers[count - 1])
    } else {
        kept_inliers(inliers, residuals, limit, count - 1)
    }
}

/// What a trimming round leaves: the reduced inliers, or nothing where the
/// round changes nothing or would leave too few.
pub open spec fn trimmed(
    inliers: Seq<usize>,
    residuals: Seq<u32>,
    limit: u32,
) -> Option<Seq<usize>> {
    let kept = kept_inliers(inliers, residuals, limit, inliers.len() as int);
    if kept.len() < MINIMUM_MATCHES || kept.len() == inliers.len() {
        None
    } else {
        Some(kept)
    }
}

/// One trimming round: drops matches whose residual is above the limit. `None`
/// ends the trimming with the inliers as they are.
pub fn trim_inliers(inliers: &Vec<usize>, residuals: &Vec<u32>, limit: u32) -> (next: Option<
    Vec<usize>,
>)
    requires
        residuals@.len() == inliers@.len(),
    ensures
        match next {
            None => trimmed(inliers@, residuals@, limit) is None,
            Some(kept) => trimmed(inliers@, residuals@, limit) == Some(kept@),
        },
{
    let mut kept: Vec<usize> = Vec::new();
    for i in 0..inliers.len()
        invariant
            residuals@.len() == inliers@.len(),
            kept@ == kept_inliers(inliers@, residuals@, limit, i as int),
    {
        if ieee::f32_le(residuals[i], limit) {
            kept.push(inliers[i]);
        }
    }
    if kept.len() < MINIMUM_MATCHES || kept.len() == inliers.len() {
        None
    } else {
        Some(kept)
    }
}

proof fn lemma_kept_shorter(inliers: Seq<usize>, residuals: Seq<u32>, limit: u32, count: int)
    requires
        0 <= count,
    ensures
        kept_inliers(inliers, residuals, limit, count).len() <= count,
    decreases count,
{
    if count > 0 {
        lemma_kept_shorter(inliers, residuals, limit, count - 1);
    }
}

/// A round that goes on leaves fewer inliers, and never fewer than determine a
/// similarity.
pub proof fn law_trimming_shrinks(inliers: Seq<usize>, residuals: Seq<u32>, limit: u32)
    requires
        residuals.len() == inliers.len(),
    ensures
        trimmed(inliers, residuals, limit) matches Some(kept) ==> MINIMUM_MATCHES <= kept.len()
            < inliers.len(),
{
    lemma_kept_shorter(inliers, residuals, limit, inliers.len() as int);
}

/// The fit of one seam: the matches that are trusted, the trimming rounds behind
/// it, and whether another one follows.
#[derive(Debug, Clone, PartialEq, Eq)]
pub struct SeamFit {
    pub inliers: Vec<usize>,
    pub rounds: usize,
    pub trimming: bool,
}

/// A list of places in ascending order, all below `count`.
pub open spec fn ascends_below(places: Seq<usize>, count: int) -> bool {
    &&& forall|i: int| 0 <= i < places.len() ==> #[trigger] places[i] < count
    &&& forall|i: int, j: int| 0 <= i < j < places.len() ==> places[i] < places[j]
}

/// A fit trusts matches that exist, each once and enough of them, and trims for
/// a bounded number of rounds.
pub open spec fn seam_fit_sound(fit: SeamFit, matches: int) -> bool {
    &&& ascends_below(fit.inliers@, matches)
    &&& MINIMUM_MATCHES <= fit.inliers@.len() <= matches
    &&& fit.rounds <= TRIM_ROUNDS
    &&& fit.trimming ==> fit.rounds < TRIM_ROUNDS
}

/// Begins a fit that trusts all matches, where they determine a similarity.
pub fn begin_seam_fit(matches: usize) -> (result: Result<SeamFit, StitchError>)
    ensures
        match result {
            Ok(fit) => {
                &&& matches >= MINIMUM_MATCHES
                &&& fit.inliers@ == Seq::new(matches as nat, |i: int| i as usize)
                &&& fit.rounds == 0
                &&& fit.trimming
                &&& seam_fit_sound(fit, matches as int)
            },
            Err(e) => matches < MINIMUM_MATCHES && e is InsufficientCorrespondences,
        },
{
    enough_matches(matches)?;
    let mut inliers: Vec<usize> = Vec::new();
    for i in 0..matches
        invariant
            inliers@ == Seq::new(i as nat, |k: int| k as usize),
    {
        inliers.push(i);
        assert(inliers@ =~= Seq::new((i + 1) as nat, |k: int| k as usize));
    }
    Ok(SeamFit { inliers, rounds: 0, trimming: true })
}

/// One trimming round of a fit, from the residual of each inlier under the
/// similarity of that round. The round that changes nothing, would leave too
/// few matches, or is the last of all ends the trimming.
pub fn trim_seam(fit: &mut SeamFit, residuals: &Vec<u32>, limit: u32)
    requires
        old(fit).trimming,
        old(fit).rounds < TRIM_ROUNDS,
        residuals@.len() == old(fit).inliers@.len(),
    ensures
        final(fit).rounds == old(fit).rounds + 1,
        match trimmed(old(fit).inliers@, residuals@, limit) {
            None => final(fit).inliers@ == old(fit).inliers@ && !final(fit).trimming,
            Some(kept) => final(fit).inliers@ == kept && final(fit).trimming == (
            final(fit).rounds < TRIM_ROUNDS),
        },
        forall|matches: int|
            seam_fit_sound(*old(fit), matches) ==> #[trigger] seam_fit_sound(*final(fit), matches),
{
    let ghost before = *fit;
    let next: Option<Vec<usize>> = trim_inliers(&fit.inliers, residuals, limit);
    fit.rounds = fit.rounds + 1;
    match next {
        None => {
            fit.trimming = false;
        },
        Some(kept) => {
            proof {
                law_trimming_shrinks(before.inliers@, residuals@, limit);
                assert forall|matches: int| seam_fit_sound(before, matches) implies ascends_below(
                    kept@,
                    matches,
                ) by {
                    lemma_kept_ascends(
                        before.inliers@,
                        residuals@,
                        limit,
                        before.inliers@.len() as int,
                        matches,
                    );
                }
            }
            fit.inliers = kept;
            fit.trimming = fit.rounds < TRIM_ROUNDS;
        },
    }
}

proof fn lemma_kept_ascends(
    inliers: Seq<usize>,
    residuals: Seq<u32>,
    limit: u32,
    count: int,
    matches: int,
)
    requires
        ascends_below(inliers, matches),
        0 <= count <= inliers.len(),
    ensures
        ascends_below(kept_inliers(inliers, residuals, limit, count), matches),
        forall|i: int|
            #![trigger kept_inliers(inliers, residuals, limit, count)[i]]
            0 <= i < kept_inliers(inliers, residuals, limit, count).len() && count < inliers.len()
                ==> kept_inliers(inliers, residuals, limit, count)[i] < inliers[count],
    decreases count,
{
    if count > 0 {
        lemma_kept_ascends(inliers, residuals, limit, count - 1, matches);
        let rest = kept_inliers(inliers, residuals, limit, count - 1);
        let all = kept_inliers(inliers, residuals, limit, count);
        assert(inliers[count - 1] < matches);
        assert forall|i: int| 0 <= i < all.len() && count < inliers.len() implies all[i]
            < inliers[count] by {
            assert(inliers[count - 1] < inliers[count]);
            if i < rest.len() {
                assert(rest[i] < inliers[count - 1]);
            }
        }
    }
}

/// The least spread of weighted places that a fit rests on, about 1e-14.
pub const ENERGY_FLOOR: u64 = 0x3d06_849b_86a1_2b9b;

/// The least length of a quaternion with a direction, about 1e-20.
pub const QUATERNION_FLOOR: u64 = 0x3bc7_9ca1_0c92_4223;

/// What a weighted fit of pairs measured, as binary64 patterns: the sum of the
/// weights, the spread of the places, the second invariant of their covariance
/// with the least value that tells a surface from a line, the length of the
/// rotation's quaternion, and the scale.
#[derive(Debug, Clone, Copy, PartialEq, Eq, Structural)]
pub struct FitEvidence {
    pub weight: u64,
    pub energy: u64,
    pub invariant: u64,
    pub invariant_floor: u64,
    pub quaternion: u64,
    pub scale: u64,
}

/// The pairs determine a similarity: they have weight, they are spread over more
/// than a line, and their rotation and scale are defined.
pub open spec fn fit_determined(evidence: FitEvidence) -> bool {
    &&& ieee::f64_finite(evidence.weight) && ieee::f64_less(0, evidence.weight)
    &&& !ieee::f64_at_most(evidence.energy, ENERGY_FLOOR)
    &&& ieee::f64_finite(evidence.invariant) && !ieee::f64_at_most(
        evidence.invariant,
        evidence.invariant_floor,
    )
    &&& ieee::f64_finite(evidence.quaternion) && !ieee::f64_at_most(
        evidence.quaternion,
        QUATERNION_FLOOR,
    )
    &&& ieee::f64_finite(evidence.scale) && ieee::f64_less(0, evidence.scale)
}

/// The similarity of a fit, where its pairs determine one.
pub fn fit_similarity(evidence: &FitEvidence, fitted: SimilarityTransform) -> (result: Result<
    SimilarityTransform,
    StitchError,
>)
    ensures
        match result {
            Ok(transform) => fit_determined(*evidence) && transform == fitted,
            Err(e) => !fit_determined(*evidence) && e is DegenerateGeometry,
        },
{
    if !ieee::f64_is_finite(evidence.weight) || !ieee::f64_lt(0, evidence.weight) || ieee::f64_le(
        evidence.energy,
        ENERGY_FLOOR,
    ) || !ieee::f64_is_finite(evidence.invariant) || ieee::f64_le(
        evidence.invariant,
        evidence.invariant_floor,
    ) || !ieee::f64_is_finite(evidence.quaternion) || ieee::f64_le(
        evidence.quaternion,
        QUATERNION_FLOOR,
    ) || !ieee::f64_is_finite(evidence.scale) || !ieee::f64_lt(0, evidence.scale) {
        Err(StitchError::DegenerateGeometry)
    } else {
        Ok(fitted)
    }
}

/// The matches with a usable normal that a correction needs.
pub const CORRECTION_SUPPORT: usize = 6;

/// The greatest angle of a correction, the binary32 nearest to 0.1.
pub const CORRECTION_ANGLE: u32 = 0x3dcc_cccd;

/// The least length of a usable normal: one half, as a binary64 pattern.
pub const NORMAL_FLOOR: u64 = 0x3fe0_0000_0000_0000;

/// Whether the recorded normal of a match can steer a correction.
pub fn normal_is_usable(length: u64) -> (usable: bool)
    ensures
        usable == (ieee::f64_finite(length) && !ieee::f64_less(length, NORMAL_FLOOR)),
{
    ieee::f64_is_finite(length) && !ieee::f64_lt(length, NORMAL_FLOOR)
}

/// A point-to-plane correction: its rotation angle, its translation, and the
/// similarity after it.
#[derive(Debug, Clone, Copy, PartialEq, Eq)]
pub struct Correction {
    pub angle: u32,
    pub translation: [u32; 3],
    pub corrected: SimilarityTransform,
}

/// A correction that is finite and turns by a small angle.
pub open spec fn is_local(correction: Correction) -> bool {
    &&& ieee::f32_finite(correction.angle)
    &&& !ieee::f32_less(CORRECTION_ANGLE, correction.angle)
    &&& ieee::f32_all_finite(correction.translation@)
}

/// One bounded correction after a fit. Too few usable normals, a singular
/// system, or a correction that is not local leave the fit unchanged.
pub fn refine_point_to_plane(
    fitted: SimilarityTransform,
    usable: usize,
    solved: &Option<Correction>,
) -> (transform: SimilarityTransform)
    ensures
        transform == (match *solved {
            Some(correction) => if usable >= CORRECTION_SUPPORT && is_local(correction) {
                correction.corrected
            } else {
                fitted
            },
            None => fitted,
        }),
{
    match solved {
        Some(correction) => if usable >= CORRECTION_SUPPORT && ieee::f32_is_finite(
            correction.angle,
        ) && !ieee::f32_lt(CORRECTION_ANGLE, correction.angle) && ieee::f32s_are_finite(
            &correction.translation,
        ) {
            correction.corrected
        } else {
            fitted
        },
        None => fitted,
    }
}

/// The report of a seam: the corrected similarity with the matches that were
/// found and those that were trusted.
pub fn align_overlapping_windows(
    matches: usize,
    fit: &SeamFit,
    transform: SimilarityTransform,
    rms_residual: u32,
    normalized_rms_residual: u32,
) -> (report: AlignmentReport)
    requires
        seam_fit_sound(*fit, matches as int),
    ensures
        MINIMUM_MATCHES <= report.inlier_count <= report.correspondence_count,
        report == (AlignmentReport {
            transform,
            correspondence_count: matches,
            inlier_count: fit.inliers@.len() as usize,
            rms_residual,
            normalized_rms_residual,
        }),
{
    AlignmentReport {
        transform,
        correspondence_count: matches,
        inlier_count: fit.inliers.len(),
        rms_residual,
        normalized_rms_residual,
    }
}

/// The share of inliers is below the limit. A seam without correspondences has
/// no share.
pub open spec fn ratio_fails(report: AlignmentReport, settings: StitchSettings) -> bool {
    report.correspondence_count > 0 && ieee::f32_less(
        ratio::f32_quotient(
            report.inlier_count as int,
            report.correspondence_count as int,
        ),
        settings.minimum_inlier_ratio,
    )
}

/// A seam meets the quality gates.
pub open spec fn seam_passes(report: AlignmentReport, settings: StitchSettings) -> bool {
    &&& report.correspondence_count >= settings.minimum_correspondences
    &&& !ratio_fails(report, settings)
    &&& !ieee::f32_less(report.transform.scale, settings.minimum_scale)
    &&& !ieee::f32_less(settings.maximum_scale, report.transform.scale)
}

/// Judges one seam.
pub fn check_seam(report: &AlignmentReport, settings: &StitchSettings) -> (result: Result<
    (),
    StitchError,
>)
    ensures
        result is Ok <==> seam_passes(*report, *settings),
        result matches Err(e) ==> e is QualityGate,
{
    let starved = report.correspondence_count > 0 && ieee::f32_lt(
        if report.correspondence_count > 0 {
            ratio::f32_ratio(report.inlier_count, report.correspondence_count)
        } else {
            0
        },
        settings.minimum_inlier_ratio,
    );
    if report.correspondence_count < settings.minimum_correspondences || starved || ieee::f32_lt(
        report.transform.scale,
        settings.minimum_scale,
    ) || ieee::f32_lt(settings.maximum_scale, report.transform.scale) {
        Err(StitchError::QualityGate)
    } else {
        Ok(())
    }
}

/// The seam between window `i` and the next one, with unit information.
pub open spec fn seam_edge(relatives: Seq<SimilarityTransform>, i: int) -> PoseGraphEdge {
    PoseGraphEdge {
        from: i as usize,
        to: (i + 1) as usize,
        measurement: relatives[i],
        information: ieee::F32_ONE,
        loop_closure: false,
    }
}

/// The edges of the graph: one seam per pair of neighbouring windows, then the
/// verified loops. `relatives` holds the transform of each window after the
/// first in the frame of the one before it.
pub fn graph_edges(
    relatives: &Vec<SimilarityTransform>,
    loops: &Vec<PoseGraphEdge>,
) -> (edges: Vec<PoseGraphEdge>)
    requires
        relatives@.len() < usize::MAX,
    ensures
        edges@ == Seq::new(relatives@.len(), |i: int| seam_edge(relatives@, i)) + loops@,
        forall|i: int|
            0 <= i < relatives@.len() ==> (#[trigger] edges@[i]).measurement == relatives@[i]
                && edges@[i].from == i && edges@[i].to == i + 1 && edges@[i].information
                == 0x3f80_0000 && !edges@[i].loop_closure,
        forall|k: int|
            0 <= k < loops@.len() ==> #[trigger] loops@[k] == edges@[relatives@.len() + k],
{
    let ghost seams = Seq::new(relatives@.len(), |i: int| seam_edge(relatives@, i));
    let mut edges: Vec<PoseGraphEdge> = Vec::new();
    for i in 0..relatives.len()
        invariant
            relatives@.len() < usize::MAX,
            seams == Seq::new(relatives@.len(), |i: int| seam_edge(relatives@, i)),
            edges@ == seams.take(i as int),
    {
        edges.push(
            PoseGraphEdge {
                from: i,
                to: i + 1,
                measurement: relatives[i],
                information: ieee::F32_ONE,
                loop_closure: false,
            },
        );
        assert(edges@ =~= seams.take(i + 1));
    }
    assert(edges@ =~= seams + loops@.take(0));
    for i in 0..loops.len()
        invariant
            edges@ == seams + loops@.take(i as int),
    {
        edges.push(loops[i]);
        assert(edges@ =~= seams + loops@.take(i + 1));
    }
    assert(loops@.take(loops@.len() as int) =~= loops@);
    edges
}

/// The graph is optimized only where a verified loop was supplied: sequential
/// input alone leaves the sequential poses as they are.
pub fn needs_optimization(loops: &Vec<PoseGraphEdge>) -> (answer: bool)
    ensures
        answer == (loops@.len() > 0),
{
    loops.len() > 0
}

/// Windows that are chained one after the other: the report of each seam, the
/// pose of each window in the frame of the first, and the pose of each window
/// after the first in the frame of the one before it.
#[derive(Debug, Clone, PartialEq, Eq)]
pub struct SeamChain {
    pub alignments: Vec<AlignmentReport>,
    pub poses: Vec<SimilarityTransform>,
    pub relatives: Vec<SimilarityTransform>,
}

/// The first window stands where it is, and every other one where its seam
/// put it.
pub open spec fn chain_sound(chain: SeamChain) -> bool {
    &&& chain.poses@.len() == chain.alignments@.len() + 1
    &&& chain.relatives@.len() == chain.alignments@.len()
    &&& world::is_identity(chain.poses@[0])
    &&& forall|i: int|
        0 <= i < chain.alignments@.len() ==> chain.poses@[i + 1] == (
        #[trigger] chain.alignments@[i]).transform
}

/// A chain of the first window alone.
pub fn begin_chain() -> (chain: SeamChain)
    ensures
        chain.alignments@.len() == 0,
        chain_sound(chain),
{
    let mut poses: Vec<SimilarityTransform> = Vec::new();
    poses.push(world::identity_transform());
    SeamChain { alignments: Vec::new(), poses, relatives: Vec::new() }
}

/// Adds the next window to a chain by its seam with the window before it. A seam
/// that misses a quality gate ends the stitching: no alignment is invented.
pub fn extend_chain(
    chain: &mut SeamChain,
    report: &AlignmentReport,
    relative: SimilarityTransform,
    settings: &StitchSettings,
) -> (result: Result<(), StitchError>)
    requires
        chain_sound(*old(chain)),
    ensures
        chain_sound(*final(chain)),
        match result {
            Ok(_) => {
                &&& seam_passes(*report, *settings)
                &&& final(chain).alignments@ == old(chain).alignments@.push(*report)
                &&& final(chain).poses@ == old(chain).poses@.push(report.transform)
                &&& final(chain).relatives@ == old(chain).relatives@.push(relative)
            },
            Err(e) => {
                &&& !seam_passes(*report, *settings)
                &&& e is QualityGate
                &&& *final(chain) == *old(chain)
            },
        },
{
    check_seam(report, settings)?;
    let ghost before = *chain;
    chain.alignments.push(*report);
    chain.poses.push(report.transform);
    chain.relatives.push(relative);
    assert forall|i: int| 0 <= i < chain.alignments@.len() implies chain.poses@[i + 1] == (
    #[trigger] chain.alignments@[i]).transform by {
        if i < before.alignments@.len() {
            assert(chain.alignments@[i] == before.alignments@[i]);
            assert(before.poses@[i + 1] == before.alignments@[i].transform);
        }
    }
    Ok(())
}

/// The graph that spreads verified loops over a chain: its windows, its seams
/// and then the loops. Without a loop there is none.
pub fn chain_graph(chain: &SeamChain, loops: &Vec<PoseGraphEdge>) -> (graph: Option<
    RelativePoseGraph,
>)
    requires
        chain_sound(*chain),
    ensures
        match graph {
            None => loops@.len() == 0,
            Some(graph) => {
                &&& loops@.len() > 0
                &&& graph.nodes@ == chain.poses@
                &&& graph.edges@ == Seq::new(
                    chain.relatives@.len(),
                    |i: int| seam_edge(chain.relatives@, i),
                ) + loops@
                &&& graph.fixed@.len() == 0
                &&& forall|i: int|
                    0 <= i < chain.relatives@.len() ==> (#[trigger] graph.edges@[i]).measurement
                        == chain.relatives@[i] && graph.edges@[i].from == i && graph.edges@[i].to
                        == i + 1
            },
        },
{
    if !needs_optimization(loops) {
        return None;
    }
    let _count: usize = chain.poses.len();
    let mut nodes: Vec<SimilarityTransform> = Vec::new();
    for i in 0..chain.poses.len()
        invariant
            nodes@ == chain.poses@.take(i as int),
    {
        nodes.push(chain.poses[i]);
        assert(nodes@ =~= chain.poses@.take(i + 1));
    }
    assert(nodes@ =~= chain.poses@);
    Some(
        RelativePoseGraph {
            nodes,
            edges: graph_edges(&chain.relatives, loops),
            fixed: Vec::new(),
        },
    )
}

/// The poses that windows are placed at: those of the chain, or the nodes that
/// were optimized where a loop was supplied.
pub open spec fn placed_poses(
    chain: SeamChain,
    loops: Seq<PoseGraphEdge>,
    optimized: Seq<SimilarityTransform>,
) -> Seq<SimilarityTransform> {
    if loops.len() == 0 {
        chain.poses@
    } else {
        optimized
    }
}

/// Chooses the poses that windows are placed at.
pub fn place_windows(
    chain: &SeamChain,
    loops: &Vec<PoseGraphEdge>,
    optimized: Vec<SimilarityTransform>,
) -> (poses: Vec<SimilarityTransform>)
    requires
        loops@.len() > 0 ==> optimized@.len() == chain.poses@.len(),
    ensures
        poses@ == placed_poses(*chain, loops@, optimized@),
        poses@.len() == chain.poses@.len(),
{
    if needs_optimization(loops) {
        return optimized;
    }
    let mut poses: Vec<SimilarityTransform> = Vec::new();
    for i in 0..chain.poses.len()
        invariant
            poses@ == chain.poses@.take(i as int),
    {
        poses.push(chain.poses[i]);
        assert(poses@ =~= chain.poses@.take(i + 1));
    }
    assert(poses@ =~= chain.poses@);
    poses
}

/// Without a loop, whatever an optimization would have moved, the first window
/// stays where it is and every other one where its own seam put it.
pub proof fn law_no_loops_keep_the_chain(chain: SeamChain, optimized: Seq<SimilarityTransform>)
    requires
        chain_sound(chain),
    ensures
        ({
            let poses = placed_poses(chain, Seq::empty(), optimized);
            &&& poses.len() == chain.alignments@.len() + 1
            &&& world::is_identity(poses[0])
            &&& forall|i: int|
                0 <= i < chain.alignments@.len() ==> poses[i + 1] == (
                #[trigger] chain.alignments@[i]).transform
        }),
{
}

/// The positive radii of the first `count` points.
pub open spec fn radii(points: Seq<MeasuredPoint>, count: int) -> Seq<u32>
    decreases count,
{
    if count <= 0 {
        Seq::empty()
    } else if ieee::f32_positive(points[count - 1].radius) {
        radii(points, count - 1).push(points[count - 1].radius)
    } else {
        radii(points, count - 1)
    }
}

/// The upper median of the positive radii, which the voxel edge is taken from.
/// `None` where no point has one; the fused world is then empty.
pub fn median_radius(points: &Vec<MeasuredPoint>) -> (median: Option<u32>)
    ensures
        ({
            let all = radii(points@, points@.len() as int);
            match median {
                None => all.len() == 0,
                Some(value) => all.len() > 0 && exists|sorted: Seq<u32>| #[trigger]
                    order::is_sorted(all, sorted) && sorted.len() == all.len() && value
                        == sorted[all.len() as int / 2],
            }
        }),
{
    let mut all: Vec<u32> = Vec::new();
    for i in 0..points.len()
        invariant
            all@ == radii(points@, i as int),
    {
        if ieee::f32_is_positive(points[i].radius) {
            all.push(points[i].radius);
        }
    }
    if all.len() == 0 {
        None
    } else {
        Some(upper_median(&all))
    }
}

/// A point that may enter a voxel.
pub open spec fn fusible(point: MeasuredPoint) -> bool {
    &&& ieee::f32_all_finite(point.position@)
    &&& ieee::f32_positive(point.radius)
    &&& ieee::f32_positive(point.confidence)
}

/// The places among the first `count` points that may enter a voxel.
pub open spec fn fusible_places(points: Seq<MeasuredPoint>, count: int) -> Seq<usize>
    decreases count,
{
    if count <= 0 {
        Seq::empty()
    } else if fusible(points[count - 1]) {
        fusible_places(points, count - 1).push((count - 1) as usize)
    } else {
        fusible_places(points, count - 1)
    }
}

/// The points that may enter a voxel.
pub fn fusible_points(points: &Vec<MeasuredPoint>) -> (places: Vec<usize>)
    ensures
        places@ == fusible_places(points@, points@.len() as int),
{
    let mut places: Vec<usize> = Vec::new();
    for i in 0..points.len()
        invariant
            places@ == fusible_places(points@, i as int),
    {
        if ieee::f32s_are_finite(&points[i].position) && ieee::f32_is_positive(points[i].radius)
            && ieee::f32_is_positive(points[i].confidence) {
            places.push(i);
        }
    }
    places
}

/// The position of a point in the order of `x`, then `y`, then `z`.
pub open spec fn position_rank(point: FusedPoint) -> int {
    (ieee::f32_total_rank(point.position@[0]) * 0x2_0000_0000 + ieee::f32_total_rank(
        point.position@[1],
    )) * 0x2_0000_0000 + ieee::f32_total_rank(point.position@[2])
}

/// The ranks of a list of points.
pub open spec fn position_keys(points: Seq<FusedPoint>) -> Seq<i128> {
    Seq::new(points.len(), |i: int| position_rank(points[i]) as i128)
}

/// The points ordered by position.
pub open spec fn is_ordered_world(points: Seq<FusedPoint>, world: Seq<FusedPoint>) -> bool {
    exists|places: Seq<usize>| #[trigger]
        order::is_order(position_keys(points), places) && world == Seq::new(
            places.len(),
            |i: int| points[places[i] as int],
        )
}

/// Worlds are ordered by `x` in total order, then by `y`, then by `z`: that is
/// what the rank of a position stands for.
pub proof fn law_rank_orders_positions(a: FusedPoint, b: FusedPoint)
    ensures
        i128::MIN <= position_rank(a) <= i128::MAX,
        position_rank(a) < position_rank(b) <==> ({
            let (ax, ay, az) = (
                ieee::f32_total_rank(a.position@[0]),
                ieee::f32_total_rank(a.position@[1]),
                ieee::f32_total_rank(a.position@[2]),
            );
            let (bx, by, bz) = (
                ieee::f32_total_rank(b.position@[0]),
                ieee::f32_total_rank(b.position@[1]),
                ieee::f32_total_rank(b.position@[2]),
            );
            ax < bx || (ax == bx && (ay < by || (ay == by && az < bz)))
        }),
{
}

fn total_rank(bits: u32) -> (rank: i128)
    ensures
        rank == ieee::f32_total_rank(bits),
{
    if bits >= 0x8000_0000 {
        -((bits - 0x8000_0000) as i128) - 1
    } else {
        bits as i128
    }
}

/// Orders the points of a fused world by position.
pub fn order_world(points: &Vec<FusedPoint>) -> (world: Vec<FusedPoint>)
    ensures
        is_ordered_world(points@, world@),
        world@.len() == points@.len(),
{
    let mut keys: Vec<i128> = Vec::new();
    for i in 0..points.len()
        invariant
            keys@ == position_keys(points@).take(i as int),
    {
        let position = points[i].position;
        let key: i128 = (total_rank(position[0]) * 0x2_0000_0000 + total_rank(position[1]))
            * 0x2_0000_0000 + total_rank(position[2]);
        keys.push(key);
        assert(keys@ =~= position_keys(points@).take(i + 1));
    }
    assert(keys@ =~= position_keys(points@));
    let places: Vec<usize> = order::stable_order(&keys);
    let ghost whole = Seq::new(places@.len(), |i: int| points@[places@[i] as int]);
    let mut world: Vec<FusedPoint> = Vec::new();
    for i in 0..places.len()
        invariant
            order::is_order(keys@, places@),
            keys@.len() == points@.len(),
            whole == Seq::new(places@.len(), |i: int| points@[places@[i] as int]),
            world@ == whole.take(i as int),
    {
        let place: usize = places[i];
        assert(place < points@.len());
        world.push(points[place]);
        assert(world@ =~= whole.take(i + 1));
    }
    assert(whole.take(places@.len() as int) =~= whole);
    world
}

/// The weighted averages of the points in one voxel.
#[derive(Debug, Clone, Copy, PartialEq, Eq)]
pub struct CellAverage {
    pub position: [u32; 3],
    pub normal: [u32; 3],
    pub color_srgb: [u8; 3],
    pub confidence: u32,
    pub radius: u32,
}

/// The surface element of a voxel: its averages, with every member counted.
pub open spec fn voxel_point(group: CellGroup, average: CellAverage) -> FusedPoint {
    FusedPoint {
        position: average.position,
        normal: average.normal,
        color_srgb: average.color_srgb,
        confidence: average.confidence,
        radius: average.radius,
        first_observing_frame: -1i32,
        contributors: group.members@.len() as u32,
    }
}

/// The surface elements of all voxels.
pub open spec fn voxel_points(groups: Seq<CellGroup>, averages: Seq<CellAverage>) -> Seq<
    FusedPoint,
> {
    Seq::new(groups.len(), |g: int| voxel_point(groups[g], averages[g]))
}

/// No voxel has more members than its count can hold.
pub open spec fn voxels_countable(groups: Seq<CellGroup>) -> bool {
    forall|g: int| 0 <= g < groups.len() ==> (#[trigger] groups[g]).members@.len() <= u32::MAX
}

/// The world of a voxel grid: one element per voxel, ordered by position.
pub fn voxel_world(groups: &Vec<CellGroup>, averages: &Vec<CellAverage>) -> (world: Vec<FusedPoint>)
    requires
        averages@.len() == groups@.len(),
        voxels_countable(groups@),
    ensures
        is_ordered_world(voxel_points(groups@, averages@), world@),
        world@.len() == groups@.len(),
{
    let mut points: Vec<FusedPoint> = Vec::new();
    for g in 0..groups.len()
        invariant
            averages@.len() == groups@.len(),
            voxels_countable(groups@),
            points@ == voxel_points(groups@, averages@).take(g as int),
    {
        let average = averages[g];
        let group = &groups[g];
        assert(group.members@.len() <= u32::MAX) by {
            assert(groups@[g as int].members@.len() <= u32::MAX);
        }
        points.push(
            FusedPoint {
                position: average.position,
                normal: average.normal,
                color_srgb: average.color_srgb,
                confidence: average.confidence,
                radius: average.radius,
                first_observing_frame: -1,
                contributors: group.members.len() as u32,
            },
        );
        assert(points@ =~= voxel_points(groups@, averages@).take(g + 1));
    }
    assert(points@ =~= voxel_points(groups@, averages@));
    order_world(&points)
}

/// A grid of voxels: its edge, the cell of each point that may enter a voxel, and
/// the averages of each occupied cell, in cell order.
#[derive(Debug, Clone, PartialEq, Eq)]
pub struct VoxelGrid {
    pub edge: u32,
    pub cells: Vec<Cell>,
    pub averages: Vec<CellAverage>,
}

/// A grid has a cell for every point that may enter a voxel, averages for every
/// occupied cell, and no cell with more members than its count can hold.
pub open spec fn grid_fits(points: Seq<MeasuredPoint>, grid: VoxelGrid) -> bool {
    &&& grid.cells@.len() == fusible_places(points, points.len() as int).len()
    &&& grid.averages@.len() == grid.cells@.to_set().len()
    &&& forall|groups: Seq<CellGroup>| #[trigger]
        cells::is_grouping(grid.cells@, groups) ==> voxels_countable(groups)
}

/// A stitched world: one seam per pair of neighbouring windows, the number of
/// loops where they were optimized, and one element per occupied voxel. Windows
/// without a single usable radius give an empty world.
pub fn stitched_world(
    windows: usize,
    chain: SeamChain,
    loops: &Vec<PoseGraphEdge>,
    points: &Vec<MeasuredPoint>,
    grid: &VoxelGrid,
) -> (world: FusedSceneChunk)
    requires
        chain_sound(chain),
        chain.poses@.len() == windows,
        radii(points@, points@.len() as int).len() > 0 ==> grid_fits(points@, *grid),
    ensures
        world.alignments@ == chain.alignments@,
        world.alignments@.len() == windows - 1,
        world.loop_edges is Some <==> loops@.len() > 0,
        world.loop_edges matches Some(edges) ==> edges == pose_graph::loops_among(
            loops@,
            loops@.len() as int,
        ),
        if radii(points@, points@.len() as int).len() == 0 {
            world.voxel_size == 0 && world.points@.len() == 0
        } else {
            world.voxel_size == grid.edge && exists|groups: Seq<CellGroup>| #[trigger]
                cells::is_grouping(grid.cells@, groups) && is_ordered_world(
                    voxel_points(groups, grid.averages@),
                    world.points@,
                )
        },
        world::contributions(world.points@) == (if radii(points@, points@.len() as int).len() == 0 {
            0
        } else {
            fusible_places(points@, points@.len() as int).len()
        }),
{
    let loop_edges: Option<usize> = if needs_optimization(loops) {
        Some(count_loops(loops))
    } else {
        None
    };
    if median_radius(points).is_none() {
        return FusedSceneChunk {
            alignments: chain.alignments,
            loop_edges,
            voxel_size: 0,
            points: Vec::new(),
        };
    }
    let groups: Vec<CellGroup> = group_cells(&grid.cells);
    proof {
        cells::law_one_group_per_cell(grid.cells@, groups@);
    }
    let points: Vec<FusedPoint> = voxel_world(&groups, &grid.averages);
    let _bound: (usize, usize) = (grid.cells.len(), groups.len());
    proof {
        law_world_counts_every_point(grid.cells@, groups@, grid.averages@, points@);
    }
    FusedSceneChunk { alignments: chain.alignments, loop_edges, voxel_size: grid.edge, points }
}

/// Every point that enters a voxel is counted once in the world of the grid.
pub proof fn law_world_counts_every_point(
    cells: Seq<Cell>,
    groups: Seq<CellGroup>,
    averages: Seq<CellAverage>,
    points: Seq<FusedPoint>,
)
    requires
        cells::is_grouping(cells, groups),
        voxels_countable(groups),
        averages.len() == groups.len(),
        cells.len() <= usize::MAX,
        groups.len() <= usize::MAX,
        is_ordered_world(voxel_points(groups, averages), points),
    ensures
        world::contributions(points) == cells.len(),
{
    let voxels = voxel_points(groups, averages);
    let places = choose|places: Seq<usize>| #[trigger]
        order::is_order(position_keys(voxels), places) && points == Seq::new(
            places.len(),
            |i: int| voxels[places[i] as int],
        );
    let counts = Seq::new(voxels.len(), |i: int| voxels[i].contributors as nat);
    order::lemma_picked_total(position_keys(voxels), places, counts);
    assert(Seq::new(points.len(), |i: int| points[i].contributors as nat) =~= order::picked(
        counts,
        places,
    ));
    cells::law_grouping_counts_every_item(cells, groups);
    assert(counts =~= cells::member_counts(groups)) by {
        assert forall|g: int| 0 <= g < groups.len() implies counts[g] == cells::member_counts(
            groups,
        )[g] by {
            assert(groups[g].members@.len() <= u32::MAX);
        }
    }
}

/// A graph over a chain has one edge per seam, in order: edge `i` leads from window
/// `i` to the next one and measures what seam `i` measured, with unit information.
/// The loops stand behind the seams, unchanged.
pub proof fn law_graph_measures_every_seam(
    chain: SeamChain,
    loops: Seq<PoseGraphEdge>,
    graph: RelativePoseGraph,
)
    requires
        chain_sound(chain),
        chain.relatives@.len() < usize::MAX,
        graph.nodes@ == chain.poses@,
        graph.edges@ == Seq::new(
            chain.relatives@.len(),
            |i: int| seam_edge(chain.relatives@, i),
        ) + loops,
    ensures
        graph.edges@.len() == chain.alignments@.len() + loops.len(),
        graph.nodes@.len() == chain.alignments@.len() + 1,
        forall|i: int|
            0 <= i < chain.relatives@.len() ==> {
                let edge = #[trigger] graph.edges@[i];
                &&& edge.from == i
                &&& edge.to == i + 1
                &&& edge.measurement == chain.relatives@[i]
                &&& edge.information == 0x3f80_0000
                &&& !edge.loop_closure
            },
        forall|k: int|
            0 <= k < loops.len() ==> #[trigger] loops[k] == graph.edges@[chain.relatives@.len()
                + k],
{
}

/// A trimming round keeps the matches whose residual is numerically within the
/// limit, in their order, and no others.
pub proof fn law_trimming_keeps_what_is_near(
    inliers: Seq<usize>,
    residuals: Seq<u32>,
    limit: u32,
    count: int,
)
    requires
        0 <= count <= inliers.len() == residuals.len(),
    ensures
        kept_inliers(inliers, residuals, limit, count) == order::counted(count).filter(
            |i: int|
                !ieee::f32_nan(residuals[i]) && !ieee::f32_nan(limit) && ieee::f32_rank(
                    residuals[i],
                ) <= ieee::f32_rank(limit),
        ).map_values(|i: int| inliers[i]),
    decreases count,
{
    reveal(Seq::filter);
    let near = |i: int|
        !ieee::f32_nan(residuals[i]) && !ieee::f32_nan(limit) && ieee::f32_rank(residuals[i])
            <= ieee::f32_rank(limit);
    let item = |i: int| inliers[i];
    if count > 0 {
        law_trimming_keeps_what_is_near(inliers, residuals, limit, count - 1);
        order::lemma_counted(count);
        let rest = order::counted(count - 1).filter(near);
        if near(count - 1) {
            assert(rest.push(count - 1).map_values(item) =~= rest.map_values(item).push(
                inliers[count - 1],
            ));
        }
    } else {
        assert(order::counted(count).filter(near).map_values(item) =~= Seq::empty());
    }
}

/// The positive radii of a cloud are those that are numbers above zero, in order.
pub proof fn law_radii_are_the_positive_ones(points: Seq<MeasuredPoint>, count: int)
    requires
        0 <= count <= points.len(),
    ensures
        radii(points, count) == points.take(count).filter_map(
            |point: MeasuredPoint|
                if 0 < ieee::f32_rank(point.radius) < 0x7f80_0000 {
                    Some(point.radius)
                } else {
                    None
                },
        ),
    decreases count,
{
    if count > 0 {
        law_radii_are_the_positive_ones(points, count - 1);
        assert(points.take(count).drop_last() =~= points.take(count - 1));
        assert(radii(points, count - 1).push(points[count - 1].radius) =~= radii(
            points,
            count - 1,
        ) + seq![points[count - 1].radius]);
    }
}

/// A point enters a voxel exactly where its coordinates are finite and its radius
/// and confidence are numbers above zero.
pub proof fn law_fusible_points_are_sound(points: Seq<MeasuredPoint>, count: int)
    requires
        0 <= count <= points.len(),
    ensures
        fusible_places(points, count) == order::counted(count).filter(
            |i: int|
                ieee::f32_magnitude(points[i].position@[0]) < 0x7f80_0000 && ieee::f32_magnitude(
                    points[i].position@[1],
                ) < 0x7f80_0000 && ieee::f32_magnitude(points[i].position@[2]) < 0x7f80_0000 && 0
                    < ieee::f32_rank(points[i].radius) < 0x7f80_0000 && 0 < ieee::f32_rank(
                    points[i].confidence,
                ) < 0x7f80_0000,
        ).map_values(|i: int| i as usize),
    decreases count,
{
    reveal(Seq::filter);
    let sound = |i: int|
        ieee::f32_magnitude(points[i].position@[0]) < 0x7f80_0000 && ieee::f32_magnitude(
            points[i].position@[1],
        ) < 0x7f80_0000 && ieee::f32_magnitude(points[i].position@[2]) < 0x7f80_0000 && 0
            < ieee::f32_rank(points[i].radius) < 0x7f80_0000 && 0 < ieee::f32_rank(
            points[i].confidence,
        ) < 0x7f80_0000;
    let item = |i: int| i as usize;
    if count > 0 {
        law_fusible_points_are_sound(points, count - 1);
        order::lemma_counted(count);
        let point = points[count - 1];
        if fusible(point) {
            assert(ieee::f32_finite(point.position@[0]));
            assert(ieee::f32_finite(point.position@[1]));
            assert(ieee::f32_finite(point.position@[2]));
        }
        let rest = order::counted(count - 1).filter(sound);
        assert(rest.push(count - 1).map_values(item) =~= rest.map_values(item).push(
            (count - 1) as usize,
        ));
    } else {
        assert(order::counted(count).filter(sound).map_values(item) =~= Seq::empty());
    }
}

/// A similarity is fitted only to pairs with weight, spread over more than a line,
/// whose rotation and scale are numbers: the weight and the scale are above zero, the
/// spread, the second invariant and the quaternion exceed their floors numerically.
pub proof fn law_fit_needs_spread(evidence: FitEvidence)
    ensures
        fit_determined(evidence) <==> {
            &&& 0 < ieee::f64_rank(evidence.weight) < 0x7ff0_0000_0000_0000
            &&& ieee::f64_nan(evidence.energy) || ieee::f64_rank(evidence.energy)
                > 0x3d06_849b_86a1_2b9b
            &&& ieee::f64_magnitude(evidence.invariant) < 0x7ff0_0000_0000_0000
            &&& ieee::f64_nan(evidence.invariant_floor) || ieee::f64_rank(evidence.invariant)
                > ieee::f64_rank(evidence.invariant_floor)
            &&& 0x3bc7_9ca1_0c92_4223 < ieee::f64_rank(evidence.quaternion)
                < 0x7ff0_0000_0000_0000
            &&& 0 < ieee::f64_rank(evidence.scale) < 0x7ff0_0000_0000_0000
        },
{
}

/// A seam passes exactly where it has the asked matches, its scale lies between the
/// bounds, and its share of inliers is not below the asked one.
pub proof fn law_seams_pass_their_gates(report: AlignmentReport, settings: StitchSettings)
    requires
        !ieee::f32_nan(report.transform.scale),
        !ieee::f32_nan(settings.minimum_scale),
        !ieee::f32_nan(settings.maximum_scale),
        !ieee::f32_nan(settings.minimum_inlier_ratio),
        report.correspondence_count > 0,
    ensures
        seam_passes(report, settings) <==> {
            let share = ratio::f32_quotient(
                report.inlier_count as int,
                report.correspondence_count as int,
            );
            &&& report.correspondence_count >= settings.minimum_correspondences
            &&& ieee::f32_nan(share) || ieee::f32_rank(settings.minimum_inlier_ratio)
                <= ieee::f32_rank(share)
            &&& ieee::f32_rank(settings.minimum_scale) <= ieee::f32_rank(report.transform.scale)
                <= ieee::f32_rank(settings.maximum_scale)
        },
{
}

/// A correction is taken only where it is local: a number for an angle of no more
/// than a tenth, and a finite translation.
pub proof fn law_corrections_are_local(correction: Correction)
    requires
        is_local(correction),
    ensures
        -0x7f80_0000 < ieee::f32_rank(correction.angle) <= 0x3dcc_cccd,
        forall|axis: int|
            0 <= axis < 3 ==> ieee::f32_magnitude(#[trigger] correction.translation@[axis])
                < 0x7f80_0000,
{
    assert forall|axis: int| 0 <= axis < 3 implies ieee::f32_magnitude(
        #[trigger] correction.translation@[axis],
    ) < 0x7f80_0000 by {
        assert(ieee::f32_finite(correction.translation@[axis]));
    }
}

/// An ordered world holds the very points it is given, and ascends by `x`, then by
/// `y`, then by `z`.
pub proof fn law_world_is_ordered(points: Seq<FusedPoint>, ordered: Seq<FusedPoint>)
    requires
        is_ordered_world(points, ordered),
        points.len() <= usize::MAX,
    ensures
        ordered.to_multiset() == points.to_multiset(),
        forall|i: int, j: int|
            0 <= i < j < ordered.len() ==> {
                let (ax, ay, az) = (
                    ieee::f32_total_rank((#[trigger] ordered[i]).position@[0]),
                    ieee::f32_total_rank(ordered[i].position@[1]),
                    ieee::f32_total_rank(ordered[i].position@[2]),
                );
                let (bx, by, bz) = (
                    ieee::f32_total_rank((#[trigger] ordered[j]).position@[0]),
                    ieee::f32_total_rank(ordered[j].position@[1]),
                    ieee::f32_total_rank(ordered[j].position@[2]),
                );
                ax < bx || (ax == bx && (ay < by || (ay == by && az <= bz)))
            },
{
    let keys = position_keys(points);
    let places = choose|places: Seq<usize>| #[trigger]
        order::is_order(keys, places) && ordered == Seq::new(
            places.len(),
            |i: int| points[places[i] as int],
        );
    order::law_order_keeps_items(keys, places, points);
    assert(ordered =~= order::picked(points, places));
    assert forall|i: int, j: int| 0 <= i < j < ordered.len() implies !(position_rank(
        #[trigger] ordered[j],
    ) < position_rank(#[trigger] ordered[i])) by {
        assert(order::before(keys, places[i] as int, places[j] as int));
        law_rank_orders_positions(ordered[i], ordered[j]);
        law_rank_orders_positions(ordered[j], ordered[i]);
    }
    assert forall|i: int, j: int| 0 <= i < j < ordered.len() implies {
        let (ax, ay, az) = (
            ieee::f32_total_rank((#[trigger] ordered[i]).position@[0]),
            ieee::f32_total_rank(ordered[i].position@[1]),
            ieee::f32_total_rank(ordered[i].position@[2]),
        );
        let (bx, by, bz) = (
            ieee::f32_total_rank((#[trigger] ordered[j]).position@[0]),
            ieee::f32_total_rank(ordered[j].position@[1]),
            ieee::f32_total_rank(ordered[j].position@[2]),
        );
        ax < bx || (ax == bx && (ay < by || (ay == by && az <= bz)))
    } by {
        assert(!(position_rank(ordered[j]) < position_rank(ordered[i])));
        law_rank_orders_positions(ordered[j], ordered[i]);
    }
}

/// Each voxel of a world is its averages, with all its members counted and no frame
/// claimed for it.
pub proof fn law_voxels_are_their_averages(
    groups: Seq<CellGroup>,
    averages: Seq<CellAverage>,
    g: int,
)
    requires
        averages.len() == groups.len(),
        voxels_countable(groups),
        0 <= g < groups.len(),
    ensures
        ({
            let point = voxel_points(groups, averages)[g];
            &&& point.position == averages[g].position
            &&& point.normal == averages[g].normal
            &&& point.color_srgb == averages[g].color_srgb
            &&& point.confidence == averages[g].confidence
            &&& point.radius == averages[g].radius
            &&& point.contributors == groups[g].members@.len()
            &&& point.first_observing_frame == -1
        }),
{
    assert(groups[g].members@.len() <= u32::MAX);
}

proof fn lemma_latest_is_last(
    views: Seq<MeasuredFrameChunk>,
    frame_index: usize,
    code: int,
    count: int,
    v: int,
    p: int,
)
    requires
        0 <= v < count <= views.len(),
        0 <= p < views[v].points@.len(),
        views[v].frame_index == frame_index,
        pixel_code(views[v].points@[p].source_pixel) == code,
    ensures
        latest(views, frame_index, code, count) is Some,
        ({
            let (a, b) = latest(views, frame_index, code, count).unwrap();
            v < a || (v == a && p <= b)
        }),
    decreases count,
{
    let view = views[count - 1];
    if v == count - 1 {
        lemma_latest_point_is_last(view.points@, code, view.points@.len() as int, p);
    } else {
        lemma_latest_is_last(views, frame_index, code, count - 1, v, p);
        lemma_latest(views, frame_index, code, count - 1);
    }
}

proof fn lemma_latest_point_is_last(points: Seq<MeasuredPoint>, code: int, count: int, p: int)
    requires
        0 <= p < count <= points.len(),
        pixel_code(points[p].source_pixel) == code,
    ensures
        latest_point(points, code, count) is Some,
        p <= latest_point(points, code, count).unwrap(),
    decreases count,
{
    if p < count - 1 {
        lemma_latest_point_is_last(points, code, count - 1, p);
    }
}

proof fn lemma_view_matches_complete(
    source: Seq<MeasuredFrameChunk>,
    target: Seq<MeasuredFrameChunk>,
    view: int,
    count: int,
    p: int,
)
    requires
        0 <= view < source.len(),
        0 <= p < count <= source[view].points@.len() <= usize::MAX,
        latest(
            target,
            source[view].frame_index,
            pixel_code(source[view].points@[p].source_pixel),
            target.len() as int,
        ) is Some,
    ensures
        ({
            let (v, q) = latest(
                target,
                source[view].frame_index,
                pixel_code(source[view].points@[p].source_pixel),
                target.len() as int,
            ).unwrap();
            view_matches(source, target, view, count).contains(
                PixelMatch {
                    source_view: view as usize,
                    source_point: p as usize,
                    target_view: v as usize,
                    target_point: q as usize,
                },
            )
        }),
    decreases count,
{
    let (v, q) = latest(
        target,
        source[view].frame_index,
        pixel_code(source[view].points@[p].source_pixel),
        target.len() as int,
    ).unwrap();
    let wanted = PixelMatch {
        source_view: view as usize,
        source_point: p as usize,
        target_view: v as usize,
        target_point: q as usize,
    };
    let rest = view_matches(source, target, view, count - 1);
    let all = view_matches(source, target, view, count);
    if p < count - 1 {
        lemma_view_matches_complete(source, target, view, count - 1, p);
        let i = rest.index_of(wanted);
        assert(all[i] == wanted);
    } else {
        assert(all[all.len() - 1] == wanted);
    }
}

/// Every source point whose frame and pixel the target measured too is matched, with
/// the last point that the target measured there.
pub proof fn law_shared_pixels_are_matched(
    source: Seq<MeasuredFrameChunk>,
    target: Seq<MeasuredFrameChunk>,
    count: int,
    s: int,
    p: int,
    t: int,
    q: int,
)
    requires
        0 <= s < count <= source.len() <= usize::MAX,
        target.len() <= usize::MAX,
        forall|v: int| 0 <= v < source.len() ==> (#[trigger] source[v]).points@.len() <= usize::MAX,
        forall|v: int| 0 <= v < target.len() ==> (#[trigger] target[v]).points@.len() <= usize::MAX,
        0 <= p < source[s].points@.len(),
        0 <= t < target.len(),
        0 <= q < target[t].points@.len(),
        source[s].frame_index == target[t].frame_index,
        source[s].points@[p].source_pixel@ == target[t].points@[q].source_pixel@,
    ensures
        exists|i: int|
            {
                let m = #[trigger] all_matches(source, target, count)[i];
                &&& 0 <= i < all_matches(source, target, count).len()
                &&& m.source_view == s && m.source_point == p
                &&& t < m.target_view || (t == m.target_view && q <= m.target_point)
            },
    decreases count,
{
    let frame = source[s].frame_index;
    let code = pixel_code(source[s].points@[p].source_pixel);
    lemma_latest_is_last(target, frame, code, target.len() as int, t, q);
    lemma_latest(target, frame, code, target.len() as int);
    let (v, b) = latest(target, frame, code, target.len() as int).unwrap();
    let all = all_matches(source, target, count);
    let rest = all_matches(source, target, count - 1);
    assert(source[s].points@.len() <= usize::MAX);
    assert(target[v].points@.len() <= usize::MAX);
    if s < count - 1 {
        law_shared_pixels_are_matched(source, target, count - 1, s, p, t, q);
        let i = choose|i: int|
            {
                let m = #[trigger] rest[i];
                &&& 0 <= i < rest.len()
                &&& m.source_view == s && m.source_point == p
                &&& t < m.target_view || (t == m.target_view && q <= m.target_point)
            };
        assert(all[i] == rest[i]);
    } else {
        let more = view_matches(source, target, s, source[s].points@.len() as int);
        lemma_view_matches_complete(source, target, s, source[s].points@.len() as int, p);
        let wanted = PixelMatch {
            source_view: s as usize,
            source_point: p as usize,
            target_view: v as usize,
            target_point: b as usize,
        };
        let k = more.index_of(wanted);
        assert(all[rest.len() + k] == wanted);
    }
}

/// Matches come in the order of the source, one per source point.
pub proof fn law_each_source_point_is_matched_once(
    source: Seq<MeasuredFrameChunk>,
    target: Seq<MeasuredFrameChunk>,
    count: int,
    i: int,
    j: int,
)
    requires
        0 <= count <= source.len() <= usize::MAX,
        target.len() <= usize::MAX,
        forall|v: int| 0 <= v < source.len() ==> (#[trigger] source[v]).points@.len() <= usize::MAX,
        forall|v: int| 0 <= v < target.len() ==> (#[trigger] target[v]).points@.len() <= usize::MAX,
        0 <= i < j < all_matches(source, target, count).len(),
    ensures
        ({
            let a = all_matches(source, target, count)[i];
            let b = all_matches(source, target, count)[j];
            a.source_view < b.source_view || (a.source_view == b.source_view && a.source_point
                < b.source_point)
        }),
    decreases count,
{
    let rest = all_matches(source, target, count - 1);
    let end = source[count - 1].points@.len() as int;
    assert(source[count - 1].points@.len() <= usize::MAX);
    if j < rest.len() {
        law_each_source_point_is_matched_once(source, target, count - 1, i, j);
    } else if i < rest.len() {
        lemma_match_view(source, target, count - 1, i);
        lemma_view_match(source, target, count - 1, end, j - rest.len());
    } else {
        lemma_view_match(source, target, count - 1, end, i - rest.len());
        lemma_view_match(source, target, count - 1, end, j - rest.len());
        lemma_view_matches_ascend(source, target, count - 1, end, i - rest.len(), j - rest.len());
    }
}

proof fn lemma_match_view(
    source: Seq<MeasuredFrameChunk>,
    target: Seq<MeasuredFrameChunk>,
    count: int,
    i: int,
)
    requires
        0 <= count <= source.len() <= usize::MAX,
        target.len() <= usize::MAX,
        forall|v: int| 0 <= v < source.len() ==> (#[trigger] source[v]).points@.len() <= usize::MAX,
        forall|v: int| 0 <= v < target.len() ==> (#[trigger] target[v]).points@.len() <= usize::MAX,
        0 <= i < all_matches(source, target, count).len(),
    ensures
        all_matches(source, target, count)[i].source_view < count,
    decreases count,
{
    let rest = all_matches(source, target, count - 1);
    assert(source[count - 1].points@.len() <= usize::MAX);
    if i < rest.len() {
        lemma_match_view(source, target, count - 1, i);
    } else {
        lemma_view_match(
            source,
            target,
            count - 1,
            source[count - 1].points@.len() as int,
            i - rest.len(),
        );
    }
}

proof fn lemma_view_matches_ascend(
    source: Seq<MeasuredFrameChunk>,
    target: Seq<MeasuredFrameChunk>,
    view: int,
    count: int,
    i: int,
    j: int,
)
    requires
        0 <= view < source.len() <= usize::MAX,
        target.len() <= usize::MAX,
        forall|v: int| 0 <= v < target.len() ==> (#[trigger] target[v]).points@.len() <= usize::MAX,
        0 <= count <= source[view].points@.len() <= usize::MAX,
        0 <= i < j < view_matches(source, target, view, count).len(),
    ensures
        view_matches(source, target, view, count)[i].source_point < view_matches(
            source,
            target,
            view,
            count,
        )[j].source_point,
    decreases count,
{
    if count > 0 {
        let rest = view_matches(source, target, view, count - 1);
        if j < rest.len() {
            lemma_view_matches_ascend(source, target, view, count - 1, i, j);
        } else {
            lemma_view_match(source, target, view, count - 1, i);
        }
    }
}

} // verus!
