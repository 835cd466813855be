//! Deferred emission: which measured points enter the world, once, from the
//! window that owns their frame, and which loops are closed before that.

use std::collections::HashMap;

use vstd::prelude::*;

use crate::geometry::{MeasuredPoint, WindowMeasuredChunk};
use crate::global_fusion;
use crate::global_fusion::{surface_points, Placement};
use crate::ieee;
use crate::order;
use crate::pose_graph::{PoseGraphEdge, PoseGraphReport};
use crate::reconstruction;
use crate::reconstruction::{check_capture_profile, ReconstructionError};
use crate::revisit;
use crate::revisit::{revisit_pairs, CameraPair};
use crate::schedule::{FrameWindow, WindowSettings};
use crate::tsdf;
use crate::tsdf::{fuse_normal_space_tsdf, SurfaceEvidence, TsdfObservation, TsdfSurfel};
use crate::world::{AlignmentReport, FusedPoint, SimilarityTransform};

verus! {

broadcast use vstd::std_specs::hash::group_hash_axioms;

/// A view by the places of its window and of itself.
#[derive(Debug, Clone, Copy, PartialEq, Eq, Structural)]
pub struct ViewPlace {
    pub window: usize,
    pub view: usize,
}

/// A point by the places of its window, its view and itself.
#[derive(Debug, Clone, Copy, PartialEq, Eq, Structural)]
pub struct PointPlace {
    pub window: usize,
    pub view: usize,
    pub point: usize,
}

/// The frame of a view.
pub open spec fn frame_at(windows: Seq<WindowMeasuredChunk>, w: int, v: int) -> usize {
    windows[w].views@[v].frame_index
}

/// A view before `(w, v)` in window order shows the frame.
pub open spec fn shown_before(
    windows: Seq<WindowMeasuredChunk>,
    frame_index: usize,
    w: int,
    v: int,
) -> bool {
    exists|a: int, b: int| #[trigger]
        precedes(windows, a, b, w, v) && frame_at(windows, a, b) == frame_index
}

/// `(a, b)` is a view that comes before `(w, v)`.
pub open spec fn precedes(
    windows: Seq<WindowMeasuredChunk>,
    a: int,
    b: int,
    w: int,
    v: int,
) -> bool {
    &&& 0 <= a < windows.len()
    &&& 0 <= b < windows[a].views@.len()
    &&& a < w || (a == w && b < v)
}

/// The first views of their frames among the first `count` of a window.
pub open spec fn window_owners(
    windows: Seq<WindowMeasuredChunk>,
    w: int,
    count: int,
) -> Seq<ViewPlace>
    decreases count,
{
    if count <= 0 {
        Seq::empty()
    } else {
        let rest = window_owners(windows, w, count - 1);
        if shown_before(windows, frame_at(windows, w, count - 1), w, count - 1) {
            rest
        } else {
            rest.push(ViewPlace { window: w as usize, view: (count - 1) as usize })
        }
    }
}

/// The first views of their frames among the first `count` windows.
pub open spec fn owners(windows: Seq<WindowMeasuredChunk>, count: int) -> Seq<ViewPlace>
    decreases count,
{
    if count <= 0 {
        Seq::empty()
    } else {
        owners(windows, count - 1) + window_owners(
            windows,
            count - 1,
            windows[count - 1].views@.len() as int,
        )
    }
}

/// The frames seen so far.
spec fn seen_until(seen: Map<usize, bool>, windows: Seq<WindowMeasuredChunk>, w: int, v: int) -> bool {
    forall|frame: usize| #[trigger]
        seen.contains_key(frame) <==> shown_before(windows, frame, w, v)
}

proof fn lemma_shown_next_window(windows: Seq<WindowMeasuredChunk>, w: int)
    requires
        0 <= w < windows.len(),
    ensures
        forall|frame: usize|
            shown_before(windows, frame, w + 1, 0) <==> #[trigger] shown_before(
                windows,
                frame,
                w,
                windows[w].views@.len() as int,
            ),
{
    assert forall|frame: usize|
        shown_before(windows, frame, w + 1, 0) <==> #[trigger] shown_before(
            windows,
            frame,
            w,
            windows[w].views@.len() as int,
        ) by {
        let end = windows[w].views@.len() as int;
        if shown_before(windows, frame, w + 1, 0) {
            let (a, b) = choose|a: int, b: int| #[trigger]
                precedes(windows, a, b, w + 1, 0) && frame_at(windows, a, b) == frame;
            assert(precedes(windows, a, b, w, end));
        }
        if shown_before(windows, frame, w, end) {
            let (a, b) = choose|a: int, b: int| #[trigger]
                precedes(windows, a, b, w, end) && frame_at(windows, a, b) == frame;
            assert(precedes(windows, a, b, w + 1, 0));
        }
    }
}

proof fn lemma_shown_next_view(windows: Seq<WindowMeasuredChunk>, w: int, v: int)
    requires
        0 <= w < windows.len(),
        0 <= v < windows[w].views@.len(),
    ensures
        forall|frame: usize| #[trigger]
            shown_before(windows, frame, w, v + 1) <==> (shown_before(windows, frame, w, v)
                || frame == frame_at(windows, w, v)),
{
    assert forall|frame: usize| #[trigger]
        shown_before(windows, frame, w, v + 1) <==> (shown_before(windows, frame, w, v) || frame
            == frame_at(windows, w, v)) by {
        if shown_before(windows, frame, w, v + 1) {
            let (a, b) = choose|a: int, b: int| #[trigger]
                precedes(windows, a, b, w, v + 1) && frame_at(windows, a, b) == frame;
            if !(a == w && b == v) {
                assert(precedes(windows, a, b, w, v));
            }
        }
        if shown_before(windows, frame, w, v) {
            let (a, b) = choose|a: int, b: int| #[trigger]
                precedes(windows, a, b, w, v) && frame_at(windows, a, b) == frame;
            assert(precedes(windows, a, b, w, v + 1));
        }
        if frame == frame_at(windows, w, v) {
            assert(precedes(windows, w, v, w, v + 1));
        }
    }
}

/// Each frame once, from the first view that shows it.
pub fn first_owners(windows: &Vec<WindowMeasuredChunk>) -> (places: Vec<ViewPlace>)
    ensures
        places@ == owners(windows@, windows@.len() as int),
{
    let mut seen: HashMap<usize, bool> = HashMap::new();
    let mut places: Vec<ViewPlace> = Vec::new();
    for w in 0..windows.len()
        invariant
            seen_until(seen@, windows@, w as int, 0),
            places@ == owners(windows@, w as int),
    {
        let ghost start = places@;
        assert(start + window_owners(windows@, w as int, 0) =~= start);
        let window = &windows[w];
        for v in 0..window.views.len()
            invariant
                w < windows@.len(),
                window == windows@[w as int],
                seen_until(seen@, windows@, w as int, v as int),
                places@ == start + window_owners(windows@, w as int, v as int),
        {
            let frame: usize = window.views[v].frame_index;
            let ghost before = seen@;
            let earlier: Option<bool> = seen.insert(frame, true);
            proof {
                assert(before.contains_key(frame) <==> shown_before(
                    windows@,
                    frame,
                    w as int,
                    v as int,
                ));
                lemma_shown_next_view(windows@, w as int, v as int);
                assert forall|f: usize| #[trigger] seen@.contains_key(f) <==> shown_before(
                    windows@,
                    f,
                    w as int,
                    v + 1,
                ) by {
                    assert(before.contains_key(f) <==> shown_before(
                        windows@,
                        f,
                        w as int,
                        v as int,
                    ));
                }
            }
            if earlier.is_none() {
                places.push(ViewPlace { window: w, view: v });
                assert(places@ =~= start + window_owners(windows@, w as int, v + 1));
            }
        }
        proof {
            lemma_shown_next_window(windows@, w as int);
            assert forall|f: usize| #[trigger] seen@.contains_key(f) <==> shown_before(
                windows@,
                f,
                w + 1,
                0,
            ) by {
                assert(seen@.contains_key(f) <==> shown_before(
                    windows@,
                    f,
                    w as int,
                    windows@[w as int].views@.len() as int,
                ));
            }
        }
    }
    places
}

/// A place of the owners is a view that exists and shows its frame first.
proof fn lemma_window_owner(windows: Seq<WindowMeasuredChunk>, w: int, count: int, i: int)
    requires
        0 <= w < windows.len() <= usize::MAX,
        0 <= count <= windows[w].views@.len() <= usize::MAX,
        0 <= i < window_owners(windows, w, count).len(),
    ensures
        ({
            let place = window_owners(windows, w, count)[i];
            &&& place.window == w
            &&& place.view < count
            &&& !shown_before(
                windows,
                frame_at(windows, w, place.view as int),
                w,
                place.view as int,
            )
        }),
    decreases count,
{
    if count > 0 {
        let rest = window_owners(windows, w, count - 1);
        if i < rest.len() {
            lemma_window_owner(windows, w, count - 1, i);
        }
    }
}

proof fn lemma_owner(windows: Seq<WindowMeasuredChunk>, count: int, i: int)
    requires
        0 <= count <= windows.len() <= usize::MAX,
        forall|w: int| 0 <= w < windows.len() ==> (#[trigger] windows[w]).views@.len() <= usize::MAX,
        0 <= i < owners(windows, count).len(),
    ensures
        ({
            let place = owners(windows, count)[i];
            &&& place.window < count
            &&& place.view < windows[place.window as int].views@.len()
            &&& !shown_before(
                windows,
                frame_at(windows, place.window as int, place.view as int),
                place.window as int,
                place.view as int,
            )
        }),
    decreases count,
{
    if count > 0 {
        let rest = owners(windows, count - 1);
        if i < rest.len() {
            lemma_owner(windows, count - 1, i);
        } else {
            lemma_window_owner(
                windows,
                count - 1,
                windows[count - 1].views@.len() as int,
                i - rest.len(),
            );
        }
    }
}

/// No frame is emitted twice: two emitted views show different frames.
pub proof fn law_frames_are_emitted_once(windows: Seq<WindowMeasuredChunk>, i: int, j: int)
    requires
        windows.len() <= usize::MAX,
        forall|w: int| 0 <= w < windows.len() ==> (#[trigger] windows[w]).views@.len() <= usize::MAX,
        0 <= i < j < owners(windows, windows.len() as int).len(),
    ensures
        ({
            let a = owners(windows, windows.len() as int)[i];
            let b = owners(windows, windows.len() as int)[j];
            frame_at(windows, a.window as int, a.view as int) != frame_at(
                windows,
                b.window as int,
                b.view as int,
            )
        }),
{
    let all = owners(windows, windows.len() as int);
    lemma_owner(windows, windows.len() as int, i);
    lemma_owner(windows, windows.len() as int, j);
    lemma_owners_ascend(windows, windows.len() as int, i, j);
    assert(precedes(
        windows,
        all[i].window as int,
        all[i].view as int,
        all[j].window as int,
        all[j].view as int,
    ));
}

/// Owners are listed in window order, each once.
proof fn lemma_owners_ascend(windows: Seq<WindowMeasuredChunk>, count: int, i: int, j: int)
    requires
        0 <= count <= windows.len() <= usize::MAX,
        forall|w: int| 0 <= w < windows.len() ==> (#[trigger] windows[w]).views@.len() <= usize::MAX,
        0 <= i < j < owners(windows, count).len(),
    ensures
        ({
            let a = owners(windows, count)[i];
            let b = owners(windows, count)[j];
            a.window < b.window || (a.window == b.window && a.view < b.view)
        }),
    decreases count,
{
    if count > 0 {
        let rest = owners(windows, count - 1);
        let end = windows[count - 1].views@.len() as int;
        if j < rest.len() {
            lemma_owners_ascend(windows, count - 1, i, j);
        } else if i < rest.len() {
            lemma_owner(windows, count - 1, i);
            lemma_window_owner(windows, count - 1, end, j - rest.len());
        } else {
            lemma_window_owner(windows, count - 1, end, i - rest.len());
            lemma_window_owner(windows, count - 1, end, j - rest.len());
            lemma_views_ascend(windows, count - 1, end, i - rest.len(), j - rest.len());
        }
    }
}

proof fn lemma_views_ascend(windows: Seq<WindowMeasuredChunk>, w: int, count: int, i: int, j: int)
    requires
        0 <= w < windows.len() <= usize::MAX,
        0 <= count <= windows[w].views@.len() <= usize::MAX,
        0 <= i < j < window_owners(windows, w, count).len(),
    ensures
        window_owners(windows, w, count)[i].view < window_owners(windows, w, count)[j].view,
    decreases count,
{
    if count > 0 {
        let rest = window_owners(windows, w, count - 1);
        if j < rest.len() {
            lemma_views_ascend(windows, w, count - 1, i, j);
        } else {
            lemma_window_owner(windows, w, count - 1, i);
        }
    }
}

/// A point with finite geometry, positive confidence and positive radius.
pub open spec fn emits_globally(point: MeasuredPoint) -> bool {
    &&& ieee::f32_all_finite(point.position@)
    &&& ieee::f32_all_finite(point.normal@)
    &&& ieee::f32_positive(point.confidence)
    &&& ieee::f32_positive(point.radius)
}

/// A point with a finite position and a positive radius whose confidence
/// reaches the threshold of its window.
pub open spec fn emits_relatively(point: MeasuredPoint, threshold: u32) -> bool {
    &&& ieee::f32_all_finite(point.position@)
    &&& ieee::f32_finite(point.confidence)
    &&& !ieee::f32_less(point.confidence, threshold)
    &&& ieee::f32_positive(point.radius)
}

/// A point is emitted: by the rule of the relative world where its window has
/// a threshold, by the rule of a global world otherwise.
pub open spec fn emits(point: MeasuredPoint, threshold: Option<u32>) -> bool {
    match threshold {
        None => emits_globally(point),
        Some(limit) => emits_relatively(point, limit),
    }
}

fn point_emits(point: &MeasuredPoint, threshold: Option<u32>) -> (answer: bool)
    ensures
        answer == emits(*point, threshold),
{
    match threshold {
        None => ieee::f32s_are_finite(&point.position) && ieee::f32s_are_finite(&point.normal)
            && ieee::f32_is_positive(point.confidence) && ieee::f32_is_positive(point.radius),
        Some(limit) => ieee::f32s_are_finite(&point.position) && ieee::f32_is_finite(
            point.confidence,
        ) && !ieee::f32_lt(point.confidence, limit) && ieee::f32_is_positive(point.radius),
    }
}

/// Which rule a world is emitted by.
#[derive(Debug, Clone, Copy, PartialEq, Eq, Structural)]
pub enum EmissionRule {
    Global,
    Relative,
}

/// The threshold of a window under a rule. A window without one is emitted by
/// the global rule.
pub open spec fn threshold_of(window: WindowMeasuredChunk, rule: EmissionRule) -> Option<u32> {
    match rule {
        EmissionRule::Global => None,
        EmissionRule::Relative => window.cpp_pr2_emission_confidence_threshold,
    }
}

/// The emitted ones of the first `count` points of a view.
pub open spec fn view_emission(
    windows: Seq<WindowMeasuredChunk>,
    place: ViewPlace,
    rule: EmissionRule,
    count: int,
) -> Seq<PointPlace>
    decreases count,
{
    if count <= 0 {
        Seq::empty()
    } else {
        let window = windows[place.window as int];
        let rest = view_emission(windows, place, rule, count - 1);
        if emits(window.views@[place.view as int].points@[count - 1], threshold_of(window, rule)) {
            rest.push(
                PointPlace {
                    window: place.window,
                    view: place.view,
                    point: (count - 1) as usize,
                },
            )
        } else {
            rest
        }
    }
}

/// The emitted points of the first `count` listed views.
pub open spec fn emission(
    windows: Seq<WindowMeasuredChunk>,
    places: Seq<ViewPlace>,
    rule: EmissionRule,
    count: int,
) -> Seq<PointPlace>
    decreases count,
{
    if count <= 0 {
        Seq::empty()
    } else {
        let place = places[count - 1];
        emission(windows, places, rule, count - 1) + view_emission(
            windows,
            place,
            rule,
            windows[place.window as int].views@[place.view as int].points@.len() as int,
        )
    }
}

/// Every listed view exists.
pub open spec fn views_exist(windows: Seq<WindowMeasuredChunk>, places: Seq<ViewPlace>) -> bool {
    forall|i: int|
        0 <= i < places.len() ==> (#[trigger] places[i]).window < windows.len() && places[i].view
            < windows[places[i].window as int].views@.len()
}

/// The points that the listed views emit.
pub fn emitted_points(
    windows: &Vec<WindowMeasuredChunk>,
    places: &Vec<ViewPlace>,
    rule: EmissionRule,
) -> (points: Vec<PointPlace>)
    requires
        views_exist(windows@, places@),
    ensures
        points@ == emission(windows@, places@, rule, places@.len() as int),
        points_exist(windows@, points@),
{
    let mut points: Vec<PointPlace> = Vec::new();
    for i in 0..places.len()
        invariant
            views_exist(windows@, places@),
            points@ == emission(windows@, places@, rule, i as int),
            points_exist(windows@, points@),
    {
        let place = places[i];
        let window = &windows[place.window];
        let threshold: Option<u32> = match rule {
            EmissionRule::Global => None,
            EmissionRule::Relative => window.cpp_pr2_emission_confidence_threshold,
        };
        let view = &window.views[place.view];
        let ghost start = points@;
        assert(start + view_emission(windows@, place, rule, 0) =~= start);
        for p in 0..view.points.len()
            invariant
                place.window < windows@.len(),
                place.view < windows@[place.window as int].views@.len(),
                view == windows@[place.window as int].views@[place.view as int],
                threshold == threshold_of(windows@[place.window as int], rule),
                points@ == start + view_emission(windows@, place, rule, p as int),
                points_exist(windows@, points@),
        {
            if point_emits(&view.points[p], threshold) {
                points.push(PointPlace { window: place.window, view: place.view, point: p });
                assert(points@ =~= start + view_emission(windows@, place, rule, p + 1));
            }
        }
    }
    points
}

/// The points that the first owners of all frames emit.
pub open spec fn world_emission(windows: Seq<WindowMeasuredChunk>, rule: EmissionRule) -> Seq<
    PointPlace,
> {
    let places = owners(windows, windows.len() as int);
    emission(windows, places, rule, places.len() as int)
}

/// The points of the world that its first owners emit.
pub fn emit_windows(windows: &Vec<WindowMeasuredChunk>, rule: EmissionRule) -> (points: Vec<
    PointPlace,
>)
    ensures
        points@ == world_emission(windows@, rule),
        points_exist(windows@, points@),
{
    let _count: usize = windows.len();
    let places: Vec<ViewPlace> = first_owners(windows);
    proof {
        assert forall|i: int| 0 <= i < places@.len() implies (#[trigger] places@[i]).window
            < windows@.len() && places@[i].view
            < windows@[places@[i].window as int].views@.len() by {
            lemma_owner_exists(windows@, windows@.len() as int, i);
        }
    }
    emitted_points(windows, &places, rule)
}

/// A place of the owners exists, as far as its numbers fit.
proof fn lemma_owner_exists(windows: Seq<WindowMeasuredChunk>, count: int, i: int)
    requires
        0 <= count <= windows.len() <= usize::MAX,
        0 <= i < owners(windows, count).len(),
    ensures
        ({
            let place = owners(windows, count)[i];
            &&& place.window < count
            &&& place.view < windows[place.window as int].views@.len()
        }),
    decreases count,
{
    let rest = owners(windows, count - 1);
    if i < rest.len() {
        lemma_owner_exists(windows, count - 1, i);
    } else {
        lemma_window_owner_exists(
            windows,
            count - 1,
            windows[count - 1].views@.len() as int,
            i - rest.len(),
        );
    }
}

proof fn lemma_window_owner_exists(windows: Seq<WindowMeasuredChunk>, w: int, count: int, i: int)
    requires
        0 <= w < windows.len() <= usize::MAX,
        0 <= count <= windows[w].views@.len(),
        0 <= i < window_owners(windows, w, count).len(),
    ensures
        window_owners(windows, w, count)[i].window == w,
        window_owners(windows, w, count)[i].view < count,
    decreases count,
{
    if count > 0 {
        let rest = window_owners(windows, w, count - 1);
        if i < rest.len() {
            lemma_window_owner_exists(windows, w, count - 1, i);
        }
    }
}

/// An emitted point in the world.
pub open spec fn world_point(
    windows: Seq<WindowMeasuredChunk>,
    place: PointPlace,
    placement: Placement,
) -> FusedPoint {
    let view = windows[place.window as int].views@[place.view as int];
    let point = view.points@[place.point as int];
    FusedPoint {
        position: placement.position,
        normal: placement.normal,
        color_srgb: point.color_srgb,
        confidence: point.confidence,
        radius: placement.radius,
        first_observing_frame: view.frame_index as i32,
        contributors: 1,
    }
}

/// Every listed point exists.
pub open spec fn points_exist(windows: Seq<WindowMeasuredChunk>, places: Seq<PointPlace>) -> bool {
    forall|i: int|
        0 <= i < places.len() ==> {
            let place = #[trigger] places[i];
            &&& place.window < windows.len()
            &&& place.view < windows[place.window as int].views@.len()
            &&& place.point < windows[place.window as int].views@[place.view as int].points@.len()
        }
}

/// The emitted points with the placements the poses give them.
pub fn world_points(
    windows: &Vec<WindowMeasuredChunk>,
    places: &Vec<PointPlace>,
    placements: &Vec<Placement>,
) -> (points: Vec<FusedPoint>)
    requires
        points_exist(windows@, places@),
        placements@.len() == places@.len(),
    ensures
        points@ == Seq::new(
            places@.len(),
            |i: int| world_point(windows@, places@[i], placements@[i]),
        ),
{
    let ghost whole = Seq::new(
        places@.len(),
        |i: int| world_point(windows@, places@[i], placements@[i]),
    );
    let mut points: Vec<FusedPoint> = Vec::new();
    for i in 0..places.len()
        invariant
            points_exist(windows@, places@),
            placements@.len() == places@.len(),
            whole == Seq::new(
                places@.len(),
                |i: int| world_point(windows@, places@[i], placements@[i]),
            ),
            points@ == whole.take(i as int),
    {
        let place = places[i];
        let placement = placements[i];
        let view = &windows[place.window].views[place.view];
        let point = view.points[place.point];
        points.push(
            FusedPoint {
                position: placement.position,
                normal: placement.normal,
                color_srgb: point.color_srgb,
                confidence: point.confidence,
                radius: placement.radius,
                first_observing_frame: #[verifier::truncate] (view.frame_index as i32),
                contributors: 1,
            },
        );
        assert(points@ =~= whole.take(i + 1));
    }
    assert(whole.take(places@.len() as int) =~= whole);
    points
}

/// A point of the world as evidence for surface fusion.
pub open spec fn observation_of(point: FusedPoint) -> TsdfObservation {
    TsdfObservation {
        position: point.position,
        color_srgb: point.color_srgb,
        confidence: point.confidence,
        radius: point.radius,
        frame_index: point.first_observing_frame,
    }
}

/// The points of the world as evidence for surface fusion.
pub open spec fn observations_of(points: Seq<FusedPoint>) -> Seq<TsdfObservation> {
    Seq::new(points.len(), |i: int| observation_of(points[i]))
}

/// The points of the world as evidence for surface fusion.
pub fn surface_evidence(points: &Vec<FusedPoint>) -> (observations: Vec<TsdfObservation>)
    ensures
        observations@ == observations_of(points@),
{
    let ghost whole = Seq::new(points@.len(), |i: int| observation_of(points@[i]));
    let mut observations: Vec<TsdfObservation> = Vec::new();
    for i in 0..points.len()
        invariant
            whole == Seq::new(points@.len(), |i: int| observation_of(points@[i])),
            observations@ == whole.take(i as int),
    {
        let point = points[i];
        observations.push(
            TsdfObservation {
                position: point.position,
                color_srgb: point.color_srgb,
                confidence: point.confidence,
                radius: point.radius,
                frame_index: point.first_observing_frame,
            },
        );
        assert(observations@ =~= whole.take(i + 1));
    }
    assert(whole.take(points@.len() as int) =~= whole);
    observations
}

/// The first view of a window that the window owns: all of the first window,
/// the views after the overlap of any other.
pub open spec fn first_owned(window_index: usize, overlap: usize, views: int) -> int {
    if window_index == 0 {
        0
    } else if overlap < views {
        overlap as int
    } else {
        views
    }
}

/// Where the own views of a window start.
pub fn first_owned_view(window_index: usize, overlap: usize, views: usize) -> (first: usize)
    ensures
        first == first_owned(window_index, overlap, views as int),
{
    if window_index == 0 {
        0
    } else if overlap < views {
        overlap
    } else {
        views
    }
}

/// A point of a key cloud: confident enough, with a finite position.
pub open spec fn is_key(point: MeasuredPoint, threshold: Option<u32>) -> bool {
    &&& threshold matches Some(limit) ==> ieee::f32_at_most(limit, point.confidence)
    &&& ieee::f32_all_finite(point.position@)
}

/// The key positions among the first `count` points.
pub open spec fn view_keys(
    points: Seq<MeasuredPoint>,
    threshold: Option<u32>,
    count: int,
) -> Seq<[u32; 3]>
    decreases count,
{
    if count <= 0 {
        Seq::empty()
    } else if is_key(points[count - 1], threshold) {
        view_keys(points, threshold, count - 1).push(points[count - 1].position)
    } else {
        view_keys(points, threshold, count - 1)
    }
}

/// The key positions of the views from `first` up to `end`.
pub open spec fn owned_keys(
    window: WindowMeasuredChunk,
    threshold: Option<u32>,
    first: int,
    end: int,
) -> Seq<[u32; 3]>
    decreases end - first,
{
    if end <= first {
        Seq::empty()
    } else {
        let points = window.views@[end - 1].points@;
        owned_keys(window, threshold, first, end - 1) + view_keys(
            points,
            threshold,
            points.len() as int,
        )
    }
}

/// Key clouds are thinned to about this many points.
pub const KEY_POINTS: usize = 3000;

/// Every how many key positions one is kept.
pub open spec fn key_stride(count: int) -> int {
    if count / KEY_POINTS as int > 1 {
        count / KEY_POINTS as int
    } else {
        1
    }
}

/// Every `stride`-th item of a list, from the first.
pub open spec fn thinned(items: Seq<[u32; 3]>, stride: int) -> Seq<[u32; 3]> {
    Seq::new(((items.len() + stride - 1) / stride) as nat, |i: int| items[i * stride])
}

fn put_keys(points: &Vec<MeasuredPoint>, threshold: Option<u32>, keys: &mut Vec<[u32; 3]>)
    ensures
        final(keys)@ == old(keys)@ + view_keys(points@, threshold, points@.len() as int),
{
    let ghost start = keys@;
    assert(start + view_keys(points@, threshold, 0) =~= start);
    for p in 0..points.len()
        invariant
            start == old(keys)@,
            keys@ == start + view_keys(points@, threshold, p as int),
    {
        let point = points[p];
        let confident = match threshold {
            None => true,
            Some(limit) => ieee::f32_le(limit, point.confidence),
        };
        if confident && ieee::f32s_are_finite(&point.position) {
            keys.push(point.position);
            assert(keys@ =~= start + view_keys(points@, threshold, p + 1));
        }
    }
}

fn thin(items: &Vec<[u32; 3]>, stride: usize) -> (kept: Vec<[u32; 3]>)
    requires
        stride > 0,
    ensures
        kept@ == thinned(items@, stride as int),
{
    let mut kept: Vec<[u32; 3]> = Vec::new();
    let mut at: usize = 0;
    let ghost whole = thinned(items@, stride as int);
    let mut more = items.len() > 0;
    assert(0 * stride == 0) by (nonlinear_arith);
    proof {
        lemma_thinned_count(items@.len() as int, stride as int, 0);
    }
    while more
        invariant
            stride > 0,
            whole == thinned(items@, stride as int),
            kept@.len() <= whole.len(),
            kept@ == whole.take(kept@.len() as int),
            more ==> at < items@.len() && at == kept@.len() * stride && kept@.len() < whole.len(),
            !more ==> kept@.len() == whole.len(),
        decreases whole.len() - kept@.len(),
    {
        let ghost k = kept@.len() as int;
        kept.push(items[at]);
        assert(whole[k] == items@[k * stride]);
        assert(kept@ =~= whole.take(k + 1));
        assert((k + 1) * stride == k * stride + stride) by (nonlinear_arith);
        proof {
            lemma_thinned_count(items@.len() as int, stride as int, k + 1);
        }
        if stride < items.len() - at {
            at = at + stride;
        } else {
            more = false;
        }
    }
    assert(whole.take(whole.len() as int) =~= whole);
    kept
}

/// How many multiples of the stride lie below a length.
proof fn lemma_thinned_count(len: int, stride: int, k: int)
    requires
        0 <= len,
        stride > 0,
        0 <= k,
    ensures
        k * stride < len <==> k < (len + stride - 1) / stride,
{
    let q = (len + stride - 1) / stride;
    let r = (len + stride - 1) % stride;
    assert(len + stride - 1 == q * stride + r && 0 <= r < stride) by (nonlinear_arith)
        requires
            stride > 0,
            q == (len + stride - 1) / stride,
            r == (len + stride - 1) % stride,
    ;
    if k < q {
        assert(k * stride <= q * stride - stride) by (nonlinear_arith)
            requires
                k <= q - 1,
                stride > 0,
        ;
    } else {
        assert(q * stride <= k * stride) by (nonlinear_arith)
            requires
                q <= k,
                stride > 0,
        ;
    }
}

/// The key cloud of a window: the confident positions of the views it owns,
/// thinned evenly.
pub fn first_owner_key_cloud(
    window: &WindowMeasuredChunk,
    overlap: usize,
    threshold: Option<u32>,
) -> (cloud: Vec<[u32; 3]>)
    ensures
        ({
            let views = window.views@.len() as int;
            let keys = owned_keys(
                *window,
                threshold,
                first_owned(window.window.index, overlap, views),
                views,
            );
            cloud@ == thinned(keys, key_stride(keys.len() as int))
        }),
{
    let first: usize = first_owned_view(window.window.index, overlap, window.views.len());
    let mut keys: Vec<[u32; 3]> = Vec::new();
    for v in first..window.views.len()
        invariant
            keys@ == owned_keys(*window, threshold, first as int, v as int),
    {
        put_keys(&window.views[v].points, threshold, &mut keys);
    }
    let count: usize = keys.len();
    let stride: usize = if count / KEY_POINTS > 1 {
        count / KEY_POINTS
    } else {
        1
    };
    thin(&keys, stride)
}

/// The owned emission of the first `count` views of a window, from `first` on:
/// points whose confidence reaches the threshold.
pub open spec fn owned_emission(
    window: WindowMeasuredChunk,
    w: int,
    threshold: u32,
    first: int,
    end: int,
) -> Seq<PointPlace>
    decreases end - first,
{
    if end <= first {
        Seq::empty()
    } else {
        owned_emission(window, w, threshold, first, end - 1) + confident_points(
            window.views@[end - 1].points@,
            w,
            end - 1,
            threshold,
            window.views@[end - 1].points@.len() as int,
        )
    }
}

/// The confident ones of the first `count` points of a view.
pub open spec fn confident_points(
    points: Seq<MeasuredPoint>,
    w: int,
    v: int,
    threshold: u32,
    count: int,
) -> Seq<PointPlace>
    decreases count,
{
    if count <= 0 {
        Seq::empty()
    } else {
        let rest = confident_points(points, w, v, threshold, count - 1);
        if ieee::f32_at_most(threshold, points[count - 1].confidence) {
            rest.push(
                PointPlace {
                    window: w as usize,
                    view: v as usize,
                    point: (count - 1) as usize,
                },
            )
        } else {
            rest
        }
    }
}

/// The reference emission of the first `count` windows.
pub open spec fn reference_emission(
    windows: Seq<WindowMeasuredChunk>,
    thresholds: Seq<u32>,
    overlap: usize,
    count: int,
) -> Seq<PointPlace>
    decreases count,
{
    if count <= 0 {
        Seq::empty()
    } else {
        let w = count - 1;
        let views = windows[w].views@.len() as int;
        reference_emission(windows, thresholds, overlap, w) + owned_emission(
            windows[w],
            w,
            thresholds[w],
            first_owned(windows[w].window.index, overlap, views),
            views,
        )
    }
}

fn put_confident(
    points: &Vec<MeasuredPoint>,
    w: usize,
    v: usize,
    threshold: u32,
    places: &mut Vec<PointPlace>,
)
    ensures
        final(places)@ == old(places)@ + confident_points(
            points@,
            w as int,
            v as int,
            threshold,
            points@.len() as int,
        ),
        forall|i: int|
            old(places)@.len() <= i < final(places)@.len() ==> {
                let place = #[trigger] final(places)@[i];
                place.window == w && place.view == v && place.point < points@.len()
            },
{
    let ghost start = places@;
    assert(start + confident_points(points@, w as int, v as int, threshold, 0) =~= start);
    for p in 0..points.len()
        invariant
            start == old(places)@,
            start.len() <= places@.len(),
            forall|i: int|
                start.len() <= i < places@.len() ==> {
                    let place = #[trigger] places@[i];
                    place.window == w && place.view == v && place.point < points@.len()
                },
            places@ == start + confident_points(
                points@,
                w as int,
                v as int,
                threshold,
                p as int,
            ),
    {
        if ieee::f32_le(threshold, points[p].confidence) {
            places.push(PointPlace { window: w, view: v, point: p });
            assert(places@ =~= start + confident_points(
                points@,
                w as int,
                v as int,
                threshold,
                p + 1,
            ));
        }
    }
}

/// The points of the reference emission: of each window the views it owns, of
/// those the points at or above the window's threshold. Windows and poses have
/// to match in number.
pub fn emit_reference(
    windows: &Vec<WindowMeasuredChunk>,
    poses: usize,
    thresholds: &Vec<u32>,
    overlap: usize,
) -> (result: Result<Vec<PointPlace>, ReconstructionError>)
    requires
        thresholds@.len() == windows@.len(),
    ensures
        match result {
            Ok(places) => poses == windows@.len() && places@ == reference_emission(
                windows@,
                thresholds@,
                overlap,
                windows@.len() as int,
            ) && points_exist(windows@, places@),
            Err(e) => poses != windows@.len() && e is OracleOutputShape,
        },
{
    if poses != windows.len() {
        return Err(ReconstructionError::OracleOutputShape);
    }
    let mut places: Vec<PointPlace> = Vec::new();
    for w in 0..windows.len()
        invariant
            thresholds@.len() == windows@.len(),
            places@ == reference_emission(windows@, thresholds@, overlap, w as int),
            points_exist(windows@, places@),
    {
        let window = &windows[w];
        let first: usize = first_owned_view(window.window.index, overlap, window.views.len());
        let ghost start = places@;
        assert(start + owned_emission(
            *window,
            w as int,
            thresholds@[w as int],
            first as int,
            first as int,
        ) =~= start);
        for v in first..window.views.len()
            invariant
                w < windows@.len(),
                window == windows@[w as int],
                thresholds@.len() == windows@.len(),
                points_exist(windows@, places@),
                places@ == start + owned_emission(
                    *window,
                    w as int,
                    thresholds@[w as int],
                    first as int,
                    v as int,
                ),
        {
            let ghost before = places@;
            put_confident(&window.views[v].points, w, v, thresholds[w], &mut places);
            assert forall|i: int| 0 <= i < places@.len() implies {
                let place = #[trigger] places@[i];
                &&& place.window < windows@.len()
                &&& place.view < windows@[place.window as int].views@.len()
                &&& place.point
                    < windows@[place.window as int].views@[place.view as int].points@.len()
            } by {
                if i < before.len() {
                    assert(places@[i] == before[i]);
                }
            }
            assert(places@ =~= start + owned_emission(
                *window,
                w as int,
                thresholds@[w as int],
                first as int,
                v + 1,
            ));
        }
    }
    Ok(places)
}

/// How many of the first `count` points were first seen by a frame. A point
/// without a frame counts for frame zero.
pub open spec fn owned_by(points: Seq<FusedPoint>, frame: int, count: int) -> nat
    decreases count,
{
    if count <= 0 {
        0
    } else {
        owned_by(points, frame, count - 1) + if owner_of(points[count - 1]) == frame {
            1nat
        } else {
            0nat
        }
    }
}

/// The frame a point counts for.
pub open spec fn owner_of(point: FusedPoint) -> int {
    if point.first_observing_frame > 0 {
        point.first_observing_frame as int
    } else {
        0
    }
}

/// A count that stops at the largest number of its type.
pub open spec fn saturated(count: nat) -> int {
    if count > i32::MAX {
        i32::MAX as int
    } else {
        count as int
    }
}

/// How many points each frame owns.
pub fn frame_owned_points(points: &Vec<FusedPoint>, frame_count: usize) -> (counts: Vec<i32>)
    ensures
        counts@.len() == frame_count,
        forall|f: int|
            0 <= f < frame_count ==> #[trigger] counts@[f] == saturated(
                owned_by(points@, f, points@.len() as int),
            ),
{
    let mut counts: Vec<i32> = Vec::new();
    for f in 0..frame_count
        invariant
            counts@.len() == f,
            forall|k: int| 0 <= k < f ==> #[trigger] counts@[k] == 0,
    {
        counts.push(0);
    }
    for i in 0..points.len()
        invariant
            counts@.len() == frame_count,
            forall|f: int|
                0 <= f < frame_count ==> #[trigger] counts@[f] == saturated(
                    owned_by(points@, f, i as int),
                ),
    {
        let first: i32 = points[i].first_observing_frame;
        let owner: usize = if first > 0 {
            first as usize
        } else {
            0
        };
        assert(owner == owner_of(points@[i as int]));
        if owner < counts.len() {
            let count: i32 = counts[owner];
            if count < i32::MAX {
                counts.set(owner, count + 1);
            }
        }
    }
    counts
}

/// The frames of a captured window: windows advance by the chunk size less the
/// overlap.
pub fn fixture_window(window_index: usize, views: usize, settings: &WindowSettings) -> (window:
    FrameWindow)
    requires
        settings.overlap <= settings.chunk_size,
        window_index * (settings.chunk_size - settings.overlap) + views <= usize::MAX,
    ensures
        window.index == window_index,
        window.start == window_index * (settings.chunk_size - settings.overlap),
        window.end == window.start + views,
{
    let step: usize = settings.chunk_size - settings.overlap;
    assert(0 <= window_index * step) by (nonlinear_arith)
        requires
            0 <= window_index,
            0 <= step,
    ;
    let start: usize = window_index * step;
    FrameWindow { index: window_index, start, end: start + views }
}

/// The frame in the middle of a window.
pub fn window_mid_frame(window: &FrameWindow, views: usize) -> (frame: i32)
    requires
        window.start + views / 2 <= usize::MAX,
    ensures
        frame == (window.start + views / 2) as usize as i32,
{
    #[verifier::truncate]
    ((window.start + views / 2) as i32)
}

/// The pose of a window in the world.
#[derive(Debug, Clone, Copy, PartialEq, Eq)]
pub struct FusedWindowPose {
    pub window_index: usize,
    pub local_to_world: SimilarityTransform,
}

/// The poses of windows under the windows' own indices.
pub open spec fn poses_of(
    windows: Seq<WindowMeasuredChunk>,
    poses: Seq<SimilarityTransform>,
) -> Seq<FusedWindowPose> {
    Seq::new(
        windows.len(),
        |i: int|
            FusedWindowPose {
                window_index: windows[i].window.index,
                local_to_world: poses[i],
            },
    )
}

/// Names the poses by their windows.
pub fn window_poses(windows: &Vec<WindowMeasuredChunk>, poses: &Vec<SimilarityTransform>) -> (named:
    Vec<FusedWindowPose>)
    requires
        poses@.len() == windows@.len(),
    ensures
        named@ == poses_of(windows@, poses@),
{
    let mut named: Vec<FusedWindowPose> = Vec::new();
    for i in 0..windows.len()
        invariant
            poses@.len() == windows@.len(),
            named@ == poses_of(windows@, poses@).take(i as int),
    {
        named.push(
            FusedWindowPose { window_index: windows[i].window.index, local_to_world: poses[i] },
        );
        assert(named@ =~= poses_of(windows@, poses@).take(i + 1));
    }
    assert(named@ =~= poses_of(windows@, poses@));
    named
}

/// A cloud emitted once, after all poses are known.
#[derive(Debug, Clone, PartialEq, Eq)]
pub struct CppPr2ReferenceCloud {
    pub alignments: Vec<AlignmentReport>,
    pub window_poses: Vec<FusedWindowPose>,
    pub points: Vec<FusedPoint>,
    pub frame_owned_points: Vec<i32>,
}

/// Where a point of the reference emission stands, and its measured radius.
#[derive(Debug, Clone, Copy, PartialEq, Eq)]
pub struct ReferencePlace {
    pub position: [u32; 3],
    pub radius: u32,
}

/// The radius of a point without a usable one, the binary32 nearest to 1e-4.
pub const REFERENCE_RADIUS: u32 = 0x38d1_b717;

/// What the reference emission measures of windows: the confidence threshold of
/// each, their overlap, and the place of each emitted point.
#[derive(Debug, Clone, PartialEq, Eq)]
pub struct ReferenceEvidence {
    pub thresholds: Vec<u32>,
    pub overlap: usize,
    pub places: Vec<ReferencePlace>,
}

/// A point of the reference emission faces along the third axis. A radius that
/// is not positive is replaced.
pub open spec fn is_reference_placement(placement: Placement, place: ReferencePlace) -> bool {
    &&& placement.position == place.position
    &&& placement.normal@ == seq![0u32, 0u32, ieee::F32_ONE]
    &&& placement.radius == (if ieee::f32_positive(place.radius) {
        place.radius
    } else {
        REFERENCE_RADIUS
    })
}

fn reference_placements(places: &Vec<ReferencePlace>) -> (placements: Vec<Placement>)
    ensures
        placements@.len() == places@.len(),
        forall|i: int|
            0 <= i < places@.len() ==> is_reference_placement(
                #[trigger] placements@[i],
                places@[i],
            ),
{
    let normal = [0u32, 0u32, ieee::F32_ONE];
    assert(normal@ =~= seq![0u32, 0u32, ieee::F32_ONE]);
    let mut placements: Vec<Placement> = Vec::new();
    for i in 0..places.len()
        invariant
            normal@ == seq![0u32, 0u32, ieee::F32_ONE],
            placements@.len() == i,
            forall|k: int|
                0 <= k < i ==> is_reference_placement(#[trigger] placements@[k], places@[k]),
    {
        let place = places[i];
        placements.push(
            Placement {
                position: place.position,
                normal,
                radius: if ieee::f32_is_positive(place.radius) {
                    place.radius
                } else {
                    REFERENCE_RADIUS
                },
            },
        );
    }
    placements
}

/// The places that windows emit as a reference.
pub open spec fn reference_places(
    windows: Seq<WindowMeasuredChunk>,
    evidence: ReferenceEvidence,
) -> Seq<PointPlace> {
    reference_emission(
        windows,
        evidence.thresholds@,
        evidence.overlap,
        windows.len() as int,
    )
}

/// A point of the world is the emitted point at its place.
pub open spec fn is_reference_point(
    windows: Seq<WindowMeasuredChunk>,
    evidence: ReferenceEvidence,
    i: int,
    point: FusedPoint,
) -> bool {
    let placement = Placement {
        position: point.position,
        normal: point.normal,
        radius: point.radius,
    };
    &&& is_reference_placement(placement, evidence.places@[i])
    &&& point == world_point(windows, reference_places(windows, evidence)[i], placement)
}

/// Assembles the cloud of the emitted points, their placements and the poses
/// that placed them.
pub fn emit_cpp_pr2_reference_cloud(
    windows: &Vec<WindowMeasuredChunk>,
    alignments: Vec<AlignmentReport>,
    poses: &Vec<SimilarityTransform>,
    evidence: &ReferenceEvidence,
    frame_count: usize,
) -> (result: Result<CppPr2ReferenceCloud, ReconstructionError>)
    requires
        evidence.thresholds@.len() == windows@.len(),
        evidence.places@.len() == reference_places(windows@, *evidence).len(),
    ensures
        match result {
            Ok(cloud) => {
                &&& poses@.len() == windows@.len()
                &&& cloud.alignments@ == alignments@
                &&& cloud.window_poses@ == poses_of(windows@, poses@)
                &&& cloud.points@.len() == evidence.places@.len()
                &&& forall|i: int|
                    0 <= i < cloud.points@.len() ==> is_reference_point(
                        windows@,
                        *evidence,
                        i,
                        #[trigger] cloud.points@[i],
                    )
                &&& cloud.frame_owned_points@.len() == frame_count
                &&& forall|f: int|
                    0 <= f < frame_count ==> #[trigger] cloud.frame_owned_points@[f] == saturated(
                        owned_by(cloud.points@, f, cloud.points@.len() as int),
                    )
            },
            Err(e) => poses@.len() != windows@.len() && e is OracleOutputShape,
        },
{
    let places: Vec<PointPlace> = match emit_reference(
        windows,
        poses.len(),
        &evidence.thresholds,
        evidence.overlap,
    ) {
        Ok(places) => places,
        Err(error) => {
            return Err(error);
        },
    };
    let named: Vec<FusedWindowPose> = window_poses(windows, poses);
    let placements: Vec<Placement> = reference_placements(&evidence.places);
    let points: Vec<FusedPoint> = world_points(windows, &places, &placements);
    assert forall|i: int| 0 <= i < points@.len() implies is_reference_point(
        windows@,
        *evidence,
        i,
        #[trigger] points@[i],
    ) by {
        assert(is_reference_placement(placements@[i], evidence.places@[i]));
    }
    let counts: Vec<i32> = frame_owned_points(&points, frame_count);
    Ok(
        CppPr2ReferenceCloud {
            alignments,
            window_poses: named,
            points,
            frame_owned_points: counts,
        },
    )
}

/// The points of a surface that was fused from a list of points.
pub open spec fn is_surface_of_points(
    points: Seq<FusedPoint>,
    evidence: SurfaceEvidence,
    fused: Seq<FusedPoint>,
) -> bool {
    exists|surface: Seq<TsdfSurfel>| #[trigger]
        tsdf::surface_of(observations_of(points), evidence, surface) && fused == Seq::new(
            surface.len(),
            |i: int| global_fusion::surface_point(surface[i]),
        )
}

/// Fuses the points of a cloud to a surface. The cloud keeps its seams and poses.
pub fn surface_cloud(
    cloud: CppPr2ReferenceCloud,
    evidence: &SurfaceEvidence,
    frame_count: usize,
) -> (fused: CppPr2ReferenceCloud)
    requires
        tsdf::evidence_fits(observations_of(cloud.points@), *evidence),
    ensures
        fused.alignments@ == cloud.alignments@,
        fused.window_poses@ == cloud.window_poses@,
        is_surface_of_points(cloud.points@, *evidence, fused.points@),
        fused.frame_owned_points@.len() == frame_count,
        forall|f: int|
            0 <= f < frame_count ==> #[trigger] fused.frame_owned_points@[f] == saturated(
                owned_by(fused.points@, f, fused.points@.len() as int),
            ),
{
    let observations: Vec<TsdfObservation> = surface_evidence(&cloud.points);
    let surface: Vec<TsdfSurfel> = fuse_normal_space_tsdf(
        &observations,
        &evidence.runs,
        &evidence.means,
        &evidence.settings,
        evidence.scale,
    );
    assert(tsdf::surface_of(observations@, *evidence, surface@));
    let points: Vec<FusedPoint> = surface_points(&surface);
    let counts: Vec<i32> = frame_owned_points(&points, frame_count);
    CppPr2ReferenceCloud {
        alignments: cloud.alignments,
        window_poses: cloud.window_poses,
        points,
        frame_owned_points: counts,
    }
}

/// Where a camera stands in the world and where it looks.
#[derive(Debug, Clone, Copy, PartialEq, Eq)]
pub struct CameraPlace {
    pub position: [u32; 3],
    pub forward: [u32; 3],
}

/// The cameras that go with an emitted cloud.
#[derive(Debug, Clone, PartialEq, Eq)]
pub struct CppPr2Trajectory {
    pub window_mid_frames: Vec<i32>,
    pub window_positions: Vec<[u32; 3]>,
    pub frame_positions: Vec<[u32; 3]>,
    pub frame_forwards: Vec<[u32; 3]>,
}

/// The camera that the first `w` windows and the first `v` views of window `w`
/// give a frame: that of the last owned view of the frame that has one.
pub open spec fn camera_of(
    windows: Seq<WindowMeasuredChunk>,
    cameras: Seq<Vec<Option<CameraPlace>>>,
    overlap: usize,
    frame: int,
    w: int,
    v: int,
) -> Option<CameraPlace>
    decreases w, v,
{
    if v > 0 {
        let view = windows[w].views@[v - 1];
        if v - 1 >= first_owned(windows[w].window.index, overlap, windows[w].views@.len() as int)
            && view.frame_index == frame && cameras[w]@[v - 1] is Some {
            cameras[w]@[v - 1]
        } else {
            camera_of(windows, cameras, overlap, frame, w, v - 1)
        }
    } else if w > 0 {
        camera_of(windows, cameras, overlap, frame, w - 1, windows[w - 1].views@.len() as int)
    } else {
        None
    }
}

/// The position of a camera, the origin where there is none.
pub open spec fn camera_position(camera: Option<CameraPlace>) -> Seq<u32> {
    match camera {
        Some(place) => place.position@,
        None => seq![0u32, 0u32, 0u32],
    }
}

/// The direction of a camera, zero where there is none.
pub open spec fn camera_forward(camera: Option<CameraPlace>) -> Seq<u32> {
    match camera {
        Some(place) => place.forward@,
        None => seq![0u32, 0u32, 0u32],
    }
}

/// The frames hold the cameras of the windows so far.
pub open spec fn frames_hold(
    positions: Seq<[u32; 3]>,
    forwards: Seq<[u32; 3]>,
    windows: Seq<WindowMeasuredChunk>,
    cameras: Seq<Vec<Option<CameraPlace>>>,
    overlap: usize,
    w: int,
    v: int,
) -> bool {
    &&& positions.len() == forwards.len()
    &&& forall|f: int|
        0 <= f < positions.len() ==> (#[trigger] positions[f])@ == camera_position(
            camera_of(windows, cameras, overlap, f, w, v),
        )
    &&& forall|f: int|
        0 <= f < forwards.len() ==> (#[trigger] forwards[f])@ == camera_forward(
            camera_of(windows, cameras, overlap, f, w, v),
        )
}

/// One camera entry per view, and every frame is one of the capture.
pub open spec fn cameras_fit(
    windows: Seq<WindowMeasuredChunk>,
    cameras: Seq<Vec<Option<CameraPlace>>>,
    frame_count: usize,
) -> bool {
    &&& cameras.len() == windows.len()
    &&& forall|w: int|
        0 <= w < windows.len() ==> {
            let views = (#[trigger] windows[w]).views@;
            &&& cameras[w]@.len() == views.len()
            &&& windows[w].window.start + views.len() / 2 <= usize::MAX
            &&& forall|v: int|
                0 <= v < views.len() ==> (#[trigger] views[v]).frame_index < frame_count
        }
}

/// The trajectory of a capture: each window's middle frame with its position,
/// and each frame's camera from the last window that owns the frame.
pub fn cpp_pr2_fixture_trajectory(
    windows: &Vec<WindowMeasuredChunk>,
    cameras: &Vec<Vec<Option<CameraPlace>>>,
    middles: Vec<[u32; 3]>,
    overlap: usize,
    frame_count: usize,
) -> (trajectory: CppPr2Trajectory)
    requires
        cameras_fit(windows@, cameras@, frame_count),
        middles@.len() == windows@.len(),
    ensures
        trajectory.window_mid_frames@ == Seq::new(
            windows@.len(),
            |i: int| (windows@[i].window.start + windows@[i].views@.len() / 2) as usize as i32,
        ),
        trajectory.window_positions@ == middles@,
        trajectory.frame_positions@.len() == frame_count,
        frames_hold(
            trajectory.frame_positions@,
            trajectory.frame_forwards@,
            windows@,
            cameras@,
            overlap,
            windows@.len() as int,
            0,
        ),
{
    let ghost mids = Seq::new(
        windows@.len(),
        |i: int| (windows@[i].window.start + windows@[i].views@.len() / 2) as usize as i32,
    );
    let mut window_mid_frames: Vec<i32> = Vec::new();
    let mut frame_positions: Vec<[u32; 3]> = Vec::new();
    let mut frame_forwards: Vec<[u32; 3]> = Vec::new();
    for f in 0..frame_count
        invariant
            frame_positions@.len() == f,
            frames_hold(frame_positions@, frame_forwards@, windows@, cameras@, overlap, 0, 0),
    {
        let origin: [u32; 3] = [0, 0, 0];
        assert(origin@ =~= seq![0u32, 0u32, 0u32]);
        frame_positions.push(origin);
        frame_forwards.push(origin);
    }
    for w in 0..windows.len()
        invariant
            cameras_fit(windows@, cameras@, frame_count),
            mids == Seq::new(
                windows@.len(),
                |i: int| (windows@[i].window.start + windows@[i].views@.len() / 2) as usize as i32,
            ),
            window_mid_frames@ == mids.take(w as int),
            frame_positions@.len() == frame_count,
            frames_hold(
                frame_positions@,
                frame_forwards@,
                windows@,
                cameras@,
                overlap,
                w as int,
                0,
            ),
    {
        let window = &windows[w];
        let places = &cameras[w];
        window_mid_frames.push(window_mid_frame(&window.window, window.views.len()));
        assert(window_mid_frames@ =~= mids.take(w + 1));
        let first: usize = first_owned_view(window.window.index, overlap, window.views.len());
        for v in 0..window.views.len()
            invariant
                cameras_fit(windows@, cameras@, frame_count),
                w < windows@.len(),
                *window == windows@[w as int],
                *places == cameras@[w as int],
                first == first_owned(
                    window.window.index,
                    overlap,
                    window.views@.len() as int,
                ),
                frame_positions@.len() == frame_count,
                frames_hold(
                    frame_positions@,
                    frame_forwards@,
                    windows@,
                    cameras@,
                    overlap,
                    w as int,
                    v as int,
                ),
        {
            let frame: usize = window.views[v].frame_index;
            assert(windows@[w as int].views@[v as int].frame_index < frame_count);
            if v >= first {
                if let Some(place) = places[v] {
                    frame_positions.set(frame, place.position);
                    frame_forwards.set(frame, place.forward);
                }
            }
        }
    }
    assert(window_mid_frames@ =~= mids);
    CppPr2Trajectory {
        window_mid_frames,
        window_positions: middles,
        frame_positions,
        frame_forwards,
    }
}

/// Windows nearer than this many places are not compared for a loop.
pub const LOOP_GAP: usize = 3;

/// Support a loop needs at every stage.
pub const LOOP_SUPPORT: usize = 150;

/// Squared camera distance of a revisit: binary32 `9.0`.
pub const REVISIT_DISTANCE_SQUARED: u32 = 0x4110_0000;

/// Direction cosine of a revisit: binary32 `0.3`.
pub const REVISIT_COSINE: u32 = 0x3e99_999a;

/// Information of a loop edge: binary32 `5.0`.
pub const LOOP_INFORMATION: u32 = 0x40a0_0000;

/// Whether loops are looked for at all.
pub fn looks_for_loops(loop_close: bool, windows: usize) -> (answer: bool)
    ensures
        answer == (loop_close && windows > LOOP_GAP),
{
    loop_close && windows > LOOP_GAP
}

/// Two cameras of different windows meet. The distance of the pair is squared.
pub open spec fn meets(pair: CameraPair) -> bool {
    ieee::f32_at_most(pair.distance, REVISIT_DISTANCE_SQUARED) && ieee::f32_at_most(
        REVISIT_COSINE,
        pair.cosine,
    )
}

/// Whether any two cameras of two windows meet.
pub fn windows_meet(pairs: &Vec<CameraPair>) -> (answer: bool)
    ensures
        answer == exists|i: int| 0 <= i < pairs@.len() && meets(#[trigger] pairs@[i]),
{
    for i in 0..pairs.len()
        invariant
            forall|k: int| 0 <= k < i ==> !meets(#[trigger] pairs@[k]),
    {
        let pair = pairs[i];
        if ieee::f32_le(pair.distance, REVISIT_DISTANCE_SQUARED) && ieee::f32_le(
            REVISIT_COSINE,
            pair.cosine,
        ) {
            assert(meets(pairs@[i as int]));
            return true;
        }
    }
    false
}

/// The place of the nearest candidate within the limit; the first of equals.
pub open spec fn is_first_nearest(squared: Seq<u32>, limit: u32, place: Option<int>) -> bool {
    match place {
        None => forall|i: int|
            0 <= i < squared.len() ==> !ieee::f32_at_most(#[trigger] squared[i], limit),
        Some(k) => {
            &&& 0 <= k < squared.len()
            &&& ieee::f32_at_most(squared[k], limit)
            &&& forall|i: int|
                0 <= i < squared.len() && ieee::f32_at_most(#[trigger] squared[i], limit)
                    ==> ieee::f32_at_most(squared[k], squared[i])
            &&& forall|i: int|
                0 <= i < k && ieee::f32_at_most(#[trigger] squared[i], limit) ==> ieee::f32_less(
                    squared[k],
                    squared[i],
                )
        },
    }
}

/// The key point a seeded point is matched to. A key point may serve several
/// points.
pub fn nearest_key(squared: &Vec<u32>, limit: u32) -> (place: Option<usize>)
    ensures
        is_first_nearest(
            squared@,
            limit,
            match place {
                None => None,
                Some(k) => Some(k as int),
            },
        ),
{
    let mut place: Option<usize> = None;
    for i in 0..squared.len()
        invariant
            match place {
                None => forall|k: int|
                    0 <= k < i ==> !ieee::f32_at_most(#[trigger] squared@[k], limit),
                Some(p) => {
                    &&& p < i
                    &&& ieee::f32_at_most(squared@[p as int], limit)
                    &&& forall|k: int|
                        0 <= k < i && ieee::f32_at_most(#[trigger] squared@[k], limit)
                            ==> ieee::f32_at_most(squared@[p as int], squared@[k])
                    &&& forall|k: int|
                        0 <= k < p && ieee::f32_at_most(#[trigger] squared@[k], limit)
                            ==> ieee::f32_less(squared@[p as int], squared@[k])
                },
            },
    {
        if ieee::f32_le(squared[i], limit) {
            match place {
                None => {
                    place = Some(i);
                },
                Some(p) => {
                    if ieee::f32_lt(squared[i], squared[p]) {
                        place = Some(i);
                    }
                },
            }
        }
    }
    place
}

/// Whether a loop has support: enough key points on both sides, and, once they
/// are known, enough matches and enough registered correspondences.
pub fn loop_supported(count: usize) -> (answer: bool)
    ensures
        answer == (count >= LOOP_SUPPORT),
{
    count >= LOOP_SUPPORT
}

/// A loop that survived its registration: enough key points on both sides,
/// enough of them matched, and a refinement that kept enough correspondences.
/// `refined` is the refined pose with its correspondences, where there is one.
pub fn registered_loop(
    earlier_keys: usize,
    later_keys: usize,
    matches: usize,
    refined: Option<(SimilarityTransform, usize)>,
) -> (measurement: Option<SimilarityTransform>)
    ensures
        measurement == (match refined {
            Some((pose, kept)) => if earlier_keys >= LOOP_SUPPORT && later_keys >= LOOP_SUPPORT
                && matches >= LOOP_SUPPORT && kept >= LOOP_SUPPORT {
                Some(pose)
            } else {
                None
            },
            None => None,
        }),
{
    match refined {
        Some((pose, kept)) => if loop_supported(earlier_keys) && loop_supported(later_keys)
            && loop_supported(matches) && loop_supported(kept) {
            Some(pose)
        } else {
            None
        },
        None => None,
    }
}

/// What two windows show of a loop: all pairs of their cameras, and the pose of
/// the later window in the frame of the earlier one where it was registered.
#[derive(Debug, Clone, PartialEq, Eq)]
pub struct LoopEvidence {
    pub cameras: Vec<CameraPair>,
    pub measurement: Option<SimilarityTransform>,
}

/// Any two cameras meet.
pub open spec fn any_meets(cameras: Seq<CameraPair>) -> bool {
    exists|i: int| 0 <= i < cameras.len() && meets(#[trigger] cameras[i])
}

/// The loops among the first `count` pairs of windows: those with cameras that
/// meet and a registered pose.
pub open spec fn loops_among(
    pairs: Seq<(usize, usize)>,
    evidence: Seq<LoopEvidence>,
    count: int,
) -> Seq<PoseGraphEdge>
    decreases count,
{
    if count <= 0 {
        Seq::empty()
    } else {
        let rest = loops_among(pairs, evidence, count - 1);
        let shown = evidence[count - 1];
        match shown.measurement {
            Some(measurement) if any_meets(shown.cameras@) => rest.push(
                PoseGraphEdge {
                    from: pairs[count - 1].0,
                    to: pairs[count - 1].1,
                    measurement,
                    information: LOOP_INFORMATION,
                    loop_closure: true,
                },
            ),
            _ => rest,
        }
    }
}

/// The pairs of windows that are compared for loops.
pub open spec fn compared_pairs(windows: int, loop_close: bool) -> Seq<(usize, usize)> {
    if loop_close && windows > LOOP_GAP {
        revisit::window_pairs(0, windows, LOOP_GAP as int)
    } else {
        Seq::empty()
    }
}

/// All loops between windows.
pub open spec fn loops_of(windows: int, loop_close: bool, evidence: Seq<LoopEvidence>) -> Seq<
    PoseGraphEdge,
> {
    let pairs = compared_pairs(windows, loop_close);
    loops_among(pairs, evidence, pairs.len() as int)
}

/// The pairs of windows to compare for loops, each at least the gap apart.
pub fn loop_pairs(windows: usize, loop_close: bool) -> (pairs: Vec<(usize, usize)>)
    ensures
        pairs@ == compared_pairs(windows as int, loop_close),
{
    if looks_for_loops(loop_close, windows) {
        revisit_pairs(windows, LOOP_GAP)
    } else {
        Vec::new()
    }
}

/// The loops between windows, from what each compared pair shows.
pub fn find_loops(windows: usize, loop_close: bool, evidence: &Vec<LoopEvidence>) -> (edges: Vec<
    PoseGraphEdge,
>)
    requires
        evidence@.len() == compared_pairs(windows as int, loop_close).len(),
    ensures
        edges@ == loops_of(windows as int, loop_close, evidence@),
{
    let pairs: Vec<(usize, usize)> = loop_pairs(windows, loop_close);
    let mut edges: Vec<PoseGraphEdge> = Vec::new();
    for i in 0..pairs.len()
        invariant
            evidence@.len() == pairs@.len(),
            edges@ == loops_among(pairs@, evidence@, i as int),
    {
        let shown = &evidence[i];
        let meet: bool = windows_meet(&shown.cameras);
        if let Some(measurement) = shown.measurement {
            if meet {
                edges.push(
                    PoseGraphEdge {
                        from: pairs[i].0,
                        to: pairs[i].1,
                        measurement,
                        information: LOOP_INFORMATION,
                        loop_closure: true,
                    },
                );
            }
        }
    }
    edges
}

/// Every loop joins an earlier window with one at least the gap later, and says
/// that it is a loop.
pub proof fn law_loops_join_distant_windows(
    windows: int,
    loop_close: bool,
    evidence: Seq<LoopEvidence>,
    i: int,
)
    requires
        0 <= windows <= usize::MAX,
        0 <= i < loops_of(windows, loop_close, evidence).len(),
    ensures
        ({
            let edge = loops_of(windows, loop_close, evidence)[i];
            edge.from + LOOP_GAP <= edge.to < windows && edge.loop_closure
        }),
{
    let pairs = compared_pairs(windows, loop_close);
    lemma_loop_of_pair(windows, loop_close, evidence, pairs.len() as int, i);
}

proof fn lemma_loop_of_pair(
    windows: int,
    loop_close: bool,
    evidence: Seq<LoopEvidence>,
    count: int,
    i: int,
)
    requires
        0 <= windows <= usize::MAX,
        0 <= count <= compared_pairs(windows, loop_close).len(),
        0 <= i < loops_among(compared_pairs(windows, loop_close), evidence, count).len(),
    ensures
        ({
            let edge = loops_among(compared_pairs(windows, loop_close), evidence, count)[i];
            edge.from + LOOP_GAP <= edge.to < windows && edge.loop_closure
        }),
    decreases count,
{
    let pairs = compared_pairs(windows, loop_close);
    let rest = loops_among(pairs, evidence, count - 1);
    if i < rest.len() {
        lemma_loop_of_pair(windows, loop_close, evidence, count - 1, i);
    } else {
        revisit::law_pairs_keep_the_gap(0, windows, LOOP_GAP as int, count - 1);
    }
}

/// The poses before and after loops were closed.
#[derive(Debug, Clone, PartialEq, Eq)]
pub struct CppPr2LoopOracle {
    pub sequential_window_poses: Vec<FusedWindowPose>,
    pub loop_edges: Vec<PoseGraphEdge>,
    pub optimized_window_poses: Vec<FusedWindowPose>,
    pub pose_graph: Option<PoseGraphReport>,
}

/// Poses that a pose graph moved, with its report.
#[derive(Debug, Clone, PartialEq, Eq)]
pub struct OptimizedPoses {
    pub nodes: Vec<SimilarityTransform>,
    pub report: PoseGraphReport,
}

/// Keeps the sequential and the optimized poses apart. Without a loop the
/// optimized poses are the sequential ones and no pose graph is reported.
pub fn cpp_pr2_closed_loop_oracle(
    windows: &Vec<WindowMeasuredChunk>,
    sequential: &Vec<SimilarityTransform>,
    loop_close: bool,
    evidence: &Vec<LoopEvidence>,
    optimized: &OptimizedPoses,
) -> (oracle: CppPr2LoopOracle)
    requires
        sequential@.len() == windows@.len(),
        optimized.nodes@.len() == windows@.len(),
        evidence@.len() == compared_pairs(windows@.len() as int, loop_close).len(),
    ensures
        oracle.sequential_window_poses@ == poses_of(windows@, sequential@),
        oracle.loop_edges@ == loops_of(windows@.len() as int, loop_close, evidence@),
        oracle.optimized_window_poses@ == poses_of(
            windows@,
            if oracle.loop_edges@.len() == 0 {
                sequential@
            } else {
                optimized.nodes@
            },
        ),
        oracle.pose_graph == (if oracle.loop_edges@.len() == 0 {
            None
        } else {
            Some(optimized.report)
        }),
{
    let loop_edges: Vec<PoseGraphEdge> = find_loops(windows.len(), loop_close, evidence);
    let sequential_window_poses: Vec<FusedWindowPose> = window_poses(windows, sequential);
    if loop_edges.len() == 0 {
        let optimized_window_poses: Vec<FusedWindowPose> = window_poses(windows, sequential);
        return CppPr2LoopOracle {
            sequential_window_poses,
            loop_edges,
            optimized_window_poses,
            pose_graph: None,
        };
    }
    let optimized_window_poses: Vec<FusedWindowPose> = window_poses(windows, &optimized.nodes);
    CppPr2LoopOracle {
        sequential_window_poses,
        loop_edges,
        optimized_window_poses,
        pose_graph: Some(optimized.report),
    }
}

/// The emitted points of windows at the places that their poses give them.
pub open spec fn placed_emission(
    windows: Seq<WindowMeasuredChunk>,
    rule: EmissionRule,
    placements: Seq<Placement>,
) -> Seq<FusedPoint> {
    let places = world_emission(windows, rule);
    Seq::new(places.len(), |i: int| world_point(windows, places[i], placements[i]))
}

/// The observations that a surface of the emission is fused from.
pub open spec fn emitted_observations(
    windows: Seq<WindowMeasuredChunk>,
    rule: EmissionRule,
    placements: Seq<Placement>,
) -> Seq<TsdfObservation> {
    observations_of(placed_emission(windows, rule, placements))
}

/// Every emitted point has a place, and the evidence of a surface is that of the
/// emission.
pub open spec fn emission_fits(
    windows: Seq<WindowMeasuredChunk>,
    rule: EmissionRule,
    placements: Seq<Placement>,
    evidence: Option<SurfaceEvidence>,
) -> bool {
    &&& placements.len() == world_emission(windows, rule).len()
    &&& evidence matches Some(evidence) ==> tsdf::evidence_fits(
        emitted_observations(windows, rule, placements),
        evidence,
    )
}

/// The points and the voxel edge of a world: the placed emission itself, or the
/// surface that is fused from it.
pub open spec fn is_emitted_world(
    windows: Seq<WindowMeasuredChunk>,
    rule: EmissionRule,
    placements: Seq<Placement>,
    evidence: Option<SurfaceEvidence>,
    voxel_size: u32,
    points: Seq<FusedPoint>,
) -> bool {
    match evidence {
        None => voxel_size == 0 && points == placed_emission(windows, rule, placements),
        Some(evidence) => exists|surface: Seq<TsdfSurfel>| #[trigger]
            tsdf::surface_of(emitted_observations(windows, rule, placements), evidence, surface)
                && voxel_size == tsdf::edge_of(surface, evidence) && points == Seq::new(
                surface.len(),
                |i: int| global_fusion::surface_point(surface[i]),
            ),
    }
}

/// Windows emitted at known poses.
#[derive(Debug, Clone, PartialEq, Eq)]
pub struct PosedWorld {
    pub window_poses: Vec<FusedWindowPose>,
    pub voxel_size: u32,
    pub points: Vec<FusedPoint>,
}

/// Emits windows at known poses, each frame once. `placements` holds the place
/// that the pose of its window gives to each emitted point, and `evidence` what
/// the surface is fused with, where one is wanted.
pub fn emit_windows_at_poses(
    windows: &Vec<WindowMeasuredChunk>,
    poses: &Vec<SimilarityTransform>,
    rule: EmissionRule,
    placements: &Vec<Placement>,
    evidence: &Option<SurfaceEvidence>,
) -> (world: PosedWorld)
    requires
        poses@.len() == windows@.len(),
        emission_fits(windows@, rule, placements@, *evidence),
    ensures
        world.window_poses@ == poses_of(windows@, poses@),
        is_emitted_world(
            windows@,
            rule,
            placements@,
            *evidence,
            world.voxel_size,
            world.points@,
        ),
{
    let named: Vec<FusedWindowPose> = window_poses(windows, poses);
    let (voxel_size, points) = emit_world(windows, rule, placements, evidence);
    PosedWorld { window_poses: named, voxel_size, points }
}

fn emit_world(
    windows: &Vec<WindowMeasuredChunk>,
    rule: EmissionRule,
    placements: &Vec<Placement>,
    evidence: &Option<SurfaceEvidence>,
) -> (world: (u32, Vec<FusedPoint>))
    requires
        emission_fits(windows@, rule, placements@, *evidence),
    ensures
        is_emitted_world(windows@, rule, placements@, *evidence, world.0, world.1@),
{
    let places: Vec<PointPlace> = emit_windows(windows, rule);
    let points: Vec<FusedPoint> = world_points(windows, &places, placements);
    assert(points@ =~= placed_emission(windows@, rule, placements@));
    match evidence {
        None => (0, points),
        Some(evidence) => {
            let observations: Vec<TsdfObservation> = surface_evidence(&points);
            assert(observations@ =~= emitted_observations(windows@, rule, placements@));
            let surface: Vec<TsdfSurfel> = fuse_normal_space_tsdf(
                &observations,
                &evidence.runs,
                &evidence.means,
                &evidence.settings,
                evidence.scale,
            );
            assert(tsdf::surface_of(observations@, *evidence, surface@));
            let edge: u32 = if surface.len() > 0 {
                evidence.edge
            } else {
                0
            };
            (edge, surface_points(&surface))
        },
    }
}

/// A world of a dense capture with the seams, loops and poses it rests on.
#[derive(Debug, Clone, PartialEq, Eq)]
pub struct RelativeWorld {
    pub alignments: Vec<AlignmentReport>,
    pub pose_graph_edges: Vec<PoseGraphEdge>,
    pub pose_graph: Option<PoseGraphReport>,
    pub window_poses: Vec<FusedWindowPose>,
    pub voxel_size: u32,
    pub points: Vec<FusedPoint>,
}

/// Emits a dense capture at the poses that closed its loops. Windows without
/// the threshold of such a capture are refused.
pub fn fuse_scene_bundle_cpp_pr2_relative(
    windows: &Vec<WindowMeasuredChunk>,
    alignments: Vec<AlignmentReport>,
    solution: CppPr2LoopOracle,
    placements: &Vec<Placement>,
    evidence: &Option<SurfaceEvidence>,
) -> (result: Result<RelativeWorld, ReconstructionError>)
    requires
        reconstruction::profile_present(windows@) ==> emission_fits(
            windows@,
            EmissionRule::Relative,
            placements@,
            *evidence,
        ),
    ensures
        match result {
            Ok(world) => {
                &&& reconstruction::profile_present(windows@)
                &&& world.alignments@ == alignments@
                &&& world.pose_graph_edges@ == solution.loop_edges@
                &&& world.pose_graph == solution.pose_graph
                &&& world.window_poses@ == solution.optimized_window_poses@
                &&& is_emitted_world(
                    windows@,
                    EmissionRule::Relative,
                    placements@,
                    *evidence,
                    world.voxel_size,
                    world.points@,
                )
            },
            Err(e) => !reconstruction::profile_present(windows@)
                && e is MissingCppPr2CaptureProfile,
        },
{
    match check_capture_profile(windows) {
        Ok(_) => {},
        Err(error) => {
            return Err(error);
        },
    }
    let (voxel_size, points) = emit_world(windows, EmissionRule::Relative, placements, evidence);
    Ok(
        RelativeWorld {
            alignments,
            pose_graph_edges: solution.loop_edges,
            pose_graph: solution.pose_graph,
            window_poses: solution.optimized_window_poses,
            voxel_size,
            points,
        },
    )
}

/// A point that a world admits by the rule of its window: its coordinates are finite
/// and its radius is a number above zero. Under a threshold its confidence is a number
/// that is not below it; without one its normal is finite too and its confidence is a
/// number above zero.
pub open spec fn admits(point: MeasuredPoint, threshold: Option<u32>) -> bool {
    &&& ieee::f32_magnitude(point.position@[0]) < 0x7f80_0000
    &&& ieee::f32_magnitude(point.position@[1]) < 0x7f80_0000
    &&& ieee::f32_magnitude(point.position@[2]) < 0x7f80_0000
    &&& 0 < ieee::f32_rank(point.radius) < 0x7f80_0000
    &&& match threshold {
        Some(limit) => ieee::f32_magnitude(point.confidence) < 0x7f80_0000 && (ieee::f32_nan(limit)
            || ieee::f32_rank(limit) <= ieee::f32_rank(point.confidence)),
        None => ieee::f32_magnitude(point.normal@[0]) < 0x7f80_0000 && ieee::f32_magnitude(
            point.normal@[1],
        ) < 0x7f80_0000 && ieee::f32_magnitude(point.normal@[2]) < 0x7f80_0000 && 0
            < ieee::f32_rank(point.confidence) < 0x7f80_0000,
    }
}

proof fn lemma_admits(point: MeasuredPoint, threshold: Option<u32>)
    ensures
        emits(point, threshold) <==> admits(point, threshold),
{
    if emits(point, threshold) {
        assert(ieee::f32_finite(point.position@[0]));
        assert(ieee::f32_finite(point.position@[1]));
        assert(ieee::f32_finite(point.position@[2]));
        if threshold is None {
            assert(ieee::f32_finite(point.normal@[0]));
            assert(ieee::f32_finite(point.normal@[1]));
            assert(ieee::f32_finite(point.normal@[2]));
        }
    }
}

/// Places are ordered by window, then by view, then by point.
pub open spec fn place_before(a: PointPlace, b: PointPlace) -> bool {
    a.window < b.window || (a.window == b.window && (a.view < b.view || (a.view == b.view
        && a.point < b.point)))
}

proof fn lemma_view_emission(
    windows: Seq<WindowMeasuredChunk>,
    place: ViewPlace,
    rule: EmissionRule,
    count: int,
)
    requires
        place.window < windows.len(),
        place.view < windows[place.window as int].views@.len(),
        0 <= count <= windows[place.window as int].views@[place.view as int].points@.len()
            <= usize::MAX,
    ensures
        ({
            let list = view_emission(windows, place, rule, count);
            let points = windows[place.window as int].views@[place.view as int].points@;
            let threshold = threshold_of(windows[place.window as int], rule);
            &&& forall|p: PointPlace| #[trigger]
                list.contains(p) <==> p.window == place.window && p.view == place.view && p.point
                    < count && admits(points[p.point as int], threshold)
            &&& forall|i: int, j: int| 0 <= i < j < list.len() ==> place_before(list[i], list[j])
        }),
    decreases count,
{
    let list = view_emission(windows, place, rule, count);
    let points = windows[place.window as int].views@[place.view as int].points@;
    let threshold = threshold_of(windows[place.window as int], rule);
    if count > 0 {
        lemma_view_emission(windows, place, rule, count - 1);
        lemma_admits(points[count - 1], threshold);
        let rest = view_emission(windows, place, rule, count - 1);
        let last = PointPlace {
            window: place.window,
            view: place.view,
            point: (count - 1) as usize,
        };
        assert forall|p: PointPlace| #[trigger] list.contains(p) <==> p.window == place.window
            && p.view == place.view && p.point < count && admits(points[p.point as int], threshold) by {
            if emits(points[count - 1], threshold) {
                vstd::seq_lib::lemma_seq_contains_after_push(rest, last, p);
            }
        }
        assert forall|i: int, j: int| 0 <= i < j < list.len() implies place_before(
            list[i],
            list[j],
        ) by {
            assert(list[i] == rest[i]);
            assert(rest.contains(rest[i]));
            if j < rest.len() {
                assert(list[j] == rest[j]);
            }
        }
    } else {
        assert(list =~= Seq::empty());
    }
}

proof fn lemma_emission(
    windows: Seq<WindowMeasuredChunk>,
    places: Seq<ViewPlace>,
    rule: EmissionRule,
    count: int,
)
    requires
        views_exist(windows, places),
        0 <= count <= places.len(),
        windows.len() <= usize::MAX,
        forall|w: int, v: int|
            0 <= w < windows.len() && 0 <= v < windows[w].views@.len() ==> (
            #[trigger] windows[w].views@[v]).points@.len() <= usize::MAX,
        forall|i: int, j: int|
            0 <= i < j < places.len() ==> (#[trigger] places[i]).window < (
            #[trigger] places[j]).window || (places[i].window == places[j].window && places[i].view
                < places[j].view),
    ensures
        ({
            let list = emission(windows, places, rule, count);
            &&& forall|p: PointPlace| #[trigger]
                list.contains(p) <==> {
                    &&& places.take(count).contains(ViewPlace { window: p.window, view: p.view })
                    &&& p.point < windows[p.window as int].views@[p.view as int].points@.len()
                    &&& admits(
                        windows[p.window as int].views@[p.view as int].points@[p.point as int],
                        threshold_of(windows[p.window as int], rule),
                    )
                }
            &&& forall|i: int, j: int| 0 <= i < j < list.len() ==> place_before(list[i], list[j])
        }),
    decreases count,
{
    let list = emission(windows, places, rule, count);
    if count > 0 {
        lemma_emission(windows, places, rule, count - 1);
        let place = places[count - 1];
        let points = windows[place.window as int].views@[place.view as int].points@;
        assert(points.len() <= usize::MAX);
        lemma_view_emission(windows, place, rule, points.len() as int);
        let rest = emission(windows, places, rule, count - 1);
        let more = view_emission(windows, place, rule, points.len() as int);
        let few = places.take(count - 1);
        assert(places.take(count) =~= few.push(place));
        assert forall|p: PointPlace| #[trigger] list.contains(p) <==> {
            &&& places.take(count).contains(ViewPlace { window: p.window, view: p.view })
            &&& p.point < windows[p.window as int].views@[p.view as int].points@.len()
            &&& admits(
                windows[p.window as int].views@[p.view as int].points@[p.point as int],
                threshold_of(windows[p.window as int], rule),
            )
        } by {
            lemma_joined(rest, more, p);
            vstd::seq_lib::lemma_seq_contains_after_push(
                few,
                place,
                ViewPlace { window: p.window, view: p.view },
            );
        }
        assert forall|i: int, j: int| 0 <= i < j < list.len() implies place_before(
            list[i],
            list[j],
        ) by {
            if j < rest.len() {
                assert(list[i] == rest[i] && list[j] == rest[j]);
            } else if i >= rest.len() {
                assert(list[i] == more[i - rest.len()] && list[j] == more[j - rest.len()]);
            } else {
                let a = rest[i];
                let b = more[j - rest.len()];
                assert(list[i] == a && list[j] == b);
                assert(rest.contains(a));
                assert(more.contains(b));
                let k = few.index_of(ViewPlace { window: a.window, view: a.view });
                assert(places[k] == ViewPlace { window: a.window, view: a.view });
                assert(places[count - 1] == place);
            }
        }
    } else {
        assert(list =~= Seq::empty());
        assert(places.take(count) =~= Seq::empty());
    }
}

proof fn lemma_joined<T>(a: Seq<T>, b: Seq<T>, item: T)
    ensures
        (a + b).contains(item) <==> a.contains(item) || b.contains(item),
{
    if a.contains(item) {
        let i = a.index_of(item);
        assert((a + b)[i] == item);
    }
    if b.contains(item) {
        let i = b.index_of(item);
        assert((a + b)[a.len() + i] == item);
    }
    if (a + b).contains(item) {
        let i = (a + b).index_of(item);
        if i < a.len() {
            assert(a[i] == item);
        } else {
            assert(b[i - a.len()] == item);
        }
    }
}

proof fn lemma_window_owners_complete(windows: Seq<WindowMeasuredChunk>, w: int, count: int, v: int)
    requires
        0 <= w < windows.len() <= usize::MAX,
        0 <= v < count <= windows[w].views@.len() <= usize::MAX,
        !shown_before(windows, frame_at(windows, w, v), w, v),
    ensures
        window_owners(windows, w, count).contains(
            ViewPlace { window: w as usize, view: v as usize },
        ),
    decreases count,
{
    let rest = window_owners(windows, w, count - 1);
    let all = window_owners(windows, w, count);
    let wanted = ViewPlace { window: w as usize, view: v as usize };
    if v < count - 1 {
        lemma_window_owners_complete(windows, w, count - 1, v);
        let i = rest.index_of(wanted);
        assert(all[i] == wanted);
    } else {
        assert(all[all.len() - 1] == wanted);
    }
}

proof fn lemma_owners_complete(windows: Seq<WindowMeasuredChunk>, count: int, w: int, v: int)
    requires
        0 <= w < count <= windows.len() <= usize::MAX,
        forall|w: int| 0 <= w < windows.len() ==> (#[trigger] windows[w]).views@.len() <= usize::MAX,
        0 <= v < windows[w].views@.len(),
        !shown_before(windows, frame_at(windows, w, v), w, v),
    ensures
        owners(windows, count).contains(ViewPlace { window: w as usize, view: v as usize }),
    decreases count,
{
    let rest = owners(windows, count - 1);
    let wanted = ViewPlace { window: w as usize, view: v as usize };
    let end = windows[count - 1].views@.len() as int;
    let more = window_owners(windows, count - 1, end);
    if w < count - 1 {
        lemma_owners_complete(windows, count - 1, w, v);
    } else {
        assert(windows[w].views@.len() <= usize::MAX);
        lemma_window_owners_complete(windows, w, end, v);
    }
    lemma_joined(rest, more, wanted);
}

/// A world emits exactly the admitted points of the first views of their frames, each
/// once, window by window, view by view and point by point: a point is emitted where no
/// earlier view shows its frame and where the rule of its window admits it.
pub proof fn law_world_emits_the_first_evidence(
    windows: Seq<WindowMeasuredChunk>,
    rule: EmissionRule,
    place: PointPlace,
)
    requires
        windows.len() <= usize::MAX,
        forall|w: int| 0 <= w < windows.len() ==> (#[trigger] windows[w]).views@.len() <= usize::MAX,
        forall|w: int, v: int|
            0 <= w < windows.len() && 0 <= v < windows[w].views@.len() ==> (
            #[trigger] windows[w].views@[v]).points@.len() <= usize::MAX,
    ensures
        world_emission(windows, rule).contains(place) <==> {
            let view = windows[place.window as int].views@[place.view as int];
            let threshold = match rule {
                EmissionRule::Global => None,
                EmissionRule::Relative => windows[place.window
                    as int].cpp_pr2_emission_confidence_threshold,
            };
            &&& place.window < windows.len()
            &&& place.view < windows[place.window as int].views@.len()
            &&& place.point < view.points@.len()
            &&& admits(view.points@[place.point as int], threshold)
            &&& forall|w: int, v: int|
                0 <= w < windows.len() && 0 <= v < windows[w].views@.len() && (w < place.window || (
                w == place.window && v < place.view)) ==> (
                #[trigger] windows[w].views@[v]).frame_index != view.frame_index
        },
        forall|i: int, j: int|
            0 <= i < j < world_emission(windows, rule).len() ==> place_before(
                #[trigger] world_emission(windows, rule)[i],
                #[trigger] world_emission(windows, rule)[j],
            ),
{
    let places = owners(windows, windows.len() as int);
    let count = windows.len() as int;
    assert forall|i: int| 0 <= i < places.len() implies (#[trigger] places[i]).window
        < windows.len() && places[i].view < windows[places[i].window as int].views@.len() by {
        lemma_owner(windows, count, i);
    }
    assert forall|i: int, j: int| 0 <= i < j < places.len() implies (#[trigger] places[i]).window
        < (#[trigger] places[j]).window || (places[i].window == places[j].window && places[i].view
        < places[j].view) by {
        lemma_owners_ascend(windows, count, i, j);
    }
    lemma_emission(windows, places, rule, places.len() as int);
    assert(places.take(places.len() as int) =~= places);
    let owner = ViewPlace { window: place.window, view: place.view };
    let (w, v) = (place.window as int, place.view as int);
    let frame = frame_at(windows, w, v);
    if places.contains(owner) {
        let i = places.index_of(owner);
        lemma_owner(windows, count, i);
        assert forall|a: int, b: int|
            0 <= a < windows.len() && 0 <= b < windows[a].views@.len() && (a < w || (a == w && b
                < v)) implies (#[trigger] windows[a].views@[b]).frame_index != frame by {
            assert(precedes(windows, a, b, w, v));
            assert(frame_at(windows, a, b) == windows[a].views@[b].frame_index);
        }
    } else if w < windows.len() && v < windows[w].views@.len() {
        if !shown_before(windows, frame, w, v) {
            lemma_owners_complete(windows, count, w, v);
        }
        let (a, b) = choose|a: int, b: int| #[trigger]
            precedes(windows, a, b, w, v) && frame_at(windows, a, b) == frame;
        assert(windows[a].views@[b].frame_index == frame);
    }
}

/// An emitted point is its evidence: it stands where it was placed, and keeps its own
/// colour and confidence, the frame that observed it, and one contribution. As evidence
/// for a surface it keeps position, colour, confidence, radius and frame.
pub proof fn law_emitted_points_are_their_evidence(
    windows: Seq<WindowMeasuredChunk>,
    rule: EmissionRule,
    placements: Seq<Placement>,
    i: int,
)
    requires
        placements.len() == world_emission(windows, rule).len(),
        0 <= i < placements.len(),
    ensures
        ({
            let place = world_emission(windows, rule)[i];
            let view = windows[place.window as int].views@[place.view as int];
            let point = view.points@[place.point as int];
            let emitted = placed_emission(windows, rule, placements)[i];
            let observed = emitted_observations(windows, rule, placements)[i];
            &&& emitted.position == placements[i].position
            &&& emitted.normal == placements[i].normal
            &&& emitted.radius == placements[i].radius
            &&& emitted.color_srgb == point.color_srgb
            &&& emitted.confidence == point.confidence
            &&& emitted.first_observing_frame == view.frame_index as i32
            &&& emitted.contributors == 1
            &&& observed.position == placements[i].position
            &&& observed.radius == placements[i].radius
            &&& observed.color_srgb == point.color_srgb
            &&& observed.confidence == point.confidence
            &&& observed.frame_index == view.frame_index as i32
        }),
        placed_emission(windows, rule, placements).len() == placements.len(),
        emitted_observations(windows, rule, placements).len() == placements.len(),
{
}

/// The points of a frame are counted by their frame; a frame below zero counts as the
/// first.
pub proof fn law_owned_points_are_counted(points: Seq<FusedPoint>, frame: int, count: int)
    requires
        0 <= count <= points.len(),
        0 <= frame,
    ensures
        owned_by(points, frame, count) == points.take(count).filter(
            |point: FusedPoint|
                point.first_observing_frame == frame || (frame == 0 && point.first_observing_frame
                    < 0),
        ).len(),
    decreases count,
{
    reveal(Seq::filter);
    if count > 0 {
        law_owned_points_are_counted(points, frame, count - 1);
        assert(points.take(count).drop_last() =~= points.take(count - 1));
    }
}

/// The keys of a view are the positions of its points that are finite and, under a
/// threshold, confident enough, in their order.
pub proof fn law_keys_are_confident_positions(
    points: Seq<MeasuredPoint>,
    threshold: Option<u32>,
    count: int,
)
    requires
        0 <= count <= points.len(),
    ensures
        view_keys(points, threshold, count) == points.take(count).filter_map(
            |point: MeasuredPoint|
                if ieee::f32_magnitude(point.position@[0]) < 0x7f80_0000 && ieee::f32_magnitude(
                    point.position@[1],
                ) < 0x7f80_0000 && ieee::f32_magnitude(point.position@[2]) < 0x7f80_0000 && (
                match threshold {
                    Some(limit) => !ieee::f32_nan(limit) && !ieee::f32_nan(point.confidence)
                        && ieee::f32_rank(limit) <= ieee::f32_rank(point.confidence),
                    None => true,
                }) {
                    Some(point.position)
                } else {
                    None
                },
        ),
    decreases count,
{
    if count > 0 {
        law_keys_are_confident_positions(points, threshold, count - 1);
        assert(points.take(count).drop_last() =~= points.take(count - 1));
        let point = points[count - 1];
        let rest = view_keys(points, threshold, count - 1);
        assert(rest.push(point.position) =~= rest + seq![point.position]);
        if is_key(point, threshold) {
            assert(ieee::f32_finite(point.position@[0]));
            assert(ieee::f32_finite(point.position@[1]));
            assert(ieee::f32_finite(point.position@[2]));
        }
    }
}

/// A window owns its views behind the overlap with the window before it; the first
/// window owns all of them.
pub proof fn law_windows_own_what_is_new(window_index: usize, overlap: usize, views: int, v: int)
    requires
        0 <= v < views,
    ensures
        first_owned(window_index, overlap, views) <= v <==> window_index == 0 || overlap <= v,
        0 <= first_owned(window_index, overlap, views) <= views,
{
}

/// A loop is closed exactly where two windows were compared, some single pair of their
/// cameras is within three units and agrees in direction by a cosine of three tenths,
/// and their relative pose was measured: the loop then joins those two windows by that
/// measurement, with five times the information of a seam.
pub proof fn law_loops_are_measured_revisits(
    pairs: Seq<(usize, usize)>,
    evidence: Seq<LoopEvidence>,
    count: int,
)
    requires
        0 <= count <= pairs.len() == evidence.len(),
    ensures
        loops_among(pairs, evidence, count) == order::counted(count).filter_map(
            |i: int|
                match evidence[i].measurement {
                    Some(measurement) => if exists|k: int|
                        0 <= k < evidence[i].cameras@.len() && !ieee::f32_nan(
                            (#[trigger] evidence[i].cameras@[k]).distance,
                        ) && !ieee::f32_nan(evidence[i].cameras@[k].cosine) && ieee::f32_rank(
                            evidence[i].cameras@[k].distance,
                        ) <= 0x4110_0000 && 0x3e99_999a <= ieee::f32_rank(evidence[i].cameras@[k].cosine) {
                        Some(
                            PoseGraphEdge {
                                from: pairs[i].0,
                                to: pairs[i].1,
                                measurement,
                                loop_closure: true,
                                information: 0x40a0_0000,
                            },
                        )
                    } else {
                        None
                    },
                    None => None,
                },
        ),
    decreases count,
{
    if count > 0 {
        law_loops_are_measured_revisits(pairs, evidence, count - 1);
        order::lemma_counted(count);
        let rest = loops_among(pairs, evidence, count - 1);
        let all = loops_among(pairs, evidence, count);
        let cameras = evidence[count - 1].cameras@;
        if any_meets(cameras) {
            let k = choose|k: int| 0 <= k < cameras.len() && meets(#[trigger] cameras[k]);
            assert(!ieee::f32_nan(evidence[count - 1].cameras@[k].distance));
        }
        if exists|k: int|
            0 <= k < cameras.len() && !ieee::f32_nan((#[trigger] cameras[k]).distance)
                && !ieee::f32_nan(cameras[k].cosine) && ieee::f32_rank(cameras[k].distance)
                <= 0x4110_0000 && 0x3e99_999a
                <= ieee::f32_rank(cameras[k].cosine) {
            let k = choose|k: int|
                0 <= k < cameras.len() && !ieee::f32_nan((#[trigger] cameras[k]).distance)
                    && !ieee::f32_nan(cameras[k].cosine) && ieee::f32_rank(cameras[k].distance)
                    <= 0x4110_0000 && 0x3e99_999a
                    <= ieee::f32_rank(cameras[k].cosine);
            assert(meets(cameras[k]));
        }
        if all.len() > rest.len() {
            assert(all =~= rest + seq![all.last()]);
        }
    }
}

/// The windows that are compared for loops are those at least three places apart, each
/// pair once and in order; without loop closing, and for no more than three windows,
/// there are none.
pub proof fn law_compared_windows_are_apart(windows: int, loop_close: bool, a: usize, b: usize)
    requires
        0 <= windows <= usize::MAX,
    ensures
        compared_pairs(windows, loop_close).contains((a, b)) <==> loop_close && windows > 3 && a + 3
            <= b < windows,
{
    revisit::law_pairs_are_those_that_keep_the_gap(windows, 3);
}

/// The camera of a frame is that of the last view of it that its window owns and that
/// has a camera; where there is none, the frame has none.
pub proof fn law_frames_take_their_last_camera(
    windows: Seq<WindowMeasuredChunk>,
    cameras: Seq<Vec<Option<CameraPlace>>>,
    overlap: usize,
    frame: int,
    w: int,
    v: int,
)
    requires
        0 <= w <= windows.len() == cameras.len(),
        0 <= v,
        v > 0 ==> w < windows.len() && v <= windows[w].views@.len(),
    ensures
        ({
            let shows = |a: int, b: int|
                {
                    &&& 0 <= a < windows.len() && 0 <= b < windows[a].views@.len()
                    &&& a < w || (a == w && b < v)
                    &&& windows[a].views@[b].frame_index == frame
                    &&& cameras[a]@[b] is Some
                    &&& windows[a].window.index == 0 || overlap <= b
                };
            match camera_of(windows, cameras, overlap, frame, w, v) {
                Some(camera) => exists|a: int, b: int|
                    {
                        &&& #[trigger] cameras[a]@[b] == Some(camera)
                        &&& shows(a, b)
                        &&& forall|c: int, d: int|
                            shows(c, d) ==> (c < a || (c == a && d <= b)) || #[trigger] cameras[c]@[d]
                                is None
                    },
                None => forall|a: int, b: int| !shows(a, b) || #[trigger] cameras[a]@[b] is None,
            }
        }),
    decreases w, v,
{
    if v > 0 {
        let view = windows[w].views@[v - 1];
        law_windows_own_what_is_new(
            windows[w].window.index,
            overlap,
            windows[w].views@.len() as int,
            v - 1,
        );
        if v - 1 >= first_owned(windows[w].window.index, overlap, windows[w].views@.len() as int)
            && view.frame_index == frame && cameras[w]@[v - 1] is Some {
            assert(cameras[w]@[v - 1] == camera_of(windows, cameras, overlap, frame, w, v));
        } else {
            law_frames_take_their_last_camera(windows, cameras, overlap, frame, w, v - 1);
        }
    } else if w > 0 {
        law_frames_take_their_last_camera(
            windows,
            cameras,
            overlap,
            frame,
            w - 1,
            windows[w - 1].views@.len() as int,
        );
    }
}

proof fn lemma_confident_points(
    points: Seq<MeasuredPoint>,
    w: int,
    v: int,
    threshold: u32,
    count: int,
)
    requires
        0 <= w <= usize::MAX,
        0 <= v <= usize::MAX,
        0 <= count <= points.len() <= usize::MAX,
    ensures
        forall|p: PointPlace| #[trigger]
            confident_points(points, w, v, threshold, count).contains(p) <==> p.window == w
                && p.view == v && p.point < count && !ieee::f32_nan(threshold) && !ieee::f32_nan(
                points[p.point as int].confidence,
            ) && ieee::f32_rank(threshold) <= ieee::f32_rank(points[p.point as int].confidence),
    decreases count,
{
    let list = confident_points(points, w, v, threshold, count);
    if count > 0 {
        lemma_confident_points(points, w, v, threshold, count - 1);
        let rest = confident_points(points, w, v, threshold, count - 1);
        let last = PointPlace {
            window: w as usize,
            view: v as usize,
            point: (count - 1) as usize,
        };
        assert forall|p: PointPlace| #[trigger] list.contains(p) <==> p.window == w && p.view == v
            && p.point < count && !ieee::f32_nan(threshold) && !ieee::f32_nan(
            points[p.point as int].confidence,
        ) && ieee::f32_rank(threshold) <= ieee::f32_rank(points[p.point as int].confidence) by {
            if ieee::f32_at_most(threshold, points[count - 1].confidence) {
                vstd::seq_lib::lemma_seq_contains_after_push(rest, last, p);
            }
        }
    } else {
        assert(list =~= Seq::empty());
    }
}

proof fn lemma_owned_emission(
    window: WindowMeasuredChunk,
    w: int,
    threshold: u32,
    first: int,
    end: int,
)
    requires
        0 <= w <= usize::MAX,
        0 <= first,
        end <= window.views@.len() <= usize::MAX,
        forall|v: int|
            0 <= v < window.views@.len() ==> (#[trigger] window.views@[v]).points@.len()
                <= usize::MAX,
    ensures
        forall|p: PointPlace| #[trigger]
            owned_emission(window, w, threshold, first, end).contains(p) <==> {
                let points = window.views@[p.view as int].points@;
                &&& p.window == w && first <= p.view < end && p.point < points.len()
                &&& !ieee::f32_nan(threshold) && !ieee::f32_nan(points[p.point as int].confidence)
                &&& ieee::f32_rank(threshold) <= ieee::f32_rank(points[p.point as int].confidence)
            },
    decreases end - first,
{
    let list = owned_emission(window, w, threshold, first, end);
    if first < end {
        lemma_owned_emission(window, w, threshold, first, end - 1);
        let points = window.views@[end - 1].points@;
        assert(points.len() <= usize::MAX);
        lemma_confident_points(points, w, end - 1, threshold, points.len() as int);
        let rest = owned_emission(window, w, threshold, first, end - 1);
        let more = confident_points(points, w, end - 1, threshold, points.len() as int);
        assert forall|p: PointPlace| #[trigger] list.contains(p) <==> rest.contains(p)
            || more.contains(p) by {
            lemma_joined(rest, more, p);
        }
    } else {
        assert(list =~= Seq::empty());
    }
}

/// The reference cloud of a capture holds exactly the points of the views that their
/// windows own whose confidence is numerically at least the threshold of the window.
pub proof fn law_reference_cloud_is_what_windows_own(
    windows: Seq<WindowMeasuredChunk>,
    thresholds: Seq<u32>,
    overlap: usize,
    count: int,
)
    requires
        0 <= count <= windows.len() <= usize::MAX,
        thresholds.len() == windows.len(),
        forall|w: int| 0 <= w < windows.len() ==> (#[trigger] windows[w]).views@.len() <= usize::MAX,
        forall|w: int, v: int|
            0 <= w < windows.len() && 0 <= v < windows[w].views@.len() ==> (
            #[trigger] windows[w].views@[v]).points@.len() <= usize::MAX,
    ensures
        forall|p: PointPlace| #[trigger]
            reference_emission(windows, thresholds, overlap, count).contains(p) <==> {
                let window = windows[p.window as int];
                let points = window.views@[p.view as int].points@;
                &&& p.window < count && p.view < window.views@.len() && p.point < points.len()
                &&& window.window.index == 0 || overlap <= p.view
                &&& !ieee::f32_nan(thresholds[p.window as int]) && !ieee::f32_nan(
                    points[p.point as int].confidence,
                )
                &&& ieee::f32_rank(thresholds[p.window as int]) <= ieee::f32_rank(
                    points[p.point as int].confidence,
                )
            },
    decreases count,
{
    let list = reference_emission(windows, thresholds, overlap, count);
    if count > 0 {
        law_reference_cloud_is_what_windows_own(windows, thresholds, overlap, count - 1);
        let w = count - 1;
        let window = windows[w];
        let views = window.views@.len() as int;
        let first = first_owned(window.window.index, overlap, views);
        assert forall|v: int| 0 <= v < window.views@.len() implies (
        #[trigger] window.views@[v]).points@.len() <= usize::MAX by {
            assert(windows[w].views@[v].points@.len() <= usize::MAX);
        }
        lemma_owned_emission(window, w, thresholds[w], first, views);
        let rest = reference_emission(windows, thresholds, overlap, w);
        let more = owned_emission(window, w, thresholds[w], first, views);
        assert forall|p: PointPlace| #[trigger] list.contains(p) <==> rest.contains(p)
            || more.contains(p) by {
            lemma_joined(rest, more, p);
        }
    } else {
        assert(list =~= Seq::empty());
    }
}

/// Every point of a world is evidence of a surface: at its place, with its colour, its
/// confidence and its radius, in the frame that saw it first.
pub proof fn law_observations_are_their_points(points: Seq<FusedPoint>, i: int)
    requires
        0 <= i < points.len(),
    ensures
        observations_of(points).len() == points.len(),
        observations_of(points)[i].position == points[i].position,
        observations_of(points)[i].color_srgb == points[i].color_srgb,
        observations_of(points)[i].confidence == points[i].confidence,
        observations_of(points)[i].radius == points[i].radius,
        observations_of(points)[i].frame_index == points[i].first_observing_frame,
{
}

/// Keys are thinned in equal steps: the first is kept, and then one for every step. The
/// step is how often 3000 goes into their number, and one at least.
pub proof fn law_keys_are_thinned_in_equal_steps(items: Seq<[u32; 3]>, i: int)
    requires
        0 <= i,
    ensures
        ({
            let step = key_stride(items.len() as int);
            let kept = thinned(items, step);
            &&& step >= 1
            &&& step == 1 || step * 3000 <= items.len() < (step + 1) * 3000
            &&& items.len() >= 6000 ==> step >= 2
            &&& i < kept.len() <==> i * step < items.len()
            &&& i < kept.len() ==> kept[i] == items[i * step]
        }),
{
    let count = items.len() as int;
    let step = key_stride(count);
    let length = (count + step - 1) / step;
    assert((length - 1) * step < count <= length * step && length >= 0) by (nonlinear_arith)
        requires
            length == (count + step - 1) / step,
            step >= 1,
            count >= 0,
    ;
    if i < length {
        assert(i * step <= (length - 1) * step) by (nonlinear_arith)
            requires
                i <= length - 1,
                step >= 1,
        ;
    } else {
        assert(length * step <= i * step) by (nonlinear_arith)
            requires
                length <= i,
                step >= 1,
        ;
    }
}

/// The confident points of a view are those, in order, whose confidence is a number no
/// less than the threshold.
pub proof fn law_confident_points_reach_the_threshold(
    points: Seq<MeasuredPoint>,
    w: usize,
    v: usize,
    threshold: u32,
    count: int,
)
    requires
        0 <= count <= points.len() <= usize::MAX,
        !ieee::f32_nan(threshold),
    ensures
        confident_points(points, w as int, v as int, threshold, count) == order::counted(
            count,
        ).filter(
            |i: int|
                !ieee::f32_nan(points[i].confidence) && ieee::f32_rank(points[i].confidence)
                    >= ieee::f32_rank(threshold),
        ).map_values(|i: int| PointPlace { window: w, view: v, point: i as usize }),
    decreases count,
{
    reveal(Seq::filter);
    if count > 0 {
        law_confident_points_reach_the_threshold(points, w, v, threshold, count - 1);
        order::lemma_counted(count);
    } else {
        assert(order::counted(count) =~= Seq::empty());
    }
    assert(confident_points(points, w as int, v as int, threshold, count) =~= order::counted(
        count,
    ).filter(
        |i: int|
            !ieee::f32_nan(points[i].confidence) && ieee::f32_rank(points[i].confidence)
                >= ieee::f32_rank(threshold),
    ).map_values(|i: int| PointPlace { window: w, view: v, point: i as usize }));
}

/// The nearest key is within the limit, none within the limit is nearer, and none before
/// it is as near. Where no key is within the limit there is none.
pub proof fn law_nearest_key_is_nearest(
    squared: Seq<u32>,
    limit: u32,
    place: Option<int>,
    i: int,
)
    requires
        is_first_nearest(squared, limit, place),
        !ieee::f32_nan(limit),
        0 <= i < squared.len(),
        !ieee::f32_nan(squared[i]),
    ensures
        place is None ==> ieee::f32_rank(squared[i]) > ieee::f32_rank(limit),
        place matches Some(k) ==> {
            &&& 0 <= k < squared.len()
            &&& !ieee::f32_nan(squared[k])
            &&& ieee::f32_rank(squared[k]) <= ieee::f32_rank(limit)
            &&& ieee::f32_rank(squared[k]) <= ieee::f32_rank(squared[i])
            &&& i < k ==> ieee::f32_rank(squared[k]) < ieee::f32_rank(squared[i])
        },
{
}

/// A point of the reference emission keeps its place, faces along the third axis, and has
/// a radius above zero: its own where that is, one in ten thousand otherwise.
pub proof fn law_reference_points_have_extent(placement: Placement, place: ReferencePlace)
    requires
        is_reference_placement(placement, place),
    ensures
        placement.position == place.position,
        placement.normal@[0] == 0,
        placement.normal@[1] == 0,
        placement.normal@[2] == 0x3f80_0000,
        0 < ieee::f32_rank(placement.radius) < 0x7f80_0000,
        0 < ieee::f32_rank(place.radius) < 0x7f80_0000 ==> placement.radius == place.radius,
        placement.radius == place.radius || placement.radius == 0x38d1_b717,
{
}

/// Counts stop at the largest number of 31 bits, and a point counts for its first frame,
/// or for the first of all where it has none.
pub proof fn law_counts_saturate(count: nat, point: FusedPoint)
    ensures
        saturated(count) <= 0x7fff_ffff,
        saturated(count) <= count,
        saturated(count) == count || saturated(count) == 0x7fff_ffff,
        point.first_observing_frame >= 0 ==> owner_of(point) == point.first_observing_frame,
        point.first_observing_frame < 0 ==> owner_of(point) == 0,
{
}

/// A point is emitted globally where its place and its normal are finite and its
/// confidence and radius are finite numbers above zero. Relative to the threshold of its
/// window, its normal does not count, and its confidence is to be finite and not below
/// the threshold.
pub proof fn law_emitted_points_are_usable(point: MeasuredPoint, threshold: Option<u32>)
    ensures
        emits(point, threshold) <==> {
            &&& forall|axis: int|
                0 <= axis < 3 ==> ieee::f32_magnitude(#[trigger] point.position@[axis])
                    < 0x7f80_0000
            &&& 0 < ieee::f32_rank(point.radius) < 0x7f80_0000
            &&& threshold is None ==> (forall|axis: int|
                0 <= axis < 3 ==> ieee::f32_magnitude(#[trigger] point.normal@[axis])
                    < 0x7f80_0000) && 0 < ieee::f32_rank(point.confidence) < 0x7f80_0000
            &&& threshold is Some ==> ieee::f32_magnitude(point.confidence) < 0x7f80_0000 && (
            ieee::f32_nan(threshold->0) || ieee::f32_rank(point.confidence) >= ieee::f32_rank(
                threshold->0,
            ))
        },
{
    let placed = forall|axis: int|
        0 <= axis < 3 ==> ieee::f32_magnitude(#[trigger] point.position@[axis]) < 0x7f80_0000;
    let faced = forall|axis: int|
        0 <= axis < 3 ==> ieee::f32_magnitude(#[trigger] point.normal@[axis]) < 0x7f80_0000;
    assert(ieee::f32_all_finite(point.position@) <==> placed) by {
        if ieee::f32_all_finite(point.position@) {
            assert forall|axis: int| 0 <= axis < 3 implies ieee::f32_magnitude(
                #[trigger] point.position@[axis],
            ) < 0x7f80_0000 by {
                assert(ieee::f32_finite(point.position@[axis]));
            }
        }
    }
    assert(ieee::f32_all_finite(point.normal@) <==> faced) by {
        if ieee::f32_all_finite(point.normal@) {
            assert forall|axis: int| 0 <= axis < 3 implies ieee::f32_magnitude(
                #[trigger] point.normal@[axis],
            ) < 0x7f80_0000 by {
                assert(ieee::f32_finite(point.normal@[axis]));
            }
        }
    }
}

/// Every window is placed by the pose at its own place, under its own index.
pub proof fn law_windows_keep_their_poses(
    windows: Seq<WindowMeasuredChunk>,
    poses: Seq<SimilarityTransform>,
    i: int,
)
    requires
        0 <= i < windows.len(),
    ensures
        poses_of(windows, poses).len() == windows.len(),
        poses_of(windows, poses)[i].window_index == windows[i].window.index,
        poses_of(windows, poses)[i].local_to_world == poses[i],
{
}

} // verus!
