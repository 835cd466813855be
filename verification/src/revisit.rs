//! Conservative revisit proposals from sequential camera poses.
//!
//! A proposal is never a loop closure: the caller still has to establish tight
//! correspondences, fit a relative transform and pass its quality gates.

use vstd::prelude::*;

use crate::geometry::WindowMeasuredChunk;
use crate::ieee;
use crate::order;

verus! {

/// Camera centre and positive camera-Z direction in the window's frame.
#[derive(Debug, Clone, Copy, PartialEq, Eq)]
pub struct CameraCentreDirection {
    pub frame_index: usize,
    pub centre_local: [u32; 3],
    pub forward_local: [u32; 3],
}

/// The cameras of one window.
#[derive(Debug, Clone, PartialEq, Eq)]
pub struct WindowCameraPath {
    pub window_index: usize,
    pub cameras: Vec<CameraCentreDirection>,
}

/// When two windows are worth comparing.
#[derive(Debug, Clone, Copy, PartialEq, Eq)]
pub struct RevisitProposalSettings {
    /// Windows nearer than this many places are not compared.
    pub minimum_window_gap: usize,
    /// Camera-centre distance in relative scene units.
    pub maximum_centre_distance: u32,
    /// Cosine of the two positive camera-Z directions.
    pub minimum_forward_cosine: u32,
}

/// Two windows whose cameras come close.
#[derive(Debug, Clone, Copy, PartialEq, Eq)]
pub struct RevisitProposal {
    pub earlier: usize,
    pub later: usize,
    pub nearest_centre_distance: u32,
    pub best_forward_cosine: u32,
}

/// Centre and direction of a camera in its window, where it has a direction.
#[derive(Debug, Clone, Copy, PartialEq, Eq)]
pub struct CameraHeading {
    pub centre_local: [u32; 3],
    pub forward_local: Option<[u32; 3]>,
}

/// The camera of view `i` is kept: its pose is finite and it has a direction.
pub open spec fn camera_valid(
    window: WindowMeasuredChunk,
    headings: Seq<CameraHeading>,
    i: int,
) -> bool {
    ieee::f32_all_finite(window.views@[i].camera.world_to_camera@)
        && headings[i].forward_local is Some
}

/// The kept cameras of the first `count` views.
pub open spec fn valid_cameras(
    window: WindowMeasuredChunk,
    headings: Seq<CameraHeading>,
    count: int,
) -> Seq<CameraCentreDirection>
    decreases count,
{
    if count <= 0 {
        Seq::empty()
    } else if camera_valid(window, headings, count - 1) {
        valid_cameras(window, headings, count - 1).push(
            CameraCentreDirection {
                frame_index: window.views@[count - 1].frame_index,
                centre_local: headings[count - 1].centre_local,
                forward_local: headings[count - 1].forward_local.unwrap(),
            },
        )
    } else {
        valid_cameras(window, headings, count - 1)
    }
}

/// Every kept camera is that of some view.
pub proof fn lemma_valid_cameras(
    window: WindowMeasuredChunk,
    headings: Seq<CameraHeading>,
    count: int,
)
    requires
        0 <= count <= window.views@.len(),
    ensures
        ({
            let cameras = valid_cameras(window, headings, count);
            forall|i: int|
                0 <= i < cameras.len() ==> has_view(window, count, #[trigger] cameras[i])
        }),
    decreases count,
{
    if count > 0 {
        lemma_valid_cameras(window, headings, count - 1);
        let rest = valid_cameras(window, headings, count - 1);
        let cameras = valid_cameras(window, headings, count);
        assert forall|i: int| 0 <= i < cameras.len() implies has_view(
            window,
            count,
            #[trigger] cameras[i],
        ) by {
            if i < rest.len() {
                assert(has_view(window, count - 1, rest[i]));
                let v = choose|v: int|
                    0 <= v < count - 1 && (#[trigger] window.views@[v]).frame_index
                        == rest[i].frame_index;
                assert(window.views@[v].frame_index == cameras[i].frame_index);
            } else {
                assert(window.views@[count - 1].frame_index == cameras[i].frame_index);
            }
        }
    }
}

/// A camera has the frame of one of the first `count` views.
pub open spec fn has_view(
    window: WindowMeasuredChunk,
    count: int,
    camera: CameraCentreDirection,
) -> bool {
    exists|v: int|
        0 <= v < count && (#[trigger] window.views@[v]).frame_index == camera.frame_index
}

/// The valid cameras of a window. Invalid camera matrices are left out rather
/// than turned into invented positions.
pub fn window_camera_path(window: &WindowMeasuredChunk, headings: &Vec<CameraHeading>) -> (path:
    WindowCameraPath)
    requires
        headings@.len() == window.views@.len(),
    ensures
        path.window_index == window.window.index,
        path.cameras@ == valid_cameras(*window, headings@, window.views@.len() as int),
{
    let mut cameras: Vec<CameraCentreDirection> = Vec::new();
    for i in 0..window.views.len()
        invariant
            headings@.len() == window.views@.len(),
            cameras@ == valid_cameras(*window, headings@, i as int),
    {
        let heading = headings[i];
        if ieee::f32s_are_finite(&window.views[i].camera.world_to_camera) {
            if let Some(forward_local) = heading.forward_local {
                cameras.push(
                    CameraCentreDirection {
                        frame_index: window.views[i].frame_index,
                        centre_local: heading.centre_local,
                        forward_local,
                    },
                );
            }
        }
    }
    WindowCameraPath { window_index: window.window.index, cameras }
}

/// How far apart two cameras are and how well they agree in direction.
#[derive(Debug, Clone, Copy, PartialEq, Eq)]
pub struct CameraPair {
    pub distance: u32,
    pub cosine: u32,
}

/// Bit pattern of binary32 infinity.
pub const INFINITY: u32 = 0x7f80_0000;

/// Bit pattern of binary32 `-1.0`.
pub const MINUS_ONE: u32 = 0xbf80_0000;

/// Settings under which anything is proposed.
pub open spec fn proposes(settings: RevisitProposalSettings) -> bool {
    ieee::f32_positive(settings.maximum_centre_distance) && ieee::f32_finite(
        settings.minimum_forward_cosine,
    )
}

/// One pair of cameras that is near and aligned enough.
pub open spec fn is_near(pair: CameraPair, settings: RevisitProposalSettings) -> bool {
    ieee::f32_at_most(pair.distance, settings.maximum_centre_distance) && ieee::f32_at_most(
        settings.minimum_forward_cosine,
        pair.cosine,
    )
}

/// Some pair among `pairs` is near and aligned enough.
pub open spec fn any_near(pairs: Seq<CameraPair>, settings: RevisitProposalSettings) -> bool {
    exists|i: int| 0 <= i < pairs.len() && is_near(#[trigger] pairs[i], settings)
}

/// The least distance among the first `count` pairs, and infinity at most.
pub open spec fn least_distance(pairs: Seq<CameraPair>, count: int) -> u32
    decreases count,
{
    if count <= 0 {
        INFINITY
    } else {
        let rest = least_distance(pairs, count - 1);
        if ieee::f32_less(pairs[count - 1].distance, rest) {
            pairs[count - 1].distance
        } else {
            rest
        }
    }
}

/// The greatest cosine among the first `count` pairs, and minus one at least.
pub open spec fn greatest_cosine(pairs: Seq<CameraPair>, count: int) -> u32
    decreases count,
{
    if count <= 0 {
        MINUS_ONE
    } else {
        let rest = greatest_cosine(pairs, count - 1);
        if ieee::f32_less(rest, pairs[count - 1].cosine) {
            pairs[count - 1].cosine
        } else {
            rest
        }
    }
}

/// Two windows with all pairs of their cameras.
#[derive(Debug, Clone, PartialEq, Eq)]
pub struct WindowPair {
    pub earlier: usize,
    pub later: usize,
    pub cameras: Vec<CameraPair>,
}

/// The pairs of a window `earlier` with the windows from `later` on.
pub open spec fn pairs_from(earlier: int, later: int, windows: int) -> Seq<(usize, usize)>
    decreases windows - later,
{
    if later >= windows {
        Seq::empty()
    } else {
        seq![(earlier as usize, later as usize)] + pairs_from(earlier, later + 1, windows)
    }
}

/// The pairs of windows from `earlier` on that are at least `gap` places
/// apart, in order.
pub open spec fn window_pairs(earlier: int, windows: int, gap: int) -> Seq<(usize, usize)>
    decreases windows - earlier,
{
    if earlier >= windows {
        Seq::empty()
    } else {
        pairs_from(earlier, earlier + gap, windows) + window_pairs(earlier + 1, windows, gap)
    }
}

/// The pairs of windows to compare.
pub fn revisit_pairs(windows: usize, gap: usize) -> (pairs: Vec<(usize, usize)>)
    ensures
        pairs@ == window_pairs(0, windows as int, gap as int),
{
    let mut pairs: Vec<(usize, usize)> = Vec::new();
    let ghost whole = window_pairs(0, windows as int, gap as int);
    for earlier in 0..windows
        invariant
            whole == pairs@ + window_pairs(earlier as int, windows as int, gap as int),
    {
        let ghost start = pairs@;
        let ghost rest = window_pairs(earlier + 1, windows as int, gap as int);
        let mut later: usize = if gap <= windows - earlier {
            earlier + gap
        } else {
            windows
        };
        assert(pairs_from(earlier as int, earlier + gap, windows as int) == pairs_from(
            earlier as int,
            later as int,
            windows as int,
        ));
        assert(whole =~= pairs@ + pairs_from(earlier as int, later as int, windows as int) + rest);
        while later < windows
            invariant
                later <= windows,
                whole == pairs@ + pairs_from(earlier as int, later as int, windows as int) + rest,
            decreases windows - later,
        {
            let ghost before = pairs@;
            pairs.push((earlier, later));
            assert(pairs@ + pairs_from(earlier as int, later + 1, windows as int) =~= before
                + pairs_from(earlier as int, later as int, windows as int));
            later = later + 1;
        }
        assert(whole =~= pairs@ + rest);
    }
    assert(whole =~= pairs@);
    pairs
}

/// The proposals of the first `count` pairs of windows.
pub open spec fn proposals_of(
    pairs: Seq<WindowPair>,
    settings: RevisitProposalSettings,
    count: int,
) -> Seq<RevisitProposal>
    decreases count,
{
    if count <= 0 {
        Seq::empty()
    } else {
        let pair = pairs[count - 1];
        let rest = proposals_of(pairs, settings, count - 1);
        if any_near(pair.cameras@, settings) {
            rest.push(
                RevisitProposal {
                    earlier: pair.earlier,
                    later: pair.later,
                    nearest_centre_distance: least_distance(
                        pair.cameras@,
                        pair.cameras@.len() as int,
                    ),
                    best_forward_cosine: greatest_cosine(
                        pair.cameras@,
                        pair.cameras@.len() as int,
                    ),
                },
            )
        } else {
            rest
        }
    }
}

/// The windows of each pair.
pub open spec fn pair_windows(pairs: Seq<WindowPair>) -> Seq<(usize, usize)> {
    Seq::new(pairs.len(), |i: int| (pairs[i].earlier, pairs[i].later))
}

/// At most one proposal per pair of windows that are far enough apart: a pair is
/// proposed where some two of its cameras come near and agree in direction.
/// Nothing is proposed where the paths and the poses do not match or the
/// settings are unusable. `pairs` holds the cameras of every pair of windows
/// that keeps the gap, in order.
pub fn propose_revisits(
    paths: usize,
    poses: usize,
    pairs: &Vec<WindowPair>,
    settings: &RevisitProposalSettings,
) -> (proposals: Vec<RevisitProposal>)
    requires
        paths == poses && proposes(*settings) ==> pair_windows(pairs@) == window_pairs(
            0,
            paths as int,
            settings.minimum_window_gap as int,
        ),
    ensures
        proposals@ == (if paths != poses || !proposes(*settings) {
            Seq::empty()
        } else {
            proposals_of(pairs@, *settings, pairs@.len() as int)
        }),
{
    let mut proposals: Vec<RevisitProposal> = Vec::new();
    if paths != poses || !ieee::f32_is_positive(settings.maximum_centre_distance)
        || !ieee::f32_is_finite(settings.minimum_forward_cosine) {
        return proposals;
    }
    for p in 0..pairs.len()
        invariant
            proposals@ == proposals_of(pairs@, *settings, p as int),
    {
        let pair = &pairs[p];
        let mut nearest: u32 = INFINITY;
        let mut best: u32 = MINUS_ONE;
        let mut accepted = false;
        for c in 0..pair.cameras.len()
            invariant
                nearest == least_distance(pair.cameras@, c as int),
                best == greatest_cosine(pair.cameras@, c as int),
                accepted == exists|i: int|
                    0 <= i < c && is_near(#[trigger] pair.cameras@[i], *settings),
        {
            let sample = pair.cameras[c];
            if ieee::f32_lt(sample.distance, nearest) {
                nearest = sample.distance;
            }
            if ieee::f32_lt(best, sample.cosine) {
                best = sample.cosine;
            }
            if ieee::f32_le(sample.distance, settings.maximum_centre_distance) && ieee::f32_le(
                settings.minimum_forward_cosine,
                sample.cosine,
            ) {
                assert(is_near(pair.cameras@[c as int], *settings));
                accepted = true;
            }
        }
        if accepted {
            proposals.push(
                RevisitProposal {
                    earlier: pair.earlier,
                    later: pair.later,
                    nearest_centre_distance: nearest,
                    best_forward_cosine: best,
                },
            );
        }
    }
    proposals
}

/// Only windows at least the gap apart are ever compared.
pub proof fn law_pairs_keep_the_gap(earlier: int, windows: int, gap: int, i: int)
    requires
        0 <= earlier,
        0 <= gap,
        0 <= windows <= usize::MAX,
        0 <= i < window_pairs(earlier, windows, gap).len(),
    ensures
        ({
            let pair = window_pairs(earlier, windows, gap)[i];
            earlier <= pair.0 && pair.0 + gap <= pair.1 && pair.1 < windows
        }),
    decreases windows - earlier,
{
    let first = pairs_from(earlier, earlier + gap, windows);
    if i < first.len() {
        lemma_pairs_from(earlier, earlier + gap, windows, i);
    } else {
        law_pairs_keep_the_gap(earlier + 1, windows, gap, i - first.len());
    }
}

proof fn lemma_pairs_from(earlier: int, later: int, windows: int, i: int)
    requires
        0 <= earlier <= later,
        0 <= windows <= usize::MAX,
        0 <= i < pairs_from(earlier, later, windows).len(),
    ensures
        pairs_from(earlier, later, windows)[i].0 == earlier,
        later <= pairs_from(earlier, later, windows)[i].1 < windows,
    decreases windows - later,
{
    if later < windows && i > 0 {
        lemma_pairs_from(earlier, later + 1, windows, i - 1);
        assert(pairs_from(earlier, later, windows)[i] == pairs_from(
            earlier,
            later + 1,
            windows,
        )[i - 1]);
    }
}

/// Pairs come by their earlier window and then by their later one.
pub open spec fn pair_before(a: (usize, usize), b: (usize, usize)) -> bool {
    a.0 < b.0 || (a.0 == b.0 && a.1 < b.1)
}

proof fn lemma_pairs_from_complete(earlier: int, later: int, windows: int, wanted: int)
    requires
        0 <= earlier <= later <= wanted < windows <= usize::MAX,
    ensures
        pairs_from(earlier, later, windows).contains((earlier as usize, wanted as usize)),
    decreases windows - later,
{
    let all = pairs_from(earlier, later, windows);
    let rest = pairs_from(earlier, later + 1, windows);
    if wanted == later {
        assert(all[0] == (earlier as usize, wanted as usize));
    } else {
        lemma_pairs_from_complete(earlier, later + 1, windows, wanted);
        let i = rest.index_of((earlier as usize, wanted as usize));
        assert(all[i + 1] == rest[i]);
    }
}

proof fn lemma_pairs_from_ascend(earlier: int, later: int, windows: int, i: int, j: int)
    requires
        0 <= earlier <= later,
        windows <= usize::MAX,
        0 <= i < j < pairs_from(earlier, later, windows).len(),
    ensures
        pair_before(
            pairs_from(earlier, later, windows)[i],
            pairs_from(earlier, later, windows)[j],
        ),
    decreases windows - later,
{
    let all = pairs_from(earlier, later, windows);
    let rest = pairs_from(earlier, later + 1, windows);
    assert(all[j] == rest[j - 1]);
    if i == 0 {
        lemma_pairs_from(earlier, later + 1, windows, j - 1);
    } else {
        assert(all[i] == rest[i - 1]);
        lemma_pairs_from_ascend(earlier, later + 1, windows, i - 1, j - 1);
    }
}

/// The pairs that are compared are exactly those that keep the gap, each once
/// and in order.
pub proof fn law_pairs_are_those_that_keep_the_gap(windows: int, gap: int)
    requires
        0 <= gap,
        0 <= windows <= usize::MAX,
    ensures
        forall|a: usize, b: usize| #[trigger]
            window_pairs(0, windows, gap).contains((a, b)) <==> a + gap <= b < windows,
        forall|i: int, j: int|
            0 <= i < j < window_pairs(0, windows, gap).len() ==> pair_before(
                #[trigger] window_pairs(0, windows, gap)[i],
                #[trigger] window_pairs(0, windows, gap)[j],
            ),
{
    let all = window_pairs(0, windows, gap);
    assert forall|a: usize, b: usize| #[trigger] all.contains((a, b)) <==> a + gap <= b
        < windows by {
        if all.contains((a, b)) {
            let i = all.index_of((a, b));
            law_pairs_keep_the_gap(0, windows, gap, i);
        }
        if a + gap <= b < windows {
            lemma_window_pairs_complete(0, windows, gap, a, b);
        }
    }
    assert forall|i: int, j: int| 0 <= i < j < all.len() implies pair_before(
        #[trigger] all[i],
        #[trigger] all[j],
    ) by {
        lemma_window_pairs_ascend(0, windows, gap, i, j);
    }
}

proof fn lemma_window_pairs_complete(earlier: int, windows: int, gap: int, a: usize, b: usize)
    requires
        0 <= earlier <= a,
        0 <= gap,
        a + gap <= b < windows <= usize::MAX,
    ensures
        window_pairs(earlier, windows, gap).contains((a, b)),
    decreases windows - earlier,
{
    let all = window_pairs(earlier, windows, gap);
    let first = pairs_from(earlier, earlier + gap, windows);
    let rest = window_pairs(earlier + 1, windows, gap);
    if a == earlier {
        lemma_pairs_from_complete(earlier, earlier + gap, windows, b as int);
        let i = first.index_of((a, b));
        assert(all[i] == first[i]);
    } else {
        lemma_window_pairs_complete(earlier + 1, windows, gap, a, b);
        let i = rest.index_of((a, b));
        assert(all[first.len() + i] == rest[i]);
    }
}

proof fn lemma_window_pairs_ascend(earlier: int, windows: int, gap: int, i: int, j: int)
    requires
        0 <= earlier,
        0 <= gap,
        0 <= windows <= usize::MAX,
        0 <= i < j < window_pairs(earlier, windows, gap).len(),
    ensures
        pair_before(
            window_pairs(earlier, windows, gap)[i],
            window_pairs(earlier, windows, gap)[j],
        ),
    decreases windows - earlier,
{
    let first = pairs_from(earlier, earlier + gap, windows);
    if j < first.len() {
        lemma_pairs_from_ascend(earlier, earlier + gap, windows, i, j);
    } else if i < first.len() {
        lemma_pairs_from(earlier, earlier + gap, windows, i);
        law_pairs_keep_the_gap(earlier + 1, windows, gap, j - first.len());
    } else {
        lemma_window_pairs_ascend(
            earlier + 1,
            windows,
            gap,
            i - first.len(),
            j - first.len(),
        );
    }
}

/// Some proposal names these windows.
pub open spec fn proposed(proposals: Seq<RevisitProposal>, earlier: usize, later: usize) -> bool {
    exists|i: int|
        0 <= i < proposals.len() && (#[trigger] proposals[i]).earlier == earlier
            && proposals[i].later == later
}

/// Two windows are proposed exactly where they keep the gap and some single pair
/// of their cameras is near and aligned enough. The proposals come once each and
/// in the order of their windows.
pub proof fn law_proposals_are_exact(
    pairs: Seq<WindowPair>,
    windows: int,
    settings: RevisitProposalSettings,
)
    requires
        0 <= windows <= usize::MAX,
        pair_windows(pairs) == window_pairs(0, windows, settings.minimum_window_gap as int),
    ensures
        ({
            let all = proposals_of(pairs, settings, pairs.len() as int);
            &&& forall|a: usize, b: usize| #[trigger]
                proposed(all, a, b) <==> a + settings.minimum_window_gap <= b < windows && exists|
                    i: int,
                |
                    0 <= i < pairs.len() && (#[trigger] pairs[i]).earlier == a && pairs[i].later == b
                        && any_near(pairs[i].cameras@, settings)
            &&& forall|i: int, j: int|
                0 <= i < j < all.len() ==> pair_before(
                    ((#[trigger] all[i]).earlier, all[i].later),
                    ((#[trigger] all[j]).earlier, all[j].later),
                )
        }),
{
    law_pairs_are_those_that_keep_the_gap(windows, settings.minimum_window_gap as int);
    let listed = pair_windows(pairs);
    assert forall|i: int, j: int| 0 <= i < j < pairs.len() implies pair_before(
        ((#[trigger] pairs[i]).earlier, pairs[i].later),
        ((#[trigger] pairs[j]).earlier, pairs[j].later),
    ) by {
        assert(pair_before(listed[i], listed[j]));
    }
    lemma_proposals(pairs, settings, pairs.len() as int);
    let all = proposals_of(pairs, settings, pairs.len() as int);
    assert forall|a: usize, b: usize| #[trigger] proposed(all, a, b) <==> a
        + settings.minimum_window_gap <= b < windows && exists|i: int|
        0 <= i < pairs.len() && (#[trigger] pairs[i]).earlier == a && pairs[i].later == b
            && any_near(pairs[i].cameras@, settings) by {
        if proposed(all, a, b) {
            let k = choose|k: int|
                0 <= k < all.len() && (#[trigger] all[k]).earlier == a && all[k].later == b;
            assert(comes_from(pairs, settings, pairs.len() as int, all[k]));
        }
        if exists|i: int|
            0 <= i < pairs.len() && (#[trigger] pairs[i]).earlier == a && pairs[i].later == b
                && any_near(pairs[i].cameras@, settings) {
            let i = choose|i: int|
                0 <= i < pairs.len() && (#[trigger] pairs[i]).earlier == a && pairs[i].later == b
                    && any_near(pairs[i].cameras@, settings);
            assert(listed[i] == (a, b));
            assert(listed.contains((a, b)));
        }
    }
}

/// A proposal is that of one of the first `count` pairs.
spec fn comes_from(
    pairs: Seq<WindowPair>,
    settings: RevisitProposalSettings,
    count: int,
    proposal: RevisitProposal,
) -> bool {
    exists|i: int|
        0 <= i < count && (#[trigger] pairs[i]).earlier == proposal.earlier && pairs[i].later
            == proposal.later && any_near(pairs[i].cameras@, settings)
}

proof fn lemma_proposals(pairs: Seq<WindowPair>, settings: RevisitProposalSettings, count: int)
    requires
        0 <= count <= pairs.len(),
        forall|i: int, j: int|
            0 <= i < j < pairs.len() ==> pair_before(
                ((#[trigger] pairs[i]).earlier, pairs[i].later),
                ((#[trigger] pairs[j]).earlier, pairs[j].later),
            ),
    ensures
        ({
            let all = proposals_of(pairs, settings, count);
            &&& forall|k: int|
                0 <= k < all.len() ==> comes_from(pairs, settings, count, #[trigger] all[k])
            &&& forall|i: int|
                0 <= i < count && any_near((#[trigger] pairs[i]).cameras@, settings) ==> proposed(
                    all,
                    pairs[i].earlier,
                    pairs[i].later,
                )
            &&& forall|i: int, j: int|
                0 <= i < j < all.len() ==> pair_before(
                    ((#[trigger] all[i]).earlier, all[i].later),
                    ((#[trigger] all[j]).earlier, all[j].later),
                )
        }),
    decreases count,
{
    if count > 0 {
        lemma_proposals(pairs, settings, count - 1);
        let rest = proposals_of(pairs, settings, count - 1);
        let all = proposals_of(pairs, settings, count);
        let pair = pairs[count - 1];
        assert forall|k: int| 0 <= k < all.len() implies comes_from(
            pairs,
            settings,
            count,
            #[trigger] all[k],
        ) by {
            if k < rest.len() {
                assert(all[k] == rest[k]);
                assert(comes_from(pairs, settings, count - 1, rest[k]));
                let i = choose|i: int|
                    0 <= i < count - 1 && (#[trigger] pairs[i]).earlier == rest[k].earlier
                        && pairs[i].later == rest[k].later && any_near(
                        pairs[i].cameras@,
                        settings,
                    );
                assert(pairs[i].earlier == all[k].earlier);
            } else {
                assert(pairs[count - 1].earlier == all[k].earlier);
            }
        }
        assert forall|i: int|
            0 <= i < count && any_near((#[trigger] pairs[i]).cameras@, settings) implies proposed(
            all,
            pairs[i].earlier,
            pairs[i].later,
        ) by {
            if i < count - 1 {
                let k = choose|k: int|
                    0 <= k < rest.len() && (#[trigger] rest[k]).earlier == pairs[i].earlier
                        && rest[k].later == pairs[i].later;
                assert(all[k] == rest[k]);
            } else {
                assert(all[all.len() - 1].earlier == pair.earlier);
            }
        }
        assert forall|i: int, j: int| 0 <= i < j < all.len() implies pair_before(
            ((#[trigger] all[i]).earlier, all[i].later),
            ((#[trigger] all[j]).earlier, all[j].later),
        ) by {
            assert(all[i] == rest[i]);
            if j < rest.len() {
                assert(all[j] == rest[j]);
            } else {
                assert(comes_from(pairs, settings, count - 1, rest[i]));
                let k = choose|k: int|
                    0 <= k < count - 1 && (#[trigger] pairs[k]).earlier == rest[i].earlier
                        && pairs[k].later == rest[i].later && any_near(
                        pairs[k].cameras@,
                        settings,
                    );
                assert(pair_before((pairs[k].earlier, pairs[k].later), (pair.earlier, pair.later)));
            }
        }
    }
}

/// The cameras of a window are those of its views whose pose is finite and that have a
/// direction, in order, each with its own frame, centre and direction.
pub proof fn law_camera_path_is_valid_cameras(
    window: WindowMeasuredChunk,
    headings: Seq<CameraHeading>,
    count: int,
)
    requires
        0 <= count <= window.views@.len() == headings.len(),
    ensures
        valid_cameras(window, headings, count) == order::counted(count).filter_map(
            |i: int|
                match headings[i].forward_local {
                    Some(forward_local) => if forall|k: int|
                        0 <= k < 12 ==> ieee::f32_magnitude(
                            #[trigger] window.views@[i].camera.world_to_camera@[k],
                        ) < 0x7f80_0000 {
                        Some(
                            CameraCentreDirection {
                                frame_index: window.views@[i].frame_index,
                                centre_local: headings[i].centre_local,
                                forward_local,
                            },
                        )
                    } else {
                        None
                    },
                    None => None,
                },
        ),
    decreases count,
{
    if count > 0 {
        law_camera_path_is_valid_cameras(window, headings, count - 1);
        order::lemma_counted(count);
        let rest = valid_cameras(window, headings, count - 1);
        let all = valid_cameras(window, headings, count);
        let matrix = window.views@[count - 1].camera.world_to_camera@;
        assert(matrix.len() == 12);
        if ieee::f32_all_finite(matrix) {
            assert forall|k: int| 0 <= k < 12 implies ieee::f32_magnitude(
                #[trigger] window.views@[count - 1].camera.world_to_camera@[k],
            ) < 0x7f80_0000 by {
                assert(ieee::f32_finite(matrix[k]));
            }
        }
        if all.len() > rest.len() {
            assert(all =~= rest + seq![all.last()]);
        }
    }
}

/// The nearest distance of two windows is that of some camera pair, or infinite, and no
/// pair is numerically nearer; the best cosine is that of some pair, or minus one, and no
/// pair has a numerically greater one.
pub proof fn law_proposals_report_the_best_pair(pairs: Seq<CameraPair>, count: int)
    requires
        0 <= count <= pairs.len(),
    ensures
        ({
            let nearest = least_distance(pairs, count);
            let best = greatest_cosine(pairs, count);
            &&& !ieee::f32_nan(nearest) && !ieee::f32_nan(best)
            &&& nearest == 0x7f80_0000 || exists|i: int|
                0 <= i < count && (#[trigger] pairs[i]).distance == nearest
            &&& best == 0xbf80_0000 || exists|i: int|
                0 <= i < count && (#[trigger] pairs[i]).cosine == best
            &&& forall|i: int|
                0 <= i < count && !ieee::f32_nan((#[trigger] pairs[i]).distance) ==> ieee::f32_rank(
                    nearest,
                ) <= ieee::f32_rank(pairs[i].distance)
            &&& forall|i: int|
                0 <= i < count && !ieee::f32_nan((#[trigger] pairs[i]).cosine) ==> ieee::f32_rank(
                    pairs[i].cosine,
                ) <= ieee::f32_rank(best)
            &&& ieee::f32_rank(nearest) <= 0x7f80_0000 && -0x3f80_0000 <= ieee::f32_rank(best)
        }),
    decreases count,
{
    if count > 0 {
        law_proposals_report_the_best_pair(pairs, count - 1);
        let before = least_distance(pairs, count - 1);
        let lower = greatest_cosine(pairs, count - 1);
        if exists|i: int| 0 <= i < count - 1 && (#[trigger] pairs[i]).distance == before {
            let i = choose|i: int| 0 <= i < count - 1 && (#[trigger] pairs[i]).distance == before;
            assert(0 <= i < count && pairs[i].distance == before);
        }
        if exists|i: int| 0 <= i < count - 1 && (#[trigger] pairs[i]).cosine == lower {
            let i = choose|i: int| 0 <= i < count - 1 && (#[trigger] pairs[i]).cosine == lower;
            assert(0 <= i < count && pairs[i].cosine == lower);
        }
        assert(pairs[count - 1].distance == pairs[count - 1].distance);
    }
}

/// A camera pair is near exactly where both hold of it numerically: its distance is no
/// more than the maximum, and its cosine no less than the minimum.
pub proof fn law_near_pairs_are_near_and_aligned(
    pair: CameraPair,
    settings: RevisitProposalSettings,
)
    requires
        proposes(settings),
    ensures
        is_near(pair, settings) <==> !ieee::f32_nan(pair.distance) && !ieee::f32_nan(pair.cosine)
            && ieee::f32_rank(pair.distance) <= ieee::f32_rank(settings.maximum_centre_distance)
            && ieee::f32_rank(settings.minimum_forward_cosine) <= ieee::f32_rank(pair.cosine),
        0 < ieee::f32_rank(settings.maximum_centre_distance) < 0x7f80_0000,
        ieee::f32_magnitude(settings.minimum_forward_cosine) < 0x7f80_0000,
{
}

} // verus!
