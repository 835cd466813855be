//! Frame-global dense-depth rebasing.
//!
//! A globally bundle-adjusted trajectory owns every output camera; each source
//! frame contributes its own dense relative depth. Sparse tracks calibrate that
//! depth in the global coordinate system, and a frame that fails its held-out
//! gate is omitted, never interpolated.

use vstd::prelude::*;

use crate::ieee;
use crate::order;
use crate::ratio;
use crate::scene::SceneBundleError;
use crate::trajectory::{SparseTrack, TrackObservation};
use crate::tsdf;
use crate::tsdf::{
    fuse_normal_space_tsdf, SurfaceEvidence, TsdfObservation, TsdfSettings, TsdfSurfel,
};
use crate::world::FusedPoint;

verus! {

/// Gates of a frame-global product.
#[derive(Debug, Clone, Copy, PartialEq, Eq)]
pub struct FrameGlobalFusionSettings {
    /// Depth samples needed to calibrate one source frame.
    pub minimum_scale_samples: usize,
    /// Held-out residual limit in log-depth units.
    pub maximum_held_out_median_log_error: u32,
    /// Sparse tracks with a worse final reprojection error are not used.
    pub maximum_track_reprojection_error_px: u64,
    /// Share of the frames that has to pass for a product to be published.
    pub minimum_fused_frame_fraction: u32,
    /// Radius of the temporal smoothing of the log-depth scale.
    pub temporal_scale_smoothing_radius: usize,
    /// Log-depth disagreement allowed when an adjacent frame confirms a point
    /// of the surface product.
    pub maximum_neighbor_depth_log_error: Option<u32>,
    /// Independent adjacent depth maps needed by that confirmation.
    pub minimum_neighbor_depth_matches: usize,
    /// Frame distance that still counts as adjacent.
    pub neighbor_frame_radius: usize,
    /// Bound on the evidence of the surface product.
    pub maximum_tsdf_observations: Option<usize>,
    /// Build a fused surface in place of raw rebased points.
    pub tsdf: Option<TsdfSettings>,
}

/// Binary32 `0.2`.
pub const FIFTH: u32 = 0x3e4c_cccd;

impl Default for FrameGlobalFusionSettings {
    fn default() -> (settings: Self)
        ensures
            settings == (FrameGlobalFusionSettings {
                minimum_scale_samples: 12,
                maximum_held_out_median_log_error: FIFTH,
                maximum_track_reprojection_error_px: 0x4004_0000_0000_0000,
                minimum_fused_frame_fraction: 0x3f59_999a,
                temporal_scale_smoothing_radius: 2,
                maximum_neighbor_depth_log_error: Some(FIFTH),
                minimum_neighbor_depth_matches: 1,
                neighbor_frame_radius: 2,
                maximum_tsdf_observations: Some(6_000_000usize),
                tsdf: Some(
                    TsdfSettings {
                        voxel_fraction: 0x3b83_126f,
                        voxel_size: None,
                        truncation_multiple: 0x4080_0000,
                        normal_radius: None,
                        minimum_hits: 2,
                    },
                ),
            }),
    {
        FrameGlobalFusionSettings {
            minimum_scale_samples: 12,
            maximum_held_out_median_log_error: FIFTH,
            maximum_track_reprojection_error_px: 0x4004_0000_0000_0000,
            minimum_fused_frame_fraction: 0x3f59_999a,
            temporal_scale_smoothing_radius: 2,
            maximum_neighbor_depth_log_error: Some(FIFTH),
            minimum_neighbor_depth_matches: 1,
            neighbor_frame_radius: 2,
            maximum_tsdf_observations: Some(6_000_000usize),
            tsdf: Some(TsdfSettings::default()),
        }
    }
}

/// What the sparse model says of the depth of one frame.
#[derive(Debug, Clone, Copy, PartialEq, Eq)]
pub struct FrameGlobalReport {
    pub frame_index: usize,
    pub registered: bool,
    pub scale_samples: usize,
    pub held_out_samples: usize,
    pub scale: Option<u32>,
    pub held_out_median_log_error: Option<u32>,
}

/// Why no frame-global product is published.
#[allow(inconsistent_fields)]
#[derive(Debug, Clone, PartialEq, Eq)]
pub enum FrameGlobalFusionError {
    Scene(SceneBundleError),
    MissingTrajectoryEvidence,
    InsufficientDepthScaleEvidence { frame_index: usize, actual: usize, minimum: usize },
    DepthScaleQuality { frame_index: usize, actual: u32, maximum: u32 },
    InvalidSettings,
    InsufficientFrameCoverage { actual: usize, total: usize, minimum_fraction: u32 },
}

/// Counts of a published product.
#[derive(Debug, Clone, PartialEq, Eq)]
pub struct FrameGlobalFusionProgress {
    pub chunk_hash: String,
    pub fused_frames: usize,
    pub omitted_frames: usize,
    pub points: usize,
}

/// A limit that is finite and not negative.
pub open spec fn is_limit(bits: u32) -> bool {
    ieee::f32_finite(bits) && !ieee::f32_less(bits, 0)
}

fn limit(bits: u32) -> (answer: bool)
    ensures
        answer == is_limit(bits),
{
    ieee::f32_is_finite(bits) && !ieee::f32_lt(bits, 0)
}

/// Settings a product can be built with.
pub open spec fn settings_valid(settings: FrameGlobalFusionSettings) -> bool {
    &&& settings.minimum_scale_samples > 0
    &&& is_limit(settings.maximum_held_out_median_log_error)
    &&& ieee::f64_finite(settings.maximum_track_reprojection_error_px)
    &&& !ieee::f64_at_most(settings.maximum_track_reprojection_error_px, 0)
    &&& ieee::f32_finite(settings.minimum_fused_frame_fraction)
    &&& ieee::f32_at_most(0, settings.minimum_fused_frame_fraction)
    &&& ieee::f32_at_most(settings.minimum_fused_frame_fraction, ieee::F32_ONE)
    &&& settings.maximum_neighbor_depth_log_error matches Some(error) ==> {
        &&& is_limit(error)
        &&& settings.minimum_neighbor_depth_matches > 0
        &&& settings.neighbor_frame_radius > 0
    }
    &&& settings.maximum_tsdf_observations matches Some(budget) ==> budget > 0
}

/// Refuses settings no product can be built with.
pub fn validate_settings(settings: &FrameGlobalFusionSettings) -> (result: Result<
    (),
    FrameGlobalFusionError,
>)
    ensures
        result is Ok <==> settings_valid(*settings),
        result matches Err(e) ==> e is InvalidSettings,
{
    let neighbors = match settings.maximum_neighbor_depth_log_error {
        None => true,
        Some(error) => limit(error) && settings.minimum_neighbor_depth_matches > 0
            && settings.neighbor_frame_radius > 0,
    };
    let budget = match settings.maximum_tsdf_observations {
        None => true,
        Some(budget) => budget > 0,
    };
    if settings.minimum_scale_samples > 0 && limit(settings.maximum_held_out_median_log_error)
        && ieee::f64_is_finite(settings.maximum_track_reprojection_error_px) && !ieee::f64_le(
        settings.maximum_track_reprojection_error_px,
        0,
    ) && ieee::f32_is_finite(settings.minimum_fused_frame_fraction) && ieee::f32_le(
        0,
        settings.minimum_fused_frame_fraction,
    ) && ieee::f32_le(settings.minimum_fused_frame_fraction, ieee::F32_ONE) && neighbors && budget {
        Ok(())
    } else {
        Err(FrameGlobalFusionError::InvalidSettings)
    }
}

/// The sampling threshold of a budget: everything where the budget suffices,
/// else the budget's share of the hash range.
pub open spec fn sample_threshold(candidates: int, budget: int) -> int {
    if candidates <= budget {
        u64::MAX as int
    } else {
        ratio::share_of_range(budget, candidates)
    }
}

/// The sampling threshold that brings `candidate_observations` down to about
/// `budget`.
pub fn observation_sample_threshold(candidate_observations: usize, budget: usize) -> (threshold:
    u64)
    ensures
        threshold == sample_threshold(candidate_observations as int, budget as int),
{
    if candidate_observations <= budget {
        u64::MAX
    } else {
        ratio::range_share(budget, candidate_observations)
    }
}

/// `a` turned left by 27 bits.
pub open spec fn turned(a: u64) -> u64 {
    (a << 27u64) | (a >> 37u64)
}

/// The sampling hash of a pixel of a frame.
pub open spec fn pixel_hash(frame_index: usize, source_pixel: [u32; 2]) -> u64 {
    let seeded = frame_index as u64 ^ 0x9e37_79b9_7f4a_7c15u64;
    let across = seeded ^ (source_pixel@[0] as u64).wrapping_mul(0xbf58_476d_1ce4_e5b9u64);
    let mixed = turned(across).wrapping_mul(0x94d0_49bb_1331_11ebu64);
    let down = mixed ^ (source_pixel@[1] as u64).wrapping_mul(0x369d_ea0f_31a5_3f85u64);
    down ^ (down >> 29u64)
}

/// Whether the sample keeps a pixel of a frame: the same answer for the same
/// pixel, whatever else is in the sample.
pub fn keep_tsdf_observation(frame_index: usize, source_pixel: [u32; 2], threshold: u64) -> (keep:
    bool)
    ensures
        keep == (pixel_hash(frame_index, source_pixel) <= threshold),
{
    let seeded: u64 = frame_index as u64 ^ 0x9e37_79b9_7f4a_7c15u64;
    let across: u64 = seeded ^ (source_pixel[0] as u64).wrapping_mul(0xbf58_476d_1ce4_e5b9u64);
    let rotated: u64 = (across << 27u64) | (across >> 37u64);
    let mixed: u64 = rotated.wrapping_mul(0x94d0_49bb_1331_11ebu64);
    let down: u64 = mixed ^ (source_pixel[1] as u64).wrapping_mul(0x369d_ea0f_31a5_3f85u64);
    let hash: u64 = down ^ (down >> 29u64);
    hash <= threshold
}

/// A budget that suffices keeps every observation.
pub proof fn law_sufficient_budget_keeps_everything(
    candidates: int,
    budget: int,
    frame_index: usize,
    source_pixel: [u32; 2],
)
    requires
        candidates <= budget,
    ensures
        pixel_hash(frame_index, source_pixel) <= sample_threshold(candidates, budget),
{
}

/// A larger threshold keeps what a smaller one keeps: raising the budget never
/// drops an observation.
pub proof fn law_sampling_is_nested(
    frame_index: usize,
    source_pixel: [u32; 2],
    threshold: u64,
    larger: u64,
)
    requires
        threshold <= larger,
        pixel_hash(frame_index, source_pixel) <= threshold,
    ensures
        pixel_hash(frame_index, source_pixel) <= larger,
{
}

/// The share of the frames that passed reaches the required fraction.
pub open spec fn covers_enough(fused: int, total: int, minimum_fraction: u32) -> bool {
    ieee::f32_at_most(
        minimum_fraction,
        ratio::f32_quotient(
            fused,
            if total < 1 {
                1
            } else {
                total
            },
        ),
    )
}

/// Whether enough frames passed.
pub fn has_required_coverage(
    fused_frames: usize,
    total_frames: usize,
    minimum_fraction: u32,
) -> (enough: bool)
    ensures
        enough == covers_enough(fused_frames as int, total_frames as int, minimum_fraction),
{
    let total: usize = if total_frames < 1 {
        1
    } else {
        total_frames
    };
    ieee::f32_le(minimum_fraction, ratio::f32_ratio(fused_frames, total))
}

/// A report that passes the held-out gate.
pub open spec fn passes(report: FrameGlobalReport, maximum: u32) -> bool {
    &&& report.scale is Some
    &&& report.held_out_median_log_error is Some
    &&& ieee::f32_at_most(report.held_out_median_log_error.unwrap(), maximum)
}

fn report_passes(report: &FrameGlobalReport, maximum: u32) -> (answer: bool)
    ensures
        answer == passes(*report, maximum),
{
    match report.held_out_median_log_error {
        None => false,
        Some(error) => report.scale.is_some() && ieee::f32_le(error, maximum),
    }
}

/// Binary32 infinity.
pub const F32_INFINITY: u32 = 0x7f80_0000;

/// The held-out error a report is ranked by.
pub open spec fn ranked_error(report: FrameGlobalReport) -> u32 {
    match report.held_out_median_log_error {
        None => F32_INFINITY,
        Some(error) => error,
    }
}

fn error_of(report: &FrameGlobalReport) -> (error: u32)
    ensures
        error == ranked_error(*report),
{
    match report.held_out_median_log_error {
        None => F32_INFINITY,
        Some(error) => error,
    }
}

/// Numerically the same value.
pub open spec fn same_value(a: u32, b: u32) -> bool {
    ieee::f32_at_most(a, b) && ieee::f32_at_most(b, a)
}

/// One view of a frame is preferred to another: one that passes the held-out
/// gate, then the smaller held-out error, then more samples.
pub open spec fn better(
    candidate: FrameGlobalReport,
    current: FrameGlobalReport,
    maximum: u32,
) -> bool {
    if passes(candidate, maximum) != passes(current, maximum) {
        passes(candidate, maximum)
    } else {
        let a = ranked_error(candidate);
        let b = ranked_error(current);
        ieee::f32_total_rank(a) < ieee::f32_total_rank(b) || (same_value(a, b)
            && candidate.scale_samples > current.scale_samples)
    }
}

/// Whether `candidate` replaces `current` as the view of its frame.
pub fn candidate_report_is_better(
    candidate: &FrameGlobalReport,
    current: &FrameGlobalReport,
    settings: &FrameGlobalFusionSettings,
) -> (answer: bool)
    ensures
        answer == better(*candidate, *current, settings.maximum_held_out_median_log_error),
{
    let maximum: u32 = settings.maximum_held_out_median_log_error;
    let first = report_passes(candidate, maximum);
    let second = report_passes(current, maximum);
    if first != second {
        return first;
    }
    let a: u32 = error_of(candidate);
    let b: u32 = error_of(current);
    ieee::f32_total_lt(a, b) || (ieee::f32_le(a, b) && ieee::f32_le(b, a)
        && candidate.scale_samples > current.scale_samples)
}

/// One measured view of a frame with its report.
#[derive(Debug, Clone, Copy, PartialEq, Eq)]
pub struct ViewCandidate {
    pub window_index: usize,
    pub view_index: usize,
    pub report: FrameGlobalReport,
}

/// The view chosen for a frame.
#[derive(Debug, Clone, Copy, PartialEq, Eq)]
pub struct SelectedView {
    /// Place of the view in the list of candidates.
    pub candidate: usize,
    pub report: FrameGlobalReport,
}

/// The best of the first `count` candidates of a frame; the earliest of
/// equals.
pub open spec fn winner(
    listed: Seq<ViewCandidate>,
    frame_index: usize,
    maximum: u32,
    count: int,
) -> Option<int>
    decreases count,
{
    if count <= 0 {
        None
    } else {
        let last = count - 1;
        let rest = winner(listed, frame_index, maximum, last);
        if listed[last].report.frame_index != frame_index {
            rest
        } else {
            match rest {
                None => Some(last),
                Some(current) => if better(
                    listed[last].report,
                    listed[current].report,
                    maximum,
                ) {
                    Some(last)
                } else {
                    rest
                },
            }
        }
    }
}

/// The same frame, window and place in the window.
pub open spec fn alike(a: ViewCandidate, b: ViewCandidate) -> bool {
    &&& a.report.frame_index == b.report.frame_index
    &&& a.window_index == b.window_index
    &&& a.view_index == b.view_index
}

/// `last` is the last candidate that names the same view as the winner.
pub open spec fn is_last_alike(listed: Seq<ViewCandidate>, won: int, last: int) -> bool {
    &&& 0 <= last < listed.len()
    &&& alike(listed[last], listed[won])
    &&& forall|k: int| last < k < listed.len() ==> !alike(#[trigger] listed[k], listed[won])
}

/// The window indices of the candidates.
pub open spec fn window_keys(candidates: Seq<ViewCandidate>) -> Seq<i128> {
    Seq::new(candidates.len(), |i: int| candidates[i].window_index as i128)
}

/// The frame indices of the candidates.
pub open spec fn frame_keys(candidates: Seq<ViewCandidate>) -> Seq<i128> {
    Seq::new(candidates.len(), |i: int| candidates[i].report.frame_index as i128)
}

/// The candidates in the order of their windows.
pub open spec fn listing(candidates: Seq<ViewCandidate>, places: Seq<usize>) -> Seq<
    ViewCandidate,
> {
    Seq::new(places.len(), |i: int| candidates[places[i] as int])
}

/// What is said of one chosen view.
pub open spec fn is_choice(
    listed: Seq<ViewCandidate>,
    places: Seq<usize>,
    maximum: u32,
    choice: SelectedView,
) -> bool {
    let won = winner(listed, choice.report.frame_index, maximum, listed.len() as int);
    &&& won is Some
    &&& 0 <= won.unwrap() < listed.len()
    &&& choice.report == listed[won.unwrap()].report
    &&& exists|last: int| #[trigger]
        is_last_alike(listed, won.unwrap(), last) && choice.candidate == places[last]
}

/// One view for each frame that occurs, in frame order, each the winner among
/// the candidates taken in window order.
pub open spec fn is_selection(
    candidates: Seq<ViewCandidate>,
    maximum: u32,
    selected: Seq<SelectedView>,
) -> bool {
    exists|places: Seq<usize>| #[trigger]
        order::is_order(window_keys(candidates), places) && {
            &&& forall|i: int, j: int|
                0 <= i < j < selected.len() ==> (#[trigger] selected[i]).report.frame_index < (
                #[trigger] selected[j]).report.frame_index
            &&& forall|i: int|
                0 <= i < selected.len() ==> is_choice(
                    listing(candidates, places),
                    places,
                    maximum,
                    #[trigger] selected[i],
                )
            &&& forall|c: int|
                0 <= c < candidates.len() ==> exists|i: int|
                    0 <= i < selected.len() && (#[trigger] selected[i]).report.frame_index == (
                    #[trigger] candidates[c]).report.frame_index
        }
}

fn key_of(index: usize) -> (key: i128)
    ensures
        key == index,
{
    index as i128
}

proof fn lemma_winner(listed: Seq<ViewCandidate>, frame_index: usize, maximum: u32, count: int)
    requires
        0 <= count <= listed.len(),
    ensures
        winner(listed, frame_index, maximum, count) matches Some(w) ==> 0 <= w < count
            && listed[w].report.frame_index == frame_index,
        winner(listed, frame_index, maximum, count) is None <==> (forall|k: int|
            0 <= k < count ==> (#[trigger] listed[k]).report.frame_index != frame_index),
    decreases count,
{
    if count > 0 {
        lemma_winner(listed, frame_index, maximum, count - 1);
        if winner(listed, frame_index, maximum, count) is None {
            assert forall|k: int| 0 <= k < count implies (#[trigger] listed[k]).report.frame_index
                != frame_index by {
                if k < count - 1 {
                    assert(winner(listed, frame_index, maximum, count - 1) is None);
                }
            }
        }
    }
}

fn choose_view(
    listed: &Vec<ViewCandidate>,
    places: &Vec<usize>,
    frame_index: usize,
    settings: &FrameGlobalFusionSettings,
) -> (choice: SelectedView)
    requires
        listed@.len() == places@.len(),
        exists|k: int|
            0 <= k < listed@.len() && (#[trigger] listed@[k]).report.frame_index == frame_index,
    ensures
        choice.report.frame_index == frame_index,
        is_choice(listed@, places@, settings.maximum_held_out_median_log_error, choice),
{
    let ghost maximum = settings.maximum_held_out_median_log_error;
    let mut won: Option<usize> = None;
    for i in 0..listed.len()
        invariant
            maximum == settings.maximum_held_out_median_log_error,
            match won {
                None => winner(listed@, frame_index, maximum, i as int) is None,
                Some(w) => w < i && winner(listed@, frame_index, maximum, i as int) == Some(
                    w as int,
                ),
            },
    {
        if listed[i].report.frame_index == frame_index {
            let replace = match won {
                None => true,
                Some(w) => candidate_report_is_better(&listed[i].report, &listed[w].report, settings),
            };
            if replace {
                won = Some(i);
            }
        }
    }
    proof {
        lemma_winner(listed@, frame_index, maximum, listed@.len() as int);
    }
    let w: usize = won.unwrap();
    let mut last: usize = w;
    for i in w..listed.len()
        invariant
            w < listed@.len(),
            w <= last < listed@.len(),
            last < i || (last == w && i == w),
            alike(listed@[last as int], listed@[w as int]),
            forall|k: int| last < k < i ==> !alike(#[trigger] listed@[k], listed@[w as int]),
    {
        if listed[i].report.frame_index == listed[w].report.frame_index && listed[i].window_index
            == listed[w].window_index && listed[i].view_index == listed[w].view_index {
            last = i;
        }
    }
    assert(is_last_alike(listed@, w as int, last as int));
    SelectedView { candidate: places[last], report: listed[w].report }
}

/// Chooses one measured view per source frame. A frame occurs in overlapping
/// windows; every available view is ranked by its held-out evidence.
pub fn select_canonical_views(
    candidates: &Vec<ViewCandidate>,
    settings: &FrameGlobalFusionSettings,
) -> (selected: Vec<SelectedView>)
    ensures
        is_selection(candidates@, settings.maximum_held_out_median_log_error, selected@),
{
    let ghost maximum = settings.maximum_held_out_median_log_error;
    let mut by_window: Vec<i128> = Vec::new();
    let mut by_frame: Vec<i128> = Vec::new();
    for i in 0..candidates.len()
        invariant
            by_window@ == window_keys(candidates@).take(i as int),
            by_frame@ == frame_keys(candidates@).take(i as int),
    {
        by_window.push(key_of(candidates[i].window_index));
        by_frame.push(key_of(candidates[i].report.frame_index));
        assert(by_window@ =~= window_keys(candidates@).take(i + 1));
        assert(by_frame@ =~= frame_keys(candidates@).take(i + 1));
    }
    assert(by_window@ =~= window_keys(candidates@));
    assert(by_frame@ =~= frame_keys(candidates@));
    let places: Vec<usize> = order::stable_order(&by_window);
    let frames: Vec<usize> = order::stable_order(&by_frame);
    let mut listed: Vec<ViewCandidate> = Vec::new();
    for i in 0..places.len()
        invariant
            by_window@ == window_keys(candidates@),
            order::is_order(by_window@, places@),
            listed@ == listing(candidates@, places@).take(i as int),
    {
        let place: usize = places[i];
        assert(place < candidates@.len());
        listed.push(candidates[place]);
        assert(listed@ =~= listing(candidates@, places@).take(i + 1));
    }
    assert(listed@ =~= listing(candidates@, places@));
    let mut selected: Vec<SelectedView> = Vec::new();
    for i in 0..frames.len()
        invariant
            maximum == settings.maximum_held_out_median_log_error,
            by_window@ == window_keys(candidates@),
            order::is_order(by_window@, places@),
            by_frame@ == frame_keys(candidates@),
            order::is_order(by_frame@, frames@),
            listed@ == listing(candidates@, places@),
            forall|a: int, b: int|
                0 <= a < b < selected@.len() ==> (#[trigger] selected@[a]).report.frame_index < (
                #[trigger] selected@[b]).report.frame_index,
            forall|a: int|
                0 <= a < selected@.len() ==> is_choice(
                    listed@,
                    places@,
                    maximum,
                    #[trigger] selected@[a],
                ),
            i > 0 ==> selected@.len() > 0 && selected@[selected@.len() - 1].report.frame_index
                == candidates@[frames@[i - 1] as int].report.frame_index,
            i == 0 ==> selected@.len() == 0,
            forall|p: int|
                0 <= p < i ==> exists|a: int|
                    0 <= a < selected@.len() && (#[trigger] selected@[a]).report.frame_index
                        == candidates@[(#[trigger] frames@[p]) as int].report.frame_index,
    {
        let place: usize = frames[i];
        assert(place < candidates@.len());
        let frame_index: usize = candidates[place].report.frame_index;
        proof {
            if i > 0 {
                assert(order::before(by_frame@, frames@[i - 1] as int, frames@[i as int] as int));
                assert(frames@[i - 1] < candidates@.len());
            }
        }
        let ghost before = selected@;
        let count: usize = selected.len();
        if count == 0 || selected[count - 1].report.frame_index != frame_index {
            proof {
                assert(places@.contains(place));
                let k = places@.index_of(place);
                assert(listed@[k] == candidates@[place as int]);
            }
            let choice = choose_view(&listed, &places, frame_index, settings);
            selected.push(choice);
            assert(selected@[count as int] == choice);
            assert(forall|a: int| 0 <= a < count ==> selected@[a] == before[a]);
            assert forall|p: int| 0 <= p < i + 1 implies exists|a: int|
                0 <= a < selected@.len() && (#[trigger] selected@[a]).report.frame_index
                    == candidates@[(#[trigger] frames@[p]) as int].report.frame_index by {
                if p < i {
                    let a = choose|a: int|
                        0 <= a < before.len() && (#[trigger] before[a]).report.frame_index
                            == candidates@[frames@[p] as int].report.frame_index;
                    assert(selected@[a] == before[a]);
                } else {
                    assert(selected@[count as int].report.frame_index == frame_index);
                }
            }
        } else {
            assert(selected@[count - 1].report.frame_index == frame_index);
        }
    }
    assert forall|c: int| 0 <= c < candidates@.len() implies exists|i: int|
        0 <= i < selected@.len() && (#[trigger] selected@[i]).report.frame_index == (
        #[trigger] candidates@[c]).report.frame_index by {
        assert(frames@.contains(c as usize));
        let p = frames@.index_of(c as usize);
        assert(frames@[p] == c as usize);
    }
    selected
}

/// The error a report is ranked by carries no sign, as the median of absolute
/// residuals does not.
pub open spec fn error_unsigned(report: FrameGlobalReport) -> bool {
    ranked_error(report) < 0x8000_0000
}

/// No candidate of a frame beats the view chosen for it.
pub proof fn law_chosen_view_is_unbeaten(
    listed: Seq<ViewCandidate>,
    frame_index: usize,
    maximum: u32,
    count: int,
    i: int,
)
    requires
        0 <= i < count <= listed.len(),
        listed[i].report.frame_index == frame_index,
        forall|k: int| 0 <= k < count ==> error_unsigned((#[trigger] listed[k]).report),
    ensures
        winner(listed, frame_index, maximum, count) is Some,
        !better(
            listed[i].report,
            listed[winner(listed, frame_index, maximum, count).unwrap()].report,
            maximum,
        ),
    decreases count,
{
    lemma_winner(listed, frame_index, maximum, count);
    lemma_winner(listed, frame_index, maximum, count - 1);
    if i < count - 1 {
        law_chosen_view_is_unbeaten(listed, frame_index, maximum, count - 1, i);
    }
}

/// Neither radius apart.
pub open spec fn within(a: int, b: int, radius: int) -> bool {
    -radius <= a - b <= radius
}

/// Every report from `low` to `high` passes the held-out gate.
pub open spec fn all_pass(
    reports: Seq<FrameGlobalReport>,
    maximum: u32,
    low: int,
    high: int,
) -> bool {
    forall|k: int| low <= k <= high ==> passes(#[trigger] reports[k], maximum)
}

/// Report `neighbor` takes part in the smoothing of report `index`: it lies
/// within the radius both in the list and in frames, and no rejected report
/// stands between the two.
pub open spec fn smooths(
    reports: Seq<FrameGlobalReport>,
    maximum: u32,
    radius: int,
    index: int,
    neighbor: int,
) -> bool {
    &&& within(neighbor, index, radius)
    &&& within(
        reports[neighbor].frame_index as int,
        reports[index].frame_index as int,
        radius,
    )
    &&& if neighbor < index {
        all_pass(reports, maximum, neighbor, index)
    } else {
        all_pass(reports, maximum, index, neighbor)
    }
}

/// The reports among the first `count` that smooth report `index`.
pub open spec fn neighbors(
    reports: Seq<FrameGlobalReport>,
    maximum: u32,
    radius: int,
    index: int,
    count: int,
) -> Seq<usize>
    decreases count,
{
    if count <= 0 {
        Seq::empty()
    } else if smooths(reports, maximum, radius, index, count - 1) {
        neighbors(reports, maximum, radius, index, count - 1).push((count - 1) as usize)
    } else {
        neighbors(reports, maximum, radius, index, count - 1)
    }
}

/// The reports whose scales are averaged for report `index`. A report that
/// does not pass, and one without a neighbour, keeps its own scale.
pub open spec fn smoothing_group(
    reports: Seq<FrameGlobalReport>,
    settings: FrameGlobalFusionSettings,
    index: int,
) -> Option<Seq<usize>> {
    let maximum = settings.maximum_held_out_median_log_error;
    let radius = settings.temporal_scale_smoothing_radius as int;
    let group = neighbors(reports, maximum, radius, index, reports.len() as int);
    if radius == 0 || !passes(reports[index], maximum) || group.len() <= 1 {
        None
    } else {
        Some(group)
    }
}

fn apart(a: usize, b: usize) -> (distance: usize)
    ensures
        distance == (if a < b {
            b - a
        } else {
            a - b
        }),
{
    if a < b {
        b - a
    } else {
        a - b
    }
}

fn range_passes(reports: &Vec<FrameGlobalReport>, maximum: u32, low: usize, high: usize) -> (answer:
    bool)
    requires
        low <= high < reports@.len(),
    ensures
        answer == all_pass(reports@, maximum, low as int, high as int),
{
    let count: usize = reports.len();
    assert(high + 1 <= count);
    for k in low..high + 1
        invariant
            high < reports@.len(),
            forall|m: int| low <= m < k ==> passes(#[trigger] reports@[m], maximum),
    {
        if !report_passes(&reports[k], maximum) {
            return false;
        }
    }
    true
}

/// Which reports smooth report `index`.
pub fn smoothing_neighbors(
    reports: &Vec<FrameGlobalReport>,
    settings: &FrameGlobalFusionSettings,
    index: usize,
) -> (group: Option<Vec<usize>>)
    requires
        index < reports@.len(),
    ensures
        match group {
            None => smoothing_group(reports@, *settings, index as int) is None,
            Some(places) => smoothing_group(reports@, *settings, index as int) == Some(places@),
        },
{
    let maximum: u32 = settings.maximum_held_out_median_log_error;
    let radius: usize = settings.temporal_scale_smoothing_radius;
    if radius == 0 || !report_passes(&reports[index], maximum) {
        return None;
    }
    let mut group: Vec<usize> = Vec::new();
    for k in 0..reports.len()
        invariant
            index < reports@.len(),
            group@ == neighbors(reports@, maximum, radius as int, index as int, k as int),
    {
        if apart(k, index) <= radius && apart(reports[k].frame_index, reports[index].frame_index)
            <= radius {
            let unbroken = if k < index {
                range_passes(reports, maximum, k, index)
            } else {
                range_passes(reports, maximum, index, k)
            };
            if unbroken {
                group.push(k);
            }
        }
    }
    if group.len() <= 1 {
        None
    } else {
        Some(group)
    }
}

/// The averaged scale of a report and the held-out error under it.
#[derive(Debug, Clone, Copy, PartialEq, Eq)]
pub struct SmoothedScale {
    pub scale: u32,
    pub error: u32,
}

/// A report after smoothing: the averaged scale replaces its own where it
/// still passes the held-out gate.
pub open spec fn smoothed(
    reports: Seq<FrameGlobalReport>,
    outcomes: Seq<SmoothedScale>,
    settings: FrameGlobalFusionSettings,
    index: int,
) -> FrameGlobalReport {
    let report = reports[index];
    let outcome = outcomes[index];
    if smoothing_group(reports, settings, index) is Some && ieee::f32_at_most(
        outcome.error,
        settings.maximum_held_out_median_log_error,
    ) {
        FrameGlobalReport {
            scale: Some(outcome.scale),
            held_out_median_log_error: Some(outcome.error),
            ..report
        }
    } else {
        report
    }
}

/// Applies the averaged scales. `outcomes` holds one entry per report; the
/// entry of a report that has no group is not looked at.
pub fn temporally_smooth_reports(
    reports: &Vec<FrameGlobalReport>,
    outcomes: &Vec<SmoothedScale>,
    settings: &FrameGlobalFusionSettings,
) -> (result: Vec<FrameGlobalReport>)
    requires
        outcomes@.len() == reports@.len(),
    ensures
        result@ == Seq::new(
            reports@.len(),
            |i: int| smoothed(reports@, outcomes@, *settings, i),
        ),
{
    let ghost whole = Seq::new(
        reports@.len(),
        |i: int| smoothed(reports@, outcomes@, *settings, i),
    );
    let mut result: Vec<FrameGlobalReport> = Vec::new();
    for i in 0..reports.len()
        invariant
            outcomes@.len() == reports@.len(),
            whole == Seq::new(
                reports@.len(),
                |i: int| smoothed(reports@, outcomes@, *settings, i),
            ),
            result@ == whole.take(i as int),
    {
        let mut report = reports[i];
        let outcome = outcomes[i];
        if smoothing_neighbors(reports, settings, i).is_some() && ieee::f32_le(
            outcome.error,
            settings.maximum_held_out_median_log_error,
        ) {
            report.scale = Some(outcome.scale);
            report.held_out_median_log_error = Some(outcome.error);
        }
        result.push(report);
        assert(result@ =~= whole.take(i + 1));
    }
    assert(whole.take(reports@.len() as int) =~= whole);
    result
}

/// Smoothing rejects no frame that passed, and lets none through that did not.
pub proof fn law_smoothing_keeps_the_gate(
    reports: Seq<FrameGlobalReport>,
    outcomes: Seq<SmoothedScale>,
    settings: FrameGlobalFusionSettings,
    index: int,
)
    requires
        outcomes.len() == reports.len(),
        0 <= index < reports.len(),
    ensures
        passes(
            smoothed(reports, outcomes, settings, index),
            settings.maximum_held_out_median_log_error,
        ) == passes(reports[index], settings.maximum_held_out_median_log_error),
        smoothed(reports, outcomes, settings, index).frame_index == reports[index].frame_index,
{
}

/// The two middle values of a list in total order; one value twice where the
/// count is odd. The median is their mean.
pub fn median_middles(values: &Vec<u32>) -> (middles: (u32, u32))
    requires
        values@.len() > 0,
    ensures
        exists|sorted: Seq<u32>| #[trigger]
            order::is_sorted(values@, sorted) && sorted.len() == values@.len() && middles == (
                sorted[(values@.len() - 1) / 2],
                sorted[values@.len() as int / 2],
            ),
{
    let sorted: Vec<u32> = order::sort_total(values);
    assert(order::is_sorted(values@, sorted@));
    let count: usize = sorted.len();
    (sorted[(count - 1) / 2], sorted[count / 2])
}

/// The first observation of a frame, from place `start` on.
pub open spec fn seen_at(
    observations: Seq<TrackObservation>,
    frame_index: usize,
    start: int,
) -> Option<int>
    decreases observations.len() - start,
{
    if start >= observations.len() {
        None
    } else if observations[start].frame_index == frame_index {
        Some(start)
    } else {
        seen_at(observations, frame_index, start + 1)
    }
}

/// Where a trusted track saw a frame. A track whose reprojection error is
/// above the limit is not trusted.
pub fn trusted_observation(
    track: &SparseTrack,
    frame_index: usize,
    settings: &FrameGlobalFusionSettings,
) -> (place: Option<usize>)
    ensures
        place matches Some(i) ==> i < track.observations@.len(),
        match place {
            None => None,
            Some(i) => Some(i as int),
        } == (if ieee::f64_less(
            settings.maximum_track_reprojection_error_px,
            track.reprojection_error_px,
        ) {
            None
        } else {
            seen_at(track.observations@, frame_index, 0)
        }),
{
    if ieee::f64_lt(settings.maximum_track_reprojection_error_px, track.reprojection_error_px) {
        return None;
    }
    for i in 0..track.observations.len()
        invariant
            !ieee::f64_less(
                settings.maximum_track_reprojection_error_px,
                track.reprojection_error_px,
            ),
            seen_at(track.observations@, frame_index, 0) == seen_at(
                track.observations@,
                frame_index,
                i as int,
            ),
    {
        if track.observations[i].frame_index == frame_index {
            return Some(i);
        }
    }
    None
}

/// Whether a camera and a raster have the same shape, so that pixels of one
/// map to pixels of the other.
pub fn raster_fits_camera(
    camera_width: usize,
    camera_height: usize,
    output_width: usize,
    output_height: usize,
) -> (fits: bool)
    ensures
        fits == (camera_width > 0 && camera_height > 0 && camera_width * output_height
            == camera_height * output_width),
{
    assert(camera_width * output_height <= usize::MAX * usize::MAX) by (nonlinear_arith)
        requires
            camera_width <= usize::MAX,
            output_height <= usize::MAX,
    ;
    assert(camera_height * output_width <= usize::MAX * usize::MAX) by (nonlinear_arith)
        requires
            camera_height <= usize::MAX,
            output_width <= usize::MAX,
    ;
    assert(usize::MAX * usize::MAX <= u128::MAX) by (nonlinear_arith)
        requires
            usize::MAX <= 0xffff_ffff_ffff_ffff,
    ;
    camera_width > 0 && camera_height > 0 && camera_width as u128 * output_height as u128
        == camera_height as u128 * output_width as u128
}

/// The last of the first `count` points that was measured at a pixel.
pub open spec fn last_at(pixels: Seq<[u32; 2]>, pixel: [u32; 2], count: int) -> Option<int>
    decreases count,
{
    if count <= 0 {
        None
    } else if pixels[count - 1]@[0] == pixel@[0] && pixels[count - 1]@[1] == pixel@[1] {
        Some(count - 1)
    } else {
        last_at(pixels, pixel, count - 1)
    }
}

/// The point that was measured at a pixel; the last one where there are more.
pub fn point_at_pixel(pixels: &Vec<[u32; 2]>, pixel: [u32; 2]) -> (place: Option<usize>)
    ensures
        place matches Some(i) ==> i < pixels@.len(),
        match place {
            None => None,
            Some(i) => Some(i as int),
        } == last_at(pixels@, pixel, pixels@.len() as int),
{
    let mut left: usize = pixels.len();
    while left > 0
        invariant
            left <= pixels@.len(),
            last_at(pixels@, pixel, pixels@.len() as int) == last_at(pixels@, pixel, left as int),
        decreases left,
    {
        let candidate = pixels[left - 1];
        if candidate[0] == pixel[0] && candidate[1] == pixel[1] {
            return Some(left - 1);
        }
        left = left - 1;
    }
    None
}

/// The log depth ratio of one track, where it could be formed.
#[derive(Debug, Clone, Copy, PartialEq, Eq)]
pub struct ScaleSample {
    pub point_id: u64,
    pub log_ratio: Option<u32>,
}

/// Samples that fit the scale of a frame, and samples that check it.
#[derive(Debug, Clone, PartialEq, Eq)]
pub struct ScaleEvidence {
    pub train: Vec<u32>,
    pub held_out: Vec<u32>,
}

/// Every fifth track checks the scale in place of fitting it.
pub open spec fn is_held_out(sample: ScaleSample) -> bool {
    sample.point_id % 5 == 0
}

/// The ratios of the first `count` samples that are, or are not, held out.
pub open spec fn ratios(samples: Seq<ScaleSample>, held_out: bool, count: int) -> Seq<u32>
    decreases count,
{
    if count <= 0 {
        Seq::empty()
    } else {
        let sample = samples[count - 1];
        let rest = ratios(samples, held_out, count - 1);
        if sample.log_ratio is Some && is_held_out(sample) == held_out {
            rest.push(sample.log_ratio.unwrap())
        } else {
            rest
        }
    }
}

/// Parts the samples of a frame.
pub fn split_scale_evidence(samples: &Vec<ScaleSample>) -> (evidence: ScaleEvidence)
    ensures
        evidence.train@ == ratios(samples@, false, samples@.len() as int),
        evidence.held_out@ == ratios(samples@, true, samples@.len() as int),
{
    let mut train: Vec<u32> = Vec::new();
    let mut held_out: Vec<u32> = Vec::new();
    for i in 0..samples.len()
        invariant
            train@ == ratios(samples@, false, i as int),
            held_out@ == ratios(samples@, true, i as int),
    {
        let sample = samples[i];
        if let Some(value) = sample.log_ratio {
            if sample.point_id % 5 == 0 {
                held_out.push(value);
            } else {
                train.push(value);
            }
        }
    }
    ScaleEvidence { train, held_out }
}

/// No sample both fits and checks a scale.
pub proof fn law_held_out_samples_are_disjoint(samples: Seq<ScaleSample>, count: int)
    requires
        0 <= count <= samples.len(),
    ensures
        ratios(samples, true, count).len() + ratios(samples, false, count).len() <= count,
    decreases count,
{
    if count > 0 {
        law_held_out_samples_are_disjoint(samples, count - 1);
    }
}

/// Enough samples to fit a scale, and at least one to check it.
pub open spec fn can_fit(evidence: ScaleEvidence, settings: FrameGlobalFusionSettings) -> bool {
    evidence.train@.len() >= settings.minimum_scale_samples && evidence.held_out@.len() > 0
}

/// The report of a frame. `fitted` is the scale of the training samples with
/// its held-out error; it counts only where the evidence suffices.
pub fn report_for_frame(
    frame_index: usize,
    registered: bool,
    evidence: &ScaleEvidence,
    fitted: SmoothedScale,
    settings: &FrameGlobalFusionSettings,
) -> (report: FrameGlobalReport)
    ensures
        report.frame_index == frame_index,
        report.registered == registered,
        report.scale_samples == (if registered {
            evidence.train@.len()
        } else {
            0
        }),
        report.held_out_samples == (if registered {
            evidence.held_out@.len()
        } else {
            0
        }),
        report.scale == (if registered && can_fit(*evidence, *settings) {
            Some(fitted.scale)
        } else {
            None
        }),
        report.held_out_median_log_error == (if registered && can_fit(*evidence, *settings) {
            Some(fitted.error)
        } else {
            None
        }),
{
    if !registered {
        return FrameGlobalReport {
            frame_index,
            registered,
            scale_samples: 0,
            held_out_samples: 0,
            scale: None,
            held_out_median_log_error: None,
        };
    }
    let fits = evidence.train.len() >= settings.minimum_scale_samples && evidence.held_out.len()
        > 0;
    FrameGlobalReport {
        frame_index,
        registered,
        scale_samples: evidence.train.len(),
        held_out_samples: evidence.held_out.len(),
        scale: if fits {
            Some(fitted.scale)
        } else {
            None
        },
        held_out_median_log_error: if fits {
            Some(fitted.error)
        } else {
            None
        },
    }
}

/// The log-depth error of a point against the depth map of a frame, where the
/// point projects into it.
#[derive(Debug, Clone, Copy, PartialEq, Eq)]
pub struct DepthCheck {
    pub frame_index: usize,
    pub error: Option<u32>,
}

/// A depth map confirms a point: it belongs to another frame within the
/// radius, and its error is finite and within the limit.
pub open spec fn confirms(
    check: DepthCheck,
    source_frame: usize,
    radius: usize,
    maximum: u32,
) -> bool {
    &&& check.frame_index != source_frame
    &&& within(check.frame_index as int, source_frame as int, radius as int)
    &&& check.error matches Some(error) && ieee::f32_finite(error) && ieee::f32_at_most(
        error,
        maximum,
    )
}

/// How many of the first `count` depth maps confirm a point.
pub open spec fn confirmations(
    checks: Seq<DepthCheck>,
    source_frame: usize,
    radius: usize,
    maximum: u32,
    count: int,
) -> nat
    decreases count,
{
    if count <= 0 {
        0
    } else {
        confirmations(checks, source_frame, radius, maximum, count - 1) + if confirms(
            checks[count - 1],
            source_frame,
            radius,
            maximum,
        ) {
            1nat
        } else {
            0nat
        }
    }
}

proof fn lemma_confirmations_grow(
    checks: Seq<DepthCheck>,
    source_frame: usize,
    radius: usize,
    maximum: u32,
    count: int,
    end: int,
)
    requires
        count <= end,
    ensures
        confirmations(checks, source_frame, radius, maximum, count) <= confirmations(
            checks,
            source_frame,
            radius,
            maximum,
            end,
        ),
    decreases end - count,
{
    if count < end {
        lemma_confirmations_grow(checks, source_frame, radius, maximum, count, end - 1);
    }
}

/// Whether enough adjacent depth maps confirm a point. At least one has to,
/// whatever the minimum.
pub fn has_neighbor_depth_agreement(
    checks: &Vec<DepthCheck>,
    source_frame: usize,
    neighbor_radius: usize,
    minimum_matches: usize,
    maximum_log_error: u32,
) -> (agrees: bool)
    ensures
        agrees == (confirmations(
            checks@,
            source_frame,
            neighbor_radius,
            maximum_log_error,
            checks@.len() as int,
        ) >= (if minimum_matches == 0 {
            1
        } else {
            minimum_matches as int
        })),
{
    let mut matches: usize = 0;
    for i in 0..checks.len()
        invariant
            matches == confirmations(
                checks@,
                source_frame,
                neighbor_radius,
                maximum_log_error,
                i as int,
            ),
            matches <= i,
            matches == 0 || matches < minimum_matches,
    {
        let check = checks[i];
        if check.frame_index != source_frame && apart(check.frame_index, source_frame)
            <= neighbor_radius {
            if let Some(error) = check.error {
                if ieee::f32_is_finite(error) && ieee::f32_le(error, maximum_log_error) {
                    matches = matches + 1;
                    if matches >= minimum_matches {
                        proof {
                            lemma_confirmations_grow(
                                checks@,
                                source_frame,
                                neighbor_radius,
                                maximum_log_error,
                                i + 1,
                                checks@.len() as int,
                            );
                        }
                        return true;
                    }
                }
            }
        }
    }
    false
}

/// Where a measured point lies in the global frame.
#[derive(Debug, Clone, Copy, PartialEq, Eq)]
pub struct Placement {
    pub position: [u32; 3],
    pub normal: [u32; 3],
    pub radius: u32,
}

/// A measured point with its global placement, where it has one, and whether
/// adjacent depth maps confirm it.
#[derive(Debug, Clone, Copy, PartialEq, Eq)]
pub struct RebasedPoint {
    pub source_pixel: [u32; 2],
    pub color_srgb: [u8; 3],
    pub confidence: u32,
    pub placement: Option<Placement>,
    pub confirmed: bool,
}

/// The canonical view of a frame: its report, whether its pose and camera are
/// known, and its points.
#[derive(Debug, Clone, PartialEq, Eq)]
pub struct GlobalFrame {
    pub report: FrameGlobalReport,
    pub posed: bool,
    pub points: Vec<RebasedPoint>,
}

/// What the accepted frames contribute.
#[derive(Debug, Clone, PartialEq, Eq)]
pub struct FusedFrames {
    pub observations: Vec<TsdfObservation>,
    pub raw_points: Vec<FusedPoint>,
    pub accepted_frame_indices: Vec<usize>,
    pub omitted_frames: usize,
}

/// A frame contributes: its report is accepted and its pose is known.
pub open spec fn contributes(frame: GlobalFrame, settings: FrameGlobalFusionSettings) -> bool {
    passes(frame.report, settings.maximum_held_out_median_log_error) && frame.posed
}

/// How many points the first `count` frames offer.
pub open spec fn offered(
    frames: Seq<GlobalFrame>,
    settings: FrameGlobalFusionSettings,
    count: int,
) -> nat
    decreases count,
{
    if count <= 0 {
        0
    } else {
        offered(frames, settings, count - 1) + if contributes(frames[count - 1], settings) {
            frames[count - 1].points@.len()
        } else {
            0
        }
    }
}

/// The frames among the first `count` that contribute.
pub open spec fn accepted_frames(
    frames: Seq<GlobalFrame>,
    settings: FrameGlobalFusionSettings,
    count: int,
) -> Seq<usize>
    decreases count,
{
    if count <= 0 {
        Seq::empty()
    } else if contributes(frames[count - 1], settings) {
        accepted_frames(frames, settings, count - 1).push(frames[count - 1].report.frame_index)
    } else {
        accepted_frames(frames, settings, count - 1)
    }
}

/// The sampling keeps a point.
pub open spec fn sampled(
    frame_index: usize,
    point: RebasedPoint,
    settings: FrameGlobalFusionSettings,
    offer: int,
) -> bool {
    settings.maximum_tsdf_observations matches Some(budget) ==> pixel_hash(
        frame_index,
        point.source_pixel,
    ) <= sample_threshold(offer, budget as int)
}

/// The observations of the first `count` points of a frame: points that have a
/// placement, are in the sample and are confirmed where that is asked for.
pub open spec fn frame_observations(
    frame: GlobalFrame,
    settings: FrameGlobalFusionSettings,
    offer: int,
    count: int,
) -> Seq<TsdfObservation>
    decreases count,
{
    if count <= 0 {
        Seq::empty()
    } else {
        let point = frame.points@[count - 1];
        let rest = frame_observations(frame, settings, offer, count - 1);
        if point.placement is Some && sampled(
            frame.report.frame_index,
            point,
            settings,
            offer,
        ) && (settings.maximum_neighbor_depth_log_error is Some ==> point.confirmed) {
            rest.push(
                TsdfObservation {
                    position: point.placement.unwrap().position,
                    color_srgb: point.color_srgb,
                    confidence: point.confidence,
                    radius: point.placement.unwrap().radius,
                    frame_index: frame.report.frame_index as i32,
                },
            )
        } else {
            rest
        }
    }
}

/// The rebased points of the first `count` points of a frame.
pub open spec fn frame_points(frame: GlobalFrame, count: int) -> Seq<FusedPoint>
    decreases count,
{
    if count <= 0 {
        Seq::empty()
    } else {
        let point = frame.points@[count - 1];
        let rest = frame_points(frame, count - 1);
        match point.placement {
            None => rest,
            Some(placement) => rest.push(
                FusedPoint {
                    position: placement.position,
                    normal: placement.normal,
                    color_srgb: point.color_srgb,
                    confidence: point.confidence,
                    radius: placement.radius,
                    first_observing_frame: frame.report.frame_index as i32,
                    contributors: 1,
                },
            ),
        }
    }
}

/// The observations of the first `count` frames.
pub open spec fn all_observations(
    frames: Seq<GlobalFrame>,
    settings: FrameGlobalFusionSettings,
    offer: int,
    count: int,
) -> Seq<TsdfObservation>
    decreases count,
{
    if count <= 0 {
        Seq::empty()
    } else {
        let frame = frames[count - 1];
        let rest = all_observations(frames, settings, offer, count - 1);
        if contributes(frame, settings) {
            rest + frame_observations(frame, settings, offer, frame.points@.len() as int)
        } else {
            rest
        }
    }
}

/// The rebased points of the first `count` frames.
pub open spec fn all_points(
    frames: Seq<GlobalFrame>,
    settings: FrameGlobalFusionSettings,
    count: int,
) -> Seq<FusedPoint>
    decreases count,
{
    if count <= 0 {
        Seq::empty()
    } else {
        let frame = frames[count - 1];
        let rest = all_points(frames, settings, count - 1);
        if contributes(frame, settings) {
            rest + frame_points(frame, frame.points@.len() as int)
        } else {
            rest
        }
    }
}

fn put_observations(
    frame: &GlobalFrame,
    settings: &FrameGlobalFusionSettings,
    threshold: Option<u64>,
    observations: &mut Vec<TsdfObservation>,
    offer: Ghost<int>,
)
    requires
        match threshold {
            None => settings.maximum_tsdf_observations is None,
            Some(t) => settings.maximum_tsdf_observations matches Some(budget) && t
                == sample_threshold(offer@, budget as int),
        },
    ensures
        final(observations)@ == old(observations)@ + frame_observations(
            *frame,
            *settings,
            offer@,
            frame.points@.len() as int,
        ),
{
    let ghost start = observations@;
    assert(start + frame_observations(*frame, *settings, offer@, 0) =~= start);
    for i in 0..frame.points.len()
        invariant
            start == old(observations)@,
            match threshold {
                None => settings.maximum_tsdf_observations is None,
                Some(t) => settings.maximum_tsdf_observations matches Some(budget) && t
                    == sample_threshold(offer@, budget as int),
            },
            observations@ == start + frame_observations(*frame, *settings, offer@, i as int),
    {
        let point = frame.points[i];
        let in_sample = match threshold {
            None => true,
            Some(t) => keep_tsdf_observation(frame.report.frame_index, point.source_pixel, t),
        };
        let confirmed = settings.maximum_neighbor_depth_log_error.is_none() || point.confirmed;
        if let Some(placement) = point.placement {
            if in_sample && confirmed {
                observations.push(
                    TsdfObservation {
                        position: placement.position,
                        color_srgb: point.color_srgb,
                        confidence: point.confidence,
                        radius: placement.radius,
                        frame_index: #[verifier::truncate] (frame.report.frame_index as i32),
                    },
                );
                assert(observations@ =~= start + frame_observations(
                    *frame,
                    *settings,
                    offer@,
                    i + 1,
                ));
            }
        }
    }
}

fn put_points(frame: &GlobalFrame, points: &mut Vec<FusedPoint>)
    ensures
        final(points)@ == old(points)@ + frame_points(*frame, frame.points@.len() as int),
{
    let ghost start = points@;
    assert(start + frame_points(*frame, 0) =~= start);
    for i in 0..frame.points.len()
        invariant
            start == old(points)@,
            points@ == start + frame_points(*frame, i as int),
    {
        let point = frame.points[i];
        if let Some(placement) = point.placement {
            points.push(
                FusedPoint {
                    position: placement.position,
                    normal: placement.normal,
                    color_srgb: point.color_srgb,
                    confidence: point.confidence,
                    radius: placement.radius,
                    first_observing_frame: #[verifier::truncate] (frame.report.frame_index as i32),
                    contributors: 1,
                },
            );
            assert(points@ =~= start + frame_points(*frame, i + 1));
        }
    }
}

fn frame_contributes(frame: &GlobalFrame, settings: &FrameGlobalFusionSettings) -> (answer: bool)
    ensures
        answer == contributes(*frame, *settings),
{
    report_passes(&frame.report, settings.maximum_held_out_median_log_error) && frame.posed
}

proof fn lemma_offered_grows(
    frames: Seq<GlobalFrame>,
    settings: FrameGlobalFusionSettings,
    count: int,
    end: int,
)
    requires
        count <= end,
    ensures
        offered(frames, settings, count) <= offered(frames, settings, end),
    decreases end - count,
{
    if count < end {
        lemma_offered_grows(frames, settings, count, end - 1);
    }
}

proof fn lemma_accepted_bounded(
    frames: Seq<GlobalFrame>,
    settings: FrameGlobalFusionSettings,
    count: int,
)
    ensures
        accepted_frames(frames, settings, count).len() <= (if count > 0 {
            count
        } else {
            0
        }),
    decreases count,
{
    if count > 0 {
        lemma_accepted_bounded(frames, settings, count - 1);
    }
}

/// How many points the contributing frames offer.
pub fn offered_points(frames: &Vec<GlobalFrame>, settings: &FrameGlobalFusionSettings) -> (offer:
    usize)
    requires
        offered(frames@, *settings, frames@.len() as int) <= usize::MAX,
    ensures
        offer == offered(frames@, *settings, frames@.len() as int),
{
    let mut offer: usize = 0;
    for i in 0..frames.len()
        invariant
            offered(frames@, *settings, frames@.len() as int) <= usize::MAX,
            offer == offered(frames@, *settings, i as int),
    {
        proof {
            lemma_offered_grows(frames@, *settings, i + 1, frames@.len() as int);
        }
        if frame_contributes(&frames[i], settings) {
            offer = offer + frames[i].points.len();
        }
    }
    offer
}

/// Gathers what the accepted frames contribute, and refuses a product that
/// would rest on isolated fragments.
pub fn gather_frames(frames: &Vec<GlobalFrame>, settings: &FrameGlobalFusionSettings) -> (result:
    Result<FusedFrames, FrameGlobalFusionError>)
    requires
        offered(frames@, *settings, frames@.len() as int) <= usize::MAX,
    ensures
        ({
            let total = frames@.len() as int;
            let offer = offered(frames@, *settings, total) as int;
            let accepted = accepted_frames(frames@, *settings, total);
            let enough = covers_enough(
                accepted.len() as int,
                total,
                settings.minimum_fused_frame_fraction,
            );
            match result {
                Ok(fused) => {
                    &&& enough
                    &&& fused.accepted_frame_indices@ == accepted
                    &&& fused.omitted_frames == total - accepted.len()
                    &&& fused.observations@ == (if settings.tsdf is Some {
                        all_observations(frames@, *settings, offer, total)
                    } else {
                        Seq::empty()
                    })
                    &&& fused.raw_points@ == (if settings.tsdf is Some {
                        Seq::empty()
                    } else {
                        all_points(frames@, *settings, total)
                    })
                },
                Err(e) => !enough && e == (
                FrameGlobalFusionError::InsufficientFrameCoverage {
                    actual: accepted.len() as usize,
                    total: if total < 1 {
                        1
                    } else {
                        total as usize
                    },
                    minimum_fraction: settings.minimum_fused_frame_fraction,
                }),
            }
        }),
{
    let offer: usize = offered_points(frames, settings);
    let threshold: Option<u64> = match settings.maximum_tsdf_observations {
        None => None,
        Some(budget) => Some(observation_sample_threshold(offer, budget)),
    };
    let surface = settings.tsdf.is_some();
    let mut observations: Vec<TsdfObservation> = Vec::new();
    let mut raw_points: Vec<FusedPoint> = Vec::new();
    let mut accepted: Vec<usize> = Vec::new();
    let mut omitted: usize = 0;
    for i in 0..frames.len()
        invariant
            surface == settings.tsdf is Some,
            match threshold {
                None => settings.maximum_tsdf_observations is None,
                Some(t) => settings.maximum_tsdf_observations matches Some(budget) && t
                    == sample_threshold(offer as int, budget as int),
            },
            accepted@ == accepted_frames(frames@, *settings, i as int),
            omitted + accepted@.len() == i,
            observations@ == (if surface {
                all_observations(frames@, *settings, offer as int, i as int)
            } else {
                Seq::empty()
            }),
            raw_points@ == (if surface {
                Seq::empty()
            } else {
                all_points(frames@, *settings, i as int)
            }),
    {
        let frame = &frames[i];
        if frame_contributes(frame, settings) {
            accepted.push(frame.report.frame_index);
            if surface {
                put_observations(frame, settings, threshold, &mut observations, Ghost(offer as int));
            } else {
                put_points(frame, &mut raw_points);
            }
        } else {
            omitted = omitted + 1;
        }
    }
    let total: usize = if frames.len() < 1 {
        1
    } else {
        frames.len()
    };
    if !has_required_coverage(accepted.len(), total, settings.minimum_fused_frame_fraction) {
        return Err(
            FrameGlobalFusionError::InsufficientFrameCoverage {
                actual: accepted.len(),
                total,
                minimum_fraction: settings.minimum_fused_frame_fraction,
            },
        );
    }
    Ok(
        FusedFrames {
            observations,
            raw_points,
            accepted_frame_indices: accepted,
            omitted_frames: omitted,
        },
    )
}

/// A point of a rebased product comes from a frame that passed its gate.
pub proof fn law_points_come_from_accepted_frames(
    frames: Seq<GlobalFrame>,
    settings: FrameGlobalFusionSettings,
    count: int,
    i: int,
)
    requires
        0 <= count <= frames.len(),
        0 <= i < all_points(frames, settings, count).len(),
    ensures
        exists|f: int|
            0 <= f < count && contributes(#[trigger] frames[f], settings)
                && frames[f].report.frame_index as i32 == all_points(
                frames,
                settings,
                count,
            )[i].first_observing_frame,
    decreases count,
{
    let rest = all_points(frames, settings, count - 1);
    if i < rest.len() {
        law_points_come_from_accepted_frames(frames, settings, count - 1, i);
        let f = choose|f: int|
            0 <= f < count - 1 && contributes(#[trigger] frames[f], settings)
                && frames[f].report.frame_index as i32 == rest[i].first_observing_frame;
        assert(contributes(frames[f], settings));
    } else {
        let frame = frames[count - 1];
        lemma_frame_points(frame, frame.points@.len() as int, i - rest.len());
        assert(contributes(frames[count - 1], settings));
    }
}

proof fn lemma_frame_points(frame: GlobalFrame, count: int, i: int)
    requires
        0 <= i < frame_points(frame, count).len(),
    ensures
        frame_points(frame, count)[i].first_observing_frame == frame.report.frame_index as i32,
    decreases count,
{
    if count > 0 && i < frame_points(frame, count - 1).len() {
        lemma_frame_points(frame, count - 1, i);
    }
}

/// A surface element as a point of the world, with full confidence.
pub open spec fn surface_point(surfel: TsdfSurfel) -> FusedPoint {
    FusedPoint {
        position: surfel.position,
        normal: surfel.normal,
        color_srgb: surfel.color_srgb,
        confidence: ieee::F32_ONE,
        radius: surfel.radius,
        first_observing_frame: surfel.first_observing_frame,
        contributors: surfel.contributors,
    }
}

/// The points of a fused surface.
pub fn surface_points(surface: &Vec<TsdfSurfel>) -> (points: Vec<FusedPoint>)
    ensures
        points@ == Seq::new(surface@.len(), |i: int| surface_point(surface@[i])),
{
    let ghost whole = Seq::new(surface@.len(), |i: int| surface_point(surface@[i]));
    let mut points: Vec<FusedPoint> = Vec::new();
    for i in 0..surface.len()
        invariant
            whole == Seq::new(surface@.len(), |i: int| surface_point(surface@[i])),
            points@ == whole.take(i as int),
    {
        let surfel = surface[i];
        points.push(
            FusedPoint {
                position: surfel.position,
                normal: surfel.normal,
                color_srgb: surfel.color_srgb,
                confidence: ieee::F32_ONE,
                radius: surfel.radius,
                first_observing_frame: surfel.first_observing_frame,
                contributors: surfel.contributors,
            },
        );
        assert(points@ =~= whole.take(i + 1));
    }
    assert(whole.take(surface@.len() as int) =~= whole);
    points
}

/// How a frame-global product is filed.
#[derive(Debug, Clone, Copy, PartialEq, Eq)]
pub struct ProductNames {
    pub product_id: &'static str,
    pub authority: &'static str,
    pub surface: &'static str,
}

/// The names of the product: the fused surface and the raw points are filed
/// apart, under one geometry authority.
pub fn frame_global_product(settings: &FrameGlobalFusionSettings) -> (names: ProductNames)
    ensures
        names.product_id@ == (if settings.tsdf is Some {
            "colmap-ba-frame-global-tsdf"@
        } else {
            "colmap-ba-frame-global-surfel"@
        }),
        names.authority@ == "colmap-ba-frame-global"@,
        names.surface@ == (if settings.tsdf is Some {
            "tsdf"@
        } else {
            "surfel"@
        }),
{
    if settings.tsdf.is_some() {
        ProductNames {
            product_id: "colmap-ba-frame-global-tsdf",
            authority: "colmap-ba-frame-global",
            surface: "tsdf",
        }
    } else {
        ProductNames {
            product_id: "colmap-ba-frame-global-surfel",
            authority: "colmap-ba-frame-global",
            surface: "surfel",
        }
    }
}

/// A frame-global world under the names of its product.
#[derive(Debug, Clone)]
pub struct FrameGlobalWorld {
    pub names: ProductNames,
    pub source_frames: Vec<usize>,
    pub omitted_frames: usize,
    pub voxel_size: u32,
    pub points: Vec<FusedPoint>,
}

/// The evidence of a surface is there where settings ask for a surface, and is
/// that of the gathered observations.
pub open spec fn surface_fits(
    fused: FusedFrames,
    evidence: Option<SurfaceEvidence>,
    settings: FrameGlobalFusionSettings,
) -> bool {
    match evidence {
        None => settings.tsdf is None,
        Some(evidence) => settings.tsdf == Some(evidence.settings) && tsdf::evidence_fits(
            fused.observations@,
            evidence,
        ),
    }
}

/// The world of gathered frames. Settings with a surface publish the surface
/// that is fused from the observations, the others the points themselves.
pub fn frame_global_world(
    fused: FusedFrames,
    evidence: &Option<SurfaceEvidence>,
    settings: &FrameGlobalFusionSettings,
) -> (world: FrameGlobalWorld)
    requires
        surface_fits(fused, *evidence, *settings),
    ensures
        world.names.product_id@ == (if settings.tsdf is Some {
            "colmap-ba-frame-global-tsdf"@
        } else {
            "colmap-ba-frame-global-surfel"@
        }),
        world.names.authority@ == "colmap-ba-frame-global"@,
        world.names.surface@ == (if settings.tsdf is Some {
            "tsdf"@
        } else {
            "surfel"@
        }),
        world.source_frames@ == fused.accepted_frame_indices@,
        world.omitted_frames == fused.omitted_frames,
        match *evidence {
            None => world.voxel_size == 0 && world.points@ == fused.raw_points@,
            Some(evidence) => exists|surface: Seq<TsdfSurfel>| #[trigger]
                tsdf::surface_of(fused.observations@, evidence, surface) && world.voxel_size
                    == tsdf::edge_of(surface, evidence) && world.points@ == Seq::new(
                    surface.len(),
                    |i: int| surface_point(surface[i]),
                ),
        },
{
    let names: ProductNames = frame_global_product(settings);
    let (voxel_size, points) = match evidence {
        None => (0, fused.raw_points),
        Some(evidence) => {
            let surface: Vec<TsdfSurfel> = fuse_normal_space_tsdf(
                &fused.observations,
                &evidence.runs,
                &evidence.means,
                &evidence.settings,
                evidence.scale,
            );
            assert(tsdf::surface_of(fused.observations@, *evidence, surface@));
            let edge: u32 = if surface.len() > 0 {
                evidence.edge
            } else {
                0
            };
            (edge, surface_points(&surface))
        },
    };
    FrameGlobalWorld {
        names,
        source_frames: fused.accepted_frame_indices,
        omitted_frames: fused.omitted_frames,
        voxel_size,
        points,
    }
}

proof fn lemma_winner_is_least(
    listed: Seq<ViewCandidate>,
    frame_index: usize,
    maximum: u32,
    count: int,
    k: int,
)
    requires
        0 <= k < count <= listed.len(),
        listed[k].report.frame_index == frame_index,
    ensures
        ({
            let won = winner(listed, frame_index, maximum, count);
            &&& won is Some
            &&& 0 <= won.unwrap() < count
            &&& passes(listed[k].report, maximum) ==> passes(
                listed[won.unwrap()].report,
                maximum,
            )
            &&& passes(listed[k].report, maximum) == passes(listed[won.unwrap()].report, maximum)
                ==> ieee::f32_rank(ranked_error(listed[won.unwrap()].report)) <= ieee::f32_rank(
                ranked_error(listed[k].report),
            )
        }),
    decreases count,
{
    lemma_winner(listed, frame_index, maximum, count);
    lemma_winner(listed, frame_index, maximum, count - 1);
    if k < count - 1 {
        lemma_winner_is_least(listed, frame_index, maximum, count - 1, k);
    } else if winner(listed, frame_index, maximum, count - 1) is Some {
        let current = winner(listed, frame_index, maximum, count - 1).unwrap();
        lemma_winner_is_least(listed, frame_index, maximum, count - 1, current);
    }
}

/// The view that stands for a frame has the least held-out error. It passes the
/// held-out gate wherever any view of the frame does, and among the views of the
/// frame with the same outcome its error is numerically the least; a view without an
/// error counts as infinitely wrong. The view is one of the candidates of its frame.
pub proof fn law_chosen_view_has_the_least_error(
    candidates: Seq<ViewCandidate>,
    maximum: u32,
    selected: Seq<SelectedView>,
    s: int,
    c: int,
)
    requires
        is_selection(candidates, maximum, selected),
        candidates.len() <= usize::MAX,
        0 <= s < selected.len(),
        0 <= c < candidates.len(),
        candidates[c].report.frame_index == selected[s].report.frame_index,
    ensures
        ({
            let gate = |report: FrameGlobalReport|
                report.scale is Some && (report.held_out_median_log_error matches Some(error)
                    && !ieee::f32_nan(error) && !ieee::f32_nan(maximum) && ieee::f32_rank(error)
                    <= ieee::f32_rank(maximum));
            let error = |report: FrameGlobalReport|
                match report.held_out_median_log_error {
                    Some(error) => ieee::f32_rank(error),
                    None => 0x7f80_0000,
                };
            &&& gate(candidates[c].report) ==> gate(selected[s].report)
            &&& gate(candidates[c].report) == gate(selected[s].report) ==> error(
                selected[s].report,
            ) <= error(candidates[c].report)
        }),
        selected[s].candidate < candidates.len(),
        candidates[selected[s].candidate as int].report.frame_index
            == selected[s].report.frame_index,
        exists|k: int|
            0 <= k < candidates.len() && (#[trigger] candidates[k]).report == selected[s].report
                && candidates[k].window_index
                == candidates[selected[s].candidate as int].window_index
                && candidates[k].view_index == candidates[selected[s].candidate as int].view_index,
{
    let places = choose|places: Seq<usize>| #[trigger]
        order::is_order(window_keys(candidates), places) && {
            &&& forall|i: int, j: int|
                0 <= i < j < selected.len() ==> (#[trigger] selected[i]).report.frame_index < (
                #[trigger] selected[j]).report.frame_index
            &&& forall|i: int|
                0 <= i < selected.len() ==> is_choice(
                    listing(candidates, places),
                    places,
                    maximum,
                    #[trigger] selected[i],
                )
            &&& forall|c: int|
                0 <= c < candidates.len() ==> exists|i: int|
                    0 <= i < selected.len() && (#[trigger] selected[i]).report.frame_index == (
                    #[trigger] candidates[c]).report.frame_index
        };
    let listed = listing(candidates, places);
    let frame_index = selected[s].report.frame_index;
    assert(is_choice(listed, places, maximum, selected[s]));
    assert(places.contains(c as usize));
    let k = places.index_of(c as usize);
    assert(listed[k] == candidates[c]);
    lemma_winner_is_least(listed, frame_index, maximum, listed.len() as int, k);
    let won = winner(listed, frame_index, maximum, listed.len() as int).unwrap();
    let last = choose|last: int| #[trigger]
        is_last_alike(listed, won, last) && selected[s].candidate == places[last];
    assert(places[last] < candidates.len());
    assert(places[won] < candidates.len());
    assert(listed[last] == candidates[places[last] as int]);
    assert(candidates[places[won] as int].report == selected[s].report);
}

/// Every frame that was measured gets one view, and the views come in the order of
/// their frames.
pub proof fn law_every_frame_gets_one_view(
    candidates: Seq<ViewCandidate>,
    maximum: u32,
    selected: Seq<SelectedView>,
    frame: usize,
)
    requires
        is_selection(candidates, maximum, selected),
        candidates.len() <= usize::MAX,
    ensures
        forall|i: int, j: int|
            0 <= i < j < selected.len() ==> (#[trigger] selected[i]).report.frame_index < (
            #[trigger] selected[j]).report.frame_index,
        (exists|i: int|
            0 <= i < selected.len() && (#[trigger] selected[i]).report.frame_index == frame) <==> (
        exists|c: int|
            0 <= c < candidates.len() && (#[trigger] candidates[c]).report.frame_index == frame),
{
    let places = choose|places: Seq<usize>| #[trigger]
        order::is_order(window_keys(candidates), places) && {
            &&& forall|i: int, j: int|
                0 <= i < j < selected.len() ==> (#[trigger] selected[i]).report.frame_index < (
                #[trigger] selected[j]).report.frame_index
            &&& forall|i: int|
                0 <= i < selected.len() ==> is_choice(
                    listing(candidates, places),
                    places,
                    maximum,
                    #[trigger] selected[i],
                )
            &&& forall|c: int|
                0 <= c < candidates.len() ==> exists|i: int|
                    0 <= i < selected.len() && (#[trigger] selected[i]).report.frame_index == (
                    #[trigger] candidates[c]).report.frame_index
        };
    let listed = listing(candidates, places);
    if exists|i: int| 0 <= i < selected.len() && (#[trigger] selected[i]).report.frame_index == frame {
        let i = choose|i: int|
            0 <= i < selected.len() && (#[trigger] selected[i]).report.frame_index == frame;
        assert(is_choice(listed, places, maximum, selected[i]));
        let won = winner(listed, frame, maximum, listed.len() as int).unwrap();
        assert(places[won] < candidates.len());
        assert(candidates[places[won] as int].report == selected[i].report);
    }
}

/// The frames that a world is made of are those that have a pose and pass the held-out
/// gate numerically, in their order.
pub proof fn law_accepted_frames_pass(
    frames: Seq<GlobalFrame>,
    settings: FrameGlobalFusionSettings,
    count: int,
)
    requires
        0 <= count <= frames.len(),
    ensures
        accepted_frames(frames, settings, count) == frames.take(count).filter_map(
            |frame: GlobalFrame|
                match frame.report.held_out_median_log_error {
                    Some(error) => if frame.posed && frame.report.scale is Some && !ieee::f32_nan(
                        error,
                    ) && !ieee::f32_nan(settings.maximum_held_out_median_log_error)
                        && ieee::f32_rank(error) <= ieee::f32_rank(
                        settings.maximum_held_out_median_log_error,
                    ) {
                        Some(frame.report.frame_index)
                    } else {
                        None
                    },
                    None => None,
                },
        ),
    decreases count,
{
    if count > 0 {
        law_accepted_frames_pass(frames, settings, count - 1);
        assert(frames.take(count).drop_last() =~= frames.take(count - 1));
        let rest = accepted_frames(frames, settings, count - 1);
        let next = frames[count - 1].report.frame_index;
        assert(rest.push(next) =~= rest + seq![next]);
    }
}

/// The points of a frame are those that could be placed, each where it was placed, with
/// its own colour and confidence, under the index of the frame.
pub proof fn law_frame_points_are_the_placed_ones(frame: GlobalFrame, count: int)
    requires
        0 <= count <= frame.points@.len(),
    ensures
        frame_points(frame, count) == frame.points@.take(count).filter_map(
            |point: RebasedPoint|
                match point.placement {
                    Some(placement) => Some(
                        FusedPoint {
                            position: placement.position,
                            normal: placement.normal,
                            radius: placement.radius,
                            color_srgb: point.color_srgb,
                            confidence: point.confidence,
                            contributors: 1,
                            first_observing_frame: frame.report.frame_index as i32,
                        },
                    ),
                    None => None,
                },
        ),
    decreases count,
{
    if count > 0 {
        law_frame_points_are_the_placed_ones(frame, count - 1);
        let points = frame.points@;
        assert(points.take(count).drop_last() =~= points.take(count - 1));
        let rest = frame_points(frame, count - 1);
        let all = frame_points(frame, count);
        if all.len() > rest.len() {
            assert(all =~= rest + seq![all.last()]);
        }
    }
}

/// The observations of a frame are its placed points that are in the sample and that
/// neighbouring frames confirm, where that is asked for.
pub proof fn law_observations_are_confirmed_samples(
    frame: GlobalFrame,
    settings: FrameGlobalFusionSettings,
    offer: int,
    count: int,
)
    requires
        0 <= count <= frame.points@.len(),
    ensures
        frame_observations(frame, settings, offer, count) == frame.points@.take(count).filter_map(
            |point: RebasedPoint|
                match point.placement {
                    Some(placement) => if (settings.maximum_neighbor_depth_log_error is None
                        || point.confirmed) && (match settings.maximum_tsdf_observations {
                        None => true,
                        Some(budget) => offer <= budget || pixel_hash(
                            frame.report.frame_index,
                            point.source_pixel,
                        ) <= ratio::share_of_range(budget as int, offer),
                    }) {
                        Some(
                            TsdfObservation {
                                position: placement.position,
                                radius: placement.radius,
                                color_srgb: point.color_srgb,
                                confidence: point.confidence,
                                frame_index: frame.report.frame_index as i32,
                            },
                        )
                    } else {
                        None
                    },
                    None => None,
                },
        ),
    decreases count,
{
    if count > 0 {
        law_observations_are_confirmed_samples(frame, settings, offer, count - 1);
        let points = frame.points@;
        assert(points.take(count).drop_last() =~= points.take(count - 1));
        let rest = frame_observations(frame, settings, offer, count - 1);
        let all = frame_observations(frame, settings, offer, count);
        if all.len() > rest.len() {
            assert(all =~= rest + seq![all.last()]);
        }
    }
}

/// The points and the observations of a world are those of its accepted frames, frame
/// by frame.
pub proof fn law_world_is_made_of_accepted_frames(
    frames: Seq<GlobalFrame>,
    settings: FrameGlobalFusionSettings,
    offer: int,
    count: int,
)
    requires
        0 <= count <= frames.len(),
    ensures
        ({
            let gate = |frame: GlobalFrame|
                frame.posed && frame.report.scale is Some && (
                frame.report.held_out_median_log_error matches Some(error) && !ieee::f32_nan(error)
                    && !ieee::f32_nan(settings.maximum_held_out_median_log_error)
                    && ieee::f32_rank(error) <= ieee::f32_rank(
                    settings.maximum_held_out_median_log_error,
                ));
            let accepted = frames.take(count).filter(gate);
            &&& all_points(frames, settings, count) == accepted.map_values(
                |frame: GlobalFrame| frame_points(frame, frame.points@.len() as int),
            ).flatten()
            &&& all_observations(frames, settings, offer, count) == accepted.map_values(
                |frame: GlobalFrame|
                    frame_observations(frame, settings, offer, frame.points@.len() as int),
            ).flatten()
        }),
    decreases count,
{
    reveal(Seq::filter);
    let gate = |frame: GlobalFrame|
        frame.posed && frame.report.scale is Some && (
        frame.report.held_out_median_log_error matches Some(error) && !ieee::f32_nan(error)
            && !ieee::f32_nan(settings.maximum_held_out_median_log_error) && ieee::f32_rank(error)
            <= ieee::f32_rank(settings.maximum_held_out_median_log_error));
    let points = |frame: GlobalFrame| frame_points(frame, frame.points@.len() as int);
    let observations = |frame: GlobalFrame|
        frame_observations(frame, settings, offer, frame.points@.len() as int);
    if count > 0 {
        law_world_is_made_of_accepted_frames(frames, settings, offer, count - 1);
        assert(frames.take(count).drop_last() =~= frames.take(count - 1));
        let frame = frames[count - 1];
        let rest = frames.take(count - 1).filter(gate);
        assert(contributes(frame, settings) <==> gate(frame));
        if gate(frame) {
            assert(rest.push(frame).map_values(points) =~= rest.map_values(points).push(
                points(frame),
            ));
            assert(rest.push(frame).map_values(observations) =~= rest.map_values(
                observations,
            ).push(observations(frame)));
            rest.map_values(points).lemma_flatten_push(points(frame));
            rest.map_values(observations).lemma_flatten_push(observations(frame));
        }
    } else {
        let none = frames.take(count).filter(gate);
        assert(none =~= Seq::empty());
        assert(none.map_values(points) =~= Seq::empty());
        assert(none.map_values(observations) =~= Seq::empty());
        assert(none.map_values(points).flatten() =~= Seq::empty());
        assert(none.map_values(observations).flatten() =~= Seq::empty());
    }
}

/// Every fifth track is held out: a usable ratio goes to the fit exactly where the
/// number of its track is not a multiple of five, and to the check where it is.
pub proof fn law_every_fifth_track_is_held_out(
    samples: Seq<ScaleSample>,
    held_out: bool,
    count: int,
)
    requires
        0 <= count <= samples.len(),
    ensures
        ratios(samples, held_out, count) == samples.take(count).filter_map(
            |sample: ScaleSample|
                if (sample.point_id % 5 == 0) == held_out {
                    sample.log_ratio
                } else {
                    None
                },
        ),
    decreases count,
{
    if count > 0 {
        law_every_fifth_track_is_held_out(samples, held_out, count - 1);
        assert(samples.take(count).drop_last() =~= samples.take(count - 1));
        let rest = ratios(samples, held_out, count - 1);
        let all = ratios(samples, held_out, count);
        if all.len() > rest.len() {
            assert(all =~= rest + seq![all.last()]);
        }
    }
}

/// A neighbouring depth map confirms a point where it is of another frame within the
/// radius and disagrees by a number that is no more than the maximum.
pub proof fn law_confirmations_are_counted(
    checks: Seq<DepthCheck>,
    source_frame: usize,
    radius: usize,
    maximum: u32,
    count: int,
)
    requires
        0 <= count <= checks.len(),
        !ieee::f32_nan(maximum),
    ensures
        confirmations(checks, source_frame, radius, maximum, count) == checks.take(count).filter(
            |check: DepthCheck|
                check.frame_index != source_frame && -(radius as int) <= check.frame_index
                    - source_frame <= radius && (check.error matches Some(error)
                    && ieee::f32_magnitude(error) < 0x7f80_0000 && ieee::f32_rank(error)
                    <= ieee::f32_rank(maximum)),
        ).len(),
    decreases count,
{
    reveal(Seq::filter);
    if count > 0 {
        law_confirmations_are_counted(checks, source_frame, radius, maximum, count - 1);
        assert(checks.take(count).drop_last() =~= checks.take(count - 1));
    }
}

/// Reports smooth each other across accepted frames only: report `neighbor` takes part
/// in the smoothing of report `index` exactly where it is within the radius, in the
/// list and in frames, and every report from the one to the other passes the held-out
/// gate numerically.
pub proof fn law_smoothing_bridges_no_gap(
    reports: Seq<FrameGlobalReport>,
    maximum: u32,
    radius: int,
    index: int,
    count: int,
)
    requires
        0 <= index < reports.len() <= usize::MAX,
        0 <= count <= reports.len(),
        !ieee::f32_nan(maximum),
    ensures
        forall|neighbor: usize| #[trigger]
            neighbors(reports, maximum, radius, index, count).contains(neighbor) <==> {
                let low = if neighbor < index {
                    neighbor as int
                } else {
                    index
                };
                let high = if neighbor < index {
                    index
                } else {
                    neighbor as int
                };
                &&& neighbor < count
                &&& -radius <= neighbor - index <= radius
                &&& -radius <= reports[neighbor as int].frame_index - reports[index].frame_index
                    <= radius
                &&& forall|k: int|
                    low <= k <= high ==> (#[trigger] reports[k]).scale is Some && (
                    reports[k].held_out_median_log_error matches Some(error) && !ieee::f32_nan(
                        error,
                    ) && ieee::f32_rank(error) <= ieee::f32_rank(maximum))
            },
    decreases count,
{
    let all = neighbors(reports, maximum, radius, index, count);
    if count > 0 {
        law_smoothing_bridges_no_gap(reports, maximum, radius, index, count - 1);
        let rest = neighbors(reports, maximum, radius, index, count - 1);
        let last = (count - 1) as usize;
        assert forall|neighbor: usize| #[trigger] all.contains(neighbor) <==> rest.contains(neighbor)
            || (neighbor == last && smooths(reports, maximum, radius, index, count - 1)) by {
            if smooths(reports, maximum, radius, index, count - 1) {
                vstd::seq_lib::lemma_seq_contains_after_push(rest, last, neighbor);
            }
        }
        let low = if last < index {
            last as int
        } else {
            index
        };
        let high = if last < index {
            index
        } else {
            last as int
        };
        assert(all_pass(reports, maximum, low, high) <==> forall|k: int|
            low <= k <= high ==> (#[trigger] reports[k]).scale is Some && (
            reports[k].held_out_median_log_error matches Some(error) && !ieee::f32_nan(error)
                && ieee::f32_rank(error) <= ieee::f32_rank(maximum))) by {
            if all_pass(reports, maximum, low, high) {
                assert forall|k: int| low <= k <= high implies (#[trigger] reports[k]).scale is Some
                    && (reports[k].held_out_median_log_error matches Some(error)
                    && !ieee::f32_nan(error) && ieee::f32_rank(error) <= ieee::f32_rank(
                    maximum,
                )) by {
                    assert(passes(reports[k], maximum));
                }
            }
        }
    } else {
        assert(all =~= Seq::empty());
    }
}

/// Smoothing changes the scale and the error of a report, and nothing else; it changes
/// them to the averaged ones exactly where the report has accepted neighbours and the
/// averaged scale still passes the held-out gate numerically.
pub proof fn law_smoothing_takes_the_averaged_scale(
    reports: Seq<FrameGlobalReport>,
    outcomes: Seq<SmoothedScale>,
    settings: FrameGlobalFusionSettings,
    index: int,
)
    requires
        0 <= index < reports.len() == outcomes.len(),
    ensures
        ({
            let next = smoothed(reports, outcomes, settings, index);
            let maximum = settings.maximum_held_out_median_log_error;
            let averaged = smoothing_group(reports, settings, index) is Some && !ieee::f32_nan(
                outcomes[index].error,
            ) && !ieee::f32_nan(maximum) && ieee::f32_rank(outcomes[index].error)
                <= ieee::f32_rank(maximum);
            &&& next.frame_index == reports[index].frame_index
            &&& next.registered == reports[index].registered
            &&& next.scale_samples == reports[index].scale_samples
            &&& next.held_out_samples == reports[index].held_out_samples
            &&& averaged ==> next.scale == Some(outcomes[index].scale)
                && next.held_out_median_log_error == Some(outcomes[index].error)
            &&& !averaged ==> next == reports[index]
        }),
        smoothing_group(reports, settings, index) matches Some(group) ==> group.len() >= 2
            && settings.temporal_scale_smoothing_radius > 0,
{
}

/// A track is seen by a frame in its first observation of that frame, and a pixel is
/// looked up to the last point measured there.
pub proof fn law_lookups_find_their_frame_and_pixel(
    observations: Seq<TrackObservation>,
    frame_index: usize,
    start: int,
    pixels: Seq<[u32; 2]>,
    pixel: [u32; 2],
    count: int,
)
    requires
        0 <= start <= observations.len(),
        0 <= count <= pixels.len(),
    ensures
        match seen_at(observations, frame_index, start) {
            Some(i) => {
                &&& start <= i < observations.len()
                &&& observations[i].frame_index == frame_index
                &&& forall|k: int|
                    start <= k < i ==> (#[trigger] observations[k]).frame_index != frame_index
            },
            None => forall|k: int|
                start <= k < observations.len() ==> (#[trigger] observations[k]).frame_index
                    != frame_index,
        },
        match last_at(pixels, pixel, count) {
            Some(i) => {
                &&& 0 <= i < count
                &&& pixels[i]@[0] == pixel@[0] && pixels[i]@[1] == pixel@[1]
                &&& forall|k: int|
                    i < k < count ==> !((#[trigger] pixels[k])@[0] == pixel@[0] && pixels[k]@[1]
                        == pixel@[1])
            },
            None => forall|k: int|
                0 <= k < count ==> !((#[trigger] pixels[k])@[0] == pixel@[0] && pixels[k]@[1]
                    == pixel@[1]),
        },
    decreases observations.len() - start + count,
{
    if start < observations.len() && observations[start].frame_index != frame_index {
        law_lookups_find_their_frame_and_pixel(
            observations,
            frame_index,
            start + 1,
            pixels,
            pixel,
            count,
        );
    }
    if count > 0 {
        law_lookups_find_their_frame_and_pixel(
            observations,
            frame_index,
            start,
            pixels,
            pixel,
            count - 1,
        );
    }
}

/// A surface element enters the world as it is, with full confidence.
pub proof fn law_surface_points_are_their_elements(surfel: TsdfSurfel)
    ensures
        ({
            let point = surface_point(surfel);
            &&& point.position == surfel.position
            &&& point.normal == surfel.normal
            &&& point.color_srgb == surfel.color_srgb
            &&& point.radius == surfel.radius
            &&& point.first_observing_frame == surfel.first_observing_frame
            &&& point.contributors == surfel.contributors
            &&& point.confidence == 0x3f80_0000
        }),
{
}

/// Enough frames passed where their share of all frames, as a rounded quotient, is a number
/// no less than the required fraction. Without any frame the share is zero.
pub proof fn law_coverage_is_a_share_of_all_frames(
    fused: int,
    total: int,
    minimum_fraction: u32,
)
    requires
        0 <= fused <= total <= u64::MAX,
        !ieee::f32_nan(minimum_fraction),
    ensures
        total >= 1 ==> (covers_enough(fused, total, minimum_fraction) <==> !ieee::f32_nan(
            ratio::f32_quotient(fused, total),
        ) && ieee::f32_rank(ratio::f32_quotient(fused, total)) >= ieee::f32_rank(minimum_fraction)),
        total == 0 ==> (covers_enough(fused, total, minimum_fraction) <==> ieee::f32_rank(
            minimum_fraction,
        ) <= 0),
{
}

/// The points that frames offer are those of all accepted frames together.
pub proof fn law_offers_are_summed(
    frames: Seq<GlobalFrame>,
    settings: FrameGlobalFusionSettings,
    count: int,
)
    requires
        0 <= count <= frames.len(),
    ensures
        offered(frames, settings, count) == order::total(
            frames.take(count).filter(
                |frame: GlobalFrame| contributes(frame, settings),
            ).map_values(|frame: GlobalFrame| frame.points@.len()),
        ),
    decreases count,
{
    reveal(Seq::filter);
    let sizes = |list: Seq<GlobalFrame>| list.map_values(|frame: GlobalFrame| frame.points@.len());
    if count > 0 {
        law_offers_are_summed(frames, settings, count - 1);
        assert(frames.take(count).drop_last() =~= frames.take(count - 1));
        let accepted = |frame: GlobalFrame| contributes(frame, settings);
        let before = frames.take(count - 1).filter(accepted);
        let frame = frames[count - 1];
        if contributes(frame, settings) {
            assert(sizes(before.push(frame)) =~= sizes(before).push(frame.points@.len()));
            order::lemma_total_push(sizes(before), frame.points@.len());
        }
    } else {
        assert(frames.take(count).filter(
            |frame: GlobalFrame| contributes(frame, settings),
        ).map_values(|frame: GlobalFrame| frame.points@.len()) =~= Seq::empty());
    }
}

} // verus!
