//! Normal-space surface fusion: which evidence enters a cell, which cells
//! carry the surface and in which order the surface is handed out.
//!
//! Points splat a truncated signed-distance band along their normals. The
//! weighted sums of a cell are numbers of the caller; membership, hit counts,
//! first frames, gates and the frame-major order are decided here.

use vstd::multiset::Multiset;
use vstd::prelude::*;

use crate::cells;
use crate::cells::{group_cells, Cell, CellGroup};
use crate::ieee;
use crate::order;

verus! {

/// How a measured cloud is fused into one surface layer.
#[derive(Debug, Clone, Copy, PartialEq, Eq)]
pub struct TsdfSettings {
    /// Fraction of the cloud's bounding diagonal, used where `voxel_size` is
    /// absent.
    pub voxel_fraction: u32,
    pub voxel_size: Option<u32>,
    pub truncation_multiple: u32,
    pub normal_radius: Option<u32>,
    pub minimum_hits: u32,
}

impl Default for TsdfSettings {
    fn default() -> (settings: Self)
        ensures
            settings == (TsdfSettings {
                voxel_fraction: 0x3b83_126f,
                voxel_size: None,
                truncation_multiple: 0x4080_0000,
                normal_radius: None,
                minimum_hits: 2,
            }),
    {
        TsdfSettings {
            voxel_fraction: 0x3b83_126f,
            voxel_size: None,
            truncation_multiple: 0x4080_0000,
            normal_radius: None,
            minimum_hits: 2,
        }
    }
}

/// One measured point offered to the fusion.
#[derive(Debug, Clone, Copy, PartialEq, Eq)]
pub struct TsdfObservation {
    pub position: [u32; 3],
    pub color_srgb: [u8; 3],
    pub confidence: u32,
    pub radius: u32,
    pub frame_index: i32,
}

/// One element of the fused surface.
#[derive(Debug, Clone, Copy, PartialEq, Eq)]
pub struct TsdfSurfel {
    pub position: [u32; 3],
    pub normal: [u32; 3],
    pub color_srgb: [u8; 3],
    pub radius: u32,
    pub first_observing_frame: i32,
    pub contributors: u32,
}

/// Fewer usable observations than this are handed through unfused.
pub const MINIMUM_OBSERVATIONS: usize = 8;

/// Voxel edge of a cloud without extent.
pub const DEGENERATE_VOXEL: u32 = 0x3cf5_c28f;

/// Truncation multiple used where the configured one is unusable.
pub const DEFAULT_TRUNCATION: u32 = 0x4080_0000;

/// Evidence that may enter the fusion: a finite position with positive
/// confidence and radius.
pub open spec fn usable(point: TsdfObservation) -> bool {
    &&& ieee::f32_all_finite(point.position@)
    &&& ieee::f32_positive(point.confidence)
    &&& ieee::f32_positive(point.radius)
}

/// The usable ones of the first `count` observations.
pub open spec fn usable_part(points: Seq<TsdfObservation>, count: int) -> Seq<TsdfObservation>
    decreases count,
{
    if count <= 0 {
        Seq::empty()
    } else if usable(points[count - 1]) {
        usable_part(points, count - 1).push(points[count - 1])
    } else {
        usable_part(points, count - 1)
    }
}

/// Drops evidence that cannot enter the fusion.
pub fn usable_observations(points: &Vec<TsdfObservation>) -> (kept: Vec<TsdfObservation>)
    ensures
        kept@ == usable_part(points@, points@.len() as int),
{
    let mut kept: Vec<TsdfObservation> = Vec::new();
    for i in 0..points.len()
        invariant
            kept@ == usable_part(points@, i as int),
    {
        let point = points[i];
        if ieee::f32s_are_finite(&point.position) && ieee::f32_is_positive(point.confidence) && ieee::f32_is_positive(
            point.radius,
        ) {
            kept.push(point);
        }
    }
    kept
}

/// An observation handed through as a surface element that faces `+z`.
pub open spec fn plain_surfel(point: TsdfObservation) -> TsdfSurfel {
    TsdfSurfel {
        position: point.position,
        normal: [0, 0, ieee::F32_ONE],
        color_srgb: point.color_srgb,
        radius: point.radius,
        first_observing_frame: point.frame_index,
        contributors: 1,
    }
}

/// Every observation of a list as a surface element.
pub open spec fn plain_surface(points: Seq<TsdfObservation>) -> Seq<TsdfSurfel> {
    Seq::new(points.len(), |i: int| plain_surfel(points[i]))
}

fn plain_surfels(given: &Vec<TsdfObservation>) -> (surface: Vec<TsdfSurfel>)
    ensures
        handed_through(given@, surface@),
{
    let points: Vec<TsdfObservation> = hand_out(given);
    let mut surface: Vec<TsdfSurfel> = Vec::new();
    for i in 0..points.len()
        invariant
            surface@ == plain_surface(points@).take(i as int),
    {
        let point = points[i];
        surface.push(
            TsdfSurfel {
                position: point.position,
                normal: [0, 0, ieee::F32_ONE],
                color_srgb: point.color_srgb,
                radius: point.radius,
                first_observing_frame: point.frame_index,
                contributors: 1,
            },
        );
        assert(surface@ =~= plain_surface(points@).take(i + 1));
    }
    assert(plain_surface(points@).take(points@.len() as int) =~= plain_surface(points@));
    assert(is_hand_out(given@, points@));
    surface
}

/// Frame and position of an observation in the order they are handed out: by
/// frame, then by `x`, `y` and `z` in total order.
pub open spec fn place_rank(point: TsdfObservation) -> int {
    point.frame_index * 0x1_0000_0000_0000_0000_0000_0000 + ((ieee::f32_total_rank(
        point.position@[0],
    ) + 0x8000_0000) * 0x1_0000_0000 + (ieee::f32_total_rank(point.position@[1]) + 0x8000_0000))
        * 0x1_0000_0000 + (ieee::f32_total_rank(point.position@[2]) + 0x8000_0000)
}

/// What tells observations of one frame and position apart: radius, colour and
/// confidence.
pub open spec fn value_rank(point: TsdfObservation) -> int {
    (((point.radius * 0x100 + point.color_srgb@[0]) * 0x100 + point.color_srgb@[1]) * 0x100
        + point.color_srgb@[2]) * 0x1_0000_0000 + point.confidence
}

/// `a` is handed out no later than `b`.
pub open spec fn handed_before(a: TsdfObservation, b: TsdfObservation) -> bool {
    place_rank(a) < place_rank(b) || (place_rank(a) == place_rank(b) && value_rank(a)
        <= value_rank(b))
}

/// The observations in the order they are handed out.
pub open spec fn is_hand_out(points: Seq<TsdfObservation>, ordered: Seq<TsdfObservation>) -> bool {
    &&& ordered.to_multiset() == points.to_multiset()
    &&& forall|i: int, j: int|
        0 <= i < j < ordered.len() ==> handed_before(
            #[trigger] ordered[i],
            #[trigger] ordered[j],
        )
}

/// A list of observations handed through: each one as it is, frame by frame and
/// then by position, whatever order they came in.
pub open spec fn handed_through(points: Seq<TsdfObservation>, surface: Seq<TsdfSurfel>) -> bool {
    exists|ordered: Seq<TsdfObservation>| #[trigger]
        is_hand_out(points, ordered) && surface == plain_surface(ordered)
}

/// Two numbers of two digits are compared by their upper digits first.
proof fn lemma_digits(a: int, low_a: int, b: int, low_b: int, base: int)
    requires
        0 <= low_a < base,
        0 <= low_b < base,
    ensures
        a * base + low_a <= b * base + low_b ==> a <= b,
        a * base + low_a == b * base + low_b ==> a == b && low_a == low_b,
{
    assert(a * base + low_a <= b * base + low_b ==> a <= b) by (nonlinear_arith)
        requires
            0 <= low_a < base,
            0 <= low_b < base,
    ;
    assert(b * base + low_b <= a * base + low_a ==> b <= a) by (nonlinear_arith)
        requires
            0 <= low_a < base,
            0 <= low_b < base,
    ;
}

/// The rank of a position alone.
spec fn position_rank(point: TsdfObservation) -> int {
    ((ieee::f32_total_rank(point.position@[0]) + 0x8000_0000) * 0x1_0000_0000 + (
    ieee::f32_total_rank(point.position@[1]) + 0x8000_0000)) * 0x1_0000_0000 + (
    ieee::f32_total_rank(point.position@[2]) + 0x8000_0000)
}

proof fn lemma_position_rank(a: TsdfObservation, b: TsdfObservation)
    ensures
        0 <= position_rank(a) < 0x1_0000_0000_0000_0000_0000_0000,
        position_rank(a) == position_rank(b) ==> a.position@ == b.position@,
{
    let (ax, ay, az) = (
        ieee::f32_total_rank(a.position@[0]) + 0x8000_0000,
        ieee::f32_total_rank(a.position@[1]) + 0x8000_0000,
        ieee::f32_total_rank(a.position@[2]) + 0x8000_0000,
    );
    let (bx, by, bz) = (
        ieee::f32_total_rank(b.position@[0]) + 0x8000_0000,
        ieee::f32_total_rank(b.position@[1]) + 0x8000_0000,
        ieee::f32_total_rank(b.position@[2]) + 0x8000_0000,
    );
    lemma_digits(ax * 0x1_0000_0000 + ay, az, bx * 0x1_0000_0000 + by, bz, 0x1_0000_0000);
    lemma_digits(ax, ay, bx, by, 0x1_0000_0000);
    ieee::law_total_order(a.position@[0], b.position@[0]);
    ieee::law_total_order(a.position@[1], b.position@[1]);
    ieee::law_total_order(a.position@[2], b.position@[2]);
    if position_rank(a) == position_rank(b) {
        assert(a.position@ =~= b.position@);
    }
}

proof fn lemma_value_rank(a: TsdfObservation, b: TsdfObservation)
    ensures
        0 <= value_rank(a) <= i128::MAX,
        value_rank(a) == value_rank(b) ==> a.radius == b.radius && a.color_srgb@ == b.color_srgb@
            && a.confidence == b.confidence,
{
    let (ar, ag, ab) = (a.color_srgb@[0] as int, a.color_srgb@[1] as int, a.color_srgb@[2] as int);
    let (br, bg, bb) = (b.color_srgb@[0] as int, b.color_srgb@[1] as int, b.color_srgb@[2] as int);
    let a1 = a.radius * 0x100 + ar;
    let b1 = b.radius * 0x100 + br;
    let a2 = a1 * 0x100 + ag;
    let b2 = b1 * 0x100 + bg;
    lemma_digits(
        a2 * 0x100 + ab,
        a.confidence as int,
        b2 * 0x100 + bb,
        b.confidence as int,
        0x1_0000_0000,
    );
    lemma_digits(a2, ab, b2, bb, 0x100);
    lemma_digits(a1, ag, b1, bg, 0x100);
    lemma_digits(a.radius as int, ar, b.radius as int, br, 0x100);
    if value_rank(a) == value_rank(b) {
        assert(a.color_srgb@ =~= b.color_srgb@);
    }
}

/// The ranks fit the key type, order by frame first, and tell observations apart.
proof fn lemma_hand_out_ranks(a: TsdfObservation, b: TsdfObservation)
    ensures
        i128::MIN <= place_rank(a) <= i128::MAX,
        i128::MIN <= value_rank(a) <= i128::MAX,
        place_rank(a) <= place_rank(b) ==> a.frame_index <= b.frame_index,
        place_rank(a) == place_rank(b) && value_rank(a) == value_rank(b) ==> a == b,
{
    lemma_position_rank(a, b);
    lemma_position_rank(b, a);
    lemma_value_rank(a, b);
    lemma_digits(
        a.frame_index as int,
        position_rank(a),
        b.frame_index as int,
        position_rank(b),
        0x1_0000_0000_0000_0000_0000_0000,
    );
    if place_rank(a) == place_rank(b) && value_rank(a) == value_rank(b) {
        assert(a.position =~= b.position);
        assert(a.color_srgb =~= b.color_srgb);
    }
}

fn total_rank(bits: u32) -> (rank: i128)
    ensures
        rank == ieee::f32_total_rank(bits),
{
    if bits >= 0x8000_0000 {
        -((bits - 0x8000_0000) as i128) - 1
    } else {
        bits as i128
    }
}

fn place_key(point: &TsdfObservation) -> (key: i128)
    ensures
        key == place_rank(*point),
{
    let x: i128 = total_rank(point.position[0]) + 0x8000_0000;
    let y: i128 = total_rank(point.position[1]) + 0x8000_0000;
    let z: i128 = total_rank(point.position[2]) + 0x8000_0000;
    point.frame_index as i128 * 0x1_0000_0000_0000_0000_0000_0000 + ((x * 0x1_0000_0000 + y)
        * 0x1_0000_0000 + z)
}

fn value_key(point: &TsdfObservation) -> (key: i128)
    ensures
        key == value_rank(*point),
{
    (((point.radius as i128 * 0x100 + point.color_srgb[0] as i128) * 0x100
        + point.color_srgb[1] as i128) * 0x100 + point.color_srgb[2] as i128) * 0x1_0000_0000
        + point.confidence as i128
}

fn pick(points: &Vec<TsdfObservation>, places: &Vec<usize>) -> (list: Vec<TsdfObservation>)
    requires
        order::holds_range(places@, 0, points@.len() as int),
    ensures
        list@ == order::picked(points@, places@),
{
    let mut list: Vec<TsdfObservation> = Vec::new();
    for i in 0..places.len()
        invariant
            order::holds_range(places@, 0, points@.len() as int),
            list@ == order::picked(points@, places@).take(i as int),
    {
        let place: usize = places[i];
        list.push(points[place]);
        assert(list@ =~= order::picked(points@, places@).take(i + 1));
    }
    assert(list@ =~= order::picked(points@, places@));
    list
}

/// Orders observations for handing them out.
fn hand_out(points: &Vec<TsdfObservation>) -> (ordered: Vec<TsdfObservation>)
    ensures
        is_hand_out(points@, ordered@),
{
    let mut values: Vec<i128> = Vec::new();
    for i in 0..points.len()
        invariant
            values@ == Seq::new(i as nat, |k: int| value_rank(points@[k]) as i128),
    {
        proof {
            lemma_hand_out_ranks(points@[i as int], points@[i as int]);
        }
        values.push(value_key(&points[i]));
        assert(values@ =~= Seq::new((i + 1) as nat, |k: int| value_rank(points@[k]) as i128));
    }
    let by_value: Vec<usize> = order::stable_order(&values);
    let listed: Vec<TsdfObservation> = pick(points, &by_value);
    let mut keys: Vec<i128> = Vec::new();
    for i in 0..listed.len()
        invariant
            keys@ == Seq::new(i as nat, |k: int| place_rank(listed@[k]) as i128),
    {
        proof {
            lemma_hand_out_ranks(listed@[i as int], listed@[i as int]);
        }
        keys.push(place_key(&listed[i]));
        assert(keys@ =~= Seq::new((i + 1) as nat, |k: int| place_rank(listed@[k]) as i128));
    }
    let by_place: Vec<usize> = order::stable_order(&keys);
    let ordered: Vec<TsdfObservation> = pick(&listed, &by_place);
    proof {
        order::law_order_keeps_items(values@, by_value@, points@);
        order::law_order_keeps_items(keys@, by_place@, listed@);
        assert forall|i: int, j: int| 0 <= i < j < ordered@.len() implies handed_before(
            #[trigger] ordered@[i],
            #[trigger] ordered@[j],
        ) by {
            let a = by_place@[i] as int;
            let b = by_place@[j] as int;
            assert(order::before(keys@, a, b));
            lemma_hand_out_ranks(listed@[a], listed@[b]);
            lemma_hand_out_ranks(listed@[b], listed@[a]);
            if a < b {
                assert(order::before(values@, by_value@[a] as int, by_value@[b] as int));
            }
        }
    }
    ordered
}

/// There is only one order to hand observations out.
proof fn lemma_hand_out_unique(
    a: Seq<TsdfObservation>,
    b: Seq<TsdfObservation>,
    first: Seq<TsdfObservation>,
    second: Seq<TsdfObservation>,
)
    requires
        a.to_multiset() == b.to_multiset(),
        is_hand_out(a, first),
        is_hand_out(b, second),
    ensures
        first == second,
{
    let leq = |p: TsdfObservation, q: TsdfObservation| handed_before(p, q);
    assert(vstd::relations::total_ordering(leq)) by {
        assert forall|p: TsdfObservation, q: TsdfObservation| #[trigger] leq(p, q) && #[trigger] leq(
            q,
            p,
        ) implies p == q by {
            lemma_hand_out_ranks(p, q);
        }
    }
    assert forall|i: int, j: int| 0 <= i < j < first.len() implies #[trigger] leq(
        first[i],
        first[j],
    ) by {}
    assert forall|i: int, j: int| 0 <= i < j < second.len() implies #[trigger] leq(
        second[i],
        second[j],
    ) by {}
    vstd::seq_lib::lemma_sorted_unique(first, second, leq);
}

/// The voxel edge: the configured one if it is usable, else the given fraction
/// of the cloud's diagonal if that is usable, else a fixed edge. No minimum is
/// imposed on a small valid scene.
pub fn resolved_voxel_size(settings: &TsdfSettings, relative: u32) -> (voxel: u32)
    ensures
        voxel == (if settings.voxel_size.is_some() && ieee::f32_positive(settings.voxel_size.unwrap()) {
            settings.voxel_size.unwrap()
        } else if ieee::f32_positive(relative) {
            relative
        } else {
            DEGENERATE_VOXEL
        }),
{
    if let Some(edge) = settings.voxel_size {
        if ieee::f32_is_positive(edge) {
            return edge;
        }
    }
    if ieee::f32_is_positive(relative) {
        relative
    } else {
        DEGENERATE_VOXEL
    }
}

/// The truncation multiple: the configured one if it is usable, else four.
pub fn resolved_truncation_multiple(settings: &TsdfSettings) -> (multiple: u32)
    ensures
        multiple == (if ieee::f32_positive(settings.truncation_multiple) {
            settings.truncation_multiple
        } else {
            DEFAULT_TRUNCATION
        }),
{
    if ieee::f32_is_positive(settings.truncation_multiple) {
        settings.truncation_multiple
    } else {
        DEFAULT_TRUNCATION
    }
}

/// One step of a splat: the cell it meets and its signed distance.
#[derive(Debug, Clone, Copy, PartialEq, Eq)]
pub struct Splat {
    pub cell: Cell,
    pub distance: u32,
}

/// The steps of one observation along its normal.
#[derive(Debug, Clone, PartialEq, Eq)]
pub struct SplatRun {
    pub normal: [u32; 3],
    pub frame_index: i32,
    pub splats: Vec<Splat>,
}

/// A step that reached a cell: its run and its place in the run.
#[derive(Debug, Clone, Copy, PartialEq, Eq)]
pub struct Hit {
    pub run: usize,
    pub step: usize,
}

/// A numeric zero of either sign.
pub open spec fn is_zero(bits: u32) -> bool {
    ieee::f32_magnitude(bits) == 0
}

/// An observation without a normal splats nothing.
pub open spec fn has_normal(run: SplatRun) -> bool {
    !(is_zero(run.normal@[0]) && is_zero(run.normal@[1]) && is_zero(run.normal@[2]))
}

/// The distance of a splat lies beyond the truncation band.
pub open spec fn beyond(distance: u32, limit: u32) -> bool {
    ieee::f32_less(limit, ieee::f32_magnitude(distance) as u32)
}

fn is_beyond(distance: u32, limit: u32) -> (answer: bool)
    ensures
        answer == beyond(distance, limit),
{
    if distance >= 0x8000_0000 {
        ieee::f32_lt(limit, distance - 0x8000_0000)
    } else {
        ieee::f32_lt(limit, distance)
    }
}

/// Step `step` of a run reaches its cell: the cell differs from that of the
/// step before, and the distance lies within the band.
pub open spec fn reaches(run: SplatRun, step: int, truncation: u32) -> bool {
    &&& has_normal(run)
    &&& step == 0 || run.splats@[step].cell != run.splats@[step - 1].cell
    &&& !beyond(run.splats@[step].distance, truncation)
}

/// The hits of the first `steps` steps of run `run`.
pub open spec fn run_hits(
    runs: Seq<SplatRun>,
    run: int,
    steps: int,
    truncation: u32,
) -> Seq<Hit>
    decreases steps,
{
    if steps <= 0 {
        Seq::empty()
    } else if reaches(runs[run], steps - 1, truncation) {
        run_hits(runs, run, steps - 1, truncation).push(
            Hit { run: run as usize, step: (steps - 1) as usize },
        )
    } else {
        run_hits(runs, run, steps - 1, truncation)
    }
}

/// The hits of the first `count` runs, run by run.
pub open spec fn all_hits(runs: Seq<SplatRun>, count: int, truncation: u32) -> Seq<Hit>
    decreases count,
{
    if count <= 0 {
        Seq::empty()
    } else {
        all_hits(runs, count - 1, truncation) + run_hits(
            runs,
            count - 1,
            runs[count - 1].splats@.len() as int,
            truncation,
        )
    }
}

/// The cell a hit reached.
pub open spec fn hit_cell(runs: Seq<SplatRun>, hit: Hit) -> Cell {
    runs[hit.run as int].splats@[hit.step as int].cell
}

/// The cells of a list of hits.
pub open spec fn hit_cells(runs: Seq<SplatRun>, hits: Seq<Hit>) -> Seq<Cell> {
    Seq::new(hits.len(), |i: int| hit_cell(runs, hits[i]))
}

/// Every hit names a step that exists.
pub open spec fn hits_exist(runs: Seq<SplatRun>, hits: Seq<Hit>) -> bool {
    forall|i: int|
        0 <= i < hits.len() ==> (#[trigger] hits[i]).run < runs.len() && hits[i].step
            < runs[hits[i].run as int].splats@.len()
}

fn zero(bits: u32) -> (answer: bool)
    ensures
        answer == is_zero(bits),
{
    bits == 0 || bits == 0x8000_0000
}

/// All hits, run by run and step by step.
pub fn splat_hits(runs: &Vec<SplatRun>, truncation: u32) -> (hits: Vec<Hit>)
    ensures
        hits@ == all_hits(runs@, runs@.len() as int, truncation),
        hits_exist(runs@, hits@),
{
    let mut hits: Vec<Hit> = Vec::new();
    for r in 0..runs.len()
        invariant
            hits@ == all_hits(runs@, r as int, truncation),
            hits_exist(runs@, hits@),
    {
        let run = &runs[r];
        let ghost start = hits@;
        let silent = zero(run.normal[0]) && zero(run.normal[1]) && zero(run.normal[2]);
        assert(start + run_hits(runs@, r as int, 0, truncation) =~= start);
        for s in 0..run.splats.len()
            invariant
                r < runs.len(),
                run == runs@[r as int],
                silent == !has_normal(*run),
                hits@ == start + run_hits(runs@, r as int, s as int, truncation),
                hits_exist(runs@, hits@),
        {
            let splat = run.splats[s];
            let fresh = s == 0 || splat.cell != run.splats[s - 1].cell;
            if !silent && fresh && !is_beyond(splat.distance, truncation) {
                hits.push(Hit { run: r, step: s });
                assert(hits@ =~= start + run_hits(runs@, r as int, s + 1, truncation));
            }
        }
    }
    hits
}

/// The least frame among the runs of the first `count` listed hits.
pub open spec fn least_frame(
    runs: Seq<SplatRun>,
    hits: Seq<Hit>,
    members: Seq<usize>,
    count: int,
) -> int
    decreases count,
{
    if count <= 0 {
        i32::MAX as int
    } else {
        let frame = runs[hits[members[count - 1] as int].run as int].frame_index as int;
        let rest = least_frame(runs, hits, members, count - 1);
        if frame < rest {
            frame
        } else {
            rest
        }
    }
}

/// What a cell has gathered: its hits in splat order and its first frame.
#[derive(Debug, Clone, PartialEq, Eq)]
pub struct CellEvidence {
    pub cell: Cell,
    /// Places in the list of hits.
    pub hits: Vec<usize>,
    pub first_frame: i32,
}

/// The evidence of one group of hits.
pub open spec fn evidence_matches(
    runs: Seq<SplatRun>,
    hits: Seq<Hit>,
    group: CellGroup,
    evidence: CellEvidence,
) -> bool {
    &&& evidence.cell == group.cell
    &&& evidence.hits@ == group.members@
    &&& evidence.first_frame == least_frame(
        runs,
        hits,
        group.members@,
        group.members@.len() as int,
    )
}

/// The evidence of every reached cell: each cell once, in cell order, with all
/// its hits in splat order and the least frame among them.
pub open spec fn is_field(
    runs: Seq<SplatRun>,
    hits: Seq<Hit>,
    field: Seq<CellEvidence>,
) -> bool {
    exists|groups: Seq<CellGroup>| #[trigger]
        cells::is_grouping(hit_cells(runs, hits), groups) && field.len() == groups.len() && (
        forall|i: int|
            0 <= i < field.len() ==> evidence_matches(
                runs,
                hits,
                groups[i],
                #[trigger] field[i],
            ))
}

fn first_frame(runs: &Vec<SplatRun>, hits: &Vec<Hit>, members: &Vec<usize>) -> (frame: i32)
    requires
        hits_exist(runs@, hits@),
        forall|i: int| 0 <= i < members@.len() ==> #[trigger] members@[i] < hits@.len(),
    ensures
        frame == least_frame(runs@, hits@, members@, members@.len() as int),
{
    let mut frame: i32 = i32::MAX;
    for i in 0..members.len()
        invariant
            hits_exist(runs@, hits@),
            forall|i: int| 0 <= i < members@.len() ==> #[trigger] members@[i] < hits@.len(),
            frame == least_frame(runs@, hits@, members@, i as int),
    {
        let hit = hits[members[i]];
        let next: i32 = runs[hit.run].frame_index;
        if next < frame {
            frame = next;
        }
    }
    frame
}

/// Gathers the hits into cells.
pub fn gather_cells(runs: &Vec<SplatRun>, hits: &Vec<Hit>) -> (field: Vec<CellEvidence>)
    requires
        hits_exist(runs@, hits@),
    ensures
        is_field(runs@, hits@, field@),
        field@.len() == hit_cells(runs@, hits@).to_set().len(),
{
    let mut reached: Vec<Cell> = Vec::new();
    for i in 0..hits.len()
        invariant
            hits_exist(runs@, hits@),
            reached@ == hit_cells(runs@, hits@).take(i as int),
    {
        let hit = hits[i];
        reached.push(runs[hit.run].splats[hit.step].cell);
        assert(reached@ =~= hit_cells(runs@, hits@).take(i + 1));
    }
    assert(reached@ =~= hit_cells(runs@, hits@));
    let groups: Vec<CellGroup> = group_cells(&reached);
    let ghost grouping = groups@;
    let mut field: Vec<CellEvidence> = Vec::new();
    for g in 0..groups.len()
        invariant
            hits_exist(runs@, hits@),
            groups@ == grouping,
            reached@.len() == hits@.len(),
            cells::is_grouping(reached@, grouping),
            field@.len() == g,
            forall|i: int|
                0 <= i < g ==> evidence_matches(runs@, hits@, grouping[i], #[trigger] field@[i]),
    {
        let group = &groups[g];
        assert(cells::is_members(reached@, group.cell, group.members@));
        let frame: i32 = first_frame(runs, hits, &group.members);
        let members = copy_places(&group.members);
        field.push(CellEvidence { cell: group.cell, hits: members, first_frame: frame });
    }
    proof {
        cells::law_one_group_per_cell(reached@, grouping);
    }
    field
}

fn copy_places(places: &Vec<usize>) -> (copy: Vec<usize>)
    ensures
        copy@ == places@,
{
    let mut copy: Vec<usize> = Vec::new();
    for i in 0..places.len()
        invariant
            copy@ == places@.take(i as int),
    {
        copy.push(places[i]);
        assert(copy@ =~= places@.take(i + 1));
    }
    assert(places@.take(places@.len() as int) =~= places@);
    copy
}

/// A cell with its weighted means: total weight (binary64), mean signed
/// distance, mean unit normal where there is one, the surface position and the
/// blended colour.
#[derive(Debug, Clone, Copy, PartialEq, Eq)]
pub struct SurfaceCell {
    pub cell: Cell,
    pub hits: u32,
    pub first_frame: i32,
    pub weight: u64,
    pub distance: u32,
    pub normal: Option<[u32; 3]>,
    pub position: [u32; 3],
    pub color_srgb: [u8; 3],
}

/// A cell carries the surface: it has been hit often enough, its weight is not
/// zero or less, its zero crossing lies within half a voxel and its normals do
/// not cancel.
pub open spec fn carries_surface(cell: SurfaceCell, minimum_hits: u32, half: u32) -> bool {
    &&& cell.hits >= minimum_hits
    &&& cell.hits >= 1
    &&& !ieee::f64_at_most(cell.weight, 0)
    &&& !beyond(cell.distance, half)
    &&& cell.normal is Some
}

/// The ones of the first `count` cells that carry the surface.
pub open spec fn surface_part(
    field: Seq<SurfaceCell>,
    minimum_hits: u32,
    half: u32,
    count: int,
) -> Seq<SurfaceCell>
    decreases count,
{
    if count <= 0 {
        Seq::empty()
    } else if carries_surface(field[count - 1], minimum_hits, half) {
        surface_part(field, minimum_hits, half, count - 1).push(field[count - 1])
    } else {
        surface_part(field, minimum_hits, half, count - 1)
    }
}

/// The position of a cell in the hand-out order: first frame, then cell.
pub open spec fn surface_rank(cell: SurfaceCell) -> int {
    cell.first_frame * 0x1_0000_0000_0000_0000_0000_0000 + cells::cell_rank(cell.cell)
}

/// The ranks of a list of cells.
pub open spec fn surface_keys(kept: Seq<SurfaceCell>) -> Seq<i128> {
    Seq::new(kept.len(), |i: int| surface_rank(kept[i]) as i128)
}

/// The surface element of a cell.
pub open spec fn cell_surfel(cell: SurfaceCell, radius: u32) -> TsdfSurfel {
    TsdfSurfel {
        position: cell.position,
        normal: cell.normal.unwrap(),
        color_srgb: cell.color_srgb,
        radius,
        first_observing_frame: cell.first_frame,
        contributors: cell.hits,
    }
}

/// The surface of the kept cells, frame-major and then in cell order.
pub open spec fn is_surface(
    kept: Seq<SurfaceCell>,
    radius: u32,
    surface: Seq<TsdfSurfel>,
) -> bool {
    exists|places: Seq<usize>| #[trigger]
        order::is_order(surface_keys(kept), places) && surface == Seq::new(
            places.len(),
            |i: int| cell_surfel(kept[places[i] as int], radius),
        )
}

/// A list of all cells of the field, each with its means, gives the surface:
/// too little evidence, or a field that no cell of which carries the surface,
/// hands the usable observations through, in an order of their own.
pub open spec fn fused_surface(
    observations: Seq<TsdfObservation>,
    field: Seq<SurfaceCell>,
    minimum_hits: u32,
    half: u32,
    radius: u32,
    surface: Seq<TsdfSurfel>,
) -> bool {
    let points = usable_part(observations, observations.len() as int);
    let kept = surface_part(field, minimum_hits, half, field.len() as int);
    if points.len() < MINIMUM_OBSERVATIONS || kept.len() == 0 {
        handed_through(points, surface)
    } else {
        is_surface(kept, radius, surface)
    }
}

/// A rank fits the key type, and orders by frame first.
pub proof fn lemma_surface_rank(a: SurfaceCell, b: SurfaceCell)
    ensures
        i128::MIN <= surface_rank(a) <= i128::MAX,
        surface_rank(a) < surface_rank(b) <==> (a.first_frame < b.first_frame || (a.first_frame
            == b.first_frame && cells::cell_before(a.cell, b.cell))),
        surface_rank(a) == surface_rank(b) <==> a.first_frame == b.first_frame && a.cell == b.cell,
{
    cells::lemma_rank(a.cell, b.cell);
    cells::lemma_rank(b.cell, a.cell);
}

fn surface_key(cell: &SurfaceCell) -> (key: i128)
    ensures
        key == surface_rank(*cell),
{
    proof {
        lemma_surface_rank(*cell, *cell);
        cells::lemma_rank(cell.cell, cell.cell);
    }
    let major: i128 = cell.first_frame as i128 * 0x1_0000_0000_0000_0000_0000_0000;
    let minor: i128 = ((cell.cell.x as i128 + 0x8000_0000) * 0x1_0000_0000 + (cell.cell.y as i128
        + 0x8000_0000)) * 0x1_0000_0000 + (cell.cell.z as i128 + 0x8000_0000);
    major + minor
}

/// Turns observations and averaged cells into the surface.
pub fn surface_of_cells(
    observations: &Vec<TsdfObservation>,
    field: &Vec<SurfaceCell>,
    settings: &TsdfSettings,
    half: u32,
    radius: u32,
) -> (surface: Vec<TsdfSurfel>)
    ensures
        fused_surface(
            observations@,
            field@,
            settings.minimum_hits,
            half,
            radius,
            surface@,
        ),
{
    let points: Vec<TsdfObservation> = usable_observations(observations);
    if points.len() < MINIMUM_OBSERVATIONS {
        return plain_surfels(&points);
    }
    let mut kept: Vec<SurfaceCell> = Vec::new();
    let mut keys: Vec<i128> = Vec::new();
    for i in 0..field.len()
        invariant
            kept@ == surface_part(field@, settings.minimum_hits, half, i as int),
            keys@ == surface_keys(kept@),
            forall|k: int| 0 <= k < kept@.len() ==> (#[trigger] kept@[k]).normal is Some,
    {
        let cell = field[i];
        if cell.hits >= settings.minimum_hits && cell.hits >= 1 && !ieee::f64_le(cell.weight, 0)
            && !is_beyond(cell.distance, half) && cell.normal.is_some() {
            keys.push(surface_key(&cell));
            kept.push(cell);
            assert(keys@ =~= surface_keys(kept@)) by {
                lemma_surface_rank(cell, cell);
            }
        }
    }
    if kept.len() == 0 {
        return plain_surfels(&points);
    }
    let places: Vec<usize> = order::stable_order(&keys);
    let ghost whole = Seq::new(
        places@.len(),
        |i: int| cell_surfel(kept@[places@[i] as int], radius),
    );
    let mut surface: Vec<TsdfSurfel> = Vec::new();
    for i in 0..places.len()
        invariant
            order::is_order(keys@, places@),
            keys@.len() == kept@.len(),
            forall|k: int| 0 <= k < kept@.len() ==> (#[trigger] kept@[k]).normal is Some,
            whole == Seq::new(
                places@.len(),
                |i: int| cell_surfel(kept@[places@[i] as int], radius),
            ),
            surface@ == whole.take(i as int),
    {
        let place: usize = places[i];
        assert(place < kept@.len());
        let cell = kept[place];
        surface.push(
            TsdfSurfel {
                position: cell.position,
                normal: cell.normal.unwrap(),
                color_srgb: cell.color_srgb,
                radius,
                first_observing_frame: cell.first_frame,
                contributors: cell.hits,
            },
        );
        assert(surface@ =~= whole.take(i + 1));
    }
    assert(whole.take(places@.len() as int) =~= whole);
    surface
}

/// The weighted means of what a cell has gathered: total weight (binary64), mean
/// signed distance, mean unit normal where there is one, the surface position
/// and the blended colour.
#[derive(Debug, Clone, Copy, PartialEq, Eq)]
pub struct CellMeans {
    pub weight: u64,
    pub distance: u32,
    pub normal: Option<[u32; 3]>,
    pub position: [u32; 3],
    pub color_srgb: [u8; 3],
}

/// The lengths of a fusion: the reach of a splat, half a voxel, and the radius
/// of a surface element.
#[derive(Debug, Clone, Copy, PartialEq, Eq, Structural)]
pub struct SurfaceScale {
    pub truncation: u32,
    pub half: u32,
    pub radius: u32,
}

/// A cell with its evidence and the means of it.
pub open spec fn averaged(evidence: CellEvidence, means: CellMeans) -> SurfaceCell {
    SurfaceCell {
        cell: evidence.cell,
        hits: evidence.hits@.len() as u32,
        first_frame: evidence.first_frame,
        weight: means.weight,
        distance: means.distance,
        normal: means.normal,
        position: means.position,
        color_srgb: means.color_srgb,
    }
}

/// All cells of a field with their means.
pub open spec fn averaged_field(field: Seq<CellEvidence>, means: Seq<CellMeans>) -> Seq<
    SurfaceCell,
> {
    Seq::new(field.len(), |i: int| averaged(field[i], means[i]))
}

fn average_cells(field: &Vec<CellEvidence>, means: &Vec<CellMeans>) -> (cells: Vec<SurfaceCell>)
    requires
        means@.len() == field@.len(),
        forall|i: int| 0 <= i < field@.len() ==> (#[trigger] field@[i]).hits@.len() <= u32::MAX,
    ensures
        cells@ == averaged_field(field@, means@),
{
    let mut cells: Vec<SurfaceCell> = Vec::new();
    for i in 0..field.len()
        invariant
            means@.len() == field@.len(),
            forall|k: int|
                0 <= k < field@.len() ==> (#[trigger] field@[k]).hits@.len() <= u32::MAX,
            cells@ == averaged_field(field@, means@).take(i as int),
    {
        let evidence = &field[i];
        let mean = means[i];
        assert(field@[i as int].hits@.len() <= u32::MAX);
        cells.push(
            SurfaceCell {
                cell: evidence.cell,
                hits: evidence.hits.len() as u32,
                first_frame: evidence.first_frame,
                weight: mean.weight,
                distance: mean.distance,
                normal: mean.normal,
                position: mean.position,
                color_srgb: mean.color_srgb,
            },
        );
        assert(cells@ =~= averaged_field(field@, means@).take(i + 1));
    }
    assert(cells@ =~= averaged_field(field@, means@));
    cells
}

/// The hits of all runs of a fusion.
pub open spec fn hits_of(runs: Seq<SplatRun>, scale: SurfaceScale) -> Seq<Hit> {
    all_hits(runs, runs.len() as int, scale.truncation)
}

/// No cell has more hits than its count can hold.
pub open spec fn hits_countable(runs: Seq<SplatRun>, scale: SurfaceScale) -> bool {
    forall|field: Seq<CellEvidence>, i: int|
        #![trigger is_field(runs, hits_of(runs, scale), field), field[i]]
        is_field(runs, hits_of(runs, scale), field) && 0 <= i < field.len()
            ==> field[i].hits@.len() <= u32::MAX
}

/// There is one run per usable observation, and it is of the same frame.
pub open spec fn runs_follow(observations: Seq<TsdfObservation>, runs: Seq<SplatRun>) -> bool {
    let points = usable_part(observations, observations.len() as int);
    &&& runs.len() == points.len()
    &&& forall|i: int|
        0 <= i < runs.len() ==> (#[trigger] runs[i]).frame_index == points[i].frame_index
}

/// The runs are those of the observations, where they are many enough to be
/// fused, and the means those of the cells that the runs reach.
pub open spec fn fusion_fits(
    observations: Seq<TsdfObservation>,
    runs: Seq<SplatRun>,
    means: Seq<CellMeans>,
    scale: SurfaceScale,
) -> bool {
    &&& usable_part(observations, observations.len() as int).len() >= MINIMUM_OBSERVATIONS
        ==> runs_follow(observations, runs)
    &&& hits_countable(runs, scale)
    &&& means.len() == hit_cells(runs, hits_of(runs, scale)).to_set().len()
}

/// The surface of observations, with the field that their runs give.
pub open spec fn is_fusion(
    observations: Seq<TsdfObservation>,
    runs: Seq<SplatRun>,
    means: Seq<CellMeans>,
    settings: TsdfSettings,
    scale: SurfaceScale,
    surface: Seq<TsdfSurfel>,
) -> bool {
    exists|field: Seq<CellEvidence>| #[trigger]
        is_field(runs, hits_of(runs, scale), field) && fused_surface(
            observations,
            averaged_field(field, means),
            settings.minimum_hits,
            scale.half,
            scale.radius,
            surface,
        )
}

/// What a surface is fused with: the settings, the runs and means of the
/// observations, the lengths, and the voxel edge of the surface.
#[derive(Debug, Clone, PartialEq, Eq)]
pub struct SurfaceEvidence {
    pub settings: TsdfSettings,
    pub runs: Vec<SplatRun>,
    pub means: Vec<CellMeans>,
    pub scale: SurfaceScale,
    pub edge: u32,
}

/// The evidence is that of the observations.
pub open spec fn evidence_fits(
    observations: Seq<TsdfObservation>,
    evidence: SurfaceEvidence,
) -> bool {
    fusion_fits(observations, evidence.runs@, evidence.means@, evidence.scale)
}

/// The surface of observations under their evidence.
pub open spec fn surface_of(
    observations: Seq<TsdfObservation>,
    evidence: SurfaceEvidence,
    surface: Seq<TsdfSurfel>,
) -> bool {
    is_fusion(
        observations,
        evidence.runs@,
        evidence.means@,
        evidence.settings,
        evidence.scale,
        surface,
    )
}

/// The voxel edge of a surface. An empty one has none.
pub open spec fn edge_of(surface: Seq<TsdfSurfel>, evidence: SurfaceEvidence) -> u32 {
    if surface.len() > 0 {
        evidence.edge
    } else {
        0
    }
}

/// Fuses observations into one surface. `runs` holds the steps of each usable
/// observation along its normal, and `means` the means of each cell that they
/// reach, in cell order. Hit counts and first frames are those of the field that
/// the runs give. The surface comes out frame by frame.
pub fn fuse_normal_space_tsdf(
    observations: &Vec<TsdfObservation>,
    runs: &Vec<SplatRun>,
    means: &Vec<CellMeans>,
    settings: &TsdfSettings,
    scale: SurfaceScale,
) -> (surface: Vec<TsdfSurfel>)
    requires
        fusion_fits(observations@, runs@, means@, scale),
    ensures
        is_fusion(observations@, runs@, means@, *settings, scale, surface@),
        forall|i: int, j: int|
            0 <= i < j < surface@.len() ==> (#[trigger] surface@[i]).first_observing_frame <= (
            #[trigger] surface@[j]).first_observing_frame,
{
    let hits: Vec<Hit> = splat_hits(runs, scale.truncation);
    let field: Vec<CellEvidence> = gather_cells(runs, &hits);
    assert(is_field(runs@, hits_of(runs@, scale), field@));
    let cells: Vec<SurfaceCell> = average_cells(&field, means);
    let surface: Vec<TsdfSurfel> = surface_of_cells(
        observations,
        &cells,
        settings,
        scale.half,
        scale.radius,
    );
    proof {
        law_surface_is_frame_major(
            observations@,
            cells@,
            settings.minimum_hits,
            scale.half,
            scale.radius,
            surface@,
        );
    }
    surface
}

/// A cell names the first frame that reached it: no hit of it is of an earlier
/// one.
pub proof fn law_cells_name_their_first_frame(
    runs: Seq<SplatRun>,
    hits: Seq<Hit>,
    field: Seq<CellEvidence>,
    cell: int,
    i: int,
)
    requires
        is_field(runs, hits, field),
        0 <= cell < field.len(),
        0 <= i < field[cell].hits@.len(),
    ensures
        field[cell].first_frame <= runs[hits[field[cell].hits@[i] as int].run as int].frame_index,
{
    let groups = choose|groups: Seq<CellGroup>| #[trigger]
        cells::is_grouping(hit_cells(runs, hits), groups) && field.len() == groups.len() && (
        forall|i: int|
            0 <= i < field.len() ==> evidence_matches(
                runs,
                hits,
                groups[i],
                #[trigger] field[i],
            ));
    assert(evidence_matches(runs, hits, groups[cell], field[cell]));
    let members = groups[cell].members@;
    lemma_least_frame(runs, hits, members, members.len() as int, i);
}

proof fn lemma_least_frame(
    runs: Seq<SplatRun>,
    hits: Seq<Hit>,
    members: Seq<usize>,
    count: int,
    i: int,
)
    requires
        0 <= i < count,
    ensures
        least_frame(runs, hits, members, count)
            <= runs[hits[members[i] as int].run as int].frame_index,
    decreases count,
{
    if i < count - 1 {
        lemma_least_frame(runs, hits, members, count - 1, i);
    }
}

/// The surface comes out frame by frame, also where the observations are only
/// handed through.
pub proof fn law_surface_is_frame_major(
    observations: Seq<TsdfObservation>,
    field: Seq<SurfaceCell>,
    minimum_hits: u32,
    half: u32,
    radius: u32,
    surface: Seq<TsdfSurfel>,
)
    requires
        fused_surface(observations, field, minimum_hits, half, radius, surface),
    ensures
        forall|i: int, j: int|
            0 <= i < j < surface.len() ==> (#[trigger] surface[i]).first_observing_frame <= (
            #[trigger] surface[j]).first_observing_frame,
{
    let points = usable_part(observations, observations.len() as int);
    let kept = surface_part(field, minimum_hits, half, field.len() as int);
    if points.len() < MINIMUM_OBSERVATIONS || kept.len() == 0 {
        let ordered = choose|ordered: Seq<TsdfObservation>| #[trigger]
            is_hand_out(points, ordered) && surface == plain_surface(ordered);
        assert forall|i: int, j: int| 0 <= i < j < surface.len() implies (
        #[trigger] surface[i]).first_observing_frame <= (
        #[trigger] surface[j]).first_observing_frame by {
            assert(handed_before(ordered[i], ordered[j]));
            lemma_hand_out_ranks(ordered[i], ordered[j]);
        }
    } else {
        let keys = surface_keys(kept);
        let places = choose|places: Seq<usize>| #[trigger]
            order::is_order(keys, places) && surface == Seq::new(
                places.len(),
                |i: int| cell_surfel(kept[places[i] as int], radius),
            );
        assert forall|i: int, j: int| 0 <= i < j < surface.len() implies (
        #[trigger] surface[i]).first_observing_frame <= (
        #[trigger] surface[j]).first_observing_frame by {
            assert(order::before(keys, places[i] as int, places[j] as int));
            lemma_surface_rank(kept[places[i] as int], kept[places[j] as int]);
            lemma_surface_rank(kept[places[j] as int], kept[places[i] as int]);
        }
    }
}

proof fn lemma_usable_part(points: Seq<TsdfObservation>, count: int)
    requires
        0 <= count <= points.len(),
    ensures
        forall|i: int|
            0 <= i < usable_part(points, count).len() ==> usable(
                #[trigger] usable_part(points, count)[i],
            ),
    decreases count,
{
    if count > 0 {
        lemma_usable_part(points, count - 1);
        let rest = usable_part(points, count - 1);
        let all = usable_part(points, count);
        assert forall|i: int| 0 <= i < all.len() implies usable(#[trigger] all[i]) by {
            if i < rest.len() {
                assert(all[i] == rest[i]);
            }
        }
    }
}

proof fn lemma_all_usable(points: Seq<TsdfObservation>, count: int)
    requires
        0 <= count <= points.len(),
        forall|i: int| 0 <= i < points.len() ==> usable(#[trigger] points[i]),
    ensures
        usable_part(points, count) == points.take(count),
    decreases count,
{
    if count > 0 {
        lemma_all_usable(points, count - 1);
        assert(usable(points[count - 1]));
        assert(points.take(count) =~= points.take(count - 1).push(points[count - 1]));
    } else {
        assert(points.take(count) =~= Seq::empty());
    }
}

/// Dropping unusable evidence beforehand changes no surface.
pub proof fn law_unusable_evidence_changes_nothing(
    observations: Seq<TsdfObservation>,
    field: Seq<SurfaceCell>,
    minimum_hits: u32,
    half: u32,
    radius: u32,
    surface: Seq<TsdfSurfel>,
)
    ensures
        fused_surface(
            usable_part(observations, observations.len() as int),
            field,
            minimum_hits,
            half,
            radius,
            surface,
        ) <==> fused_surface(observations, field, minimum_hits, half, radius, surface),
{
    let points = usable_part(observations, observations.len() as int);
    lemma_usable_part(observations, observations.len() as int);
    lemma_all_usable(points, points.len() as int);
    assert(points.take(points.len() as int) =~= points);
}

/// No two cells of a list share frame and cell.
pub open spec fn cells_distinct(kept: Seq<SurfaceCell>) -> bool {
    forall|a: int, b: int|
        0 <= a < b < kept.len() ==> (#[trigger] kept[a]).cell != (#[trigger] kept[b]).cell
}

/// The same cells in another order give the same surface.
pub proof fn law_surface_ignores_cell_order(
    a: Seq<SurfaceCell>,
    b: Seq<SurfaceCell>,
    radius: u32,
    first: Seq<TsdfSurfel>,
    second: Seq<TsdfSurfel>,
)
    requires
        cells_distinct(a),
        cells_distinct(b),
        forall|c: SurfaceCell| #[trigger] a.contains(c) <==> b.contains(c),
        is_surface(a, radius, first),
        is_surface(b, radius, second),
        a.len() <= usize::MAX,
        b.len() <= usize::MAX,
    ensures
        first == second,
{
    let pa = choose|places: Seq<usize>| #[trigger]
        order::is_order(surface_keys(a), places) && first == Seq::new(
            places.len(),
            |i: int| cell_surfel(a[places[i] as int], radius),
        );
    let pb = choose|places: Seq<usize>| #[trigger]
        order::is_order(surface_keys(b), places) && second == Seq::new(
            places.len(),
            |i: int| cell_surfel(b[places[i] as int], radius),
        );
    let sa = Seq::new(pa.len(), |i: int| a[pa[i] as int]);
    let sb = Seq::new(pb.len(), |i: int| b[pb[i] as int]);
    lemma_listed(a, pa, sa);
    lemma_listed(b, pb, sb);
    assert forall|c: SurfaceCell| #[trigger] sa.contains(c) <==> sb.contains(c) by {
        assert(a.contains(c) <==> b.contains(c));
    }
    lemma_same_listing(sa, sb);
    assert forall|i: int| 0 <= i < first.len() implies first[i] == second[i] by {
        assert(sa[i] == sb[i]);
    }
    assert(first =~= second);
}

/// Ascending by rank, each rank once.
spec fn ascending(list: Seq<SurfaceCell>) -> bool {
    forall|i: int, j: int|
        0 <= i < j < list.len() ==> surface_rank(#[trigger] list[i]) < surface_rank(
            #[trigger] list[j],
        )
}

proof fn lemma_listed(kept: Seq<SurfaceCell>, places: Seq<usize>, list: Seq<SurfaceCell>)
    requires
        cells_distinct(kept),
        order::is_order(surface_keys(kept), places),
        kept.len() <= usize::MAX,
        list == Seq::new(places.len(), |i: int| kept[places[i] as int]),
    ensures
        ascending(list),
        forall|c: SurfaceCell| #[trigger] list.contains(c) <==> kept.contains(c),
{
    assert forall|i: int, j: int| 0 <= i < j < list.len() implies surface_rank(#[trigger] list[i])
        < surface_rank(#[trigger] list[j]) by {
        let x = places[i] as int;
        let y = places[j] as int;
        assert(order::before(surface_keys(kept), x, y));
        lemma_surface_rank(kept[x], kept[y]);
        lemma_surface_rank(kept[y], kept[x]);
        assert(x != y);
        if x < y {
            assert(kept[x].cell != kept[y].cell);
        } else {
            assert(kept[y].cell != kept[x].cell);
        }
    }
    assert forall|c: SurfaceCell| #[trigger] list.contains(c) <==> kept.contains(c) by {
        if list.contains(c) {
            let i = list.index_of(c);
            assert(kept[places[i] as int] == c);
        }
        if kept.contains(c) {
            let k = kept.index_of(c);
            assert(places.contains(k as usize));
            let i = places.index_of(k as usize);
            assert(list[i] == c);
        }
    }
}

proof fn lemma_same_listing(a: Seq<SurfaceCell>, b: Seq<SurfaceCell>)
    requires
        ascending(a),
        ascending(b),
        forall|c: SurfaceCell| #[trigger] a.contains(c) <==> b.contains(c),
    ensures
        a == b,
    decreases a.len(),
{
    if a.len() == 0 {
        if b.len() > 0 {
            assert(b.contains(b[0]));
            assert(a.contains(b[0]));
        }
        assert(a =~= b);
    } else {
        assert(a.contains(a.last()));
        assert(b.contains(a.last()));
        assert(b.contains(b.last()));
        assert(a.contains(b.last()));
        let i = a.index_of(b.last());
        let j = b.index_of(a.last());
        assert(a[i] == b.last());
        assert(b[j] == a.last());
        assert(a.last() == b.last());
        let c = a.drop_last();
        let d = b.drop_last();
        assert forall|x: SurfaceCell| #[trigger] c.contains(x) <==> d.contains(x) by {
            if c.contains(x) {
                let k = c.index_of(x);
                assert(a[k] == x);
                assert(a.contains(x));
                assert(b.contains(x));
                let m = b.index_of(x);
                assert(b[m] == x);
                assert(m < b.len() - 1);
                assert(d[m] == x);
            }
            if d.contains(x) {
                let k = d.index_of(x);
                assert(b[k] == x);
                assert(b.contains(x));
                assert(a.contains(x));
                let m = a.index_of(x);
                assert(a[m] == x);
                assert(m < a.len() - 1);
                assert(c[m] == x);
            }
        }
        lemma_same_listing(c, d);
        assert(a =~= c.push(a.last()));
        assert(b =~= d.push(b.last()));
    }
}

/// The cells that the first `steps` steps of a run reach, each with the frame of
/// the run.
pub open spec fn run_marks(run: SplatRun, steps: int, truncation: u32) -> Seq<(Cell, i32)>
    decreases steps,
{
    if steps <= 0 {
        Seq::empty()
    } else if reaches(run, steps - 1, truncation) {
        run_marks(run, steps - 1, truncation).push((run.splats@[steps - 1].cell, run.frame_index))
    } else {
        run_marks(run, steps - 1, truncation)
    }
}

/// All that a run reaches.
pub open spec fn marks_of(run: SplatRun, truncation: u32) -> Seq<(Cell, i32)> {
    run_marks(run, run.splats@.len() as int, truncation)
}

/// The cell and the frame of each hit.
spec fn hit_marks(runs: Seq<SplatRun>, hits: Seq<Hit>) -> Seq<(Cell, i32)> {
    Seq::new(
        hits.len(),
        |i: int| (hit_cell(runs, hits[i]), runs[hits[i].run as int].frame_index),
    )
}

/// What a list of runs reaches, without order.
spec fn marks_held(runs: Seq<SplatRun>, truncation: u32) -> Multiset<(Cell, i32)>
    decreases runs.len(),
{
    if runs.len() == 0 {
        Multiset::empty()
    } else {
        marks_held(runs.drop_last(), truncation).add(
            marks_of(runs.last(), truncation).to_multiset(),
        )
    }
}

proof fn lemma_run_marks(runs: Seq<SplatRun>, run: int, steps: int, truncation: u32)
    requires
        0 <= run < runs.len() <= usize::MAX,
        0 <= steps <= runs[run].splats@.len() <= usize::MAX,
    ensures
        hit_marks(runs, run_hits(runs, run, steps, truncation)) == run_marks(
            runs[run],
            steps,
            truncation,
        ),
    decreases steps,
{
    let hits = run_hits(runs, run, steps, truncation);
    if steps > 0 {
        lemma_run_marks(runs, run, steps - 1, truncation);
        let rest = run_hits(runs, run, steps - 1, truncation);
        if reaches(runs[run], steps - 1, truncation) {
            assert(hit_marks(runs, hits) =~= hit_marks(runs, rest).push(
                (runs[run].splats@[steps - 1].cell, runs[run].frame_index),
            ));
        }
    } else {
        assert(hit_marks(runs, hits) =~= Seq::empty());
    }
}

proof fn lemma_hit_marks(runs: Seq<SplatRun>, count: int, truncation: u32)
    requires
        0 <= count <= runs.len() <= usize::MAX,
        forall|r: int| 0 <= r < runs.len() ==> (#[trigger] runs[r]).splats@.len() <= usize::MAX,
    ensures
        hit_marks(runs, all_hits(runs, count, truncation)).to_multiset() == marks_held(
            runs.take(count),
            truncation,
        ),
    decreases count,
{
    let hits = all_hits(runs, count, truncation);
    if count > 0 {
        lemma_hit_marks(runs, count - 1, truncation);
        let run = runs[count - 1];
        assert(run.splats@.len() <= usize::MAX);
        lemma_run_marks(runs, count - 1, run.splats@.len() as int, truncation);
        let rest = all_hits(runs, count - 1, truncation);
        let more = run_hits(runs, count - 1, run.splats@.len() as int, truncation);
        assert(hit_marks(runs, hits) =~= hit_marks(runs, rest) + hit_marks(runs, more));
        vstd::seq_lib::lemma_multiset_commutative(hit_marks(runs, rest), hit_marks(runs, more));
        assert(runs.take(count).drop_last() =~= runs.take(count - 1));
        assert(runs.take(count).last() == run);
    } else {
        assert(hit_marks(runs, hits) =~= Seq::empty());
        assert(runs.take(count) =~= Seq::empty());
        let none = Seq::<(Cell, i32)>::empty();
        assert forall|mark: (Cell, i32)| #[trigger] none.to_multiset().count(mark) == 0 by {
            vstd::seq_lib::to_multiset_contains(none, mark);
        }
        assert(none.to_multiset() =~= Multiset::empty());
    }
}

proof fn lemma_marks_remove(runs: Seq<SplatRun>, place: int, truncation: u32)
    requires
        0 <= place < runs.len(),
    ensures
        marks_held(runs, truncation) =~= marks_held(runs.remove(place), truncation).add(
            marks_of(runs[place], truncation).to_multiset(),
        ),
    decreases runs.len(),
{
    if place == runs.len() - 1 {
        assert(runs.remove(place) =~= runs.drop_last());
    } else {
        lemma_marks_remove(runs.drop_last(), place, truncation);
        assert(runs.remove(place).drop_last() =~= runs.drop_last().remove(place));
        assert(runs.remove(place).last() == runs.last());
    }
}

proof fn lemma_marks_permuted(a: Seq<SplatRun>, b: Seq<SplatRun>, truncation: u32)
    requires
        a.to_multiset() == b.to_multiset(),
    ensures
        marks_held(a, truncation) == marks_held(b, truncation),
    decreases a.len(),
{
    vstd::seq_lib::to_multiset_len(a);
    vstd::seq_lib::to_multiset_len(b);
    if a.len() > 0 {
        assert(a.contains(a.last())) by {
            assert(a[a.len() - 1] == a.last());
        }
        vstd::seq_lib::to_multiset_contains(a, a.last());
        vstd::seq_lib::to_multiset_contains(b, a.last());
        let k = b.index_of(a.last());
        vstd::seq_lib::to_multiset_remove(b, k);
        vstd::seq_lib::to_multiset_remove(a, a.len() - 1);
        assert(a.remove(a.len() - 1) =~= a.drop_last());
        lemma_marks_permuted(a.drop_last(), b.remove(k), truncation);
        lemma_marks_remove(b, k, truncation);
    }
}

/// How many of the first `count` marks are of a cell.
spec fn marked(marks: Seq<(Cell, i32)>, cell: Cell, count: int) -> nat
    decreases count,
{
    if count <= 0 {
        0
    } else {
        marked(marks, cell, count - 1) + if marks[count - 1].0 == cell {
            1nat
        } else {
            0nat
        }
    }
}

proof fn lemma_marked_remove(marks: Seq<(Cell, i32)>, cell: Cell, place: int)
    requires
        0 <= place < marks.len(),
    ensures
        marked(marks, cell, marks.len() as int) == marked(
            marks.remove(place),
            cell,
            marks.len() - 1,
        ) + (if marks[place].0 == cell {
            1nat
        } else {
            0nat
        }),
    decreases marks.len(),
{
    let last = marks.len() - 1;
    let shorter = marks.drop_last();
    lemma_marked_prefix(marks, shorter, cell, last);
    if place == last {
        assert(marks.remove(place) =~= shorter);
    } else {
        lemma_marked_remove(shorter, cell, place);
        lemma_marked_prefix(marks.remove(place), shorter.remove(place), cell, last - 1);
    }
}

proof fn lemma_marked_prefix(a: Seq<(Cell, i32)>, b: Seq<(Cell, i32)>, cell: Cell, count: int)
    requires
        count <= a.len(),
        count <= b.len(),
        forall|i: int| 0 <= i < count ==> a[i] == b[i],
    ensures
        marked(a, cell, count) == marked(b, cell, count),
    decreases count,
{
    if count > 0 {
        lemma_marked_prefix(a, b, cell, count - 1);
    }
}

proof fn lemma_marked_permuted(a: Seq<(Cell, i32)>, b: Seq<(Cell, i32)>, cell: Cell)
    requires
        a.to_multiset() == b.to_multiset(),
    ensures
        marked(a, cell, a.len() as int) == marked(b, cell, b.len() as int),
    decreases a.len(),
{
    vstd::seq_lib::to_multiset_len(a);
    vstd::seq_lib::to_multiset_len(b);
    if a.len() > 0 {
        assert(a.contains(a.last())) by {
            assert(a[a.len() - 1] == a.last());
        }
        vstd::seq_lib::to_multiset_contains(a, a.last());
        vstd::seq_lib::to_multiset_contains(b, a.last());
        let k = b.index_of(a.last());
        vstd::seq_lib::to_multiset_remove(b, k);
        vstd::seq_lib::to_multiset_remove(a, a.len() - 1);
        lemma_marked_permuted(a.remove(a.len() - 1), b.remove(k), cell);
        lemma_marked_remove(a, cell, a.len() - 1);
        lemma_marked_remove(b, cell, k);
    }
}

proof fn lemma_members_marked(
    marks: Seq<(Cell, i32)>,
    reached: Seq<Cell>,
    cell: Cell,
    members: Seq<usize>,
    count: int,
    listed: int,
)
    requires
        reached.len() == marks.len() <= usize::MAX,
        forall|i: int| 0 <= i < marks.len() ==> (#[trigger] marks[i]).0 == reached[i],
        cells::is_members(reached, cell, members),
        0 <= count <= marks.len(),
        0 <= listed <= members.len(),
        forall|a: int| 0 <= a < listed ==> #[trigger] members[a] < count,
        forall|a: int| listed <= a < members.len() ==> #[trigger] members[a] >= count,
    ensures
        marked(marks, cell, count) == listed,
    decreases count,
{
    if count > 0 {
        let i = (count - 1) as usize;
        if reached[count - 1] == cell {
            assert(reached[i as int] == cell);
            assert(members.contains(i));
            let a = members.index_of(i);
            assert(members[a] == i);
            assert(a < listed);
            if a < listed - 1 {
                assert(members[a] < members[listed - 1]);
            }
            lemma_members_marked(marks, reached, cell, members, count - 1, listed - 1);
        } else {
            assert forall|a: int| 0 <= a < listed implies #[trigger] members[a] < count - 1 by {
                assert(members[a] != i);
            }
            lemma_members_marked(marks, reached, cell, members, count - 1, listed);
        }
        assert(marks[count - 1].0 == reached[count - 1]);
    } else {
        if listed > 0 {
            assert(members[0] < 0);
        }
    }
}

/// The least frame is that of some listed hit.
proof fn lemma_least_frame_attained(
    runs: Seq<SplatRun>,
    hits: Seq<Hit>,
    members: Seq<usize>,
    count: int,
) -> (i: int)
    requires
        0 < count <= members.len(),
    ensures
        0 <= i < count,
        least_frame(runs, hits, members, count)
            == runs[hits[members[i] as int].run as int].frame_index,
    decreases count,
{
    let frame = runs[hits[members[count - 1] as int].run as int].frame_index;
    if count == 1 || frame < least_frame(runs, hits, members, count - 1) {
        assert(least_frame(runs, hits, members, 0) == i32::MAX);
        count - 1
    } else {
        lemma_least_frame_attained(runs, hits, members, count - 1)
    }
}

/// What a field says of a cell: it is reached by some hit, has as many hits as
/// there are, and names the least frame among them.
proof fn lemma_field_cell(
    runs: Seq<SplatRun>,
    hits: Seq<Hit>,
    field: Seq<CellEvidence>,
    place: int,
)
    requires
        is_field(runs, hits, field),
        0 <= place < field.len(),
        hits.len() <= usize::MAX,
    ensures
        ({
            let marks = hit_marks(runs, hits);
            let evidence = field[place];
            &&& evidence.hits@.len() == marked(marks, evidence.cell, marks.len() as int)
            &&& marks.contains((evidence.cell, evidence.first_frame))
            &&& forall|frame: i32| #[trigger]
                marks.contains((evidence.cell, frame)) ==> evidence.first_frame <= frame
        }),
{
    let marks = hit_marks(runs, hits);
    let reached = hit_cells(runs, hits);
    let groups = choose|groups: Seq<CellGroup>| #[trigger]
        cells::is_grouping(reached, groups) && field.len() == groups.len() && (forall|i: int|
            0 <= i < field.len() ==> evidence_matches(
                runs,
                hits,
                groups[i],
                #[trigger] field[i],
            ));
    let evidence = field[place];
    assert(evidence_matches(runs, hits, groups[place], evidence));
    let members = groups[place].members@;
    assert(cells::is_members(reached, groups[place].cell, members));
    lemma_members_marked(
        marks,
        reached,
        evidence.cell,
        members,
        marks.len() as int,
        members.len() as int,
    );
    let i = lemma_least_frame_attained(runs, hits, members, members.len() as int);
    assert(members[i] < reached.len());
    assert(marks[members[i] as int] == (evidence.cell, evidence.first_frame));
    assert forall|frame: i32| #[trigger] marks.contains((evidence.cell, frame)) implies
        evidence.first_frame <= frame by {
        let h = marks.index_of((evidence.cell, frame));
        assert(marks[h] == (evidence.cell, frame));
        let k = h as usize;
        assert(reached[k as int] == evidence.cell);
        assert(members.contains(k));
        let m = members.index_of(k);
        lemma_least_frame(runs, hits, members, members.len() as int, m);
    }
}

/// Some entry of a field is that of a cell.
pub open spec fn field_has(field: Seq<CellEvidence>, cell: Cell) -> bool {
    exists|i: int| 0 <= i < field.len() && (#[trigger] field[i]).cell == cell
}

/// The fields of two fusions say the same of every cell.
pub open spec fn fields_agree(a: Seq<CellEvidence>, b: Seq<CellEvidence>) -> bool {
    &&& forall|i: int, j: int|
        0 <= i < a.len() && 0 <= j < b.len() && (#[trigger] a[i]).cell == (#[trigger] b[j]).cell
            ==> a[i].hits@.len() == b[j].hits@.len() && a[i].first_frame == b[j].first_frame
    &&& forall|i: int| 0 <= i < a.len() ==> field_has(b, (#[trigger] a[i]).cell)
    &&& forall|j: int| 0 <= j < b.len() ==> field_has(a, (#[trigger] b[j]).cell)
}

/// The same runs in another order reach the same cells, as often and first from
/// the same frames.
pub proof fn law_field_ignores_run_order(
    a: Seq<SplatRun>,
    b: Seq<SplatRun>,
    scale: SurfaceScale,
    first: Seq<CellEvidence>,
    second: Seq<CellEvidence>,
)
    requires
        a.to_multiset() == b.to_multiset(),
        runs_fit(a, scale),
        runs_fit(b, scale),
        is_field(a, hits_of(a, scale), first),
        is_field(b, hits_of(b, scale), second),
    ensures
        fields_agree(first, second),
{
    let left = hit_marks(a, hits_of(a, scale));
    let right = hit_marks(b, hits_of(b, scale));
    lemma_hit_marks(a, a.len() as int, scale.truncation);
    lemma_hit_marks(b, b.len() as int, scale.truncation);
    assert(a.take(a.len() as int) =~= a);
    assert(b.take(b.len() as int) =~= b);
    lemma_marks_permuted(a, b, scale.truncation);
    assert(left.to_multiset() == right.to_multiset());
    assert forall|mark: (Cell, i32)| #[trigger] left.contains(mark) <==> right.contains(mark) by {
        vstd::seq_lib::to_multiset_contains(left, mark);
        vstd::seq_lib::to_multiset_contains(right, mark);
    }
    assert forall|i: int, j: int|
        0 <= i < first.len() && 0 <= j < second.len() && (#[trigger] first[i]).cell == (
        #[trigger] second[j]).cell implies first[i].hits@.len() == second[j].hits@.len()
        && first[i].first_frame == second[j].first_frame by {
        lemma_field_cell(a, hits_of(a, scale), first, i);
        lemma_field_cell(b, hits_of(b, scale), second, j);
        lemma_marked_permuted(left, right, first[i].cell);
        assert(right.contains((first[i].cell, first[i].first_frame)));
        assert(left.contains((second[j].cell, second[j].first_frame)));
    }
    assert forall|i: int| 0 <= i < first.len() implies field_has(
        second,
        (#[trigger] first[i]).cell,
    ) by {
        lemma_field_cell(a, hits_of(a, scale), first, i);
        assert(right.contains((first[i].cell, first[i].first_frame)));
        lemma_field_covers(b, hits_of(b, scale), second, first[i].cell, first[i].first_frame);
    }
    assert forall|j: int| 0 <= j < second.len() implies field_has(
        first,
        (#[trigger] second[j]).cell,
    ) by {
        lemma_field_cell(b, hits_of(b, scale), second, j);
        assert(left.contains((second[j].cell, second[j].first_frame)));
        lemma_field_covers(a, hits_of(a, scale), first, second[j].cell, second[j].first_frame);
    }
}

/// The lists of a fusion fit into memory.
pub open spec fn runs_fit(runs: Seq<SplatRun>, scale: SurfaceScale) -> bool {
    &&& runs.len() <= usize::MAX
    &&& hits_of(runs, scale).len() <= usize::MAX
    &&& forall|r: int| 0 <= r < runs.len() ==> (#[trigger] runs[r]).splats@.len() <= usize::MAX
}

proof fn lemma_field_covers(
    runs: Seq<SplatRun>,
    hits: Seq<Hit>,
    field: Seq<CellEvidence>,
    cell: Cell,
    frame: i32,
)
    requires
        is_field(runs, hits, field),
        hit_marks(runs, hits).contains((cell, frame)),
    ensures
        field_has(field, cell),
{
    let marks = hit_marks(runs, hits);
    let reached = hit_cells(runs, hits);
    let groups = choose|groups: Seq<CellGroup>| #[trigger]
        cells::is_grouping(reached, groups) && field.len() == groups.len() && (forall|i: int|
            0 <= i < field.len() ==> evidence_matches(
                runs,
                hits,
                groups[i],
                #[trigger] field[i],
            ));
    let h = marks.index_of((cell, frame));
    assert(marks[h] == (cell, frame));
    assert(reached[h] == cell);
    let g = choose|g: int| 0 <= g < groups.len() && (#[trigger] groups[g]).cell == reached[h];
    assert(evidence_matches(runs, hits, groups[g], field[g]));
    assert(field[g].cell == cell);
}

proof fn lemma_usable_held(points: Seq<TsdfObservation>, count: int)
    requires
        0 <= count <= points.len(),
    ensures
        usable_part(points, count).to_multiset() =~= points.take(count).to_multiset().filter(
            |point: TsdfObservation| usable(point),
        ),
    decreases count,
{
    if count > 0 {
        lemma_usable_held(points, count - 1);
        let point = points[count - 1];
        assert(points.take(count) =~= points.take(count - 1).push(point));
        vstd::seq_lib::to_multiset_build(points.take(count - 1), point);
        vstd::seq_lib::to_multiset_build(usable_part(points, count - 1), point);
    } else {
        assert(points.take(count) =~= Seq::empty());
        let none = Seq::<TsdfObservation>::empty();
        assert forall|point: TsdfObservation| #[trigger] none.to_multiset().count(point)
            == 0 by {
            vstd::seq_lib::to_multiset_contains(none, point);
        }
    }
}

proof fn lemma_surface_part(field: Seq<SurfaceCell>, minimum_hits: u32, half: u32, count: int)
    requires
        0 <= count <= field.len(),
        cells_distinct(field),
    ensures
        ({
            let kept = surface_part(field, minimum_hits, half, count);
            &&& kept.len() <= count
            &&& cells_distinct(kept)
            &&& forall|c: SurfaceCell| #[trigger]
                kept.contains(c) <==> field.take(count).contains(c) && carries_surface(
                    c,
                    minimum_hits,
                    half,
                )
        }),
    decreases count,
{
    let kept = surface_part(field, minimum_hits, half, count);
    if count > 0 {
        lemma_surface_part(field, minimum_hits, half, count - 1);
        let rest = surface_part(field, minimum_hits, half, count - 1);
        let last = field[count - 1];
        assert forall|c: SurfaceCell| #[trigger] kept.contains(c) <==> field.take(count).contains(c)
            && carries_surface(c, minimum_hits, half) by {
            if field.take(count - 1).contains(c) {
                let i = field.take(count - 1).index_of(c);
                assert(field.take(count)[i] == c);
            }
            if field.take(count).contains(c) {
                let i = field.take(count).index_of(c);
                assert(field.take(count)[i] == c);
                if i < count - 1 {
                    assert(field.take(count - 1)[i] == c);
                }
            }
            assert(field.take(count)[count - 1] == last);
            if rest.contains(c) {
                let i = rest.index_of(c);
                assert(kept[i] == c);
            }
            if kept.contains(c) {
                let i = kept.index_of(c);
                if i < rest.len() {
                    assert(rest[i] == c);
                }
            }
            if c == last && carries_surface(c, minimum_hits, half) {
                assert(kept[kept.len() - 1] == c);
            }
        }
        assert forall|a: int, b: int| 0 <= a < b < kept.len() implies (#[trigger] kept[a]).cell != (
        #[trigger] kept[b]).cell by {
            assert(kept[a] == rest[a]);
            if b < rest.len() {
                assert(kept[b] == rest[b]);
            } else {
                assert(rest.contains(rest[a]));
                let i = field.take(count - 1).index_of(rest[a]);
                assert(field[i] == rest[a]);
                assert(field[i].cell != field[count - 1].cell);
            }
        }
    } else {
        assert(field.take(count) =~= Seq::empty());
    }
}

proof fn lemma_averages_agree(
    a: Seq<CellEvidence>,
    b: Seq<CellEvidence>,
    means: Seq<CellMeans>,
    others: Seq<CellMeans>,
    c: SurfaceCell,
)
    requires
        fields_agree(a, b),
        forall|i: int, j: int|
            0 <= i < a.len() && 0 <= j < b.len() && (#[trigger] a[i]).cell == (
            #[trigger] b[j]).cell ==> means[i] == others[j],
        averaged_field(a, means).contains(c),
    ensures
        averaged_field(b, others).contains(c),
{
    let left = averaged_field(a, means);
    let right = averaged_field(b, others);
    let i = left.index_of(c);
    assert(field_has(b, a[i].cell));
    let j = choose|j: int| 0 <= j < b.len() && (#[trigger] b[j]).cell == a[i].cell;
    assert(a[i].hits@.len() == b[j].hits@.len());
    assert(right[j] == left[i]);
}

proof fn lemma_kept_agree(
    left: Seq<SurfaceCell>,
    right: Seq<SurfaceCell>,
    minimum_hits: u32,
    half: u32,
)
    requires
        cells_distinct(left),
        cells_distinct(right),
        forall|c: SurfaceCell| #[trigger] left.contains(c) <==> right.contains(c),
    ensures
        ({
            let kept = surface_part(left, minimum_hits, half, left.len() as int);
            let held = surface_part(right, minimum_hits, half, right.len() as int);
            &&& kept.len() <= left.len()
            &&& held.len() <= right.len()
            &&& kept.len() == 0 <==> held.len() == 0
            &&& cells_distinct(kept)
            &&& cells_distinct(held)
            &&& forall|c: SurfaceCell| #[trigger] kept.contains(c) <==> held.contains(c)
        }),
{
    let kept = surface_part(left, minimum_hits, half, left.len() as int);
    let held = surface_part(right, minimum_hits, half, right.len() as int);
    lemma_surface_part(left, minimum_hits, half, left.len() as int);
    lemma_surface_part(right, minimum_hits, half, right.len() as int);
    assert(left.take(left.len() as int) =~= left);
    assert(right.take(right.len() as int) =~= right);
    assert forall|c: SurfaceCell| #[trigger] kept.contains(c) <==> held.contains(c) by {
        assert(left.contains(c) <==> right.contains(c));
    }
    if kept.len() > 0 {
        assert(kept.contains(kept[0]));
        assert(held.contains(kept[0]));
    }
    if held.len() > 0 {
        assert(held.contains(held[0]));
        assert(kept.contains(held[0]));
    }
}

/// The same observations and the same cells, both in any order, give the same
/// surface.
pub proof fn law_surface_ignores_order(
    a: Seq<TsdfObservation>,
    b: Seq<TsdfObservation>,
    left: Seq<SurfaceCell>,
    right: Seq<SurfaceCell>,
    minimum_hits: u32,
    half: u32,
    radius: u32,
    first: Seq<TsdfSurfel>,
    second: Seq<TsdfSurfel>,
)
    requires
        a.to_multiset() == b.to_multiset(),
        cells_distinct(left),
        cells_distinct(right),
        left.len() <= usize::MAX,
        right.len() <= usize::MAX,
        forall|c: SurfaceCell| #[trigger] left.contains(c) <==> right.contains(c),
        fused_surface(a, left, minimum_hits, half, radius, first),
        fused_surface(b, right, minimum_hits, half, radius, second),
    ensures
        first == second,
{
    lemma_usable_held(a, a.len() as int);
    lemma_usable_held(b, b.len() as int);
    assert(a.take(a.len() as int) =~= a);
    assert(b.take(b.len() as int) =~= b);
    let points = usable_part(a, a.len() as int);
    let others = usable_part(b, b.len() as int);
    vstd::seq_lib::to_multiset_len(points);
    vstd::seq_lib::to_multiset_len(others);
    let kept = surface_part(left, minimum_hits, half, left.len() as int);
    let held = surface_part(right, minimum_hits, half, right.len() as int);
    lemma_kept_agree(left, right, minimum_hits, half);
    if points.len() < MINIMUM_OBSERVATIONS || kept.len() == 0 {
        let one = choose|ordered: Seq<TsdfObservation>| #[trigger]
            is_hand_out(points, ordered) && first == plain_surface(ordered);
        let two = choose|ordered: Seq<TsdfObservation>| #[trigger]
            is_hand_out(others, ordered) && second == plain_surface(ordered);
        lemma_hand_out_unique(points, others, one, two);
    } else {
        law_surface_ignores_cell_order(kept, held, radius, first, second);
    }
}

/// Observations in another order give the same surface, as long as the same cells
/// have the same means: by the runs of the observations, every cell has the same
/// hits and the same first frame.
pub proof fn law_surface_ignores_input_order(
    observations: (Seq<TsdfObservation>, Seq<TsdfObservation>),
    runs: (Seq<SplatRun>, Seq<SplatRun>),
    fields: (Seq<CellEvidence>, Seq<CellEvidence>),
    means: (Seq<CellMeans>, Seq<CellMeans>),
    minimum_hits: u32,
    scale: SurfaceScale,
    first: Seq<TsdfSurfel>,
    second: Seq<TsdfSurfel>,
)
    requires
        observations.0.to_multiset() == observations.1.to_multiset(),
        runs.0.to_multiset() == runs.1.to_multiset(),
        runs_fit(runs.0, scale),
        runs_fit(runs.1, scale),
        is_field(runs.0, hits_of(runs.0, scale), fields.0),
        is_field(runs.1, hits_of(runs.1, scale), fields.1),
        fields.0.len() <= usize::MAX,
        fields.1.len() <= usize::MAX,
        forall|i: int, j: int|
            0 <= i < fields.0.len() && 0 <= j < fields.1.len() && (#[trigger] fields.0[i]).cell == (
            #[trigger] fields.1[j]).cell ==> means.0[i] == means.1[j],
        fused_surface(
            observations.0,
            averaged_field(fields.0, means.0),
            minimum_hits,
            scale.half,
            scale.radius,
            first,
        ),
        fused_surface(
            observations.1,
            averaged_field(fields.1, means.1),
            minimum_hits,
            scale.half,
            scale.radius,
            second,
        ),
    ensures
        first == second,
{
    let left = averaged_field(fields.0, means.0);
    let right = averaged_field(fields.1, means.1);
    law_field_ignores_run_order(runs.0, runs.1, scale, fields.0, fields.1);
    lemma_field_distinct(runs.0, hits_of(runs.0, scale), fields.0, means.0);
    lemma_field_distinct(runs.1, hits_of(runs.1, scale), fields.1, means.1);
    assert forall|c: SurfaceCell| #[trigger] left.contains(c) <==> right.contains(c) by {
        if left.contains(c) {
            lemma_averages_agree(fields.0, fields.1, means.0, means.1, c);
        }
        if right.contains(c) {
            lemma_averages_agree(fields.1, fields.0, means.1, means.0, c);
        }
    }
    law_surface_ignores_order(
        observations.0,
        observations.1,
        left,
        right,
        minimum_hits,
        scale.half,
        scale.radius,
        first,
        second,
    );
}

proof fn lemma_field_distinct(
    runs: Seq<SplatRun>,
    hits: Seq<Hit>,
    field: Seq<CellEvidence>,
    means: Seq<CellMeans>,
)
    requires
        is_field(runs, hits, field),
    ensures
        cells_distinct(averaged_field(field, means)),
{
    let groups = choose|groups: Seq<CellGroup>| #[trigger]
        cells::is_grouping(hit_cells(runs, hits), groups) && field.len() == groups.len() && (
        forall|i: int|
            0 <= i < field.len() ==> evidence_matches(
                runs,
                hits,
                groups[i],
                #[trigger] field[i],
            ));
    let all = averaged_field(field, means);
    assert forall|a: int, b: int| 0 <= a < b < all.len() implies (#[trigger] all[a]).cell != (
    #[trigger] all[b]).cell by {
        assert(evidence_matches(runs, hits, groups[a], field[a]));
        assert(evidence_matches(runs, hits, groups[b], field[b]));
        assert(cells::cell_before(groups[a].cell, groups[b].cell));
    }
}

/// The hits of a list of runs are gathered in one way only, so that what holds of
/// one field holds of all: where one has no cell with more hits than can be
/// counted, none has.
pub proof fn law_field_is_unique(
    runs: Seq<SplatRun>,
    hits: Seq<Hit>,
    a: Seq<CellEvidence>,
    b: Seq<CellEvidence>,
)
    requires
        is_field(runs, hits, a),
        is_field(runs, hits, b),
    ensures
        a.len() == b.len(),
        forall|i: int|
            0 <= i < a.len() ==> (#[trigger] a[i]).cell == b[i].cell && a[i].hits@ == b[i].hits@
                && a[i].first_frame == b[i].first_frame,
{
    let reached = hit_cells(runs, hits);
    let left = choose|groups: Seq<CellGroup>| #[trigger]
        cells::is_grouping(reached, groups) && a.len() == groups.len() && (forall|i: int|
            0 <= i < a.len() ==> evidence_matches(runs, hits, groups[i], #[trigger] a[i]));
    let right = choose|groups: Seq<CellGroup>| #[trigger]
        cells::is_grouping(reached, groups) && b.len() == groups.len() && (forall|i: int|
            0 <= i < b.len() ==> evidence_matches(runs, hits, groups[i], #[trigger] b[i]));
    cells::law_grouping_is_unique(reached, left, right);
    assert forall|i: int| 0 <= i < a.len() implies (#[trigger] a[i]).cell == b[i].cell
        && a[i].hits@ == b[i].hits@ && a[i].first_frame == b[i].first_frame by {
        assert(evidence_matches(runs, hits, left[i], a[i]));
        assert(evidence_matches(runs, hits, right[i], b[i]));
        assert(left[i].cell == right[i].cell);
    }
}

/// The places in the field of the cells that carry the surface, among the first
/// `count`.
spec fn carrier_places(field: Seq<SurfaceCell>, minimum_hits: u32, half: u32, count: int) -> Seq<
    int,
>
    decreases count,
{
    if count <= 0 {
        Seq::empty()
    } else if carries_surface(field[count - 1], minimum_hits, half) {
        carrier_places(field, minimum_hits, half, count - 1).push(count - 1)
    } else {
        carrier_places(field, minimum_hits, half, count - 1)
    }
}

proof fn lemma_carrier_places(field: Seq<SurfaceCell>, minimum_hits: u32, half: u32, count: int)
    requires
        0 <= count <= field.len(),
    ensures
        ({
            let places = carrier_places(field, minimum_hits, half, count);
            let kept = surface_part(field, minimum_hits, half, count);
            &&& places.len() == kept.len() <= count
            &&& forall|i: int|
                0 <= i < places.len() ==> 0 <= #[trigger] places[i] < count && kept[i]
                    == field[places[i]] && carries_surface(kept[i], minimum_hits, half)
            &&& forall|i: int, j: int| 0 <= i < j < places.len() ==> places[i] < places[j]
            &&& forall|k: int|
                0 <= k < count && carries_surface(#[trigger] field[k], minimum_hits, half)
                    ==> places.contains(k)
        }),
    decreases count,
{
    if count > 0 {
        lemma_carrier_places(field, minimum_hits, half, count - 1);
        let rest = carrier_places(field, minimum_hits, half, count - 1);
        let places = carrier_places(field, minimum_hits, half, count);
        assert forall|k: int|
            0 <= k < count && carries_surface(
                #[trigger] field[k],
                minimum_hits,
                half,
            ) implies places.contains(k) by {
            if k < count - 1 {
                let i = rest.index_of(k);
                assert(places[i] == k);
            } else {
                assert(places[places.len() - 1] == k);
            }
        }
    }
}

/// A fused surface is the zero layer of its field. Where it is not the observations
/// handed through, there is exactly one surface element for each cell that was hit
/// often enough, has weight, has a normal, and whose mean distance to the surface is
/// numerically no more than half a voxel; it stands where the means of its cell say,
/// with the first frame and the hits of the cell. `places` names the cell of each
/// element.
pub proof fn law_surface_is_the_zero_layer(
    observations: Seq<TsdfObservation>,
    field: Seq<SurfaceCell>,
    minimum_hits: u32,
    half: u32,
    radius: u32,
    surface: Seq<TsdfSurfel>,
)
    requires
        fused_surface(observations, field, minimum_hits, half, radius, surface),
        field.len() <= usize::MAX,
    ensures
        ({
            let hit = |cell: SurfaceCell| cell.hits >= 1 && cell.hits >= minimum_hits;
            let weighs = |cell: SurfaceCell|
                ieee::f64_nan(cell.weight) || ieee::f64_rank(cell.weight) > 0;
            let near = |cell: SurfaceCell|
                ieee::f32_nan(cell.distance) || ieee::f32_nan(half) || ieee::f32_magnitude(
                    cell.distance,
                ) <= ieee::f32_rank(half);
            let layer = |cell: SurfaceCell|
                hit(cell) && weighs(cell) && near(cell) && cell.normal is Some;
            if usable_part(observations, observations.len() as int).len() < 8 || !(exists|k: int|
                0 <= k < field.len() && layer(#[trigger] field[k])) {
                handed_through(usable_part(observations, observations.len() as int), surface)
            } else {
                exists|places: Seq<int>|
                    {
                        &&& #[trigger] places.len() == surface.len()
                        &&& places.no_duplicates()
                        &&& forall|i: int|
                            0 <= i < surface.len() ==> {
                                let cell = field[places[i]];
                                &&& 0 <= places[i] < field.len()
                                &&& layer(cell)
                                &&& (#[trigger] surface[i]).position == cell.position
                                &&& Some(surface[i].normal) == cell.normal
                                &&& surface[i].color_srgb == cell.color_srgb
                                &&& surface[i].radius == radius
                                &&& surface[i].first_observing_frame == cell.first_frame
                                &&& surface[i].contributors == cell.hits
                            }
                        &&& forall|k: int|
                            0 <= k < field.len() && layer(#[trigger] field[k]) ==> places.contains(
                                k,
                            )
                    }
            }
        }),
{
    let points = usable_part(observations, observations.len() as int);
    let kept = surface_part(field, minimum_hits, half, field.len() as int);
    let carriers = carrier_places(field, minimum_hits, half, field.len() as int);
    lemma_carrier_places(field, minimum_hits, half, field.len() as int);
    assert forall|k: int| 0 <= k < field.len() implies (carries_surface(
        #[trigger] field[k],
        minimum_hits,
        half,
    ) <==> {
        let cell = field[k];
        &&& cell.hits >= 1 && cell.hits >= minimum_hits
        &&& ieee::f64_nan(cell.weight) || ieee::f64_rank(cell.weight) > 0
        &&& ieee::f32_nan(cell.distance) || ieee::f32_nan(half) || ieee::f32_magnitude(
            cell.distance,
        ) <= ieee::f32_rank(half)
        &&& cell.normal is Some
    }) by {}
    if kept.len() > 0 {
        assert(carriers[0] >= 0);
        assert(carries_surface(field[carriers[0]], minimum_hits, half));
    }
    if points.len() >= MINIMUM_OBSERVATIONS && kept.len() > 0 {
        let order = choose|order: Seq<usize>| #[trigger]
            order::is_order(surface_keys(kept), order) && surface == Seq::new(
                order.len(),
                |i: int| cell_surfel(kept[order[i] as int], radius),
            );
        let places = Seq::new(surface.len(), |i: int| carriers[order[i] as int]);
        assert forall|i: int, j: int| 0 <= i < j < places.len() implies places[i] != places[j] by {
            assert(order::before(surface_keys(kept), order[i] as int, order[j] as int));
            assert(order[i] != order[j]);
        }
        assert(places.no_duplicates());
        assert forall|k: int|
            0 <= k < field.len() && carries_surface(
                #[trigger] field[k],
                minimum_hits,
                half,
            ) implies places.contains(k) by {
            let c = carriers.index_of(k);
            assert(order.contains(c as usize));
            let i = order.index_of(c as usize);
            assert(places[i] == k);
        }
        assert forall|i: int| 0 <= i < surface.len() implies {
            let cell = field[places[i]];
            &&& 0 <= places[i] < field.len()
            &&& carries_surface(cell, minimum_hits, half)
            &&& (#[trigger] surface[i]).position == cell.position
            &&& Some(surface[i].normal) == cell.normal
            &&& surface[i].color_srgb == cell.color_srgb
            &&& surface[i].radius == radius
            &&& surface[i].first_observing_frame == cell.first_frame
            &&& surface[i].contributors == cell.hits
        } by {
            let c = order[i] as int;
            assert(0 <= c < kept.len());
            assert(kept[c] == field[carriers[c]]);
        }
        assert(places.len() == surface.len());
    }
}

/// Only usable evidence enters a fusion, and all of it does, in its given order: the
/// points with three finite coordinates and with confidence and radius that are
/// finite and above zero.
pub proof fn law_usable_evidence_is_kept(points: Seq<TsdfObservation>, count: int)
    requires
        0 <= count <= points.len(),
    ensures
        usable_part(points, count) == points.take(count).filter(
            |point: TsdfObservation|
                ieee::f32_magnitude(point.position@[0]) < 0x7f80_0000 && ieee::f32_magnitude(
                    point.position@[1],
                ) < 0x7f80_0000 && ieee::f32_magnitude(point.position@[2]) < 0x7f80_0000 && 0
                    < ieee::f32_rank(point.confidence) < 0x7f80_0000 && 0 < ieee::f32_rank(
                    point.radius,
                ) < 0x7f80_0000,
        ),
    decreases count,
{
    reveal(Seq::filter);
    if count > 0 {
        law_usable_evidence_is_kept(points, count - 1);
        let point = points[count - 1];
        assert(points.take(count).drop_last() =~= points.take(count - 1));
        if usable(point) {
            assert(ieee::f32_finite(point.position@[0]));
            assert(ieee::f32_finite(point.position@[1]));
            assert(ieee::f32_finite(point.position@[2]));
        }
    }
}

/// Observations that are handed through stay what they are: each comes out once, at
/// its own place, with its colour, radius and frame, as one contribution that faces
/// along the third axis. `ordered` holds the observations as they come out.
pub proof fn law_handed_through_points_stay(
    points: Seq<TsdfObservation>,
    surface: Seq<TsdfSurfel>,
)
    requires
        handed_through(points, surface),
    ensures
        exists|ordered: Seq<TsdfObservation>|
            {
                &&& #[trigger] ordered.to_multiset() == points.to_multiset()
                &&& surface.len() == ordered.len()
                &&& forall|i: int|
                    0 <= i < surface.len() ==> {
                        &&& (#[trigger] surface[i]).position == ordered[i].position
                        &&& surface[i].color_srgb == ordered[i].color_srgb
                        &&& surface[i].radius == ordered[i].radius
                        &&& surface[i].first_observing_frame == ordered[i].frame_index
                        &&& surface[i].contributors == 1
                        &&& surface[i].normal@ == seq![0u32, 0u32, 0x3f80_0000u32]
                    }
            },
{
    let ordered = choose|ordered: Seq<TsdfObservation>| #[trigger]
        is_hand_out(points, ordered) && surface == plain_surface(ordered);
    assert(ordered.to_multiset() == points.to_multiset());
    assert forall|i: int| 0 <= i < surface.len() implies (#[trigger] surface[i]).normal@ == seq![
        0u32,
        0u32,
        0x3f80_0000u32,
    ] by {
        assert(surface[i].normal@ =~= seq![0u32, 0u32, 0x3f80_0000u32]);
    }
}

/// A step of a run hits its cell exactly where the run has a normal, the cell is not
/// the one of the step before, and the distance is numerically within the
/// truncation; every such step of every run is one hit.
pub proof fn law_hits_are_the_steps_within_reach(
    runs: Seq<SplatRun>,
    truncation: u32,
    run: usize,
    step: usize,
)
    requires
        run < runs.len() <= usize::MAX,
        step < runs[run as int].splats@.len(),
        forall|r: int| 0 <= r < runs.len() ==> (#[trigger] runs[r]).splats@.len() <= usize::MAX,
    ensures
        all_hits(runs, runs.len() as int, truncation).no_duplicates(),
        all_hits(runs, runs.len() as int, truncation).contains(Hit { run, step }) <==> ({
            let splat = runs[run as int].splats@[step as int];
            &&& exists|axis: int|
                0 <= axis < 3 && ieee::f32_magnitude(
                    #[trigger] runs[run as int].normal@[axis],
                ) != 0
            &&& step > 0 ==> runs[run as int].splats@[step - 1].cell != splat.cell
            &&& ieee::f32_nan(splat.distance) || ieee::f32_nan(truncation) || ieee::f32_magnitude(
                splat.distance,
            ) <= ieee::f32_rank(truncation)
        }),
{
    lemma_all_hits(runs, runs.len() as int, truncation);
    let normal = runs[run as int].normal@;
    if has_normal(runs[run as int]) {
        if !is_zero(normal[0]) {
            assert(ieee::f32_magnitude(normal[0]) != 0);
        } else if !is_zero(normal[1]) {
            assert(ieee::f32_magnitude(normal[1]) != 0);
        } else {
            assert(ieee::f32_magnitude(normal[2]) != 0);
        }
    }
    if exists|axis: int| 0 <= axis < 3 && ieee::f32_magnitude(#[trigger] normal[axis]) != 0 {
        let axis = choose|axis: int| 0 <= axis < 3 && ieee::f32_magnitude(#[trigger] normal[axis]) != 0;
        assert(axis == 0 || axis == 1 || axis == 2);
    }
}

proof fn lemma_run_hits(runs: Seq<SplatRun>, run: int, steps: int, truncation: u32)
    requires
        0 <= run < runs.len() <= usize::MAX,
        0 <= steps <= runs[run].splats@.len() <= usize::MAX,
    ensures
        ({
            let hits = run_hits(runs, run, steps, truncation);
            &&& hits.no_duplicates()
            &&& forall|h: Hit| #[trigger]
                hits.contains(h) <==> h.run == run && h.step < steps && reaches(
                    runs[run],
                    h.step as int,
                    truncation,
                )
        }),
    decreases steps,
{
    if steps > 0 {
        lemma_run_hits(runs, run, steps - 1, truncation);
        let rest = run_hits(runs, run, steps - 1, truncation);
        let hits = run_hits(runs, run, steps, truncation);
        let last = Hit { run: run as usize, step: (steps - 1) as usize };
        if reaches(runs[run], steps - 1, truncation) {
            assert(!rest.contains(last));
            assert(hits == rest.push(last));
            assert forall|h: Hit| #[trigger] hits.contains(h) <==> h.run == run && h.step < steps
                && reaches(runs[run], h.step as int, truncation) by {
                if rest.contains(h) {
                    let i = rest.index_of(h);
                    assert(hits[i] == h);
                }
                if hits.contains(h) {
                    let i = hits.index_of(h);
                    if i < rest.len() {
                        assert(rest[i] == h);
                    }
                }
                if h == last {
                    assert(hits[hits.len() - 1] == h);
                }
            }
            assert forall|i: int, j: int| 0 <= i < j < hits.len() implies hits[i] != hits[j] by {
                assert(rest.contains(rest[i]));
                if j < rest.len() {
                    assert(rest[i] != rest[j]);
                }
            }
        }
    }
}

proof fn lemma_all_hits(runs: Seq<SplatRun>, count: int, truncation: u32)
    requires
        0 <= count <= runs.len() <= usize::MAX,
        forall|r: int| 0 <= r < runs.len() ==> (#[trigger] runs[r]).splats@.len() <= usize::MAX,
    ensures
        ({
            let hits = all_hits(runs, count, truncation);
            &&& hits.no_duplicates()
            &&& forall|h: Hit| #[trigger]
                hits.contains(h) <==> h.run < count && h.step < runs[h.run as int].splats@.len()
                    && reaches(runs[h.run as int], h.step as int, truncation)
        }),
    decreases count,
{
    if count > 0 {
        lemma_all_hits(runs, count - 1, truncation);
        assert(runs[count - 1].splats@.len() <= usize::MAX);
        lemma_run_hits(runs, count - 1, runs[count - 1].splats@.len() as int, truncation);
        let rest = all_hits(runs, count - 1, truncation);
        let more = run_hits(
            runs,
            count - 1,
            runs[count - 1].splats@.len() as int,
            truncation,
        );
        let hits = rest + more;
        assert forall|h: Hit| #[trigger] hits.contains(h) <==> rest.contains(h) || more.contains(
            h,
        ) by {
            if rest.contains(h) {
                let i = rest.index_of(h);
                assert(hits[i] == h);
            }
            if more.contains(h) {
                let i = more.index_of(h);
                assert(hits[rest.len() + i] == h);
            }
            if hits.contains(h) {
                let i = hits.index_of(h);
                if i < rest.len() {
                    assert(rest[i] == h);
                } else {
                    assert(more[i - rest.len()] == h);
                }
            }
        }
        assert forall|i: int, j: int| 0 <= i < j < hits.len() implies hits[i] != hits[j] by {
            if j < rest.len() {
                assert(rest[i] != rest[j]);
            } else if i >= rest.len() {
                assert(more[i - rest.len()] != more[j - rest.len()]);
            } else {
                assert(rest.contains(rest[i]));
                assert(more.contains(more[j - rest.len()]));
            }
        }
    }
}

/// A field counts every hit once, in the cell that it reached: a cell is listed
/// exactly where some hit reached it, and then with all hits that did.
pub proof fn law_cells_gather_their_hits(
    runs: Seq<SplatRun>,
    hits: Seq<Hit>,
    field: Seq<CellEvidence>,
    h: usize,
)
    requires
        is_field(runs, hits, field),
        h < hits.len() <= usize::MAX,
    ensures
        ({
            let reached = runs[hits[h as int].run as int].splats@[hits[h as int].step as int].cell;
            &&& exists|i: int|
                0 <= i < field.len() && (#[trigger] field[i]).cell == reached
                    && field[i].hits@.contains(h)
            &&& forall|i: int|
                0 <= i < field.len() && (#[trigger] field[i]).hits@.contains(h) ==> field[i].cell
                    == reached
        }),
        forall|i: int, j: int|
            0 <= i < j < field.len() ==> (#[trigger] field[i]).cell != (#[trigger] field[j]).cell,
        forall|i: int|
            0 <= i < field.len() ==> (#[trigger] field[i]).hits@.len() > 0
                && field[i].hits@.no_duplicates(),
{
    let reached = hit_cells(runs, hits);
    let groups = choose|groups: Seq<CellGroup>| #[trigger]
        cells::is_grouping(reached, groups) && field.len() == groups.len() && (forall|i: int|
            0 <= i < field.len() ==> evidence_matches(
                runs,
                hits,
                groups[i],
                #[trigger] field[i],
            ));
    cells::law_grouping_partitions(reached, groups, h);
    let g = choose|g: int|
        0 <= g < groups.len() && (#[trigger] groups[g]).members@.contains(h) && groups[g].cell
            == reached[h as int];
    assert(evidence_matches(runs, hits, groups[g], field[g]));
    assert(field[g].cell == reached[h as int]);
    assert forall|i: int|
        0 <= i < field.len() && (#[trigger] field[i]).hits@.contains(h) implies field[i].cell
        == reached[h as int] by {
        assert(evidence_matches(runs, hits, groups[i], field[i]));
        assert(groups[i].members@.contains(h));
        assert(groups[g].members@.contains(h));
        assert(i == g);
    }
    assert forall|i: int, j: int| 0 <= i < j < field.len() implies (#[trigger] field[i]).cell != (
    #[trigger] field[j]).cell by {
        assert(evidence_matches(runs, hits, groups[i], field[i]));
        assert(evidence_matches(runs, hits, groups[j], field[j]));
        assert(cells::cell_before(groups[i].cell, groups[j].cell));
    }
    assert forall|i: int| 0 <= i < field.len() implies (#[trigger] field[i]).hits@.len() > 0
        && field[i].hits@.no_duplicates() by {
        assert(evidence_matches(runs, hits, groups[i], field[i]));
        assert(groups[i].members@.len() > 0);
        assert(cells::is_members(reached, groups[i].cell, groups[i].members@));
    }
}

/// Every cell of a field has the hits and the first frame of its evidence and the means
/// that were taken of it.
pub proof fn law_averaged_cells_keep_their_evidence(evidence: CellEvidence, means: CellMeans)
    requires
        evidence.hits@.len() <= u32::MAX,
    ensures
        averaged(evidence, means).cell == evidence.cell,
        averaged(evidence, means).hits == evidence.hits@.len(),
        averaged(evidence, means).first_frame == evidence.first_frame,
        averaged(evidence, means).weight == means.weight,
        averaged(evidence, means).distance == means.distance,
        averaged(evidence, means).normal == means.normal,
        averaged(evidence, means).position == means.position,
        averaged(evidence, means).color_srgb == means.color_srgb,
{
}

} // verus!
