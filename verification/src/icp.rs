//! Nearest-neighbour structure and stopping rules of point-to-plane
//! registration.
//!
//! Neighbours are re-established on every round. Distances and normal
//! equations are numbers of the caller; which points are looked at, which one
//! is nearest and when the rounds end is decided here.

use vstd::prelude::*;

use crate::cells;
use crate::cells::{group_cells, Cell, CellGroup};
use crate::ieee;
use crate::order;
use crate::world::SimilarityTransform;

verus! {

/// Bounds of a registration. `u64` fields are binary64 patterns.
#[derive(Debug, Clone, Copy, PartialEq, Eq)]
pub struct IcpSettings {
    pub max_iterations: usize,
    pub max_correspondence_distance: u32,
    pub huber_delta: u32,
    pub normal_radius: u32,
    pub minimum_correspondences: usize,
    pub rank_tolerance: u64,
    pub step_tolerance: u64,
    pub relative_rmse: u64,
}

impl Default for IcpSettings {
    fn default() -> (settings: Self)
        ensures
            settings == (IcpSettings {
                max_iterations: 30,
                max_correspondence_distance: 0x3dcc_cccd,
                huber_delta: 0x3d4c_cccd,
                normal_radius: 0x3e19_999a,
                minimum_correspondences: 20,
                rank_tolerance: 0x3f50_624d_d2f1_a9fc,
                step_tolerance: 0x3e7a_d7f2_9abc_af48,
                relative_rmse: 0x3eb0_c6f7_a0b5_ed8d,
            }),
    {
        IcpSettings {
            max_iterations: 30,
            max_correspondence_distance: 0x3dcc_cccd,
            huber_delta: 0x3d4c_cccd,
            normal_radius: 0x3e19_999a,
            minimum_correspondences: 20,
            rank_tolerance: 0x3f50_624d_d2f1_a9fc,
            step_tolerance: 0x3e7a_d7f2_9abc_af48,
            relative_rmse: 0x3eb0_c6f7_a0b5_ed8d,
        }
    }
}

/// Points by the cell they lie in.
pub struct SpatialHash {
    groups: Vec<CellGroup>,
    points: Ghost<Seq<Cell>>,
}

impl SpatialHash {
    /// The cells of the points, one per point.
    pub closed spec fn cells(self) -> Seq<Cell> {
        self.points@
    }

    /// The groups are those of the cells.
    #[verifier::type_invariant]
    spec fn wf(self) -> bool {
        cells::is_grouping(self.points@, self.groups@) && self.points@.len() <= usize::MAX
    }
}

/// The points of a cell, in their given order.
pub open spec fn in_cell(points: Seq<Cell>, cell: Cell, count: int) -> Seq<usize>
    decreases count,
{
    if count <= 0 {
        Seq::empty()
    } else if points[count - 1] == cell {
        in_cell(points, cell, count - 1).push((count - 1) as usize)
    } else {
        in_cell(points, cell, count - 1)
    }
}

proof fn lemma_in_cell(points: Seq<Cell>, cell: Cell, count: int)
    requires
        0 <= count <= points.len() <= usize::MAX,
    ensures
        forall|a: int|
            0 <= a < in_cell(points, cell, count).len() ==> (#[trigger] in_cell(
                points,
                cell,
                count,
            )[a]) < count && points[in_cell(points, cell, count)[a] as int] == cell,
        forall|a: int, b: int|
            0 <= a < b < in_cell(points, cell, count).len() ==> (#[trigger] in_cell(
                points,
                cell,
                count,
            )[a]) < (#[trigger] in_cell(points, cell, count)[b]),
        forall|i: usize|
            i < count && #[trigger] points[i as int] == cell ==> in_cell(
                points,
                cell,
                count,
            ).contains(i),
    decreases count,
{
    if count > 0 {
        lemma_in_cell(points, cell, count - 1);
        let rest = in_cell(points, cell, count - 1);
        let whole = in_cell(points, cell, count);
        assert forall|i: usize| i < count && #[trigger] points[i as int] == cell implies whole.contains(
            i,
        ) by {
            if i < count - 1 {
                let k = rest.index_of(i);
                assert(rest[k] == i);
                assert(whole[k] == i);
            } else {
                assert(whole[whole.len() - 1] == i);
            }
        }
    }
}

/// Two ascending lists of the same places are the same list.
proof fn lemma_same_places(a: Seq<usize>, b: Seq<usize>)
    requires
        forall|i: int, j: int| 0 <= i < j < a.len() ==> #[trigger] a[i] < #[trigger] a[j],
        forall|i: int, j: int| 0 <= i < j < b.len() ==> #[trigger] b[i] < #[trigger] b[j],
        forall|x: usize| #[trigger] a.contains(x) <==> b.contains(x),
    ensures
        a == b,
    decreases a.len(),
{
    if a.len() == 0 {
        if b.len() > 0 {
            assert(b.contains(b[0]));
            assert(a.contains(b[0]));
        }
        assert(a =~= b);
    } else {
        assert(a.contains(a.last()));
        assert(b.contains(a.last()));
        assert(b.contains(b.last()));
        assert(a.contains(b.last()));
        let i = a.index_of(b.last());
        let j = b.index_of(a.last());
        assert(a[i] == b.last());
        assert(b[j] == a.last());
        assert(a.last() == b.last());
        let c = a.drop_last();
        let d = b.drop_last();
        assert forall|x: usize| #[trigger] c.contains(x) <==> d.contains(x) by {
            if c.contains(x) {
                let k = c.index_of(x);
                assert(a[k] == x);
                assert(a.contains(x));
                assert(b.contains(x));
                let m = b.index_of(x);
                assert(b[m] == x);
                assert(m < b.len() - 1);
                assert(d[m] == x);
            }
            if d.contains(x) {
                let k = d.index_of(x);
                assert(b[k] == x);
                assert(b.contains(x));
                assert(a.contains(x));
                let m = a.index_of(x);
                assert(a[m] == x);
                assert(m < a.len() - 1);
                assert(c[m] == x);
            }
        }
        lemma_same_places(c, d);
        assert(a =~= c.push(a.last()));
        assert(b =~= d.push(b.last()));
    }
}

proof fn lemma_members(points: Seq<Cell>, cell: Cell, members: Seq<usize>)
    requires
        cells::is_members(points, cell, members),
        points.len() <= usize::MAX,
    ensures
        members == in_cell(points, cell, points.len() as int),
{
    let listed = in_cell(points, cell, points.len() as int);
    lemma_in_cell(points, cell, points.len() as int);
    assert forall|x: usize| #[trigger] members.contains(x) <==> listed.contains(x) by {
        if members.contains(x) {
            let k = members.index_of(x);
            assert(members[k] == x);
            assert(points[x as int] == cell);
        }
        if listed.contains(x) {
            let k = listed.index_of(x);
            assert(listed[k] == x);
            assert(points[x as int] == cell);
        }
    }
    lemma_same_places(members, listed);
}

/// The points of the cells `x`, `y`, `z` up to `last` in `z`.
pub open spec fn row_points(points: Seq<Cell>, x: int, y: int, z: int, last: int) -> Seq<usize>
    decreases last + 1 - z,
{
    if z > last {
        Seq::empty()
    } else {
        cell_points(points, x, y, z) + row_points(points, x, y, z + 1, last)
    }
}

/// The points of a cell given by its coordinates; none lie beyond the range
/// of a cell.
pub open spec fn cell_points(points: Seq<Cell>, x: int, y: int, z: int) -> Seq<usize> {
    if i32::MIN <= x <= i32::MAX && i32::MIN <= y <= i32::MAX && i32::MIN <= z <= i32::MAX {
        in_cell(points, Cell { x: x as i32, y: y as i32, z: z as i32 }, points.len() as int)
    } else {
        Seq::empty()
    }
}

/// The points of a slab: rows `y` up to `last`.
pub open spec fn slab_points(
    points: Seq<Cell>,
    x: int,
    y: int,
    last: int,
    base: Cell,
    span: int,
) -> Seq<usize>
    decreases last + 1 - y,
{
    if y > last {
        Seq::empty()
    } else {
        row_points(points, x, y, base.z - span, base.z + span) + slab_points(
            points,
            x,
            y + 1,
            last,
            base,
            span,
        )
    }
}

/// The points of the neighbourhood: slabs `x` up to `last`.
pub open spec fn block_points(
    points: Seq<Cell>,
    x: int,
    last: int,
    base: Cell,
    span: int,
) -> Seq<usize>
    decreases last + 1 - x,
{
    if x > last {
        Seq::empty()
    } else {
        slab_points(points, x, base.y - span, base.y + span, base, span) + block_points(
            points,
            x + 1,
            last,
            base,
            span,
        )
    }
}

/// The points within `span` cells of `base`: by `x`, then `y`, then `z`, then
/// in their given order.
pub open spec fn neighbourhood(points: Seq<Cell>, base: Cell, span: int) -> Seq<usize> {
    block_points(points, base.x - span, base.x + span, base, span)
}

impl SpatialHash {
    /// Sorts points into cells.
    pub fn new(points: &Vec<Cell>) -> (hash: Self)
        ensures
            hash.cells() == points@,
    {
        let _count: usize = points.len();
        let groups: Vec<CellGroup> = group_cells(points);
        SpatialHash { groups, points: Ghost(points@) }
    }

    fn find(&self, cell: Cell) -> (found: Option<usize>)
        requires
            self.wf(),
        ensures
            match found {
                None => forall|g: int|
                    0 <= g < self.groups@.len() ==> (#[trigger] self.groups@[g]).cell != cell,
                Some(g) => g < self.groups@.len() && self.groups@[g as int].cell == cell,
            },
    {
        let mut low: usize = 0;
        let mut high: usize = self.groups.len();
        while low < high
            invariant
                self.wf(),
                low <= high <= self.groups@.len(),
                forall|g: int|
                    0 <= g < low ==> cells::cell_before((#[trigger] self.groups@[g]).cell, cell),
                forall|g: int|
                    high <= g < self.groups@.len() ==> cells::cell_before(
                        cell,
                        (#[trigger] self.groups@[g]).cell,
                    ),
            decreases high - low,
        {
            let middle: usize = low + (high - low) / 2;
            let probe = self.groups[middle].cell;
            if probe == cell {
                return Some(middle);
            }
            let before = probe.x < cell.x || (probe.x == cell.x && (probe.y < cell.y || (probe.y
                == cell.y && probe.z < cell.z)));
            if before {
                low = middle + 1;
            } else {
                high = middle;
            }
        }
        None
    }

    fn put_cell(&self, x: i64, y: i64, z: i64, found: &mut Vec<usize>)
        requires
            self.wf(),
        ensures
            final(found)@ == old(found)@ + cell_points(self.cells(), x as int, y as int, z as int),
    {
        let ghost start = found@;
        let low: i64 = i32::MIN as i64;
        let high: i64 = i32::MAX as i64;
        if x < low || x > high || y < low || y > high || z < low || z > high {
            assert(start + cell_points(self.cells(), x as int, y as int, z as int) =~= start);
            return;
        }
        let cell = Cell { x: x as i32, y: y as i32, z: z as i32 };
        let ghost listed = in_cell(self.cells(), cell, self.cells().len() as int);
        match self.find(cell) {
            None => {
                proof {
                    lemma_in_cell(self.cells(), cell, self.cells().len() as int);
                    if listed.len() > 0 {
                        let i = listed[0] as int;
                        assert(self.cells()[i] == cell);
                        let g = choose|g: int|
                            0 <= g < self.groups@.len() && (#[trigger] self.groups@[g]).cell
                                == self.cells()[i];
                        assert(self.groups@[g].cell == cell);
                        assert(false);
                    }
                    assert(start + listed =~= start);
                }
            },
            Some(g) => {
                let members = &self.groups[g].members;
                proof {
                    assert(cells::is_members(self.cells(), cell, members@));
                    lemma_members(self.cells(), cell, members@);
                }
                for i in 0..members.len()
                    invariant
                        start == old(found)@,
                        found@ == start + members@.take(i as int),
                {
                    found.push(members[i]);
                    assert(found@ =~= start + members@.take(i + 1));
                }
                assert(members@.take(members@.len() as int) =~= members@);
            },
        }
    }

    /// The points within `span` cells of a cell, in scan order.
    pub fn near(&self, base: Cell, span: i32) -> (found: Vec<usize>)
        requires
            span >= 0,
        ensures
            found@ == neighbourhood(self.cells(), base, span as int),
    {
        proof {
            use_type_invariant(self);
        }
        let points: Ghost<Seq<Cell>> = Ghost(self.cells());
        let reach: i64 = span as i64;
        let (bx, by, bz): (i64, i64, i64) = (base.x as i64, base.y as i64, base.z as i64);
        let ghost whole = neighbourhood(points@, base, span as int);
        let mut found: Vec<usize> = Vec::new();
        assert(whole =~= found@ + whole);
        for x in bx - reach..bx + reach + 1
            invariant
                self.wf(),
                points@ == self.cells(),
                reach == span,
                0 <= reach <= i32::MAX,
                bx == base.x,
                by == base.y,
                bz == base.z,
                whole == found@ + block_points(
                    points@,
                    x as int,
                    base.x + span,
                    base,
                    span as int,
                ),
        {
            let ghost after_slab = block_points(points@, x + 1, base.x + span, base, span as int);
            assert(whole =~= found@ + slab_points(
                points@,
                x as int,
                base.y - span,
                base.y + span,
                base,
                span as int,
            ) + after_slab);
            for y in by - reach..by + reach + 1
                invariant
                    self.wf(),
                    points@ == self.cells(),
                    reach == span,
                    0 <= reach <= i32::MAX,
                    bx == base.x,
                    by == base.y,
                    bz == base.z,
                    whole == found@ + slab_points(
                        points@,
                        x as int,
                        y as int,
                        base.y + span,
                        base,
                        span as int,
                    ) + after_slab,
            {
                let ghost after_row = slab_points(
                    points@,
                    x as int,
                    y + 1,
                    base.y + span,
                    base,
                    span as int,
                ) + after_slab;
                assert(whole =~= found@ + row_points(
                    points@,
                    x as int,
                    y as int,
                    base.z - span,
                    base.z + span,
                ) + after_row);
                for z in bz - reach..bz + reach + 1
                    invariant
                        self.wf(),
                        points@ == self.cells(),
                        reach == span,
                        0 <= reach <= i32::MAX,
                        bz == base.z,
                        whole == found@ + row_points(
                            points@,
                            x as int,
                            y as int,
                            z as int,
                            base.z + span,
                        ) + after_row,
                {
                    let ghost before = found@;
                    self.put_cell(x, y, z, &mut found);
                    assert(before + row_points(
                        points@,
                        x as int,
                        y as int,
                        z as int,
                        base.z + span,
                    ) =~= found@ + row_points(
                        points@,
                        x as int,
                        y as int,
                        z + 1,
                        base.z + span,
                    ));
                }
                assert(whole =~= found@ + after_row);
            }
            assert(whole =~= found@ + after_slab);
        }
        assert(whole =~= found@);
        found
    }
}

/// The candidates whose squared distance is within the limit.
pub open spec fn within_limit(
    candidates: Seq<usize>,
    squared: Seq<u32>,
    limit: u32,
    count: int,
) -> Seq<usize>
    decreases count,
{
    if count <= 0 {
        Seq::empty()
    } else if ieee::f32_at_most(squared[count - 1], limit) {
        within_limit(candidates, squared, limit, count - 1).push(candidates[count - 1])
    } else {
        within_limit(candidates, squared, limit, count - 1)
    }
}

/// Keeps the candidates within a squared distance.
pub fn keep_within(candidates: &Vec<usize>, squared: &Vec<u32>, limit: u32) -> (kept: Vec<usize>)
    requires
        squared@.len() == candidates@.len(),
    ensures
        kept@ == within_limit(candidates@, squared@, limit, candidates@.len() as int),
{
    let mut kept: Vec<usize> = Vec::new();
    for i in 0..candidates.len()
        invariant
            squared@.len() == candidates@.len(),
            kept@ == within_limit(candidates@, squared@, limit, i as int),
    {
        if ieee::f32_le(squared[i], limit) {
            kept.push(candidates[i]);
        }
    }
    kept
}

/// The place of the nearest candidate within the limit; the last of equals.
pub open spec fn is_nearest(squared: Seq<u32>, limit: u32, place: Option<int>) -> bool {
    match place {
        None => forall|i: int|
            0 <= i < squared.len() ==> !ieee::f32_at_most(#[trigger] squared[i], limit),
        Some(k) => {
            &&& 0 <= k < squared.len()
            &&& ieee::f32_at_most(squared[k], limit)
            &&& forall|i: int|
                0 <= i < squared.len() && ieee::f32_at_most(#[trigger] squared[i], limit)
                    ==> ieee::f32_at_most(squared[k], squared[i])
            &&& forall|i: int|
                k < i < squared.len() ==> !ieee::f32_at_most(#[trigger] squared[i], squared[k])
        },
    }
}

/// Finds the nearest candidate within a squared distance.
pub fn nearest_within(candidates: &Vec<usize>, squared: &Vec<u32>, limit: u32) -> (nearest: Option<
    usize,
>)
    requires
        squared@.len() == candidates@.len(),
    ensures
        exists|place: Option<int>| #[trigger]
            is_nearest(squared@, limit, place) && nearest == (match place {
                None => None,
                Some(k) => Some(candidates@[k]),
            }),
{
    let mut best: u32 = limit;
    let mut place: Option<usize> = None;
    for i in 0..candidates.len()
        invariant
            squared@.len() == candidates@.len(),
            match place {
                None => best == limit && forall|k: int|
                    0 <= k < i ==> !ieee::f32_at_most(#[trigger] squared@[k], limit),
                Some(p) => {
                    &&& p < i
                    &&& best == squared@[p as int]
                    &&& ieee::f32_at_most(best, limit)
                    &&& forall|k: int|
                        0 <= k < i && ieee::f32_at_most(#[trigger] squared@[k], limit)
                            ==> ieee::f32_at_most(best, squared@[k])
                    &&& forall|k: int| p < k < i ==> !ieee::f32_at_most(#[trigger] squared@[k], best)
                },
            },
    {
        if ieee::f32_le(squared[i], best) {
            best = squared[i];
            place = Some(i);
        }
    }
    match place {
        None => {
            assert(is_nearest(squared@, limit, None));
            None
        },
        Some(p) => {
            assert(is_nearest(squared@, limit, Some(p as int)));
            Some(candidates[p])
        },
    }
}

/// A registration can start: both clouds have points, the scale is usable and
/// some target point has a normal.
pub fn can_refine(source: usize, target: usize, scale: u32, normals: &Vec<[u32; 3]>) -> (answer:
    bool)
    ensures
        answer == (source > 0 && target > 0 && ieee::f32_positive(scale) && exists|i: int|
            0 <= i < normals@.len() && has_direction(#[trigger] normals@[i])),
{
    if source == 0 || target == 0 || !ieee::f32_is_positive(scale) {
        return false;
    }
    for i in 0..normals.len()
        invariant
            source > 0,
            target > 0,
            ieee::f32_positive(scale),
            forall|k: int| 0 <= k < i ==> !has_direction(#[trigger] normals@[k]),
    {
        let normal = normals[i];
        if !(zero(normal[0]) && zero(normal[1]) && zero(normal[2])) {
            assert(has_direction(normals@[i as int]));
            return true;
        }
    }
    false
}

/// Some component is not a zero.
pub open spec fn has_direction(normal: [u32; 3]) -> bool {
    !(ieee::f32_magnitude(normal@[0]) == 0 && ieee::f32_magnitude(normal@[1]) == 0
        && ieee::f32_magnitude(normal@[2]) == 0)
}

/// The neighbours that a normal is estimated from at least.
pub const NORMAL_NEIGHBOURS: usize = 3;

/// The normal of a point: the direction in which its neighbours spread least, as a
/// unit vector, or zero where there are too few of them or the direction has no
/// usable length. `length` is a binary64 pattern.
pub fn estimated_normal(neighbours: usize, length: u64, unit: [u32; 3]) -> (normal: [u32; 3])
    ensures
        normal@ == (if neighbours >= NORMAL_NEIGHBOURS && ieee::f64_finite(length)
            && ieee::f64_less(0, length) {
            unit@
        } else {
            seq![0u32, 0u32, 0u32]
        }),
{
    if neighbours >= NORMAL_NEIGHBOURS && ieee::f64_is_finite(length) && ieee::f64_lt(0, length) {
        unit
    } else {
        let none = [0u32, 0u32, 0u32];
        assert(none@ =~= seq![0u32, 0u32, 0u32]);
        none
    }
}

/// The match of a point: its nearest target point, where that has a normal.
pub fn plane_match(nearest: Option<usize>, normals: &Vec<[u32; 3]>) -> (found: Option<usize>)
    requires
        nearest matches Some(place) ==> place < normals@.len(),
    ensures
        found == (match nearest {
            Some(place) => if has_direction(normals@[place as int]) {
                Some(place)
            } else {
                None
            },
            None => None,
        }),
{
    match nearest {
        Some(place) => {
            let normal = normals[place];
            if zero(normal[0]) && zero(normal[1]) && zero(normal[2]) {
                None
            } else {
                Some(place)
            }
        },
        None => None,
    }
}

fn zero(bits: u32) -> (answer: bool)
    ensures
        answer == (ieee::f32_magnitude(bits) == 0),
{
    bits == 0 || bits == 0x8000_0000
}

/// The error of a cloud against the planes of its neighbours, where some point has
/// a neighbour with a normal. A cloud without one has no error, and a registration
/// that has none before or after its rounds is refused.
pub fn plane_rms(matches: usize, rms: u32) -> (error: Option<u32>)
    ensures
        error == (if matches > 0 {
            Some(rms)
        } else {
            None
        }),
{
    if matches > 0 {
        Some(rms)
    } else {
        None
    }
}

/// Where a registration stands.
#[derive(Debug, Clone, Copy, PartialEq, Eq, Structural)]
pub struct IcpProgress {
    pub round: usize,
    pub iterations: usize,
    pub correspondences: usize,
    pub rank: usize,
    pub running: bool,
}

/// A registration before its first round.
pub fn icp_start(settings: &IcpSettings) -> (progress: IcpProgress)
    ensures
        progress == (IcpProgress {
            round: 0,
            iterations: 0,
            correspondences: 0,
            rank: 0,
            running: settings.max_iterations > 0,
        }),
        has_round_left(progress, *settings),
{
    IcpProgress {
        round: 0,
        iterations: 0,
        correspondences: 0,
        rank: 0,
        running: settings.max_iterations > 0,
    }
}

/// A registration after the matches of a round are counted.
pub open spec fn matched(
    progress: IcpProgress,
    correspondences: usize,
    settings: IcpSettings,
) -> IcpProgress {
    IcpProgress {
        correspondences,
        running: progress.running && correspondences >= settings.minimum_correspondences,
        ..progress
    }
}

/// After the matches of a round are counted: too few of them end the
/// registration before the cloud moves.
pub fn icp_matched(
    progress: IcpProgress,
    correspondences: usize,
    settings: &IcpSettings,
) -> (next: IcpProgress)
    ensures
        next == matched(progress, correspondences, *settings),
        has_round_left(progress, *settings) ==> has_round_left(next, *settings),
{
    IcpProgress {
        correspondences,
        running: progress.running && correspondences >= settings.minimum_correspondences,
        ..progress
    }
}

/// The step of a round ends the registration: it was short, or the error
/// hardly fell while there was some error left.
pub open spec fn step_settles(
    step_norm: u64,
    previous_rms: u32,
    small_gain: bool,
    settings: IcpSettings,
) -> bool {
    ieee::f64_less(step_norm, settings.step_tolerance) || (ieee::f32_less(0, previous_rms)
        && small_gain)
}

/// A registration after its cloud has moved.
pub open spec fn moved(
    progress: IcpProgress,
    rank: usize,
    settles: bool,
    settings: IcpSettings,
) -> IcpProgress {
    IcpProgress {
        round: (progress.round + 1) as usize,
        iterations: (progress.round + 1) as usize,
        rank,
        running: !settles && progress.round + 1 < settings.max_iterations,
        ..progress
    }
}

/// A registration that runs has a round left, and none goes beyond the last.
pub open spec fn has_round_left(progress: IcpProgress, settings: IcpSettings) -> bool {
    &&& progress.running ==> progress.round < settings.max_iterations
    &&& progress.iterations <= progress.round <= settings.max_iterations
}

/// After the cloud has moved. `small_gain` says that the error fell by no more
/// than the relative tolerance of the previous error.
pub fn icp_moved(
    progress: IcpProgress,
    rank: usize,
    step_norm: u64,
    previous_rms: u32,
    small_gain: bool,
    settings: &IcpSettings,
) -> (next: IcpProgress)
    requires
        progress.running,
        progress.round < settings.max_iterations,
    ensures
        next == moved(
            progress,
            rank,
            step_settles(step_norm, previous_rms, small_gain, *settings),
            *settings,
        ),
        has_round_left(next, *settings),
        next.iterations > 0,
{
    let settles = ieee::f64_lt(step_norm, settings.step_tolerance) || (ieee::f32_lt(
        0,
        previous_rms,
    ) && small_gain);
    IcpProgress {
        round: progress.round + 1,
        iterations: progress.round + 1,
        rank,
        running: !settles && progress.round + 1 < settings.max_iterations,
        ..progress
    }
}

/// What a registration came to.
#[derive(Debug, Clone, Copy, PartialEq, Eq)]
pub struct IcpResult {
    pub transform: SimilarityTransform,
    pub rms_before: u32,
    pub rms_after: u32,
    pub correspondences: usize,
    pub iterations: usize,
    pub rank: usize,
}

/// The result of a registration that was begun with `initial`. Its scale is that
/// of the start whatever the rounds did, and a registration that never moved
/// leaves the start as it was. `rotation` and `translation` are those of all
/// rounds after the start.
pub fn icp_result(
    initial: SimilarityTransform,
    rotation: [u32; 9],
    translation: [u32; 3],
    rms_before: u32,
    rms_after: u32,
    progress: IcpProgress,
) -> (result: IcpResult)
    ensures
        result.transform.scale == initial.scale,
        result.transform == (if progress.iterations == 0 {
            initial
        } else {
            SimilarityTransform { scale: initial.scale, rotation, translation }
        }),
        result.rms_before == rms_before,
        result.rms_after == (if progress.iterations == 0 {
            rms_before
        } else {
            rms_after
        }),
        result.correspondences == progress.correspondences,
        result.iterations == progress.iterations,
        result.rank == progress.rank,
{
    let still: bool = progress.iterations == 0;
    IcpResult {
        transform: if still {
            initial
        } else {
            SimilarityTransform { scale: initial.scale, rotation, translation }
        },
        rms_before,
        rms_after: if still {
            rms_before
        } else {
            rms_after
        },
        correspondences: progress.correspondences,
        iterations: progress.iterations,
        rank: progress.rank,
    }
}

/// A registration ends: every round it moves in leaves one round fewer, and it
/// stops running when none is left. A round with too few matches moves nothing.
pub proof fn law_registration_ends(
    progress: IcpProgress,
    correspondences: usize,
    rank: usize,
    settles: bool,
    settings: IcpSettings,
)
    requires
        has_round_left(progress, settings),
    ensures
        ({
            let counted = matched(progress, correspondences, settings);
            &&& has_round_left(counted, settings)
            &&& counted.round == progress.round
            &&& counted.iterations == progress.iterations
            &&& correspondences < settings.minimum_correspondences ==> !counted.running
            &&& counted.running ==> ({
                let next = moved(counted, rank, settles, settings);
                &&& has_round_left(next, settings)
                &&& 0 <= settings.max_iterations - next.round < settings.max_iterations
                    - progress.round
            })
        }),
{
}

/// The points that are near are exactly those whose cell is within the span on every
/// axis.
pub proof fn law_neighbours_are_within_the_span(
    points: Seq<Cell>,
    base: Cell,
    span: int,
    i: usize,
)
    requires
        points.len() <= usize::MAX,
        0 <= span,
    ensures
        neighbourhood(points, base, span).contains(i) <==> {
            &&& i < points.len()
            &&& -span <= points[i as int].x - base.x <= span
            &&& -span <= points[i as int].y - base.y <= span
            &&& -span <= points[i as int].z - base.z <= span
        },
{
    lemma_block(points, base.x - span, base.x + span, base, span, i);
}

proof fn lemma_joined<T>(a: Seq<T>, b: Seq<T>, item: T)
    ensures
        (a + b).contains(item) <==> a.contains(item) || b.contains(item),
{
    if a.contains(item) {
        let i = a.index_of(item);
        assert((a + b)[i] == item);
    }
    if b.contains(item) {
        let i = b.index_of(item);
        assert((a + b)[a.len() + i] == item);
    }
    if (a + b).contains(item) {
        let i = (a + b).index_of(item);
        if i < a.len() {
            assert(a[i] == item);
        } else {
            assert(b[i - a.len()] == item);
        }
    }
}

proof fn lemma_cell_points(points: Seq<Cell>, x: int, y: int, z: int, i: usize)
    requires
        points.len() <= usize::MAX,
    ensures
        cell_points(points, x, y, z).contains(i) <==> i < points.len() && points[i as int].x == x
            && points[i as int].y == y && points[i as int].z == z,
{
    if i32::MIN <= x <= i32::MAX && i32::MIN <= y <= i32::MAX && i32::MIN <= z <= i32::MAX {
        let cell = Cell { x: x as i32, y: y as i32, z: z as i32 };
        lemma_in_cell(points, cell, points.len() as int);
        let list = in_cell(points, cell, points.len() as int);
        if list.contains(i) {
            let a = list.index_of(i);
            assert(list[a] == i);
        }
        if i < points.len() && points[i as int].x == x && points[i as int].y == y
            && points[i as int].z == z {
            assert(points[i as int] == cell);
        }
    }
}

proof fn lemma_row(points: Seq<Cell>, x: int, y: int, z: int, last: int, i: usize)
    requires
        points.len() <= usize::MAX,
    ensures
        row_points(points, x, y, z, last).contains(i) <==> i < points.len() && points[i as int].x
            == x && points[i as int].y == y && z <= points[i as int].z <= last,
    decreases last + 1 - z,
{
    if z <= last {
        lemma_cell_points(points, x, y, z, i);
        lemma_row(points, x, y, z + 1, last, i);
        lemma_joined(cell_points(points, x, y, z), row_points(points, x, y, z + 1, last), i);
    }
}

proof fn lemma_slab(points: Seq<Cell>, x: int, y: int, last: int, base: Cell, span: int, i: usize)
    requires
        points.len() <= usize::MAX,
    ensures
        slab_points(points, x, y, last, base, span).contains(i) <==> i < points.len()
            && points[i as int].x == x && y <= points[i as int].y <= last && -span
            <= points[i as int].z - base.z <= span,
    decreases last + 1 - y,
{
    if y <= last {
        lemma_row(points, x, y, base.z - span, base.z + span, i);
        lemma_slab(points, x, y + 1, last, base, span, i);
        lemma_joined(
            row_points(points, x, y, base.z - span, base.z + span),
            slab_points(points, x, y + 1, last, base, span),
            i,
        );
    }
}

proof fn lemma_block(points: Seq<Cell>, x: int, last: int, base: Cell, span: int, i: usize)
    requires
        points.len() <= usize::MAX,
    ensures
        block_points(points, x, last, base, span).contains(i) <==> i < points.len() && x
            <= points[i as int].x <= last && -span <= points[i as int].y - base.y <= span && -span
            <= points[i as int].z - base.z <= span,
    decreases last + 1 - x,
{
    if x <= last {
        lemma_slab(points, x, base.y - span, base.y + span, base, span, i);
        lemma_block(points, x + 1, last, base, span, i);
        lemma_joined(
            slab_points(points, x, base.y - span, base.y + span, base, span),
            block_points(points, x + 1, last, base, span),
            i,
        );
    }
}

/// The candidates within a squared distance are those whose own is numerically no
/// more, in their order.
pub proof fn law_near_candidates_are_kept(
    candidates: Seq<usize>,
    squared: Seq<u32>,
    limit: u32,
    count: int,
)
    requires
        0 <= count <= candidates.len() == squared.len(),
    ensures
        within_limit(candidates, squared, limit, count) == order::counted(count).filter(
            |i: int|
                !ieee::f32_nan(squared[i]) && !ieee::f32_nan(limit) && ieee::f32_rank(squared[i])
                    <= ieee::f32_rank(limit),
        ).map_values(|i: int| candidates[i]),
    decreases count,
{
    reveal(Seq::filter);
    let near = |i: int|
        !ieee::f32_nan(squared[i]) && !ieee::f32_nan(limit) && ieee::f32_rank(squared[i])
            <= ieee::f32_rank(limit);
    let item = |i: int| candidates[i];
    if count > 0 {
        law_near_candidates_are_kept(candidates, squared, limit, count - 1);
        order::lemma_counted(count);
        let rest = order::counted(count - 1).filter(near);
        assert(rest.push(count - 1).map_values(item) =~= rest.map_values(item).push(
            candidates[count - 1],
        ));
    } else {
        assert(order::counted(count).filter(near).map_values(item) =~= Seq::empty());
    }
}

/// The nearest candidate is within the limit and numerically no farther than any that
/// is; there is one wherever any is within the limit.
pub proof fn law_nearest_is_nearest(squared: Seq<u32>, limit: u32, place: Option<int>, i: int)
    requires
        is_nearest(squared, limit, place),
        0 <= i < squared.len(),
        !ieee::f32_nan(squared[i]),
        !ieee::f32_nan(limit),
        ieee::f32_rank(squared[i]) <= ieee::f32_rank(limit),
    ensures
        place is Some,
        0 <= place.unwrap() < squared.len(),
        ieee::f32_rank(squared[place.unwrap()]) <= ieee::f32_rank(squared[i]),
        ieee::f32_rank(squared[place.unwrap()]) <= ieee::f32_rank(limit),
{
    assert(ieee::f32_at_most(squared[i], limit));
}

/// A round goes on only with enough matches, counts as one iteration once its cloud
/// has moved, and is the last where it settled or where no round is left. A short step
/// settles it, and so does an error that hardly fell while there was some left.
pub proof fn law_rounds_count(
    progress: IcpProgress,
    correspondences: usize,
    rank: usize,
    step_norm: u64,
    previous_rms: u32,
    small_gain: bool,
    settings: IcpSettings,
)
    requires
        progress.running,
        progress.round < settings.max_iterations,
        !ieee::f64_nan(step_norm),
        !ieee::f64_nan(settings.step_tolerance),
        !ieee::f32_nan(previous_rms),
    ensures
        ({
            let counted = matched(progress, correspondences, settings);
            let settles = step_settles(step_norm, previous_rms, small_gain, settings);
            let next = moved(counted, rank, settles, settings);
            &&& counted.running <==> correspondences >= settings.minimum_correspondences
            &&& counted.correspondences == correspondences
            &&& counted.iterations == progress.iterations && counted.rank == progress.rank
            &&& settles <==> ieee::f64_rank(step_norm) < ieee::f64_rank(settings.step_tolerance)
                || (ieee::f32_rank(previous_rms) > 0 && small_gain)
            &&& next.iterations == progress.round + 1 && next.round == progress.round + 1
            &&& next.rank == rank && next.correspondences == correspondences
            &&& next.running <==> !settles && progress.round + 1 < settings.max_iterations
        }),
{
}

} // verus!
