//! Integer cells of three-space and the items that fall into them.

use vstd::prelude::*;

use crate::order;

verus! {

/// A cell of a regular grid.
#[derive(Debug, Clone, Copy, PartialEq, Eq, Structural)]
pub struct Cell {
    pub x: i32,
    pub y: i32,
    pub z: i32,
}

/// The items of one cell, by their places in the list they came from.
#[derive(Debug, Clone, PartialEq, Eq)]
pub struct CellGroup {
    pub cell: Cell,
    pub members: Vec<usize>,
}

/// The position of a cell in the order of `x`, then `y`, then `z`.
pub open spec fn cell_rank(cell: Cell) -> int {
    ((cell.x + 0x8000_0000) * 0x1_0000_0000 + (cell.y + 0x8000_0000)) * 0x1_0000_0000 + (cell.z
        + 0x8000_0000)
}

/// `a` comes before `b`: by `x`, then `y`, then `z`.
pub open spec fn cell_before(a: Cell, b: Cell) -> bool {
    a.x < b.x || (a.x == b.x && (a.y < b.y || (a.y == b.y && a.z < b.z)))
}

/// The items of a cell: exactly those that fall into it, in their given order.
pub open spec fn is_members(cells: Seq<Cell>, cell: Cell, members: Seq<usize>) -> bool {
    &&& forall|a: int, b: int|
        0 <= a < b < members.len() ==> #[trigger] members[a] < #[trigger] members[b]
    &&& forall|a: int|
        0 <= a < members.len() ==> (#[trigger] members[a] < cells.len()
            && cells[members[a] as int] == cell)
    &&& forall|i: usize|
        i < cells.len() && #[trigger] cells[i as int] == cell ==> members.contains(i)
}

/// Every occupied cell once, in cell order, each with its items.
pub open spec fn is_grouping(cells: Seq<Cell>, groups: Seq<CellGroup>) -> bool {
    &&& forall|a: int, b: int|
        0 <= a < b < groups.len() ==> cell_before(
            (#[trigger] groups[a]).cell,
            (#[trigger] groups[b]).cell,
        )
    &&& forall|g: int|
        0 <= g < groups.len() ==> (#[trigger] groups[g]).members@.len() > 0 && is_members(
            cells,
            groups[g].cell,
            groups[g].members@,
        )
    &&& forall|i: int|
        0 <= i < cells.len() ==> exists|g: int|
            0 <= g < groups.len() && (#[trigger] groups[g]).cell == #[trigger] cells[i]
}

/// The rank orders cells as their coordinates do, and tells them apart.
pub proof fn lemma_rank(a: Cell, b: Cell)
    ensures
        cell_rank(a) < cell_rank(b) <==> cell_before(a, b),
        cell_rank(a) == cell_rank(b) <==> a == b,
        0 <= cell_rank(a) < 0x1_0000_0000_0000_0000_0000_0000,
{
}

fn cell_key(cell: Cell) -> (key: i128)
    ensures
        key == cell_rank(cell),
{
    ((cell.x as i128 + 0x8000_0000) * 0x1_0000_0000 + (cell.y as i128 + 0x8000_0000))
        * 0x1_0000_0000 + (cell.z as i128 + 0x8000_0000)
}

/// The ranks of a list of cells.
pub open spec fn cell_keys(cells: Seq<Cell>) -> Seq<i128> {
    Seq::new(cells.len(), |i: int| cell_rank(cells[i]) as i128)
}

fn keys_of(cells: &Vec<Cell>) -> (keys: Vec<i128>)
    ensures
        keys@ == cell_keys(cells@),
{
    let mut keys: Vec<i128> = Vec::new();
    for i in 0..cells.len()
        invariant
            keys@ == cell_keys(cells@).take(i as int),
    {
        keys.push(cell_key(cells[i]));
        assert(keys@ =~= cell_keys(cells@).take(i + 1));
    }
    assert(cell_keys(cells@).take(cells@.len() as int) =~= cell_keys(cells@));
    keys
}

/// What is known of the groups once the first `done` places of the order have
/// been handed out.
pub closed spec fn grouped(
    cells: Seq<Cell>,
    places: Seq<usize>,
    done: int,
    groups: Seq<CellGroup>,
) -> bool {
    &&& forall|a: int, b: int|
        0 <= a < b < groups.len() ==> cell_rank((#[trigger] groups[a]).cell) < cell_rank(
            (#[trigger] groups[b]).cell,
        )
    &&& forall|g: int| 0 <= g < groups.len() ==> (#[trigger] groups[g]).members@.len() > 0
    &&& forall|g: int, a: int, b: int|
        0 <= g < groups.len() && 0 <= a < b < groups[g].members@.len()
            ==> #[trigger] groups[g].members@[a] < #[trigger] groups[g].members@[b]
    &&& forall|g: int, a: int|
        0 <= g < groups.len() && 0 <= a < groups[g].members@.len() ==> (
        #[trigger] groups[g].members@[a] < cells.len() && cells[groups[g].members@[a] as int]
            == groups[g].cell)
    &&& forall|p: int|
        0 <= p < done ==> exists|g: int|
            0 <= g < groups.len() && (#[trigger] groups[g]).cell
                == cells[(#[trigger] places[p]) as int] && groups[g].members@.contains(places[p])
    &&& done > 0 ==> groups.len() > 0 && groups[groups.len() - 1].cell == cells[places[done
        - 1] as int] && groups[groups.len() - 1].members@[groups[groups.len() - 1].members@.len()
        - 1] == places[done - 1]
    &&& done <= 0 ==> groups.len() == 0
}

/// Groups items by the cell they fall into.
pub fn group_cells(cells: &Vec<Cell>) -> (groups: Vec<CellGroup>)
    ensures
        is_grouping(cells@, groups@),
{
    let keys: Vec<i128> = keys_of(cells);
    let places: Vec<usize> = order::stable_order(&keys);
    let mut groups: Vec<CellGroup> = Vec::new();
    for p in 0..places.len()
        invariant
            keys@ == cell_keys(cells@),
            order::is_order(keys@, places@),
            grouped(cells@, places@, p as int, groups@),
    {
        let place: usize = places[p];
        assert(place < cells@.len());
        let cell = cells[place];
        let ghost before = groups@;
        proof {
            if p > 0 {
                let last = places@[p - 1];
                assert(order::before(keys@, last as int, place as int));
                assert(last < cells@.len());
                lemma_rank(cells@[last as int], cell);
            }
        }
        let count: usize = groups.len();
        if count > 0 && groups[count - 1].cell == cell {
            let mut last: CellGroup = groups.pop().unwrap();
            last.members.push(place);
            groups.push(last);
            assert(groups@[count - 1].members@ == before[count - 1].members@.push(place));
            assert(forall|g: int| 0 <= g < count - 1 ==> groups@[g] == before[g]);
            assert(groups@[count - 1].members@[groups@[count - 1].members@.len() - 1] == place);
            assert forall|q: int| 0 <= q < p + 1 implies exists|g: int|
                0 <= g < groups@.len() && (#[trigger] groups@[g]).cell
                    == cells@[(#[trigger] places@[q]) as int] && groups@[g].members@.contains(
                    places@[q],
                ) by {
                if q < p {
                    let g = choose|g: int|
                        0 <= g < before.len() && (#[trigger] before[g]).cell
                            == cells@[places@[q] as int] && before[g].members@.contains(places@[q]);
                    let a = before[g].members@.index_of(places@[q]);
                    assert(groups@[g].members@[a] == places@[q]);
                    assert(groups@[g].cell == cells@[places@[q] as int]);
                } else {
                    assert(groups@[count - 1].cell == cells@[places@[q] as int]);
                }
            }
        } else {
            let mut members: Vec<usize> = Vec::new();
            members.push(place);
            groups.push(CellGroup { cell, members });
            assert(groups@[count as int].members@[0] == place);
            assert forall|q: int| 0 <= q < p + 1 implies exists|g: int|
                0 <= g < groups@.len() && (#[trigger] groups@[g]).cell
                    == cells@[(#[trigger] places@[q]) as int] && groups@[g].members@.contains(
                    places@[q],
                ) by {
                if q < p {
                    let g = choose|g: int|
                        0 <= g < before.len() && (#[trigger] before[g]).cell
                            == cells@[places@[q] as int] && before[g].members@.contains(places@[q]);
                    assert(groups@[g] == before[g]);
                } else {
                    assert(groups@[count as int].cell == cells@[places@[q] as int]);
                    assert(groups@[count as int].members@.contains(place));
                }
            }
        }
    }
    proof {
        lemma_grouping(cells@, places@, groups@, keys@);
    }
    groups
}

proof fn lemma_grouping(
    cells: Seq<Cell>,
    places: Seq<usize>,
    groups: Seq<CellGroup>,
    keys: Seq<i128>,
)
    requires
        keys == cell_keys(cells),
        order::is_order(keys, places),
        grouped(cells, places, places.len() as int, groups),
        cells.len() <= usize::MAX,
    ensures
        is_grouping(cells, groups),
{
    assert forall|a: int, b: int| 0 <= a < b < groups.len() implies cell_before(
        (#[trigger] groups[a]).cell,
        (#[trigger] groups[b]).cell,
    ) by {
        lemma_rank(groups[a].cell, groups[b].cell);
    }
    assert forall|i: int| 0 <= i < cells.len() implies exists|g: int|
        0 <= g < groups.len() && (#[trigger] groups[g]).cell == #[trigger] cells[i] by {
        let k = i as usize;
        assert(places.contains(k));
        let p = places.index_of(k);
        assert(places[p] == k);
    }
    assert forall|g: int| 0 <= g < groups.len() implies is_members(
        cells,
        (#[trigger] groups[g]).cell,
        groups[g].members@,
    ) by {
        assert forall|i: usize|
            i < cells.len() && #[trigger] cells[i as int] == groups[g].cell implies groups[g].members@.contains(
            i,
        ) by {
            assert(places.contains(i));
            let p = places.index_of(i);
            assert(places[p] == i);
            let h = choose|h: int|
                0 <= h < groups.len() && (#[trigger] groups[h]).cell == cells[places[p] as int]
                    && groups[h].members@.contains(places[p]);
            lemma_rank(groups[g].cell, groups[h].cell);
            assert(g == h);
        }
    }
}

/// A grouping hands every item to the group of its cell and to no other: two
/// groups share no item.
pub proof fn law_grouping_partitions(cells: Seq<Cell>, groups: Seq<CellGroup>, i: usize)
    requires
        is_grouping(cells, groups),
        i < cells.len(),
    ensures
        exists|g: int|
            0 <= g < groups.len() && (#[trigger] groups[g]).members@.contains(i)
                && groups[g].cell == cells[i as int],
        forall|g: int, h: int|
            0 <= g < groups.len() && 0 <= h < groups.len() && (
            #[trigger] groups[g]).members@.contains(i) && (
            #[trigger] groups[h]).members@.contains(i) ==> g == h,
{
    assert(cells[i as int] == cells[i as int]);
    let g = choose|g: int| 0 <= g < groups.len() && (#[trigger] groups[g]).cell == cells[i as int];
    assert(groups[g].members@.contains(i));
    assert forall|g: int, h: int|
        0 <= g < groups.len() && 0 <= h < groups.len() && (#[trigger] groups[g]).members@.contains(
            i,
        ) && (#[trigger] groups[h]).members@.contains(i) implies g == h by {
        let a = groups[g].members@.index_of(i);
        let b = groups[h].members@.index_of(i);
        assert(groups[g].members@[a] == i);
        assert(groups[h].members@[b] == i);
        assert(groups[g].cell == groups[h].cell);
    }
}

/// There are as many groups as occupied cells.
pub proof fn law_one_group_per_cell(cells: Seq<Cell>, groups: Seq<CellGroup>)
    requires
        is_grouping(cells, groups),
    ensures
        groups.len() == cells.to_set().len(),
{
    let listed = Seq::new(groups.len(), |g: int| groups[g].cell);
    assert(listed.no_duplicates()) by {
        assert forall|a: int, b: int| 0 <= a < b < listed.len() implies listed[a] != listed[b] by {
            assert(cell_before(groups[a].cell, groups[b].cell));
        }
    }
    listed.unique_seq_to_set();
    assert forall|cell: Cell| listed.to_set().contains(cell) <==> cells.to_set().contains(cell) by {
        if listed.to_set().contains(cell) {
            let g = listed.index_of(cell);
            let group = groups[g];
            assert(is_members(cells, group.cell, group.members@));
            let first = group.members@[0];
            assert(first < cells.len() && cells[first as int] == cell);
            assert(cells.contains(cell));
        }
        if cells.to_set().contains(cell) {
            let i = cells.index_of(cell);
            assert(cells[i] == cell);
            let g = choose|g: int|
                0 <= g < groups.len() && (#[trigger] groups[g]).cell == cells[i];
            assert(listed[g] == cell);
            assert(listed.contains(cell));
        }
    }
    assert(listed.to_set() =~= cells.to_set());
}

/// How many items each group has.
pub open spec fn member_counts(groups: Seq<CellGroup>) -> Seq<nat> {
    Seq::new(groups.len(), |g: int| groups[g].members@.len())
}

/// The items of the first `count` groups.
spec fn gathered(groups: Seq<CellGroup>, count: int) -> Set<usize>
    decreases count,
{
    if count <= 0 {
        Set::empty()
    } else {
        gathered(groups, count - 1).union(groups[count - 1].members@.to_set())
    }
}

proof fn lemma_gathered(cells: Seq<Cell>, groups: Seq<CellGroup>, count: int)
    requires
        is_grouping(cells, groups),
        0 <= count <= groups.len(),
    ensures
        gathered(groups, count).finite(),
        gathered(groups, count).len() == order::total(member_counts(groups).take(count)),
        forall|i: usize| #[trigger]
            gathered(groups, count).contains(i) <==> exists|g: int|
                0 <= g < count && (#[trigger] groups[g]).members@.contains(i),
    decreases count,
{
    let counts = member_counts(groups);
    if count > 0 {
        lemma_gathered(cells, groups, count - 1);
        let rest = gathered(groups, count - 1);
        let group = groups[count - 1];
        assert(is_members(cells, group.cell, group.members@));
        group.members@.unique_seq_to_set();
        vstd::seq_lib::seq_to_set_is_finite(group.members@);
        assert(rest.disjoint(group.members@.to_set())) by {
            assert forall|i: usize| rest.contains(i) implies !group.members@.to_set().contains(i) by {
                let g = choose|g: int|
                    0 <= g < count - 1 && (#[trigger] groups[g]).members@.contains(i);
                if group.members@.contains(i) {
                    let a = groups[g].members@.index_of(i);
                    let b = group.members@.index_of(i);
                    assert(is_members(cells, groups[g].cell, groups[g].members@));
                    assert(groups[g].members@[a] == i && group.members@[b] == i);
                    assert(cell_before(groups[g].cell, groups[count - 1].cell));
                }
            }
        }
        vstd::set_lib::lemma_set_disjoint_lens(rest, group.members@.to_set());
        assert(counts.take(count) =~= counts.take(count - 1).push(group.members@.len()));
        order::lemma_total_push(counts.take(count - 1), group.members@.len());
        assert forall|i: usize| #[trigger] gathered(groups, count).contains(i) <==> exists|g: int|
            0 <= g < count && (#[trigger] groups[g]).members@.contains(i) by {
            if gathered(groups, count).contains(i) {
                if group.members@.contains(i) {
                    assert(groups[count - 1].members@.contains(i));
                } else {
                    let g = choose|g: int|
                        0 <= g < count - 1 && (#[trigger] groups[g]).members@.contains(i);
                    assert(groups[g].members@.contains(i));
                }
            }
            if exists|g: int| 0 <= g < count && (#[trigger] groups[g]).members@.contains(i) {
                let g = choose|g: int|
                    0 <= g < count && (#[trigger] groups[g]).members@.contains(i);
                if g < count - 1 {
                    assert(rest.contains(i));
                }
            }
        }
    } else {
        assert(counts.take(count) =~= Seq::empty());
    }
}

/// The groups count every item once.
pub proof fn law_grouping_counts_every_item(cells: Seq<Cell>, groups: Seq<CellGroup>)
    requires
        is_grouping(cells, groups),
        cells.len() <= usize::MAX,
    ensures
        order::total(member_counts(groups)) == cells.len(),
{
    let count = groups.len() as int;
    lemma_gathered(cells, groups, count);
    assert(member_counts(groups).take(count) =~= member_counts(groups));
    let all = Seq::new(cells.len(), |i: int| i as usize);
    all.unique_seq_to_set();
    assert forall|i: usize| gathered(groups, count).contains(i) <==> all.to_set().contains(i) by {
        if gathered(groups, count).contains(i) {
            let g = choose|g: int| 0 <= g < count && (#[trigger] groups[g]).members@.contains(i);
            let a = groups[g].members@.index_of(i);
            assert(is_members(cells, groups[g].cell, groups[g].members@));
            assert(groups[g].members@[a] == i);
            assert(all[i as int] == i);
        }
        if all.to_set().contains(i) {
            let k = all.index_of(i);
            assert(all[k] == i);
            law_grouping_partitions(cells, groups, i);
            let g = choose|g: int|
                0 <= g < groups.len() && (#[trigger] groups[g]).members@.contains(i)
                    && groups[g].cell == cells[i as int];
            assert(groups[g].members@.contains(i));
        }
    }
    assert(gathered(groups, count) =~= all.to_set());
}

proof fn lemma_same_member(cells: Seq<Cell>, cell: Cell, a: Seq<usize>, b: Seq<usize>, i: int)
    requires
        is_members(cells, cell, a),
        is_members(cells, cell, b),
        0 <= i < a.len(),
    ensures
        i < b.len(),
        a[i] == b[i],
    decreases i,
{
    assert forall|j: int| 0 <= j < i implies j < b.len() && a[j] == b[j] by {
        lemma_same_member(cells, cell, a, b, j);
    }
    assert(cells[a[i] as int] == cell);
    assert(b.contains(a[i]));
    let k = b.index_of(a[i]);
    if k < i {
        assert(a[k] == b[k]);
        assert(a[k] < a[i]);
    }
    if k > i {
        assert(b[i] < b[k]);
        assert(cells[b[i] as int] == cell);
        assert(a.contains(b[i]));
        let m = a.index_of(b[i]);
        if m < i {
            assert(a[m] == b[m]);
            assert(b[m] < b[i]);
        } else if m > i {
            assert(a[i] < a[m]);
        }
    }
}

/// The items of a cell are one list only.
pub proof fn lemma_members_unique(cells: Seq<Cell>, cell: Cell, a: Seq<usize>, b: Seq<usize>)
    requires
        is_members(cells, cell, a),
        is_members(cells, cell, b),
    ensures
        a == b,
{
    assert forall|i: int| 0 <= i < a.len() implies i < b.len() && a[i] == b[i] by {
        lemma_same_member(cells, cell, a, b, i);
    }
    if a.len() > 0 {
        lemma_same_member(cells, cell, a, b, a.len() - 1);
    }
    if b.len() > 0 {
        lemma_same_member(cells, cell, b, a, b.len() - 1);
    }
    assert(a =~= b);
}

proof fn lemma_same_cell(cells: Seq<Cell>, a: Seq<CellGroup>, b: Seq<CellGroup>, i: int)
    requires
        is_grouping(cells, a),
        is_grouping(cells, b),
        0 <= i < a.len(),
        0 <= i < b.len(),
    ensures
        a[i].cell == b[i].cell,
    decreases i,
{
    assert forall|j: int| 0 <= j < i implies (#[trigger] a[j]).cell == b[j].cell by {
        lemma_same_cell(cells, a, b, j);
    }
    let first = a[i].members@[0] as int;
    assert(is_members(cells, a[i].cell, a[i].members@));
    assert(cells[first] == a[i].cell);
    let k = choose|k: int| 0 <= k < b.len() && (#[trigger] b[k]).cell == cells[first];
    let other = b[i].members@[0] as int;
    assert(is_members(cells, b[i].cell, b[i].members@));
    assert(cells[other] == b[i].cell);
    let m = choose|m: int| 0 <= m < a.len() && (#[trigger] a[m]).cell == cells[other];
    if k < i {
        assert(a[k].cell == b[k].cell);
        assert(cell_before(a[k].cell, a[i].cell));
    }
    if m < i {
        assert(a[m].cell == b[m].cell);
        assert(cell_before(b[m].cell, b[i].cell));
    }
    if k > i && m > i {
        assert(cell_before(b[i].cell, b[k].cell));
        assert(cell_before(a[i].cell, a[m].cell));
    }
}

/// Items are grouped in one way only.
pub proof fn law_grouping_is_unique(cells: Seq<Cell>, a: Seq<CellGroup>, b: Seq<CellGroup>)
    requires
        is_grouping(cells, a),
        is_grouping(cells, b),
    ensures
        a.len() == b.len(),
        forall|i: int|
            0 <= i < a.len() ==> (#[trigger] a[i]).cell == b[i].cell && a[i].members@
                == b[i].members@,
{
    law_one_group_per_cell(cells, a);
    law_one_group_per_cell(cells, b);
    assert forall|i: int| 0 <= i < a.len() implies (#[trigger] a[i]).cell == b[i].cell
        && a[i].members@ == b[i].members@ by {
        lemma_same_cell(cells, a, b, i);
        assert(b[i].cell == a[i].cell);
        lemma_members_unique(cells, a[i].cell, a[i].members@, b[i].members@);
    }
}

} // verus!
