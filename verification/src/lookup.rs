//! The grid of identifier sets that answers "who is near whom".

use vstd::prelude::*;
use vstd::seq_lib::lemma_no_dup_in_concat;
use crate::chunk::{
    cell_index,
    cell_of,
    home_cell,
    neighborhood_offset,
    valid_cell,
    within_one,
    lemma_cell_coordinate_range,
    lemma_near_coordinates,
    CellCoord,
    Chunk,
    CHUNK_CELLS,
};
use crate::entity_set::{empty_cells, EntitySet};

verus! {

/// For every cell of the grid, the identifiers of the particles in it.
pub struct EntityLookupChunk(pub Chunk<EntitySet>);

impl View for EntityLookupChunk {
    type V = Seq<Set<u64>>;

    /// The sets of the cells, in the order of the cell array.
    open spec fn view(&self) -> Seq<Set<u64>> {
        Seq::new(CHUNK_CELLS as nat, |i: int| self.0.cells@[i]@)
    }
}

/// The identifiers that occur in some cell.
pub open spec fn occupants(cells: Seq<Set<u64>>) -> Set<u64> {
    Set::new(|id: u64| exists|i: int| 0 <= i < cells.len() && #[trigger] cells[i].contains(id))
}

/// No identifier occurs in two cells.
pub open spec fn single_membership(cells: Seq<Set<u64>>) -> bool {
    forall|i: int, j: int, id: u64|
        0 <= i < cells.len() && 0 <= j < cells.len() && i != j && #[trigger] cells[i].contains(id)
            ==> !#[trigger] cells[j].contains(id)
}

/// In how many cells `id` occurs.
pub open spec fn occurrences(cells: Seq<Set<u64>>, id: u64) -> nat
    decreases cells.len(),
{
    if cells.len() == 0 {
        0
    } else {
        occurrences(cells.drop_last(), id) + if cells.last().contains(id) {
            1nat
        } else {
            0nat
        }
    }
}

/// The cells hold every identifier of `ids` exactly once and no other
/// identifier at all.
pub open spec fn is_partition_of(cells: Seq<Set<u64>>, ids: Set<u64>) -> bool {
    forall|id: u64|
        #[trigger] occurrences(cells, id) == if ids.contains(id) {
            1nat
        } else {
            0nat
        }
}

/// The cells after `id` has moved from cell `from` to cell `to`. A move
/// within one cell changes nothing.
pub open spec fn moved(cells: Seq<Set<u64>>, id: u64, from: int, to: int) -> Seq<Set<u64>> {
    if from == to {
        cells
    } else {
        cells.update(from, cells[from].remove(id)).update(to, cells[to].insert(id))
    }
}

/// An identifier occurs in no cell exactly when its count is zero.
pub proof fn lemma_occurrences_zero(cells: Seq<Set<u64>>, id: u64)
    ensures
        occurrences(cells, id) == 0 <==> forall|i: int|
            0 <= i < cells.len() ==> !#[trigger] cells[i].contains(id),
    decreases cells.len(),
{
    if cells.len() > 0 {
        let front = cells.drop_last();
        lemma_occurrences_zero(front, id);
        assert(forall|i: int| 0 <= i < front.len() ==> front[i] == cells[i]);
        if occurrences(cells, id) == 0 {
            assert forall|i: int| 0 <= i < cells.len() implies !#[trigger] cells[i].contains(
                id,
            ) by {
                if i < front.len() {
                    assert(!front[i].contains(id));
                }
            }
        }
    }
}

/// An identifier that occurs in two cells is counted at least twice.
pub proof fn lemma_occurrences_twice(cells: Seq<Set<u64>>, id: u64, i: int, j: int)
    requires
        0 <= i < j < cells.len(),
        cells[i].contains(id),
        cells[j].contains(id),
    ensures
        occurrences(cells, id) >= 2,
    decreases cells.len(),
{
    let front = cells.drop_last();
    assert(front[i] == cells[i]);
    if j == cells.len() - 1 {
        lemma_occurrences_zero(front, id);
    } else {
        assert(front[j] == cells[j]);
        lemma_occurrences_twice(front, id, i, j);
    }
}

/// Where no identifier occurs in two cells, none is counted twice.
pub proof fn lemma_occurrences_once(cells: Seq<Set<u64>>, id: u64)
    requires
        single_membership(cells),
    ensures
        occurrences(cells, id) <= 1,
    decreases cells.len(),
{
    if cells.len() > 0 {
        let front = cells.drop_last();
        assert(forall|i: int| 0 <= i < front.len() ==> front[i] == cells[i]);
        assert(single_membership(front)) by {
            assert forall|i: int, j: int, other: u64|
                0 <= i < front.len() && 0 <= j < front.len() && i != j && #[trigger] front[i].contains(
                    other,
                ) implies !#[trigger] front[j].contains(other) by {
                assert(cells[i].contains(other));
                assert(!cells[j].contains(other));
            }
        }
        lemma_occurrences_once(front, id);
        if cells.last().contains(id) {
            lemma_occurrences_zero(front, id);
            assert forall|i: int| 0 <= i < front.len() implies !#[trigger] front[i].contains(
                id,
            ) by {
                assert(cells[cells.len() - 1].contains(id));
                assert(!cells[i].contains(id));
            }
        }
    }
}

/// The cells partition `ids` exactly when no identifier occurs in two cells
/// and the identifiers that occur are those of `ids`.
pub proof fn lemma_partition(cells: Seq<Set<u64>>, ids: Set<u64>)
    ensures
        is_partition_of(cells, ids) <==> single_membership(cells) && occupants(cells) == ids,
{
    if is_partition_of(cells, ids) {
        assert forall|i: int, j: int, id: u64|
            0 <= i < cells.len() && 0 <= j < cells.len() && i != j && #[trigger] cells[i].contains(
                id,
            ) implies !#[trigger] cells[j].contains(id) by {
            if cells[j].contains(id) {
                if i < j {
                    lemma_occurrences_twice(cells, id, i, j);
                } else {
                    lemma_occurrences_twice(cells, id, j, i);
                }
                assert(occurrences(cells, id) <= 1);
            }
        }
        assert forall|id: u64| occupants(cells).contains(id) == ids.contains(id) by {
            lemma_occurrences_zero(cells, id);
            assert(occurrences(cells, id) <= 1);
        }
        assert(occupants(cells) =~= ids);
    }
    if single_membership(cells) && occupants(cells) == ids {
        assert forall|id: u64|
            #[trigger] occurrences(cells, id) == if ids.contains(id) {
                1nat
            } else {
                0nat
            } by {
            lemma_occurrences_zero(cells, id);
            lemma_occurrences_once(cells, id);
            assert(occupants(cells).contains(id) == ids.contains(id));
        }
    }
}

/// Filing an identifier that occurs nowhere keeps every identifier in one
/// cell and adds the new one to those that occur.
pub proof fn lemma_insert_fresh(cells: Seq<Set<u64>>, ids: Set<u64>, id: u64, at: int)
    requires
        is_partition_of(cells, ids),
        !ids.contains(id),
        0 <= at < cells.len(),
    ensures
        is_partition_of(cells.update(at, cells[at].insert(id)), ids.insert(id)),
{
    let after = cells.update(at, cells[at].insert(id));
    lemma_partition(cells, ids);
    assert forall|i: int| 0 <= i < cells.len() implies !#[trigger] cells[i].contains(id) by {
        if cells[i].contains(id) {
            assert(occupants(cells).contains(id));
        }
    }
    assert(single_membership(after));
    assert forall|other: u64| occupants(after).contains(other) == ids.insert(id).contains(
        other,
    ) by {
        if occupants(after).contains(other) {
            let i = choose|i: int| 0 <= i < after.len() && #[trigger] after[i].contains(other);
            if other != id {
                assert(cells[i].contains(other));
                assert(occupants(cells).contains(other));
            }
        }
        if ids.insert(id).contains(other) {
            if other == id {
                assert(after[at].contains(other));
            } else {
                assert(occupants(cells).contains(other));
                let i = choose|i: int| 0 <= i < cells.len() && #[trigger] cells[i].contains(other);
                assert(after[i].contains(other));
            }
        }
    }
    assert(occupants(after) =~= ids.insert(id));
    lemma_partition(after, ids.insert(id));
}

/// Moving an identifier out of the cell that holds it and into another
/// keeps the partition: nothing is lost and nothing occurs twice.
pub proof fn lemma_move_keeps_partition(
    cells: Seq<Set<u64>>,
    ids: Set<u64>,
    id: u64,
    from: int,
    to: int,
)
    requires
        is_partition_of(cells, ids),
        0 <= from < cells.len(),
        0 <= to < cells.len(),
        cells[from].contains(id),
    ensures
        is_partition_of(moved(cells, id, from, to), ids),
{
    let after = moved(cells, id, from, to);
    lemma_partition(cells, ids);
    if from != to {
        assert forall|i: int| 0 <= i < cells.len() && i != from implies !#[trigger] cells[i].contains(
            id,
        ) by {
            assert(cells[from].contains(id));
        }
        assert forall|i: int, j: int, other: u64|
            0 <= i < after.len() && 0 <= j < after.len() && i != j && #[trigger] after[i].contains(
                other,
            ) implies !#[trigger] after[j].contains(other) by {
            if other != id {
                assert(cells[i].contains(other));
                assert(!cells[j].contains(other));
            }
        }
        assert forall|other: u64| occupants(after).contains(other) == ids.contains(other) by {
            if occupants(after).contains(other) {
                let i = choose|i: int| 0 <= i < after.len() && #[trigger] after[i].contains(other);
                if other != id {
                    assert(cells[i].contains(other));
                }
                assert(occupants(cells).contains(other));
            }
            if ids.contains(other) {
                assert(occupants(cells).contains(other));
                if other == id {
                    assert(after[to].contains(other));
                } else {
                    let i = choose|i: int|
                        0 <= i < cells.len() && #[trigger] cells[i].contains(other);
                    assert(after[i].contains(other));
                }
            }
        }
        assert(occupants(after) =~= ids);
    }
    lemma_partition(after, ids);
}

/// `items` names every member of `set` once and nothing else.
pub open spec fn lists(items: Seq<u64>, set: Set<u64>) -> bool {
    items.no_duplicates() && items.to_set() == set
}

/// `items` is made of one listing per set of `sets`, one after the other in
/// the order of `sets`. The order within a listing is left open.
pub open spec fn lists_in_order(items: Seq<u64>, sets: Seq<Set<u64>>) -> bool
    decreases sets.len(),
{
    if sets.len() == 0 {
        items.len() == 0
    } else {
        exists|cut: int|
            0 <= cut <= items.len() && lists_in_order(
                #[trigger] items.subrange(0, cut),
                sets.drop_last(),
            ) && lists(items.subrange(cut, items.len() as int), sets.last())
    }
}

impl Default for EntityLookupChunk {
    /// A grid of empty cells.
    fn default() -> (grid: Self)
        ensures
            grid@ == Seq::new(CHUNK_CELLS as nat, |i: int| Set::<u64>::empty()),
            is_partition_of(grid@, Set::empty()),
    {
        let grid = EntityLookupChunk(Chunk { cells: empty_cells() });
        assert(grid@ =~= Seq::new(CHUNK_CELLS as nat, |i: int| Set::<u64>::empty()));
        proof {
            assert(occupants(grid@) =~= Set::<u64>::empty());
            lemma_partition(grid@, Set::empty());
        }
        grid
    }
}

impl EntityLookupChunk {
    /// The set of cell `(x, y)`, empty where the pair names no cell.
    pub open spec fn cell_set(&self, x: int, y: int) -> Set<u64> {
        if valid_cell(x, y) {
            self@[cell_index(x, y)]
        } else {
            Set::empty()
        }
    }

    /// The sets of the 3x3 block of cells around `(x, y)`, in the order of
    /// [`neighborhood_offset`].
    pub open spec fn block_sets(&self, x: int, y: int) -> Seq<Set<u64>> {
        Seq::new(
            9,
            |k: int| self.cell_set(x + neighborhood_offset(k).0, y + neighborhood_offset(k).1),
        )
    }

    /// The block around the cell of a point holds every identifier that is
    /// filed under the cell of a position within one unit of the point on
    /// both axes: the search of the block misses nothing within the radius.
    pub proof fn lemma_block_covers_radius(&self, x: u32, y: u32, px: u32, py: u32, id: u64)
        requires
            cell_of(x, y).is_some(),
            home_cell(px, py) matches Some(h) && self.cell_set(h.x as int, h.y as int).contains(id),
            within_one(px, x),
            within_one(py, y),
        ensures
            exists|k: int|
                0 <= k < 9 && #[trigger] self.block_sets(
                    cell_of(x, y).unwrap().x as int,
                    cell_of(x, y).unwrap().y as int,
                )[k].contains(id),
    {
        let c = cell_of(x, y).unwrap();
        let h = home_cell(px, py).unwrap();
        lemma_near_coordinates(px, x);
        lemma_near_coordinates(py, y);
        lemma_cell_coordinate_range(x);
        lemma_cell_coordinate_range(y);
        let k = (h.x - c.x + 1) * 3 + (h.y - c.y + 1);
        assert(neighborhood_offset(k) == (h.x - c.x, h.y - c.y));
        assert(self.block_sets(c.x as int, c.y as int)[k] == self.cell_set(h.x as int, h.y as int));
    }

    /// Files `element` under cell `(x, y)`. Where the pair names no cell,
    /// nothing changes and `None` is returned.
    pub fn insert(&mut self, element: u64, x: usize, y: usize) -> (done: Option<()>)
        ensures
            valid_cell(x as int, y as int) ==> done == Some(()) && final(self)@ == old(self)@.update(
                cell_index(x as int, y as int),
                old(self)@[cell_index(x as int, y as int)].insert(element),
            ),
            !valid_cell(x as int, y as int) ==> done.is_none() && *final(self) == *old(self),
            forall|ids: Set<u64>|
                valid_cell(x as int, y as int) && #[trigger] is_partition_of(old(self)@, ids)
                    && !ids.contains(element) ==> is_partition_of(final(self)@, ids.insert(element)),
    {
        match self.0.get_mut(x, y) {
            Some(cell) => {
                cell.insert(element);
            },
            None => {
                return None;
            },
        }
        assert(self@ =~= old(self)@.update(
            cell_index(x as int, y as int),
            old(self)@[cell_index(x as int, y as int)].insert(element),
        ));
        proof {
            assert forall|ids: Set<u64>|
                #[trigger] is_partition_of(old(self)@, ids) && !ids.contains(
                    element,
                ) implies is_partition_of(self@, ids.insert(element)) by {
                lemma_insert_fresh(old(self)@, ids, element, cell_index(x as int, y as int));
            }
        }
        Some(())
    }

    /// Moves `entity` from cell `from` to cell `to`: out of the one set
    /// and into the other, as one step. Where the two are the same cell,
    /// the grid is left untouched.
    pub fn relocate(&mut self, entity: u64, from: CellCoord, to: CellCoord)
        requires
            valid_cell(from.x as int, from.y as int),
            valid_cell(to.x as int, to.y as int),
        ensures
            final(self)@ == moved(
                old(self)@,
                entity,
                cell_index(from.x as int, from.y as int),
                cell_index(to.x as int, to.y as int),
            ),
            from == to ==> *final(self) == *old(self),
            forall|ids: Set<u64>|
                #[trigger] is_partition_of(old(self)@, ids) && old(self).cell_set(
                    from.x as int,
                    from.y as int,
                ).contains(entity) ==> is_partition_of(final(self)@, ids),
    {
        let ghost source = cell_index(from.x as int, from.y as int);
        let ghost target = cell_index(to.x as int, to.y as int);
        if from.x != to.x || from.y != to.y {
            match self.0.get_mut(from.x as usize, from.y as usize) {
                Some(cell) => {
                    cell.remove(entity);
                },
                None => {},
            }
            assert(self@ =~= old(self)@.update(source, old(self)@[source].remove(entity)));
            self.insert(entity, to.x as usize, to.y as usize);
        }
        proof {
            assert(self@ =~= moved(old(self)@, entity, source, target));
            assert forall|ids: Set<u64>|
                #[trigger] is_partition_of(old(self)@, ids) && old(self).cell_set(
                    from.x as int,
                    from.y as int,
                ).contains(entity) implies is_partition_of(self@, ids) by {
                lemma_move_keeps_partition(old(self)@, ids, entity, source, target);
            }
        }
    }

    /// The identifiers filed under the 3x3 block of cells around `(x, y)`:
    /// the cells in the order of [`neighborhood_offset`], each cell's
    /// identifiers once and together, cells outside the grid left out.
    pub fn get_neighborhood_entities(&self, x: usize, y: usize) -> (entities: Vec<u64>)
        ensures
            lists_in_order(entities@, self.block_sets(x as int, y as int)),
            forall|id: u64|
                entities@.contains(id) <==> exists|k: int|
                    0 <= k < 9 && #[trigger] self.block_sets(x as int, y as int)[k].contains(id),
            single_membership(self@) ==> entities@.no_duplicates(),
    {
        let block = self.0.get_neighborhood(x, y);
        let mut entities: Vec<u64> = Vec::new();
        let mut k: usize = 0;
        let ghost sets = self.block_sets(x as int, y as int);
        assert(sets.take(0) =~= Seq::<Set<u64>>::empty());
        while k < 9
            invariant
                k <= 9,
                sets == self.block_sets(x as int, y as int),
                forall|j: int|
                    0 <= j < 9 ==> #[trigger] block@[j] == self.0.cell_at(
                        x + neighborhood_offset(j).0,
                        y + neighborhood_offset(j).1,
                    ),
                lists_in_order(entities@, sets.take(k as int)),
                forall|id: u64|
                    entities@.contains(id) <==> exists|j: int|
                        0 <= j < k && #[trigger] sets[j].contains(id),
                single_membership(self@) ==> entities@.no_duplicates(),
            decreases 9 - k,
        {
            let ghost before = entities@;
            let ghost segment: Seq<u64>;
            match block[k] {
                Some(cell) => {
                    let mut ids = cell.ids();
                    proof {
                        segment = ids@;
                    }
                    entities.append(&mut ids);
                },
                None => {
                    proof {
                        segment = Seq::empty();
                        assert(segment.to_set() =~= Set::<u64>::empty());
                    }
                },
            }
            proof {
                let after = entities@;
                assert(after =~= before + segment);
                assert(lists(segment, sets[k as int]));
                assert(after.subrange(0, before.len() as int) =~= before);
                assert(after.subrange(before.len() as int, after.len() as int) =~= segment);
                assert(sets.take(k + 1).drop_last() =~= sets.take(k as int));
                assert(sets.take(k + 1).last() == sets[k as int]);
                assert(lists_in_order(after, sets.take(k + 1)));
                if single_membership(self@) {
                    assert forall|a: int, b: int|
                        0 <= a < before.len() && 0 <= b < segment.len() implies before[a]
                        != segment[b] by {
                        let id = before[a];
                        if id == segment[b] {
                            assert(before.contains(id));
                            assert(segment.contains(id));
                            let j = choose|j: int| 0 <= j < k && #[trigger] sets[j].contains(id);
                            let here = cell_index(
                                x + neighborhood_offset(k as int).0,
                                y + neighborhood_offset(k as int).1,
                            );
                            let there = cell_index(
                                x + neighborhood_offset(j).0,
                                y + neighborhood_offset(j).1,
                            );
                            assert(sets[k as int].contains(id));
                            assert(self@[here].contains(id));
                            assert(self@[there].contains(id));
                            assert(here != there);
                        }
                    }
                    lemma_no_dup_in_concat(before, segment);
                }
                assert forall|id: u64|
                    after.contains(id) <==> exists|j: int|
                        0 <= j < k + 1 && #[trigger] sets[j].contains(id) by {
                    if after.contains(id) {
                        let i = choose|i: int| 0 <= i < after.len() && after[i] == id;
                        if i < before.len() {
                            assert(before[i] == id);
                            assert(before.contains(id));
                        } else {
                            assert(segment[i - before.len()] == id);
                            assert(segment.contains(id));
                            assert(sets[k as int].contains(id));
                        }
                    }
                    if exists|j: int| 0 <= j < k + 1 && #[trigger] sets[j].contains(id) {
                        let j = choose|j: int| 0 <= j < k + 1 && #[trigger] sets[j].contains(id);
                        if j < k {
                            assert(before.contains(id));
                            let i = choose|i: int| 0 <= i < before.len() && before[i] == id;
                            assert(after[i] == id);
                        } else {
                            assert(segment.contains(id));
                            let i = choose|i: int| 0 <= i < segment.len() && segment[i] == id;
                            assert(after[before.len() + i] == id);
                        }
                    }
                }
            }
            k += 1;
        }
        assert(sets.take(9) =~= sets);
        entities
    }

    /// The candidates for influence on the point `(x, y)`, given as
    /// single-precision patterns: the identifiers filed under the 3x3 block
    /// around the point's cell. `None` where the point has no cell
    /// coordinate.
    pub fn entities_near(&self, x: u32, y: u32) -> (found: Option<Vec<u64>>)
        ensures
            match (cell_of(x, y), found) {
                (Some(centre), Some(entities)) => {
                    &&& lists_in_order(
                        entities@,
                        self.block_sets(centre.x as int, centre.y as int),
                    )
                    &&& forall|id: u64|
                        entities@.contains(id) <==> exists|k: int|
                            0 <= k < 9 && #[trigger] self.block_sets(
                                centre.x as int,
                                centre.y as int,
                            )[k].contains(id)
                    &&& single_membership(self@) ==> entities@.no_duplicates()
                    &&& forall|px: u32, py: u32, id: u64|
                        #![trigger within_one(px, x), within_one(py, y), entities@.contains(id)]
                        within_one(px, x) && within_one(py, y) && (home_cell(px, py) matches Some(
                            h,
                        ) && self.cell_set(h.x as int, h.y as int).contains(id))
                            ==> entities@.contains(id)
                },
                (None, None) => true,
                _ => false,
            },
    {
        match Chunk::<EntitySet>::get_chunk_pos(x, y) {
            Some(centre) => {
                let entities = self.get_neighborhood_entities(
                    centre.x as usize,
                    centre.y as usize,
                );
                proof {
                    assert forall|px: u32, py: u32, id: u64|
                        within_one(px, x) && within_one(py, y) && (home_cell(px, py) matches Some(
                            h,
                        ) && self.cell_set(h.x as int, h.y as int).contains(
                            id,
                        )) implies entities@.contains(id) by {
                        self.lemma_block_covers_radius(x, y, px, py, id);
                    }
                }
                Some(entities)
            },
            None => None,
        }
    }

    /// Whether `element` is filed under cell `(x, y)`.
    pub fn contains(&self, element: u64, x: usize, y: usize) -> (present: bool)
        ensures
            present == self.cell_set(x as int, y as int).contains(element),
    {
        match self.0.get(x, y) {
            Some(cell) => cell.contains(element),
            None => false,
        }
    }

    /// The identifiers filed under cell `(x, y)`, each once, in no particular
    /// order; `None` where the pair names no cell.
    pub fn cell_entities(&self, x: usize, y: usize) -> (listed: Option<Vec<u64>>)
        ensures
            valid_cell(x as int, y as int) == listed.is_some(),
            listed matches Some(ids) ==> lists(ids@, self.cell_set(x as int, y as int)),
    {
        match self.0.get(x, y) {
            Some(cell) => Some(cell.ids()),
            None => None,
        }
    }
}

} // verus!
