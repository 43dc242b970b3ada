//! Storage of one archetype: dense component columns, the entity list that
//! runs parallel to them, and the sparse table from entity id to dense index.
use vstd::prelude::*;

use crate::entity::{ArchetypeTag, Entity};
use crate::sequence::swap_removed;

verus! {

/// One archetype as mathematics: the live entities in dense order, the
/// component values of each (one per declared component, in declaration
/// order), and the number of ids handed out so far.
pub struct ArchetypeModel<C> {
    pub tag: ArchetypeTag,
    pub width: nat,
    pub entities: Seq<Entity>,
    pub rows: Seq<Seq<C>>,
    pub next_id: nat,
}

impl<C> ArchetypeModel<C> {
    /// The archetype with no entity and no id handed out.
    pub open spec fn empty(tag: ArchetypeTag, width: nat) -> Self {
        ArchetypeModel { tag, width, entities: Seq::empty(), rows: Seq::empty(), next_id: 0 }
    }

    /// Rows and entities run parallel, every row has one value per component,
    /// every live handle carries this archetype's tag and an id that was handed
    /// out, and no handle is live twice.
    pub open spec fn wf(self) -> bool {
        &&& self.rows.len() == self.entities.len()
        &&& self.next_id <= u64::MAX
        &&& forall|i: int| 0 <= i < self.rows.len() ==> (#[trigger] self.rows[i]).len() == self.width
        &&& forall|i: int|
            0 <= i < self.entities.len() ==> (#[trigger] self.entities[i]).archetype_tag
                == self.tag && self.entities[i].id < self.next_id
        &&& self.entities.no_duplicates()
    }

    /// Number of live entities.
    pub open spec fn len(self) -> nat {
        self.entities.len()
    }

    /// Whether a handle names an entity that lives here.
    pub open spec fn is_live(self, e: Entity) -> bool {
        self.entities.contains(e)
    }

    /// Dense position of a live entity.
    pub open spec fn index_of(self, e: Entity) -> int {
        self.entities.index_of(e)
    }

    /// The handle that the next creation returns.
    pub open spec fn next_entity(self) -> Entity {
        Entity { archetype_tag: self.tag, id: self.next_id as u64 }
    }

    /// Whether a row may be added: it has one value per component and an id is
    /// left to hand out.
    pub open spec fn admits(self, row: Seq<C>) -> bool {
        row.len() == self.width && self.next_id < u64::MAX
    }

    /// The archetype with one more entity, at the end and under the next id.
    pub open spec fn create(self, row: Seq<C>) -> Self {
        ArchetypeModel {
            entities: self.entities.push(self.next_entity()),
            rows: self.rows.push(row),
            next_id: self.next_id + 1,
            ..self
        }
    }

    /// Removal by swap: the last entity takes the place of the removed one.
    /// Handles that are not live change nothing.
    pub open spec fn destroy(self, e: Entity) -> Self {
        if self.is_live(e) {
            ArchetypeModel {
                entities: swap_removed(self.entities, self.index_of(e)),
                rows: swap_removed(self.rows, self.index_of(e)),
                ..self
            }
        } else {
            self
        }
    }

    /// The component values of a live entity.
    pub open spec fn row_of(self, e: Entity) -> Option<Seq<C>> {
        if self.is_live(e) {
            Some(self.rows[self.index_of(e)])
        } else {
            None
        }
    }

    /// Component `column` of the entity at dense position `index` replaced.
    pub open spec fn set(self, index: int, column: int, value: C) -> Self {
        ArchetypeModel { rows: self.rows.update(index, self.rows[index].update(column, value)), ..self }
    }

    /// What a query sees of the entity at dense position `index`: its handle and
    /// the values of the chosen columns, in the order chosen.
    pub open spec fn project(self, index: int, columns: Seq<int>) -> RowView<C> {
        RowView {
            entity: self.entities[index],
            values: Seq::new(columns.len(), |k: int| self.rows[index][columns[k]]),
        }
    }

    /// All entities in dense order, each seen through the chosen columns.
    pub open spec fn project_all(self, columns: Seq<int>) -> Seq<RowView<C>> {
        Seq::new(self.entities.len(), |i: int| self.project(i, columns))
    }

    /// In a well-formed archetype a live handle sits at exactly one position.
    pub proof fn lemma_index_of(self, e: Entity, i: int)
        requires
            self.wf(),
            0 <= i < self.entities.len(),
            self.entities[i] == e,
        ensures
            self.is_live(e),
            self.index_of(e) == i,
    {
        assert(self.entities.contains(e));
        let j = self.entities.index_of(e);
        assert(0 <= j < self.entities.len() && self.entities[j] == e);
    }

    /// Creation keeps an archetype well formed and puts the new entity last.
    pub proof fn lemma_create_wf(self, row: Seq<C>)
        requires
            self.wf(),
            self.admits(row),
        ensures
            self.create(row).wf(),
            self.create(row).is_live(self.next_entity()),
            self.create(row).index_of(self.next_entity()) == self.len(),
    {
        let after = self.create(row);
        let e = self.next_entity();
        assert forall|i: int, j: int|
            0 <= i < after.entities.len() && 0 <= j < after.entities.len() && i != j implies after.entities[i]
            != after.entities[j] by {
            if i < self.entities.len() && j < self.entities.len() {
                assert(self.entities[i] != self.entities[j]);
            } else if i < self.entities.len() {
                assert(self.entities[i].id < self.next_id);
            } else {
                assert(self.entities[j].id < self.next_id);
            }
        }
        assert(after.entities[self.len() as int] == e);
        after.lemma_index_of(e, self.len() as int);
    }

    /// Destruction keeps an archetype well formed, leaves the handle stale and
    /// takes exactly one entity away if the handle was live.
    pub proof fn lemma_destroy_wf(self, e: Entity)
        requires
            self.wf(),
        ensures
            self.destroy(e).wf(),
            !self.destroy(e).is_live(e),
            self.is_live(e) ==> self.destroy(e).len() == self.len() - 1,
    {
        if self.is_live(e) {
            let i = self.index_of(e);
            let after = self.destroy(e);
            let last = self.entities.len() - 1;
            assert forall|a: int| 0 <= a < after.entities.len() implies after.entities[a] == (if a == i {
                self.entities[last]
            } else {
                self.entities[a]
            }) by {}
            assert forall|a: int, b: int|
                0 <= a < after.entities.len() && 0 <= b < after.entities.len() && a != b implies after.entities[a]
                != after.entities[b] by {
                let sa = if a == i { last } else { a };
                let sb = if b == i { last } else { b };
                assert(self.entities[sa] != self.entities[sb]);
            }
            assert forall|a: int| 0 <= a < after.entities.len() implies after.entities[a] != e by {
                let sa = if a == i { last } else { a };
                assert(self.entities[sa] != self.entities[i]);
            }
            assert forall|a: int| 0 <= a < after.rows.len() implies (#[trigger] after.rows[a]).len()
                == after.width by {
                let sa = if a == i { last } else { a };
                assert(after.rows[a] == self.rows[sa]);
            }
        }
    }
}

/// What a query yields for one entity, as mathematics.
pub struct RowView<C> {
    pub entity: Entity,
    pub values: Seq<C>,
}

/// What a query yields for one entity: its handle and references to the
/// requested components, in the order requested.
pub struct Row<'a, C> {
    pub entity: Entity,
    pub components: Vec<&'a C>,
}

impl<'a, C> View for Row<'a, C> {
    type V = RowView<C>;

    open spec fn view(&self) -> RowView<C> {
        RowView {
            entity: self.entity,
            values: Seq::new(self.components@.len(), |k: int| *self.components@[k]),
        }
    }
}

/// The views of a list of rows.
pub open spec fn row_views<'a, C>(rows: Seq<Row<'a, C>>) -> Seq<RowView<C>> {
    Seq::new(rows.len(), |i: int| rows[i]@)
}

/// Every column index names a column of an archetype of the given width.
pub open spec fn columns_within(columns: Seq<usize>, width: nat) -> bool {
    forall|k: int| 0 <= k < columns.len() ==> (#[trigger] columns[k]) < width
}

/// Column indices as mathematical integers.
pub open spec fn as_ints(columns: Seq<usize>) -> Seq<int> {
    Seq::new(columns.len(), |k: int| columns[k] as int)
}

/// The collection of all entities of one shape.
pub struct Archetype<C> {
    tag: ArchetypeTag,
    columns: Vec<Vec<C>>,
    slots: Vec<Entity>,
    lookup: Vec<Option<usize>>,
    next_id: u64,
}

impl<C> View for Archetype<C> {
    type V = ArchetypeModel<C>;

    closed spec fn view(&self) -> ArchetypeModel<C> {
        ArchetypeModel {
            tag: self.tag,
            width: self.columns@.len(),
            entities: self.slots@,
            rows: Seq::new(
                self.slots@.len(),
                |i: int| Seq::new(self.columns@.len(), |j: int| self.columns@[j]@[i]),
            ),
            next_id: self.next_id as nat,
        }
    }
}

impl<C> Archetype<C> {
    /// The storage invariant: every column is as long as the entity list, the
    /// lookup table has one entry per id handed out, and the table and the
    /// entity list agree in both directions.
    pub closed spec fn wf(&self) -> bool {
        &&& forall|j: int|
            0 <= j < self.columns@.len() ==> (#[trigger] self.columns@[j])@.len() == self.slots@.len()
        &&& self.lookup@.len() == self.next_id
        &&& forall|i: int|
            0 <= i < self.slots@.len() ==> {
                &&& (#[trigger] self.slots@[i]).archetype_tag == self.tag
                &&& self.slots@[i].id < self.next_id
                &&& self.lookup@[self.slots@[i].id as int] matches Some(p) && p == i
            }
        &&& forall|k: int|
            0 <= k < self.lookup@.len() ==> ((#[trigger] self.lookup@[k]) matches Some(i) ==> i
                < self.slots@.len() && self.slots@[i as int].id == k)
    }

    /// A well-formed archetype has a well-formed model.
    pub proof fn lemma_view_wf(&self)
        requires
            self.wf(),
        ensures
            self@.wf(),
    {
        assert forall|i: int, j: int|
            0 <= i < self.slots@.len() && 0 <= j < self.slots@.len() && i != j implies self.slots@[i]
            != self.slots@[j] by {
            assert(self.lookup@[self.slots@[i].id as int]->0 == i);
            assert(self.lookup@[self.slots@[j].id as int]->0 == j);
        }
    }

    /// An archetype of `width` components with no entity.
    pub fn new(tag: ArchetypeTag, width: usize) -> (r: Self)
        ensures
            r.wf(),
            r@ == ArchetypeModel::<C>::empty(tag, width as nat),
    {
        let mut columns: Vec<Vec<C>> = Vec::new();
        let mut j: usize = 0;
        while j < width
            invariant
                j <= width,
                columns@.len() == j,
                forall|m: int| 0 <= m < j ==> (#[trigger] columns@[m])@.len() == 0,
            decreases width - j,
        {
            columns.push(Vec::new());
            j += 1;
        }
        let r = Archetype { tag, columns, slots: Vec::new(), lookup: Vec::new(), next_id: 0 };
        assert(r@.rows =~= Seq::empty());
        assert(r@.entities =~= Seq::empty());
        r
    }

    /// Number of live entities.
    pub fn len(&self) -> (n: usize)
        ensures
            n == self@.len(),
    {
        self.slots.len()
    }

    /// Whether no entity lives here.
    pub fn is_empty(&self) -> (r: bool)
        ensures
            r == (self@.len() == 0),
    {
        self.slots.len() == 0
    }

    /// The tag that every handle of this archetype carries.
    pub fn tag(&self) -> (tag: ArchetypeTag)
        ensures
            tag == self@.tag,
    {
        self.tag
    }

    /// Number of components of each entity.
    pub fn width(&self) -> (n: usize)
        ensures
            n == self@.width,
    {
        self.columns.len()
    }

    /// Dense position of `e`, if it is live here. Stale handles and handles of
    /// another archetype have none.
    pub fn index_of(&self, e: Entity) -> (r: Option<usize>)
        requires
            self.wf(),
        ensures
            r is Some <==> self@.is_live(e),
            r matches Some(i) ==> i == self@.index_of(e) && i < self@.len(),
    {
        proof {
            self.lemma_view_wf();
        }
        if e.archetype_tag != self.tag {
            assert(!self.slots@.contains(e)) by {
                if self.slots@.contains(e) {
                    let i = self.slots@.index_of(e);
                    assert(self.slots@[i].archetype_tag == self.tag);
                }
            }
            return None;
        }
        if e.id >= self.lookup.len() as u64 {
            assert(!self.slots@.contains(e)) by {
                if self.slots@.contains(e) {
                    let i = self.slots@.index_of(e);
                    assert(self.slots@[i].id < self.next_id);
                }
            }
            return None;
        }
        match self.lookup[e.id as usize] {
            Some(i) => {
                proof {
                    assert(self.slots@[i as int].id == e.id);
                    assert(self.slots@[i as int].archetype_tag == self.tag);
                    assert(self.slots@[i as int] == e);
                    self@.lemma_index_of(e, i as int);
                }
                Some(i)
            },
            None => {
                assert(!self.slots@.contains(e)) by {
                    if self.slots@.contains(e) {
                        let i = self.slots@.index_of(e);
                        assert(self.lookup@[self.slots@[i].id as int] is Some);
                    }
                }
                None
            },
        }
    }

    /// Whether `create` may be called with this row.
    pub fn can_create(&self, row: &Vec<C>) -> (r: bool)
        ensures
            r == self@.admits(row@),
    {
        row.len() == self.columns.len() && self.next_id < u64::MAX
    }

    /// Appends an entity: each value of `row` goes onto its column, the new
    /// handle onto the entity list, and its dense position into the lookup
    /// table under a fresh id.
    pub fn create(&mut self, row: Vec<C>) -> (e: Entity)
        requires
            old(self).wf(),
            old(self)@.admits(row@),
        ensures
            final(self).wf(),
            final(self)@ == old(self)@.create(row@),
            e == old(self)@.next_entity(),
    {
        let ghost before = *self;
        let ghost values = row@;
        let index = self.slots.len();
        let e = Entity { archetype_tag: self.tag, id: self.next_id };
        self.lookup.push(Some(index));
        self.slots.push(e);
        let mut row = row;
        let mut j: usize = self.columns.len();
        while j > 0
            invariant
                j <= self.columns@.len(),
                self.columns@.len() == before.columns@.len(),
                self.columns@.len() == values.len(),
                row@ == values.take(j as int),
                self.tag == before.tag,
                self.next_id == before.next_id,
                self.slots@ == before.slots@.push(e),
                self.lookup@ == before.lookup@.push(Some(index)),
                forall|m: int| 0 <= m < j ==> self.columns@[m] == before.columns@[m],
                forall|m: int|
                    j <= m < self.columns@.len() ==> (#[trigger] self.columns@[m])@
                        == before.columns@[m]@.push(values[m]),
            decreases j,
        {
            j -= 1;
            let value = row.pop().unwrap();
            self.columns[j].push(value);
            assert(row@ =~= values.take(j as int));
        }
        self.next_id += 1;
        proof {
            assert(self@.entities == before@.entities.push(e));
            assert(self@.rows =~= before@.rows.push(values)) by {
                assert forall|i: int| 0 <= i < self@.rows.len() implies self@.rows[i]
                    =~= before@.rows.push(values)[i] by {}
            }
            assert(self.wf()) by {
                assert forall|k: int| 0 <= k < self.lookup@.len() implies ((
                #[trigger] self.lookup@[k]) matches Some(i) ==> i < self.slots@.len()
                    && self.slots@[i as int].id == k) by {
                    if k < before.lookup@.len() {
                        assert(self.lookup@[k] == before.lookup@[k]);
                    }
                }
            }
        }
        e
    }

    /// Removes `e` if it is live here and does nothing otherwise. The last
    /// entity moves into the freed position, every column and the entity list
    /// shrink by one, and the id of `e` is retired for good.
    pub fn destroy(&mut self, e: Entity)
        requires
            old(self).wf(),
        ensures
            final(self).wf(),
            final(self)@ == old(self)@.destroy(e),
    {
        let ghost before = *self;
        match self.index_of(e) {
            None => {},
            Some(old_index) => {
                proof {
                    before.lemma_view_wf();
                    assert(before.slots@[old_index as int] == e);
                    assert(e.id < before.lookup.len());
                }
                let last_index = self.slots.len() - 1;
                let last_entity = self.slots[last_index];
                assert(last_entity.id < before.lookup.len());
                self.lookup[e.id as usize] = None;
                self.slots.swap_remove(old_index);
                let mut j: usize = 0;
                while j < self.columns.len()
                    invariant
                        j <= self.columns@.len(),
                        before.wf(),
                        old_index < before.slots@.len(),
                        self.columns@.len() == before.columns@.len(),
                        self.tag == before.tag,
                        self.next_id == before.next_id,
                        self.slots@ == swap_removed(before.slots@, old_index as int),
                        self.lookup@ == before.lookup@.update(e.id as int, None),
                        forall|m: int| j <= m < self.columns@.len() ==> self.columns@[m] == before.columns@[m],
                        forall|m: int|
                            0 <= m < j ==> (#[trigger] self.columns@[m])@ == swap_removed(
                                before.columns@[m]@,
                                old_index as int,
                            ),
                    decreases self.columns@.len() - j,
                {
                    assert(before.columns@[j as int]@.len() == before.slots@.len());
                    self.columns[j].swap_remove(old_index);
                    j += 1;
                }
                if old_index != last_index {
                    self.lookup[last_entity.id as usize] = Some(old_index);
                }
                proof {
                    before.lemma_view_wf();
                    let i = old_index as int;
                    let last = last_index as int;
                    assert(before.slots@[i] == e);
                    assert(self@.entities == swap_removed(before@.entities, i));
                    assert(self@.rows =~= swap_removed(before@.rows, i)) by {
                        assert forall|a: int| 0 <= a < self@.rows.len() implies self@.rows[a]
                            =~= swap_removed(before@.rows, i)[a] by {}
                    }
                    assert(self.wf()) by {
                        assert forall|a: int| 0 <= a < self.slots@.len() implies {
                            &&& (#[trigger] self.slots@[a]).archetype_tag == self.tag
                            &&& self.slots@[a].id < self.next_id
                            &&& self.lookup@[self.slots@[a].id as int] matches Some(p) && p == a
                        } by {
                            let sa = if a == i { last } else { a };
                            assert(self.slots@[a] == before.slots@[sa]);
                            assert(before.slots@[sa] != before.slots@[i]);
                            assert(before.lookup@[before.slots@[sa].id as int]->0 == sa);
                            assert(before.lookup@[before.slots@[last].id as int]->0 == last);
                        }
                        assert forall|k: int| 0 <= k < self.lookup@.len() implies ((
                        #[trigger] self.lookup@[k]) matches Some(p) ==> p < self.slots@.len()
                            && self.slots@[p as int].id == k) by {
                            assert(before.lookup@[before.slots@[last].id as int]->0 == last);
                            assert(before.lookup@[before.slots@[i].id as int]->0 == i);
                            if k != e.id && !(i != last && k == last_entity.id) {
                                assert(self.lookup@[k] == before.lookup@[k]);
                            }
                        }
                    }
                }
            },
        }
    }

    /// The entity at dense position `index` seen through the chosen columns.
    pub fn at<'a>(&'a self, index: usize, columns: &Vec<usize>) -> (r: Option<Row<'a, C>>)
        requires
            self.wf(),
            columns_within(columns@, self@.width),
        ensures
            r is Some <==> index < self@.len(),
            r matches Some(row) ==> row@ == self@.project(index as int, as_ints(columns@)),
    {
        if index >= self.slots.len() {
            return None;
        }
        let mut components: Vec<&'a C> = Vec::new();
        let mut k: usize = 0;
        while k < columns.len()
            invariant
                k <= columns@.len(),
                self.wf(),
                index < self.slots@.len(),
                columns_within(columns@, self@.width),
                components@.len() == k,
                forall|m: int| 0 <= m < k ==> *(#[trigger] components@[m]) == self.columns@[columns@[m] as int]@[index as int],
            decreases columns@.len() - k,
        {
            let column = columns[k];
            components.push(&self.columns[column][index]);
            k += 1;
        }
        let row = Row { entity: self.slots[index], components };
        assert(row@.values =~= self@.project(index as int, as_ints(columns@)).values);
        Some(row)
    }

    /// A live entity seen through the chosen columns; nothing for a handle
    /// that is stale or belongs to another archetype.
    pub fn get<'a>(&'a self, e: Entity, columns: &Vec<usize>) -> (r: Option<Row<'a, C>>)
        requires
            self.wf(),
            columns_within(columns@, self@.width),
        ensures
            r is Some <==> self@.is_live(e),
            r matches Some(row) ==> row@ == self@.project(self@.index_of(e), as_ints(columns@)),
    {
        match self.index_of(e) {
            Some(index) => self.at(index, columns),
            None => None,
        }
    }

    /// Every entity in dense order, each seen through the chosen columns.
    pub fn query<'a>(&'a self, columns: &Vec<usize>) -> (rows: Vec<Row<'a, C>>)
        requires
            self.wf(),
            columns_within(columns@, self@.width),
        ensures
            row_views(rows@) == self@.project_all(as_ints(columns@)),
    {
        let mut rows: Vec<Row<'a, C>> = Vec::new();
        let mut i: usize = 0;
        while i < self.slots.len()
            invariant
                i <= self.slots@.len(),
                self.wf(),
                columns_within(columns@, self@.width),
                rows@.len() == i,
                forall|m: int| 0 <= m < i ==> (#[trigger] rows@[m])@ == self@.project(m, as_ints(columns@)),
            decreases self.slots@.len() - i,
        {
            let row = self.at(i, columns).unwrap();
            rows.push(row);
            i += 1;
        }
        assert(row_views(rows@) =~= self@.project_all(as_ints(columns@)));
        rows
    }

    /// One archetype comes of another by a write to one cell: the column
    /// holds the value at the position and is otherwise what it was, and
    /// nothing else has changed.
    spec fn written(before: Self, after: Self, index: int, column: int, value: C) -> bool {
        &&& after.tag == before.tag
        &&& after.slots == before.slots
        &&& after.lookup == before.lookup
        &&& after.next_id == before.next_id
        &&& after.columns@ == before.columns@.update(column, after.columns@[column])
        &&& after.columns@[column]@ == before.columns@[column]@.update(index, value)
    }

    /// A write to one cell keeps the archetype well formed, and its model is
    /// the model of the archetype before with that cell set.
    proof fn lemma_written(before: Self, after: Self, index: int, column: int, value: C)
        requires
            before.wf(),
            0 <= index < before.slots@.len(),
            0 <= column < before.columns@.len(),
            Self::written(before, after, index, column, value),
        ensures
            after.wf(),
            after@ == before@.set(index, column, value),
    {
        assert forall|j: int| 0 <= j < after.columns@.len() implies (#[trigger] after.columns@[j])@.len()
            == after.slots@.len() by {
            assert(before.columns@[j]@.len() == before.slots@.len());
        }
        assert(after@.rows =~= before@.set(index, column, value).rows) by {
            assert forall|i: int| 0 <= i < after@.rows.len() implies after@.rows[i] =~= before@.set(
                index,
                column,
                value,
            ).rows[i] by {}
        }
    }

    /// The cell behind `at_mut`. That the write is a write to one cell is
    /// stated first, and what follows from it after that: only so is the second
    /// proved while the cell is still borrowed.
    fn cell_mut(&mut self, index: usize, column: usize) -> (r: Option<&mut C>)
        requires
            old(self).wf(),
        ensures
            r is Some <==> index < old(self)@.len() && column < old(self)@.width,
            r matches Some(cell) ==> *cell == old(self)@.rows[index as int][column as int],
            r matches Some(cell) ==> Self::written(
                *old(self),
                *final(self),
                index as int,
                column as int,
                *final(cell),
            ),
            r matches Some(cell) ==> (Self::written(
                *old(self),
                *final(self),
                index as int,
                column as int,
                *final(cell),
            ) ==> final(self).wf() && final(self)@ == old(self)@.set(
                index as int,
                column as int,
                *final(cell),
            )),
            r is None ==> *final(self) == *old(self),
    {
        if index < self.slots.len() && column < self.columns.len() {
            proof {
                let before = *self;
                assert forall|after: Self, value: C| #[trigger]
                    Self::written(before, after, index as int, column as int, value) implies after.wf()
                    && after@ == before@.set(index as int, column as int, value) by {
                    Self::lemma_written(before, after, index as int, column as int, value);
                }
            }
            Some(&mut self.columns[column][index])
        } else {
            None
        }
    }

    /// Exclusive access to one component of the entity at dense position
    /// `index`. What the caller writes through the reference is what the
    /// archetype then holds there; nothing else changes.
    pub fn at_mut(&mut self, index: usize, column: usize) -> (r: Option<&mut C>)
        requires
            old(self).wf(),
        ensures
            r is Some <==> index < old(self)@.len() && column < old(self)@.width,
            r matches Some(cell) ==> *cell == old(self)@.rows[index as int][column as int],
            r matches Some(cell) ==> final(self)@ == old(self)@.set(index as int, column as int, *final(cell)),
            r is None ==> *final(self) == *old(self),
            final(self).wf(),
    {
        self.cell_mut(index, column)
    }
}

} // verus!
