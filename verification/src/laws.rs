//! Laws of the store, proved of the models that the operations are stated in.
use vstd::prelude::*;

use crate::archetype::{ArchetypeModel, RowView};
use crate::entity::{ArchetypeTag, Entity};
use crate::sequence::lemma_first_exists;
use crate::shape::{lemma_matching, supports, PartModel};
use crate::world::{count_of, lemma_row_place, lemma_rows_len, lemma_total_update, QueryId, WorldModel};

verus! {

impl<C> ArchetypeModel<C> {
    /// Destroying one entity leaves every other handle as live as it was and
    /// with the component values it had.
    pub proof fn law_destroy_keeps_others(self, e: Entity, other: Entity)
        requires
            self.wf(),
            other != e,
        ensures
            self.destroy(e).is_live(other) == self.is_live(other),
            self.destroy(e).row_of(other) == self.row_of(other),
    {
        self.lemma_destroy_wf(e);
        if self.is_live(e) {
            let after = self.destroy(e);
            let i = self.index_of(e);
            let last = self.len() - 1;
            if self.is_live(other) {
                let j = self.index_of(other);
                let now = if j == last { i } else { j };
                assert(after.entities[now] == other);
                after.lemma_index_of(other, now);
                assert(after.rows[now] == self.rows[j]);
            } else if after.is_live(other) {
                let now = after.index_of(other);
                let was = if now == i { last } else { now };
                assert(self.entities[was] == other);
            }
        }
    }

    /// Destroying the entity at the last dense position moves nothing: the
    /// entity list and the rows lose their last element, and every other
    /// entity stays where it was.
    pub proof fn law_destroy_last_moves_nothing(self, e: Entity)
        requires
            self.wf(),
            self.is_live(e),
            self.index_of(e) == self.len() - 1,
        ensures
            self.destroy(e).entities == self.entities.drop_last(),
            self.destroy(e).rows == self.rows.drop_last(),
            forall|other: Entity|
                other != e && #[trigger] self.is_live(other) ==> self.destroy(e).index_of(other)
                    == self.index_of(other),
    {
        let after = self.destroy(e);
        assert(after.entities =~= self.entities.drop_last());
        assert(after.rows =~= self.rows.drop_last());
        self.lemma_destroy_wf(e);
        assert forall|other: Entity| other != e && #[trigger] self.is_live(other) implies after.index_of(
            other,
        ) == self.index_of(other) by {
            let j = self.index_of(other);
            assert(after.entities[j] == other);
            after.lemma_index_of(other, j);
        }
    }

    /// Destroying an entity that is not at the last dense position puts the
    /// last entity in its place and moves no other.
    pub proof fn law_destroy_swaps_last(self, e: Entity)
        requires
            self.wf(),
            self.is_live(e),
            self.index_of(e) < self.len() - 1,
        ensures
            self.destroy(e).index_of(self.entities.last()) == self.index_of(e),
            forall|other: Entity|
                other != e && other != self.entities.last() && #[trigger] self.is_live(other)
                    ==> self.destroy(e).index_of(other) == self.index_of(other),
    {
        let after = self.destroy(e);
        let i = self.index_of(e);
        self.lemma_destroy_wf(e);
        assert(after.entities[i] == self.entities.last());
        after.lemma_index_of(self.entities.last(), i);
        assert forall|other: Entity|
            other != e && other != self.entities.last() && #[trigger] self.is_live(other) implies after.index_of(
            other,
        ) == self.index_of(other) by {
            let j = self.index_of(other);
            assert(after.entities[j] == other);
            after.lemma_index_of(other, j);
        }
    }
}

/// Replacing one archetype changes what a list of parts counts by what that
/// archetype gained or lost, if the list names it, and not at all otherwise.
pub proof fn lemma_count_update<C>(
    archetypes: Seq<ArchetypeModel<C>>,
    parts: Seq<PartModel>,
    t: int,
    a: ArchetypeModel<C>,
)
    requires
        0 <= t < archetypes.len(),
        forall|p: int| 0 <= p < parts.len() ==> 0 <= (#[trigger] parts[p]).tag < archetypes.len(),
        forall|p: int, r: int| 0 <= p < r < parts.len() ==> parts[p].tag < parts[r].tag,
    ensures
        count_of(archetypes.update(t, a), parts) == if exists|p: int|
            0 <= p < parts.len() && parts[p].tag == t {
            count_of(archetypes, parts) - archetypes[t].len() + a.len()
        } else {
            count_of(archetypes, parts) as int
        },
        (exists|p: int| 0 <= p < parts.len() && parts[p].tag == t) ==> count_of(archetypes, parts)
            >= archetypes[t].len(),
    decreases parts.len(),
{
    if parts.len() > 0 {
        let head = parts.drop_last();
        let last = parts.last();
        lemma_count_update(archetypes, head, t, a);
        if last.tag == t {
            assert(!exists|p: int| 0 <= p < head.len() && head[p].tag == t) by {
                if exists|p: int| 0 <= p < head.len() && head[p].tag == t {
                    let p = choose|p: int| 0 <= p < head.len() && head[p].tag == t;
                    assert(parts[p].tag < parts[parts.len() - 1].tag);
                }
            }
            assert(parts[parts.len() - 1].tag == t);
        } else {
            if exists|p: int| 0 <= p < head.len() && head[p].tag == t {
                let p = choose|p: int| 0 <= p < head.len() && head[p].tag == t;
                assert(parts[p].tag == t);
            }
            if exists|p: int| 0 <= p < parts.len() && parts[p].tag == t {
                let p = choose|p: int| 0 <= p < parts.len() && parts[p].tag == t;
                assert(head[p].tag == t);
            }
        }
    }
}

impl<C> WorldModel<C> {
    /// Creation and destruction keep a world well formed.
    pub proof fn law_operations_keep_wf(self, tag: ArchetypeTag, row: Seq<C>, e: Entity)
        requires
            self.wf(),
        ensures
            self.admits(tag, row) ==> self.create(tag, row).wf(),
            self.destroy(e).wf(),
    {
        if self.admits(tag, row) {
            self.archetypes[tag.0 as int].lemma_create_wf(row);
        }
        if self.valid_tag(e.archetype_tag) {
            self.archetypes[e.archetype_tag.0 as int].lemma_destroy_wf(e);
        }
    }

    /// A created entity is found at once under the handle that creation
    /// returned, by every query that its archetype supports, and the row
    /// found holds the values it was created with, each taken from the column
    /// that the query reads.
    pub proof fn law_create_then_get(self, tag: ArchetypeTag, row: Seq<C>, query: QueryId)
        requires
            self.wf(),
            self.admits(tag, row),
            self.valid_query(query),
            supports(self.types[tag.0 as int], self.shape(query)),
        ensures
            self.create(tag, row).is_live(self.next_entity(tag)),
            self.create(tag, row).get(query, self.next_entity(tag)) == Some(
                RowView {
                    entity: self.next_entity(tag),
                    values: Seq::new(
                        self.shape(query).len(),
                        |k: int| row[self.column(query, tag, k)],
                    ),
                },
            ),
    {
        let t = tag.0 as int;
        let e = self.next_entity(tag);
        let after = self.create(tag, row);
        self.archetypes[t].lemma_create_wf(row);
        assert(after.archetypes[t].rows[self.archetypes[t].len() as int] == row);
        assert(after.get(query, e)->0.values =~= Seq::new(
            self.shape(query).len(),
            |k: int| row[self.column(query, tag, k)],
        ));
    }

    /// A query for exactly the component types of an archetype, in
    /// declaration order, gives back the values that an entity was created
    /// with, where the archetype declares no type twice.
    pub proof fn law_create_then_get_whole(self, tag: ArchetypeTag, row: Seq<C>, query: QueryId)
        requires
            self.wf(),
            self.admits(tag, row),
            self.valid_query(query),
            self.shape(query) == self.types[tag.0 as int],
            self.types[tag.0 as int].no_duplicates(),
        ensures
            self.create(tag, row).get(query, self.next_entity(tag)) == Some(
                RowView { entity: self.next_entity(tag), values: row },
            ),
    {
        let t = tag.0 as int;
        let types = self.types[t];
        assert forall|k: int| 0 <= k < types.len() implies types.contains(#[trigger] types[k]) && self.column(
            query,
            tag,
            k,
        ) == k by {
            assert(types.contains(types[k]));
            lemma_first_exists(types, types[k]);
        }
        self.law_create_then_get(tag, row, query);
        assert(Seq::new(self.shape(query).len(), |k: int| row[self.column(query, tag, k)]) =~= row);
    }

    /// Destroying a live entity shortens by exactly one every query that its
    /// archetype supports and leaves the length of every other query as it
    /// was; afterwards the handle is stale for every query.
    pub proof fn law_destroy_removes_one(self, e: Entity, query: QueryId)
        requires
            self.wf(),
            self.is_live(e),
            self.valid_query(query),
        ensures
            supports(self.types[e.archetype_tag.0 as int], self.shape(query)) ==> self.destroy(e).len(query)
                == self.len(query) - 1,
            !supports(self.types[e.archetype_tag.0 as int], self.shape(query)) ==> self.destroy(e).len(
                query,
            ) == self.len(query),
            !self.destroy(e).is_live(e),
            self.destroy(e).get(query, e) is None,
    {
        let t = e.archetype_tag.0 as int;
        let parts = self.parts(query);
        lemma_matching(self.types, self.shape(query), self.types.len() as int);
        self.archetypes[t].lemma_destroy_wf(e);
        lemma_count_update(self.archetypes, parts, t, self.archetypes[t].destroy(e));
        if supports(self.types[t], self.shape(query)) {
            let p = choose|p: int| 0 <= p < parts.len() && parts[p].tag == t;
            assert(parts[p].tag == t);
        }
    }

    /// Destroying one entity leaves every other handle as valid as it was,
    /// and every query finds under it the row it found before.
    pub proof fn law_destroy_keeps_others(self, e: Entity, other: Entity, query: QueryId)
        requires
            self.wf(),
            other != e,
        ensures
            self.destroy(e).is_live(other) == self.is_live(other),
            self.destroy(e).get(query, other) == self.get(query, other),
    {
        if self.valid_tag(e.archetype_tag) && other.archetype_tag == e.archetype_tag {
            let t = e.archetype_tag.0 as int;
            let a = self.archetypes[t];
            a.law_destroy_keeps_others(e, other);
            if a.is_live(other) {
                assert(a.destroy(e).entities[a.destroy(e).index_of(other)] == other);
                assert(a.entities[a.index_of(other)] == other);
            }
        }
    }

    /// Destroying the entity at the last dense position of its archetype
    /// swaps nothing: that archetype loses its last row, and nothing else in
    /// the world changes.
    pub proof fn law_destroy_last_moves_nothing(self, e: Entity)
        requires
            self.wf(),
            self.is_live(e),
            self.archetypes[e.archetype_tag.0 as int].index_of(e) == self.archetypes[e.archetype_tag.0 as int].len()
                - 1,
        ensures
            self.destroy(e).archetypes[e.archetype_tag.0 as int].entities
                == self.archetypes[e.archetype_tag.0 as int].entities.drop_last(),
            self.destroy(e).archetypes[e.archetype_tag.0 as int].rows
                == self.archetypes[e.archetype_tag.0 as int].rows.drop_last(),
            forall|t: int|
                0 <= t < self.archetypes.len() && t != e.archetype_tag.0 ==> self.destroy(e).archetypes[t]
                    == self.archetypes[t],
    {
        self.archetypes[e.archetype_tag.0 as int].law_destroy_last_moves_nothing(e);
    }

    /// The length of a query is the number of rows that iterating it yields,
    /// and the row at each position below the length is the row that
    /// iteration yields at that position.
    pub proof fn law_len_counts_rows(self, query: QueryId)
        ensures
            self.len(query) == self.rows(query).len(),
            forall|i: int| 0 <= i < self.len(query) ==> self.at(query, i) == Some(self.rows(query)[i]),
            forall|i: int| i < 0 || i >= self.len(query) ==> self.at(query, i) is None,
    {
        lemma_rows_len(self.archetypes, self.parts(query));
    }
}

impl<C> WorldModel<C> {
    /// A write through a query changes one component of one row: the world
    /// stays well formed and as populated as it was, the query yields as many
    /// rows for the same entities, every other row is what it was, and the
    /// row written holds the value written.
    pub proof fn law_write_changes_one_row(self, query: QueryId, i: int, k: int, value: C, j: int)
        requires
            self.wf(),
            0 <= i < self.rows(query).len(),
            0 <= k < self.shape(query).len(),
            0 <= j < self.rows(query).len(),
        ensures
            self.set(query, self.rows(query)[i].entity, k, value).wf(),
            self.set(query, self.rows(query)[i].entity, k, value).population() == self.population(),
            self.set(query, self.rows(query)[i].entity, k, value).rows(query).len() == self.rows(query).len(),
            self.set(query, self.rows(query)[i].entity, k, value).rows(query)[j].entity == self.rows(
                query,
            )[j].entity,
            j != i ==> self.set(query, self.rows(query)[i].entity, k, value).rows(query)[j] == self.rows(
                query,
            )[j],
            j == i ==> self.set(query, self.rows(query)[i].entity, k, value).rows(query)[j].values[k]
                == value,
    {
        let parts = self.parts(query);
        let shape = self.shape(query);
        lemma_matching(self.types, shape, self.types.len() as int);
        let (pi, di) = lemma_row_place(self.archetypes, self.archetypes, parts, i);
        let t = parts[pi].tag;
        let a = self.archetypes[t];
        let e = self.rows(query)[i].entity;
        assert(a.wf());
        a.lemma_index_of(e, di);
        assert(e.archetype_tag.0 == t);
        let column = self.column(query, e.archetype_tag, k);
        assert(0 <= column < a.width) by {
            assert(self.types[t].contains(shape[k]));
            lemma_first_exists(self.types[t], shape[k]);
        }
        let after = self.set(query, e, k, value);
        let a2 = a.set(di, column, value);
        assert(after.archetypes == self.archetypes.update(t, a2));
        assert(a2.wf()) by {
            assert forall|d: int| 0 <= d < a2.rows.len() implies (#[trigger] a2.rows[d]).len() == a2.width by {
                assert(a.rows[d].len() == a.width);
            }
        }
        lemma_total_update(self.archetypes, t, a2, self.archetypes.len() as int);
        assert forall|p: int| 0 <= p < parts.len() implies after.archetypes[(#[trigger] parts[p]).tag].len()
            == self.archetypes[parts[p].tag].len() by {}
        let (pj, dj) = lemma_row_place(self.archetypes, after.archetypes, parts, j);
        lemma_rows_len(self.archetypes, parts);
        lemma_rows_len(after.archetypes, parts);
        if parts[pj].tag == t {
            assert(pj == pi) by {
                if pj < pi {
                    assert(parts[pj].tag < parts[pi].tag);
                } else if pi < pj {
                    assert(parts[pi].tag < parts[pj].tag);
                }
            }
            if j == i {
                assert(parts[pi].columns[k] == column);
            } else {
                assert(dj != di);
                assert(a2.rows[dj] == a.rows[dj]);
                assert(a2.project(dj, parts[pj].columns).values =~= a.project(dj, parts[pj].columns).values);
            }
        }
    }

    /// Writing one value after the other through a query keeps the world
    /// well formed, the query as long as it was and its rows at their
    /// entities, and leaves the rows not yet written what they were.
    pub proof fn law_writes_keep_later_rows(self, query: QueryId, k: int, values: Seq<C>, j: int)
        requires
            self.wf(),
            values.len() <= self.rows(query).len(),
            0 <= k < self.shape(query).len(),
            0 <= j < self.rows(query).len(),
        ensures
            self.set_each(query, k, values).wf(),
            self.set_each(query, k, values).population() == self.population(),
            self.set_each(query, k, values).types == self.types,
            self.set_each(query, k, values).queries == self.queries,
            self.set_each(query, k, values).rows(query).len() == self.rows(query).len(),
            self.set_each(query, k, values).rows(query)[j].entity == self.rows(query)[j].entity,
            j >= values.len() ==> self.set_each(query, k, values).rows(query)[j] == self.rows(query)[j],
        decreases values.len(),
    {
        if values.len() > 0 {
            let i = values.len() - 1;
            let before = self.set_each(query, k, values.drop_last());
            self.law_writes_keep_later_rows(query, k, values.drop_last(), j);
            self.law_writes_keep_later_rows(query, k, values.drop_last(), i);
            before.law_write_changes_one_row(query, i, k, values.last(), j);
        }
    }
}

/// One change to a world.
pub enum Step<C> {
    Create { tag: ArchetypeTag, row: Seq<C> },
    Destroy { e: Entity },
}

impl<C> WorldModel<C> {
    /// Whether a change may be made.
    pub open spec fn admits_step(self, step: Step<C>) -> bool {
        match step {
            Step::Create { tag, row } => self.admits(tag, row),
            Step::Destroy { e } => true,
        }
    }

    /// The world after a change.
    pub open spec fn after_step(self, step: Step<C>) -> Self {
        match step {
            Step::Create { tag, row } => self.create(tag, row),
            Step::Destroy { e } => self.destroy(e),
        }
    }

    /// The world after a run of changes, first to last.
    pub open spec fn after_steps(self, steps: Seq<Step<C>>) -> Self
        decreases steps.len(),
    {
        if steps.len() == 0 {
            self
        } else {
            self.after_steps(steps.drop_last()).after_step(steps.last())
        }
    }

    /// Whether each change of a run may be made when its turn comes.
    pub open spec fn admits_steps(self, steps: Seq<Step<C>>) -> bool
        decreases steps.len(),
    {
        steps.len() == 0 || (self.admits_steps(steps.drop_last()) && self.after_steps(
            steps.drop_last(),
        ).admits_step(steps.last()))
    }

    /// An id handed out is never handed out again: whatever is created and
    /// destroyed afterwards, the next handle of the archetype differs from
    /// every handle it gave before, live or destroyed.
    pub proof fn law_ids_never_reused(self, e: Entity, steps: Seq<Step<C>>)
        requires
            self.wf(),
            self.valid_tag(e.archetype_tag),
            e.id < self.archetypes[e.archetype_tag.0 as int].next_id,
            self.admits_steps(steps),
        ensures
            self.after_steps(steps).wf(),
            self.after_steps(steps).valid_tag(e.archetype_tag),
            self.after_steps(steps).archetypes[e.archetype_tag.0 as int].next_id
                >= self.archetypes[e.archetype_tag.0 as int].next_id,
            self.after_steps(steps).next_entity(e.archetype_tag) != e,
            !self.is_live(e) ==> !self.after_steps(steps).is_live(e),
        decreases steps.len(),
    {
        if steps.len() > 0 {
            self.law_ids_never_reused(e, steps.drop_last());
            let before = self.after_steps(steps.drop_last());
            let t = e.archetype_tag.0 as int;
            match steps.last() {
                Step::Create { tag, row } => {
                    before.archetypes[tag.0 as int].lemma_create_wf(row);
                    if tag.0 == t && !before.is_live(e) {
                        let a = before.archetypes[t];
                        if a.create(row).is_live(e) {
                            let i = a.create(row).index_of(e);
                            if i < a.len() {
                                assert(a.entities[i] == e);
                            }
                        }
                    }
                },
                Step::Destroy { e: gone } => {
                    if before.valid_tag(gone.archetype_tag) {
                        before.archetypes[gone.archetype_tag.0 as int].lemma_destroy_wf(gone);
                        if gone != e {
                            before.law_destroy_keeps_others(gone, e, QueryId(0));
                        }
                    }
                },
            }
        }
    }

    /// After a live entity is destroyed, no run of changes makes its handle
    /// live again or hands its id to another entity.
    pub proof fn law_destroyed_stays_destroyed(self, e: Entity, steps: Seq<Step<C>>)
        requires
            self.wf(),
            self.is_live(e),
            self.destroy(e).admits_steps(steps),
        ensures
            !self.destroy(e).after_steps(steps).is_live(e),
            self.destroy(e).after_steps(steps).next_entity(e.archetype_tag) != e,
    {
        let t = e.archetype_tag.0 as int;
        self.archetypes[t].lemma_destroy_wf(e);
        assert(self.archetypes[t].entities[self.archetypes[t].index_of(e)] == e);
        self.destroy(e).law_ids_never_reused(e, steps);
    }
}

} // verus!
