//! The world: one archetype per declared entity shape, and the queries that
//! span them.
use vstd::prelude::*;

use crate::archetype::{as_ints, columns_within, row_views, Archetype, ArchetypeModel, Row, RowView};
use crate::declaration::{
    entity_views, query_views, CollectedData, EntityDef, EntityDefView, Query, QueryView,
};
use crate::entity::{ArchetypeTag, Entity};
use crate::sequence::{distinct, first_index, lemma_first_index, strings};
use crate::shape::{columns_for, components, lemma_matching, matching, resolve_columns, supports, PartModel};

verus! {

/// Names a query shape that a world has resolved.
#[derive(Clone, Copy, Debug, PartialEq, Eq, Structural, Hash)]
pub struct QueryId(pub usize);

/// The view of what a lookup returned.
pub open spec fn option_view<'a, C>(r: Option<Row<'a, C>>) -> Option<RowView<C>> {
    match r {
        Some(row) => Some(row@),
        None => None,
    }
}

/// The component types that each declared shape stores, in declaration order.
pub open spec fn declared_types(entities: Seq<EntityDefView>) -> Seq<Seq<Seq<char>>> {
    Seq::new(entities.len(), |t: int| components(entities[t].data_types()))
}

/// A world as mathematics: the component types of each archetype, what each
/// archetype holds, and the query shapes resolved so far.
pub struct WorldModel<C> {
    pub types: Seq<Seq<Seq<char>>>,
    pub archetypes: Seq<ArchetypeModel<C>>,
    pub queries: Seq<QueryView>,
}

impl<C> WorldModel<C> {
    /// The world of the given archetypes with no entity and no query.
    pub open spec fn empty(types: Seq<Seq<Seq<char>>>) -> Self {
        WorldModel {
            types,
            archetypes: Seq::new(
                types.len(),
                |t: int| ArchetypeModel::empty(ArchetypeTag(t as usize), types[t].len()),
            ),
            queries: Seq::empty(),
        }
    }

    /// There is one well-formed archetype per declared shape, tagged by its
    /// position and as wide as the shape.
    pub open spec fn wf(self) -> bool {
        &&& self.archetypes.len() == self.types.len()
        &&& forall|t: int|
            0 <= t < self.archetypes.len() ==> {
                &&& (#[trigger] self.archetypes[t]).wf()
                &&& self.archetypes[t].tag.0 == t
                &&& self.archetypes[t].width == self.types[t].len()
            }
    }

    /// Whether the world has an archetype of this tag.
    pub open spec fn valid_tag(self, tag: ArchetypeTag) -> bool {
        tag.0 < self.archetypes.len()
    }

    /// Whether the world has resolved a shape under this id.
    pub open spec fn valid_query(self, query: QueryId) -> bool {
        query.0 < self.queries.len()
    }

    /// Number of live entities in the world.
    pub open spec fn population(self) -> nat {
        total(self.archetypes, self.archetypes.len() as int)
    }

    /// Whether a handle names an entity that lives in the world.
    pub open spec fn is_live(self, e: Entity) -> bool {
        self.valid_tag(e.archetype_tag) && self.archetypes[e.archetype_tag.0 as int].is_live(e)
    }

    /// The component types that a query yields per entity.
    pub open spec fn shape(self, query: QueryId) -> Seq<Seq<char>> {
        self.queries[query.0 as int].shape()
    }

    /// The archetypes that a query spans, in declaration order. A query that
    /// the world has not resolved spans none.
    pub open spec fn parts(self, query: QueryId) -> Seq<PartModel> {
        if self.valid_query(query) {
            matching(self.types, self.shape(query), self.types.len() as int)
        } else {
            Seq::empty()
        }
    }

    /// What iterating a query yields.
    pub open spec fn rows(self, query: QueryId) -> Seq<RowView<C>> {
        rows_of(self.archetypes, self.parts(query))
    }

    /// The number of entities that a query spans.
    pub open spec fn len(self, query: QueryId) -> nat {
        count_of(self.archetypes, self.parts(query))
    }

    /// The row at an absolute position of a query's iteration order.
    pub open spec fn at(self, query: QueryId, index: int) -> Option<RowView<C>> {
        if 0 <= index < self.rows(query).len() {
            Some(self.rows(query)[index])
        } else {
            None
        }
    }

    /// The row of one entity: present when the query is resolved, the entity
    /// is live and its archetype holds every type of the shape.
    pub open spec fn get(self, query: QueryId, e: Entity) -> Option<RowView<C>> {
        let t = e.archetype_tag.0 as int;
        if self.valid_query(query) && self.is_live(e) && supports(self.types[t], self.shape(query)) {
            Some(
                self.archetypes[t].project(
                    self.archetypes[t].index_of(e),
                    columns_for(self.types[t], self.shape(query)),
                ),
            )
        } else {
            None
        }
    }

    /// The handle that the next creation in an archetype returns.
    pub open spec fn next_entity(self, tag: ArchetypeTag) -> Entity {
        self.archetypes[tag.0 as int].next_entity()
    }

    /// Whether an entity may be created: the archetype exists and admits the
    /// row, and the population still fits the machine's word.
    pub open spec fn admits(self, tag: ArchetypeTag, row: Seq<C>) -> bool {
        &&& self.valid_tag(tag)
        &&& self.archetypes[tag.0 as int].admits(row)
        &&& self.population() < usize::MAX
    }

    /// The world with one more entity in the archetype of a tag.
    pub open spec fn create(self, tag: ArchetypeTag, row: Seq<C>) -> Self {
        WorldModel {
            archetypes: self.archetypes.update(tag.0 as int, self.archetypes[tag.0 as int].create(row)),
            ..self
        }
    }

    /// Destruction is routed by the handle's tag; a handle with a tag that
    /// the world does not have changes nothing.
    pub open spec fn destroy(self, e: Entity) -> Self {
        if self.valid_tag(e.archetype_tag) {
            WorldModel {
                archetypes: self.archetypes.update(
                    e.archetype_tag.0 as int,
                    self.archetypes[e.archetype_tag.0 as int].destroy(e),
                ),
                ..self
            }
        } else {
            self
        }
    }

    /// How many leading components of a query's rows may be written.
    pub open spec fn mutable_count(self, query: QueryId) -> nat {
        self.queries[query.0 as int].mutable_count()
    }

    /// The id under which a shape is resolved, if it is.
    pub open spec fn find(self, query: QueryView) -> Option<QueryId> {
        if self.queries.contains(query) {
            Some(QueryId(first_index(self.queries, query) as usize))
        } else {
            None
        }
    }

    /// A shape resolved once stays resolved under its id; a new shape gets
    /// the next id.
    pub open spec fn register(self, query: QueryView) -> Self {
        if self.queries.contains(query) {
            self
        } else {
            WorldModel { queries: self.queries.push(query), ..self }
        }
    }

    /// The column that holds component `k` of a query's shape in an archetype.
    pub open spec fn column(self, query: QueryId, tag: ArchetypeTag, k: int) -> int {
        columns_for(self.types[tag.0 as int], self.shape(query))[k]
    }

    /// Component `k` of the row that a query yields for `e`, replaced.
    pub open spec fn set(self, query: QueryId, e: Entity, k: int, value: C) -> Self {
        let t = e.archetype_tag.0 as int;
        WorldModel {
            archetypes: self.archetypes.update(
                t,
                self.archetypes[t].set(
                    self.archetypes[t].index_of(e),
                    self.column(query, e.archetype_tag, k),
                    value,
                ),
            ),
            ..self
        }
    }

    /// Component `k` of each of the first rows of a query replaced, one value
    /// for each row, in iteration order.
    pub open spec fn set_each(self, query: QueryId, k: int, values: Seq<C>) -> Self
        decreases values.len(),
    {
        if values.len() == 0 {
            self
        } else {
            self.set_each(query, k, values.drop_last()).set(
                query,
                self.rows(query)[values.len() - 1].entity,
                k,
                values.last(),
            )
        }
    }

    /// A row found by position is the row found by its entity's handle.
    pub proof fn lemma_at_get(self, query: QueryId, index: int)
        requires
            self.wf(),
            0 <= index < self.rows(query).len(),
        ensures
            self.is_live(self.rows(query)[index].entity),
            self.get(query, self.rows(query)[index].entity) == Some(self.rows(query)[index]),
    {
        let parts = self.parts(query);
        let (p, d) = lemma_row_place(self.archetypes, self.archetypes, parts, index);
        lemma_matching(self.types, self.shape(query), self.types.len() as int);
        let t = parts[p].tag;
        let e = self.archetypes[t].entities[d];
        assert(self.archetypes[t].wf());
        self.archetypes[t].lemma_index_of(e, d);
    }
}

/// Archetypes of the same lengths count the same.
pub proof fn lemma_same_counts<C>(a: Seq<ArchetypeModel<C>>, b: Seq<ArchetypeModel<C>>, parts: Seq<PartModel>)
    requires
        forall|p: int| 0 <= p < parts.len() ==> b[(#[trigger] parts[p]).tag].len() == a[parts[p].tag].len(),
    ensures
        count_of(b, parts) == count_of(a, parts),
    decreases parts.len(),
{
    if parts.len() > 0 {
        assert forall|p: int| 0 <= p < parts.drop_last().len() implies b[(#[trigger] parts.drop_last()[p]).tag].len()
            == a[parts.drop_last()[p].tag].len() by {
            assert(parts.drop_last()[p] == parts[p]);
        }
        lemma_same_counts(a, b, parts.drop_last());
        assert(parts[parts.len() - 1] == parts.last());
    }
}

/// Where a row of a query comes from: the part, and the dense position in
/// that part's archetype. In archetypes of the same lengths the row at the
/// same place of the iteration comes from the same place.
pub proof fn lemma_row_place<C>(
    a: Seq<ArchetypeModel<C>>,
    b: Seq<ArchetypeModel<C>>,
    parts: Seq<PartModel>,
    j: int,
) -> (r: (int, int))
    requires
        forall|p: int| 0 <= p < parts.len() ==> b[(#[trigger] parts[p]).tag].len() == a[parts[p].tag].len(),
        0 <= j < rows_of(a, parts).len(),
    ensures
        rows_of(b, parts).len() == rows_of(a, parts).len(),
        0 <= r.0 < parts.len(),
        0 <= r.1 < a[parts[r.0].tag].len(),
        j == count_of(a, parts.take(r.0)) + r.1,
        rows_of(a, parts)[j] == a[parts[r.0].tag].project(r.1, parts[r.0].columns),
        rows_of(b, parts)[j] == b[parts[r.0].tag].project(r.1, parts[r.0].columns),
    decreases parts.len(),
{
    let head = parts.drop_last();
    assert forall|p: int| 0 <= p < head.len() implies b[(#[trigger] head[p]).tag].len() == a[head[p].tag].len() by {
        assert(head[p] == parts[p]);
    }
    lemma_same_counts(a, b, parts);
    lemma_same_counts(a, b, head);
    lemma_rows_len(a, parts);
    lemma_rows_len(b, parts);
    lemma_rows_len(a, head);
    lemma_rows_len(b, head);
    assert(parts[parts.len() - 1] == parts.last());
    if j < rows_of(a, head).len() {
        let r = lemma_row_place(a, b, head, j);
        assert(head.take(r.0) =~= parts.take(r.0));
        assert(head[r.0] == parts[r.0]);
        r
    } else {
        assert(parts.take(parts.len() - 1) =~= head);
        (parts.len() - 1, j - rows_of(a, head).len())
    }
}

/// Number of live entities in the first `n` archetypes.
pub open spec fn total<C>(archetypes: Seq<ArchetypeModel<C>>, n: int) -> nat
    decreases n,
{
    if n <= 0 {
        0
    } else {
        total(archetypes, n - 1) + archetypes[n - 1].len()
    }
}

/// The rows of the given parts, one archetype after the other, each in dense
/// order.
pub open spec fn rows_of<C>(archetypes: Seq<ArchetypeModel<C>>, parts: Seq<PartModel>) -> Seq<RowView<C>>
    decreases parts.len(),
{
    if parts.len() == 0 {
        Seq::empty()
    } else {
        rows_of(archetypes, parts.drop_last()) + archetypes[parts.last().tag].project_all(
            parts.last().columns,
        )
    }
}

/// The sum of the lengths of the archetypes of the given parts.
pub open spec fn count_of<C>(archetypes: Seq<ArchetypeModel<C>>, parts: Seq<PartModel>) -> nat
    decreases parts.len(),
{
    if parts.len() == 0 {
        0
    } else {
        count_of(archetypes, parts.drop_last()) + archetypes[parts.last().tag].len()
    }
}

/// Replacing one archetype changes the population by what that archetype
/// gained or lost.
pub proof fn lemma_total_update<C>(archetypes: Seq<ArchetypeModel<C>>, t: int, a: ArchetypeModel<C>, n: int)
    requires
        0 <= t < archetypes.len(),
        0 <= n <= archetypes.len(),
    ensures
        total(archetypes.update(t, a), n) == if t < n {
            total(archetypes, n) - archetypes[t].len() + a.len()
        } else {
            total(archetypes, n) as int
        },
        t < n ==> total(archetypes, n) >= archetypes[t].len(),
    decreases n,
{
    if n > 0 {
        lemma_total_update(archetypes, t, a, n - 1);
    }
}

/// The first `n` archetypes hold no more entities than all of them.
pub proof fn lemma_total_monotone<C>(archetypes: Seq<ArchetypeModel<C>>, n: int)
    requires
        0 <= n <= archetypes.len(),
    ensures
        total(archetypes, n) <= total(archetypes, archetypes.len() as int),
    decreases archetypes.len() - n,
{
    if n < archetypes.len() {
        lemma_total_monotone(archetypes, n + 1);
    }
}

/// As many rows as the archetypes hold entities.
pub proof fn lemma_rows_len<C>(archetypes: Seq<ArchetypeModel<C>>, parts: Seq<PartModel>)
    ensures
        rows_of(archetypes, parts).len() == count_of(archetypes, parts),
    decreases parts.len(),
{
    if parts.len() > 0 {
        lemma_rows_len(archetypes, parts.drop_last());
    }
}

/// The rows of the first `p` parts open the rows of all of them.
pub proof fn lemma_rows_prefix<C>(archetypes: Seq<ArchetypeModel<C>>, parts: Seq<PartModel>, p: int)
    requires
        0 <= p <= parts.len(),
    ensures
        count_of(archetypes, parts.take(p)) <= count_of(archetypes, parts),
        rows_of(archetypes, parts.take(p)) == rows_of(archetypes, parts).take(
            count_of(archetypes, parts.take(p)) as int,
        ),
    decreases parts.len(),
{
    lemma_rows_len(archetypes, parts);
    lemma_rows_len(archetypes, parts.take(p));
    if p == parts.len() {
        assert(parts.take(p) =~= parts);
        assert(rows_of(archetypes, parts).take(count_of(archetypes, parts) as int) =~= rows_of(
            archetypes,
            parts,
        ));
    } else {
        lemma_rows_prefix(archetypes, parts.drop_last(), p);
        lemma_rows_len(archetypes, parts.drop_last());
        assert(parts.drop_last().take(p) =~= parts.take(p));
        assert(rows_of(archetypes, parts.take(p)) =~= rows_of(archetypes, parts).take(
            count_of(archetypes, parts.take(p)) as int,
        ));
    }
}

/// One more part adds its archetype's rows at the end.
pub proof fn lemma_rows_step<C>(archetypes: Seq<ArchetypeModel<C>>, parts: Seq<PartModel>, p: int)
    requires
        0 <= p < parts.len(),
    ensures
        rows_of(archetypes, parts.take(p + 1)) == rows_of(archetypes, parts.take(p))
            + archetypes[parts[p].tag].project_all(parts[p].columns),
        count_of(archetypes, parts.take(p + 1)) == count_of(archetypes, parts.take(p))
            + archetypes[parts[p].tag].len(),
{
    assert(parts.take(p + 1).drop_last() =~= parts.take(p));
    assert(parts.take(p + 1).last() == parts[p]);
}

/// The archetypes that match a shape hold no more entities than the world.
pub proof fn lemma_count_within_total<C>(
    types: Seq<Seq<Seq<char>>>,
    archetypes: Seq<ArchetypeModel<C>>,
    shape: Seq<Seq<char>>,
    n: int,
)
    requires
        0 <= n <= types.len(),
    ensures
        count_of(archetypes, matching(types, shape, n)) <= total(archetypes, n),
    decreases n,
{
    if n > 0 {
        lemma_count_within_total(types, archetypes, shape, n - 1);
        if supports(types[n - 1], shape) {
            let parts = matching(types, shape, n);
            assert(parts.drop_last() =~= matching(types, shape, n - 1));
        }
    }
}

/// One archetype that a resolved query spans, with the columns it reads.
struct Part {
    tag: usize,
    columns: Vec<usize>,
}

impl View for Part {
    type V = PartModel;

    closed spec fn view(&self) -> PartModel {
        PartModel { tag: self.tag as int, columns: as_ints(self.columns@) }
    }
}

/// A query shape together with what resolving it gave.
struct Plan {
    query: Query,
    mutable: usize,
    parts: Vec<Part>,
}

spec fn part_views(parts: Seq<Part>) -> Seq<PartModel> {
    Seq::new(parts.len(), |p: int| parts[p]@)
}

impl Plan {
    /// The cached parts are what resolution gives for these archetypes.
    spec fn resolved(&self, types: Seq<Seq<Seq<char>>>) -> bool {
        &&& self.mutable == self.query@.mutable_count()
        &&& part_views(self.parts@) == matching(types, self.query@.shape(), types.len() as int)
        &&& forall|p: int|
            0 <= p < self.parts@.len() ==> {
                &&& (#[trigger] self.parts@[p]).tag < types.len()
                &&& columns_within(self.parts@[p].columns@, types[self.parts@[p].tag as int].len())
            }
    }
}

/// All archetypes of a program and the queries resolved against them.
pub struct World<C> {
    types: Vec<Vec<String>>,
    archetypes: Vec<Archetype<C>>,
    plans: Vec<Plan>,
}

impl<C> View for World<C> {
    type V = WorldModel<C>;

    closed spec fn view(&self) -> WorldModel<C> {
        WorldModel {
            types: Seq::new(self.types@.len(), |t: int| strings(self.types@[t]@)),
            archetypes: Seq::new(self.archetypes@.len(), |t: int| self.archetypes@[t]@),
            queries: Seq::new(self.plans@.len(), |q: int| self.plans@[q].query@),
        }
    }
}

impl<C> World<C> {
    /// The world's invariant: every archetype is well formed and sits at its
    /// tag, the population fits the machine's word, and every cached
    /// resolution is what resolving the shape anew would give.
    pub closed spec fn wf(&self) -> bool {
        &&& self.types@.len() == self.archetypes@.len()
        &&& forall|t: int|
            0 <= t < self.archetypes@.len() ==> {
                &&& (#[trigger] self.archetypes@[t]).wf()
                &&& self.archetypes@[t]@.tag.0 == t
                &&& self.archetypes@[t]@.width == self.types@[t]@.len()
            }
        &&& self@.population() <= usize::MAX
        &&& forall|q: int| 0 <= q < self.plans@.len() ==> (#[trigger] self.plans@[q]).resolved(self@.types)
    }

    /// A well-formed world has a well-formed model.
    pub proof fn lemma_view_wf(&self)
        requires
            self.wf(),
        ensures
            self@.wf(),
            self@.population() <= usize::MAX,
    {
        assert forall|t: int| 0 <= t < self@.archetypes.len() implies (#[trigger] self@.archetypes[t]).wf() by {
            self.archetypes@[t].lemma_view_wf();
        }
    }

    /// A world with one empty archetype per declared shape, in declaration
    /// order, and no query resolved.
    pub fn new(entities: &Vec<EntityDef>) -> (world: Self)
        ensures
            world.wf(),
            world@ == WorldModel::<C>::empty(
                declared_types(entity_views(entities@)),
            ),
    {
        let ghost declared = declared_types(entity_views(entities@));
        let mut types: Vec<Vec<String>> = Vec::new();
        let mut archetypes: Vec<Archetype<C>> = Vec::new();
        let mut t: usize = 0;
        while t < entities.len()
            invariant
                t <= entities@.len(),
                types@.len() == t,
                archetypes@.len() == t,
                declared == declared_types(entity_views(entities@)),
                forall|m: int| 0 <= m < t ==> strings((#[trigger] types@[m])@) == declared[m],
                forall|m: int|
                    0 <= m < t ==> (#[trigger] archetypes@[m]).wf() && archetypes@[m]@ == ArchetypeModel::<
                        C,
                    >::empty(ArchetypeTag(m as usize), declared[m].len()),
            decreases entities@.len() - t,
        {
            let columns = entities[t].component_types();
            assert(strings(columns@).len() == columns@.len());
            archetypes.push(Archetype::new(ArchetypeTag(t), columns.len()));
            types.push(columns);
            t += 1;
        }
        let world = World { types, archetypes, plans: Vec::new() };
        proof {
            assert(world@.types =~= declared);
            assert(world@.archetypes =~= WorldModel::<C>::empty(declared).archetypes);
            assert(world@.queries =~= Seq::empty());
            Self::lemma_empty_total(world@.archetypes, world@.archetypes.len() as int);
        }
        world
    }

    proof fn lemma_empty_total(archetypes: Seq<ArchetypeModel<C>>, n: int)
        requires
            0 <= n <= archetypes.len(),
            forall|t: int| 0 <= t < archetypes.len() ==> (#[trigger] archetypes[t]).len() == 0,
        ensures
            total(archetypes, n) == 0,
        decreases n,
    {
        if n > 0 {
            Self::lemma_empty_total(archetypes, n - 1);
        }
    }

    /// The world that a program's declarations ask for: one empty archetype
    /// per declared shape, and every declared query resolved, each distinct
    /// shape once and in the order of first declaration.
    pub fn from_declarations(data: &CollectedData) -> (world: Self)
        ensures
            world.wf(),
            world@ == (WorldModel {
                queries: distinct(query_views(data.queries@)),
                ..WorldModel::<C>::empty(
                    declared_types(entity_views(data.entities@)),
                )
            }),
    {
        let mut world = Self::new(&data.entities);
        let ghost all = query_views(data.queries@);
        let ghost fresh = world@;
        let mut q: usize = 0;
        while q < data.queries.len()
            invariant
                q <= data.queries@.len(),
                all == query_views(data.queries@),
                world.wf(),
                world@ == (WorldModel { queries: distinct(all.take(q as int)), ..fresh }),
            decreases data.queries@.len() - q,
        {
            proof {
                assert(all.take(q + 1).drop_last() =~= all.take(q as int));
                assert(all.take(q + 1).last() == data.queries@[q as int]@);
            }
            world.register(data.queries[q].duplicate());
            q += 1;
        }
        proof {
            assert(all.take(data.queries@.len() as int) =~= all);
            assert(distinct(all.take(0)) =~= Seq::empty());
        }
        world
    }

    /// Number of archetypes.
    pub fn archetype_count(&self) -> (n: usize)
        ensures
            n == self@.archetypes.len(),
    {
        self.archetypes.len()
    }

    /// Number of query shapes resolved.
    pub fn query_count(&self) -> (n: usize)
        ensures
            n == self@.queries.len(),
    {
        self.plans.len()
    }

    /// How many leading components of a query's rows may be written; none
    /// where the query is not resolved.
    pub fn mutable_count(&self, query: QueryId) -> (n: usize)
        requires
            self.wf(),
        ensures
            n == if self@.valid_query(query) {
                self@.mutable_count(query)
            } else {
                0
            },
    {
        if query.0 < self.plans.len() {
            self.plans[query.0].mutable
        } else {
            0
        }
    }

    /// Number of live entities in the world.
    pub fn population(&self) -> (n: usize)
        requires
            self.wf(),
        ensures
            n == self@.population(),
    {
        let mut n: usize = 0;
        let mut t: usize = 0;
        while t < self.archetypes.len()
            invariant
                t <= self.archetypes@.len(),
                n == total(self@.archetypes, t as int),
                self@.population() <= usize::MAX,
                self@.archetypes.len() == self.archetypes@.len(),
            decreases self.archetypes@.len() - t,
        {
            proof {
                lemma_total_monotone(self@.archetypes, t + 1);
            }
            n += self.archetypes[t].len();
            t += 1;
        }
        n
    }

    /// Whether `create` may be called with this tag and row.
    pub fn can_create(&self, tag: ArchetypeTag, row: &Vec<C>) -> (r: bool)
        requires
            self.wf(),
        ensures
            r == self@.admits(tag, row@),
    {
        if tag.0 >= self.archetypes.len() {
            return false;
        }
        self.archetypes[tag.0].can_create(row) && self.population() < usize::MAX
    }

    /// Creates an entity of the archetype `tag` from one value per component,
    /// in declaration order, and returns its handle. No other entity changes.
    pub fn create(&mut self, tag: ArchetypeTag, row: Vec<C>) -> (e: Entity)
        requires
            old(self).wf(),
            old(self)@.admits(tag, row@),
        ensures
            final(self).wf(),
            final(self)@ == old(self)@.create(tag, row@),
            e == old(self)@.next_entity(tag),
    {
        let ghost before = *self;
        let ghost values = row@;
        let e = self.archetypes[tag.0].create(row);
        proof {
            assert(self@.archetypes =~= before@.create(tag, values).archetypes);
            assert(self@.types == before@.types);
            lemma_total_update(
                before@.archetypes,
                tag.0 as int,
                self@.archetypes[tag.0 as int],
                before@.archetypes.len() as int,
            );
        }
        e
    }

    /// Destroys an entity. Stale handles, handles destroyed before and handles
    /// of an archetype that the world does not have change nothing.
    pub fn destroy(&mut self, e: Entity)
        requires
            old(self).wf(),
        ensures
            final(self).wf(),
            final(self)@ == old(self)@.destroy(e),
    {
        let ghost before = *self;
        let t = e.archetype_tag.0;
        if t < self.archetypes.len() {
            self.archetypes[t].destroy(e);
            proof {
                before.lemma_view_wf();
                before@.archetypes[t as int].lemma_destroy_wf(e);
                assert(self@.archetypes =~= before@.destroy(e).archetypes);
                assert(self@.types == before@.types);
                lemma_total_update(
                    before@.archetypes,
                    t as int,
                    self@.archetypes[t as int],
                    before@.archetypes.len() as int,
                );
            }
        }
    }

    /// The number of entities that a query spans: the sum of the lengths of
    /// the archetypes that hold every type of its shape.
    pub fn len(&self, query: QueryId) -> (n: usize)
        requires
            self.wf(),
        ensures
            n == self@.len(query),
    {
        if query.0 >= self.plans.len() {
            return 0;
        }
        let plan = &self.plans[query.0];
        let ghost parts = self@.parts(query);
        assert(part_views(plan.parts@) == parts);
        let mut n: usize = 0;
        let mut p: usize = 0;
        while p < plan.parts.len()
            invariant
                p <= plan.parts@.len(),
                self.wf(),
                plan.resolved(self@.types),
                part_views(plan.parts@) == parts,
                parts == matching(self@.types, plan.query@.shape(), self@.types.len() as int),
                n == count_of(self@.archetypes, parts.take(p as int)),
            decreases plan.parts@.len() - p,
        {
            proof {
                lemma_rows_step(self@.archetypes, parts, p as int);
                lemma_rows_prefix(self@.archetypes, parts, p + 1);
                lemma_count_within_total(
                    self@.types,
                    self@.archetypes,
                    plan.query@.shape(),
                    self@.types.len() as int,
                );
                assert(parts[p as int] == plan.parts@[p as int]@);
            }
            n += self.archetypes[plan.parts[p].tag].len();
            p += 1;
        }
        assert(parts.take(p as int) =~= parts);
        n
    }

    /// Whether a query spans no entity.
    pub fn is_empty(&self, query: QueryId) -> (r: bool)
        requires
            self.wf(),
        ensures
            r == (self@.len(query) == 0),
    {
        self.len(query) == 0
    }

    /// The row at an absolute position of a query's iteration order: the
    /// archetypes are walked in declaration order, each taking as many
    /// positions as it holds entities. Positions past the end give nothing.
    pub fn at<'a>(&'a self, query: QueryId, index: usize) -> (r: Option<Row<'a, C>>)
        requires
            self.wf(),
        ensures
            option_view(r) == self@.at(query, index as int),
    {
        if query.0 >= self.plans.len() {
            return None;
        }
        let plan = &self.plans[query.0];
        let ghost parts = self@.parts(query);
        assert(part_views(plan.parts@) == parts);
        let mut remaining: usize = index;
        let mut p: usize = 0;
        while p < plan.parts.len()
            invariant
                p <= plan.parts@.len(),
                self.wf(),
                plan.resolved(self@.types),
                part_views(plan.parts@) == parts,
                parts == self@.parts(query),
                remaining + count_of(self@.archetypes, parts.take(p as int)) == index,
            decreases plan.parts@.len() - p,
        {
            let part = &plan.parts[p];
            let archetype = &self.archetypes[part.tag];
            let n = archetype.len();
            proof {
                lemma_rows_step(self@.archetypes, parts, p as int);
                lemma_rows_prefix(self@.archetypes, parts, p + 1);
                lemma_rows_len(self@.archetypes, parts.take(p as int));
                lemma_rows_len(self@.archetypes, parts);
                assert(parts[p as int] == part@);
            }
            if remaining < n {
                let r = archetype.at(remaining, &part.columns);
                proof {
                    let prefix = rows_of(self@.archetypes, parts.take(p + 1));
                    assert(prefix[index as int] == archetype@.project_all(part@.columns)[remaining as int]);
                    assert(self@.rows(query)[index as int] == prefix[index as int]);
                }
                return r;
            }
            remaining -= n;
            p += 1;
        }
        proof {
            assert(parts.take(p as int) =~= parts);
            lemma_rows_len(self@.archetypes, parts);
        }
        None
    }

    /// The row of one entity, routed by the handle's tag. Nothing for a stale
    /// handle and nothing where the entity's archetype lacks a type of the
    /// shape.
    pub fn get<'a>(&'a self, query: QueryId, e: Entity) -> (r: Option<Row<'a, C>>)
        requires
            self.wf(),
        ensures
            option_view(r) == self@.get(query, e),
    {
        if query.0 >= self.plans.len() {
            return None;
        }
        let t = e.archetype_tag.0;
        if t >= self.archetypes.len() {
            return None;
        }
        let plan = &self.plans[query.0];
        let ghost parts = self@.parts(query);
        assert(part_views(plan.parts@) == parts);
        proof {
            lemma_matching(self@.types, self@.shape(query), self@.types.len() as int);
        }
        let mut p: usize = 0;
        while p < plan.parts.len()
            invariant
                p <= plan.parts@.len(),
                self.wf(),
                plan.resolved(self@.types),
                query.0 < self.plans@.len(),
                plan == self.plans@[query.0 as int],
                t < self.archetypes@.len(),
                t == e.archetype_tag.0,
                part_views(plan.parts@) == parts,
                parts == self@.parts(query),
                forall|m: int| 0 <= m < p ==> (#[trigger] plan.parts@[m]).tag != t,
            decreases plan.parts@.len() - p,
        {
            let part = &plan.parts[p];
            if part.tag == t {
                proof {
                    lemma_matching(self@.types, self@.shape(query), self@.types.len() as int);
                    assert(parts[p as int] == part@);
                }
                let r = self.archetypes[t].get(e, &part.columns);
                assert(option_view(r) == self@.get(query, e));
                return r;
            }
            p += 1;
        }
        proof {
            if supports(self@.types[t as int], self@.shape(query)) {
                let m = choose|m: int| 0 <= m < parts.len() && parts[m].tag == t;
                assert(parts[m] == plan.parts@[m]@);
            }
        }
        None
    }

    /// Every row that a query spans: the matching archetypes in declaration
    /// order, each in dense order.
    pub fn query<'a>(&'a self, query: QueryId) -> (rows: Vec<Row<'a, C>>)
        requires
            self.wf(),
        ensures
            row_views(rows@) == self@.rows(query),
    {
        let mut rows: Vec<Row<'a, C>> = Vec::new();
        if query.0 >= self.plans.len() {
            assert(row_views(rows@) =~= self@.rows(query));
            return rows;
        }
        let plan = &self.plans[query.0];
        let ghost parts = self@.parts(query);
        assert(part_views(plan.parts@) == parts);
        assert(row_views(rows@) =~= rows_of(self@.archetypes, parts.take(0)));
        let mut p: usize = 0;
        while p < plan.parts.len()
            invariant
                p <= plan.parts@.len(),
                self.wf(),
                plan.resolved(self@.types),
                part_views(plan.parts@) == parts,
                row_views(rows@) == rows_of(self@.archetypes, parts.take(p as int)),
            decreases plan.parts@.len() - p,
        {
            let part = &plan.parts[p];
            let ghost shown = row_views(rows@);
            let mut more = self.archetypes[part.tag].query(&part.columns);
            let ghost added = row_views(more@);
            proof {
                lemma_rows_step(self@.archetypes, parts, p as int);
                assert(parts[p as int] == part@);
            }
            rows.append(&mut more);
            assert(row_views(rows@) =~= shown + added);
            p += 1;
        }
        assert(parts.take(p as int) =~= parts);
        rows
    }

    /// The id under which a shape is resolved, if it is.
    pub fn find_query(&self, query: &Query) -> (r: Option<QueryId>)
        ensures
            r == self@.find(query@),
    {
        let mut q: usize = 0;
        while q < self.plans.len()
            invariant
                q <= self.plans@.len(),
                forall|m: int| 0 <= m < q ==> self@.queries[m] != query@,
            decreases self.plans@.len() - q,
        {
            if self.plans[q].query.same(query) {
                proof {
                    lemma_first_index(self@.queries, query@, q as int);
                }
                return Some(QueryId(q));
            }
            q += 1;
        }
        assert(!self@.queries.contains(query@)) by {
            if self@.queries.contains(query@) {
                let m = choose|m: int| 0 <= m < self@.queries.len() && self@.queries[m] == query@;
                assert(self@.queries[m] != query@);
            }
        }
        None
    }

    /// Resolves a query shape against the archetypes and remembers the
    /// result, so that the archetypes are scanned once per distinct shape. A
    /// shape resolved before keeps its id.
    pub fn register(&mut self, query: Query) -> (id: QueryId)
        requires
            old(self).wf(),
        ensures
            final(self).wf(),
            final(self)@ == old(self)@.register(query@),
            Some(id) == final(self)@.find(query@),
    {
        let ghost before = *self;
        match self.find_query(&query) {
            Some(id) => id,
            None => {
                let shape = query.shape();
                let mutable = query.mutable_count();
                let mut parts: Vec<Part> = Vec::new();
                let mut t: usize = 0;
                while t < self.types.len()
                    invariant
                        t <= self.types@.len(),
                        *self == before,
                        self.wf(),
                        strings(shape@) == query@.shape(),
                        part_views(parts@) == matching(self@.types, query@.shape(), t as int),
                        forall|p: int|
                            0 <= p < parts@.len() ==> {
                                &&& (#[trigger] parts@[p]).tag < self@.types.len()
                                &&& columns_within(parts@[p].columns@, self@.types[parts@[p].tag as int].len())
                            },
                    decreases self.types@.len() - t,
                {
                    let ghost shown = part_views(parts@);
                    match resolve_columns(&self.types[t], &shape) {
                        Some(columns) => {
                            let part = Part { tag: t, columns };
                            parts.push(part);
                            assert(part_views(parts@) =~= shown.push(part@));
                        },
                        None => {},
                    }
                    t += 1;
                }
                let ghost shape_view = query@;
                let plan = Plan { query, mutable, parts };
                assert(plan.resolved(self@.types));
                self.plans.push(plan);
                proof {
                    assert(self@.queries =~= before@.queries.push(shape_view));
                    assert(self@.archetypes =~= before@.archetypes);
                    assert(self@.types =~= before@.types);
                    assert forall|m: int| 0 <= m < before@.queries.len() implies self@.queries[m]
                        != shape_view by {
                        assert(before@.queries[m] == self@.queries[m]);
                        if before@.queries[m] == shape_view {
                            assert(before@.queries.contains(shape_view));
                        }
                    }
                    lemma_first_index(self@.queries, shape_view, before@.queries.len() as int);
                    assert forall|q: int| 0 <= q < self.plans@.len() implies (
                    #[trigger] self.plans@[q]).resolved(self@.types) by {
                        if q < before.plans@.len() {
                            assert(self.plans@[q] == before.plans@[q]);
                        }
                    }
                }
                QueryId(self.plans.len() - 1)
            },
        }
    }

    /// Where component `k` of the row that a query yields for `e` is stored:
    /// the dense position of `e` in its archetype and the column, where the
    /// query finds `e` and asks for the component with exclusive access.
    fn locate(&self, query: QueryId, e: Entity, k: usize) -> (r: Option<(usize, usize)>)
        requires
            self.wf(),
        ensures
            r is Some <==> self@.get(query, e) is Some && k < self@.mutable_count(query),
            r matches Some((index, column)) ==> {
                &&& e.archetype_tag.0 < self.archetypes@.len()
                &&& index == self@.archetypes[e.archetype_tag.0 as int].index_of(e)
                &&& index < self@.archetypes[e.archetype_tag.0 as int].len()
                &&& column == self@.column(query, e.archetype_tag, k as int)
                &&& column < self@.archetypes[e.archetype_tag.0 as int].width
            },
    {
        if query.0 >= self.plans.len() {
            return None;
        }
        let t = e.archetype_tag.0;
        if t >= self.archetypes.len() {
            return None;
        }
        if k >= self.plans[query.0].mutable {
            return None;
        }
        let plan = &self.plans[query.0];
        let ghost parts = self@.parts(query);
        proof {
            lemma_matching(self@.types, self@.shape(query), self@.types.len() as int);
            assert(part_views(plan.parts@) == parts);
        }
        let mut p: usize = 0;
        while p < plan.parts.len()
            invariant
                p <= plan.parts@.len(),
                self.wf(),
                plan.resolved(self@.types),
                query.0 < self.plans@.len(),
                plan == self.plans@[query.0 as int],
                k < plan.mutable,
                t < self.archetypes@.len(),
                t == e.archetype_tag.0,
                part_views(plan.parts@) == parts,
                parts == self@.parts(query),
                forall|m: int| 0 <= m < p ==> (#[trigger] plan.parts@[m]).tag != t,
            decreases plan.parts@.len() - p,
        {
            let part = &plan.parts[p];
            if part.tag == t {
                proof {
                    lemma_matching(self@.types, self@.shape(query), self@.types.len() as int);
                    assert(parts[p as int] == part@);
                    assert(as_ints(part.columns@).len() == self@.shape(query).len());
                }
                let column = part.columns[k];
                assert(column as int == self@.column(query, e.archetype_tag, k as int));
                return match self.archetypes[t].index_of(e) {
                    Some(index) => Some((index, column)),
                    None => None,
                };
            }
            p += 1;
        }
        proof {
            lemma_matching(self@.types, self@.shape(query), self@.types.len() as int);
            if supports(self@.types[t as int], self@.shape(query)) {
                let m = choose|m: int| 0 <= m < parts.len() && parts[m].tag == t;
                assert(parts[m] == plan.parts@[m]@);
            }
        }
        None
    }

    /// One world comes of another by a write to one cell: the archetype `t`
    /// holds `value` in `column` at `index` and is otherwise what it was, and
    /// nothing else has changed.
    spec fn written(before: Self, after: Self, t: int, index: int, column: int, value: C) -> bool {
        &&& after.types == before.types
        &&& after.plans == before.plans
        &&& after.archetypes@ == before.archetypes@.update(t, after.archetypes@[t])
        &&& after.archetypes@[t].wf()
        &&& after.archetypes@[t]@ == before.archetypes@[t]@.set(index, column, value)
    }

    /// A write to one cell keeps the world well formed, and its model is the
    /// model of the world before with that cell set.
    proof fn lemma_written(&self, after: &Self, query: QueryId, e: Entity, k: int, value: C)
        requires
            self.wf(),
            e.archetype_tag.0 < self.archetypes@.len(),
            Self::written(
                *self,
                *after,
                e.archetype_tag.0 as int,
                self@.archetypes[e.archetype_tag.0 as int].index_of(e),
                self@.column(query, e.archetype_tag, k),
                value,
            ),
        ensures
            after.wf(),
            after@ == self@.set(query, e, k, value),
    {
        let t = e.archetype_tag.0 as int;
        assert(after@.archetypes =~= self@.set(query, e, k, value).archetypes);
        assert(after@.types =~= self@.types);
        assert(after@.queries =~= self@.queries);
        lemma_total_update(self@.archetypes, t, after@.archetypes[t], self@.archetypes.len() as int);
        assert forall|m: int| 0 <= m < after.archetypes@.len() implies {
            &&& (#[trigger] after.archetypes@[m]).wf()
            &&& after.archetypes@[m]@.tag.0 == m
            &&& after.archetypes@[m]@.width == after.types@[m]@.len()
        } by {
            if m != t {
                assert(after.archetypes@[m] == self.archetypes@[m]);
            }
        }
    }

    /// The cell behind `get_mut` and `at_mut`. That the write is a write to one
    /// cell is stated first, and what follows from it after that: only so is
    /// the second proved while the cell is still borrowed.
    fn component_mut(&mut self, query: QueryId, e: Entity, k: usize) -> (r: Option<&mut C>)
        requires
            old(self).wf(),
        ensures
            r is Some <==> old(self)@.get(query, e) is Some && k < old(self)@.mutable_count(query),
            r matches Some(cell) ==> *cell == old(self)@.get(query, e)->0.values[k as int],
            r matches Some(cell) ==> Self::written(
                *old(self),
                *final(self),
                e.archetype_tag.0 as int,
                old(self)@.archetypes[e.archetype_tag.0 as int].index_of(e),
                old(self)@.column(query, e.archetype_tag, k as int),
                *final(cell),
            ),
            r matches Some(cell) ==> (Self::written(
                *old(self),
                *final(self),
                e.archetype_tag.0 as int,
                old(self)@.archetypes[e.archetype_tag.0 as int].index_of(e),
                old(self)@.column(query, e.archetype_tag, k as int),
                *final(cell),
            ) ==> final(self)@ == old(self)@.set(query, e, k as int, *final(cell)) && final(self).wf()),
            r is None ==> final(self)@ == old(self)@ && final(self).wf(),
    {
        match self.locate(query, e, k) {
            Some((index, column)) => {
                let t = e.archetype_tag.0;
                proof {
                    self.lemma_view_wf();
                    assert(self@.archetypes[t as int] == self.archetypes@[t as int]@);
                    let before = *self;
                    assert forall|after: Self, value: C| #[trigger]
                        Self::written(
                            before,
                            after,
                            t as int,
                            before@.archetypes[t as int].index_of(e),
                            before@.column(query, e.archetype_tag, k as int),
                            value,
                        ) implies after.wf() && after@ == before@.set(query, e, k as int, value) by {
                        before.lemma_written(&after, query, e, k as int, value);
                    }
                }
                self.archetypes[t].at_mut(index, column)
            },
            None => None,
        }
    }

    /// Exclusive access to component `k` of the row that a query yields for
    /// `e`, where the shape asks for that component with exclusive access.
    /// What the caller writes through the reference is what the world then
    /// holds there; nothing else changes.
    pub fn get_mut(&mut self, query: QueryId, e: Entity, k: usize) -> (r: Option<&mut C>)
        requires
            old(self).wf(),
        ensures
            r is Some <==> old(self)@.get(query, e) is Some && k < old(self)@.mutable_count(query),
            r matches Some(cell) ==> *cell == old(self)@.get(query, e)->0.values[k as int],
            r matches Some(cell) ==> final(self)@ == old(self)@.set(query, e, k as int, *final(cell)),
            r is None ==> final(self)@ == old(self)@,
            final(self).wf(),
    {
        self.component_mut(query, e, k)
    }

    /// Exclusive access to component `k` of the row at an absolute position
    /// of a query's iteration order, where the shape asks for that component
    /// with exclusive access.
    pub fn at_mut(&mut self, query: QueryId, index: usize, k: usize) -> (r: Option<&mut C>)
        requires
            old(self).wf(),
        ensures
            r is Some <==> index < old(self)@.len(query) && k < old(self)@.mutable_count(query),
            r matches Some(cell) ==> *cell == old(self)@.rows(query)[index as int].values[k as int],
            r matches Some(cell) ==> final(self)@ == old(self)@.set(
                query,
                old(self)@.rows(query)[index as int].entity,
                k as int,
                *final(cell),
            ),
            r is None ==> final(self)@ == old(self)@,
            final(self).wf(),
    {
        proof {
            self.lemma_view_wf();
            lemma_rows_len(self@.archetypes, self@.parts(query));
        }
        let e = match self.at(query, index) {
            Some(row) => row.entity,
            None => {
                return None;
            },
        };
        proof {
            self@.lemma_at_get(query, index as int);
        }
        self.component_mut(query, e, k)
    }
}

} // verus!
