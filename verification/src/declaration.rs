//! What a program declares before a world is built: its entity shapes, the
//! queries it will ask and the systems it will run.
use vstd::prelude::*;
use vstd::string::StringExecFns;

use crate::sequence::{distinct, first_index, lemma_first_index, strings};

verus! {

/// Equality of two lists of strings.
pub fn same_strings(a: &Vec<String>, b: &Vec<String>) -> (r: bool)
    ensures
        r == (strings(a@) == strings(b@)),
{
    if a.len() != b.len() {
        assert(strings(a@).len() != strings(b@).len());
        return false;
    }
    let mut i: usize = 0;
    while i < a.len()
        invariant
            i <= a@.len(),
            a@.len() == b@.len(),
            forall|m: int| 0 <= m < i ==> a@[m]@ == b@[m]@,
        decreases a@.len() - i,
    {
        if a[i] != b[i] {
            assert(strings(a@)[i as int] != strings(b@)[i as int]);
            return false;
        }
        i += 1;
    }
    assert(strings(a@) =~= strings(b@));
    true
}

/// One field of an entity shape: its name and the name of its component type.
#[derive(Debug)]
pub struct Field {
    pub name: String,
    pub data_type: String,
}

/// A field, as mathematics.
pub struct FieldView {
    pub name: Seq<char>,
    pub data_type: Seq<char>,
}

impl View for Field {
    type V = FieldView;

    open spec fn view(&self) -> FieldView {
        FieldView { name: self.name@, data_type: self.data_type@ }
    }
}

/// One declared entity shape.
#[derive(Debug)]
pub struct EntityDef {
    pub name: String,
    pub fields: Vec<Field>,
}

/// An entity shape, as mathematics.
pub struct EntityDefView {
    pub name: Seq<char>,
    pub fields: Seq<FieldView>,
}

impl View for EntityDef {
    type V = EntityDefView;

    open spec fn view(&self) -> EntityDefView {
        EntityDefView { name: self.name@, fields: Seq::new(self.fields@.len(), |i: int| self.fields@[i]@) }
    }
}

/// The views of a list of entity shapes.
pub open spec fn entity_views(v: Seq<EntityDef>) -> Seq<EntityDefView> {
    Seq::new(v.len(), |t: int| v[t]@)
}

impl EntityDefView {
    /// The component type of every field, in declaration order.
    pub open spec fn data_types(self) -> Seq<Seq<char>> {
        Seq::new(self.fields.len(), |i: int| self.fields[i].data_type)
    }
}

impl EntityDef {
    /// The component type of every field, in declaration order.
    pub fn data_types(&self) -> (r: Vec<String>)
        ensures
            strings(r@) == self@.data_types(),
    {
        let mut r: Vec<String> = Vec::new();
        let mut i: usize = 0;
        while i < self.fields.len()
            invariant
                i <= self.fields@.len(),
                r@.len() == i,
                forall|m: int| 0 <= m < i ==> r@[m]@ == self.fields@[m].data_type@,
            decreases self.fields@.len() - i,
        {
            r.push(self.fields[i].data_type.clone());
            i += 1;
        }
        assert(strings(r@) =~= self@.data_types());
        r
    }
}

/// A resource that a system takes by reference.
#[derive(Debug, Default, Clone)]
pub struct SystemDefParamReference {
    pub name: String,
    pub ty: String,
    pub mutable: bool,
}

/// One parameter of a system: a query, by the parameter's name, or a resource.
#[derive(Debug)]
pub enum SystemDefParam {
    Query(String),
    Reference(SystemDefParamReference),
}

/// One declared system: its name, the group it runs in and its parameters.
#[derive(Debug, Default)]
pub struct SystemDef {
    pub name: String,
    pub group: String,
    pub params: Vec<SystemDefParam>,
}

/// A query shape: the component types asked for with exclusive access, then
/// those asked for with shared access.
#[derive(Debug, Clone, Hash)]
pub struct Query {
    pub mutable_fields: Vec<String>,
    pub const_fields: Vec<String>,
}

/// A query shape, as mathematics.
pub struct QueryView {
    pub mutable_fields: Seq<Seq<char>>,
    pub const_fields: Seq<Seq<char>>,
}

impl View for Query {
    type V = QueryView;

    open spec fn view(&self) -> QueryView {
        QueryView { mutable_fields: strings(self.mutable_fields@), const_fields: strings(self.const_fields@) }
    }
}

/// One requested component type and whether it is asked for with exclusive
/// access.
#[derive(Debug)]
pub struct ComponentSpec {
    pub is_mut: bool,
    pub ident: String,
}

/// A requested component, as mathematics.
pub struct ComponentSpecView {
    pub is_mut: bool,
    pub ident: Seq<char>,
}

impl View for ComponentSpec {
    type V = ComponentSpecView;

    open spec fn view(&self) -> ComponentSpecView {
        ComponentSpecView { is_mut: self.is_mut, ident: self.ident@ }
    }
}

/// The views of a list of requested components.
pub open spec fn spec_views(v: Seq<ComponentSpec>) -> Seq<ComponentSpecView> {
    Seq::new(v.len(), |i: int| v[i]@)
}

/// The types among `specs` that are asked for with the given access, in
/// order.
pub open spec fn idents_with(specs: Seq<ComponentSpecView>, is_mut: bool) -> Seq<Seq<char>>
    decreases specs.len(),
{
    if specs.len() == 0 {
        Seq::empty()
    } else if specs.last().is_mut == is_mut {
        idents_with(specs.drop_last(), is_mut).push(specs.last().ident)
    } else {
        idents_with(specs.drop_last(), is_mut)
    }
}

/// A copy of a list of strings.
pub fn copy_strings(v: &Vec<String>) -> (r: Vec<String>)
    ensures
        strings(r@) == strings(v@),
{
    let mut r: Vec<String> = Vec::new();
    let mut i: usize = 0;
    while i < v.len()
        invariant
            i <= v@.len(),
            r@.len() == i,
            forall|m: int| 0 <= m < i ==> r@[m]@ == v@[m]@,
        decreases v@.len() - i,
    {
        r.push(v[i].clone());
        i += 1;
    }
    assert(strings(r@) =~= strings(v@));
    r
}

impl Query {
    /// The query that a list of requested components stands for: the types
    /// asked for with exclusive access and those asked for with shared access,
    /// each list in the order of the request. A request for nothing is no
    /// query.
    pub fn from_specs(specs: &Vec<ComponentSpec>) -> (r: Option<Query>)
        ensures
            r is Some <==> specs@.len() > 0,
            r matches Some(q) ==> q@ == (QueryView {
                mutable_fields: idents_with(spec_views(specs@), true),
                const_fields: idents_with(spec_views(specs@), false),
            }),
    {
        let ghost all = spec_views(specs@);
        let mut mutable_fields: Vec<String> = Vec::new();
        let mut const_fields: Vec<String> = Vec::new();
        let mut i: usize = 0;
        while i < specs.len()
            invariant
                i <= specs@.len(),
                all == spec_views(specs@),
                strings(mutable_fields@) == idents_with(all.take(i as int), true),
                strings(const_fields@) == idents_with(all.take(i as int), false),
            decreases specs@.len() - i,
        {
            let ghost shown_mutable = strings(mutable_fields@);
            let ghost shown_const = strings(const_fields@);
            proof {
                assert(all.take(i + 1).drop_last() =~= all.take(i as int));
                assert(all.take(i + 1).last() == specs@[i as int]@);
            }
            if specs[i].is_mut {
                mutable_fields.push(specs[i].ident.clone());
                assert(strings(mutable_fields@) =~= shown_mutable.push(specs@[i as int].ident@));
            } else {
                const_fields.push(specs[i].ident.clone());
                assert(strings(const_fields@) =~= shown_const.push(specs@[i as int].ident@));
            }
            i += 1;
        }
        assert(all.take(specs@.len() as int) =~= all);
        if specs.len() == 0 {
            None
        } else {
            Some(Query { mutable_fields, const_fields })
        }
    }

    /// A copy of this query.
    pub fn duplicate(&self) -> (r: Query)
        ensures
            r@ == self@,
    {
        Query { mutable_fields: copy_strings(&self.mutable_fields), const_fields: copy_strings(&self.const_fields) }
    }

    /// Whether two queries ask for the same types in the same order with the
    /// same access.
    pub fn same(&self, other: &Query) -> (r: bool)
        ensures
            r == (self@ == other@),
    {
        same_strings(&self.mutable_fields, &other.mutable_fields) && same_strings(
            &self.const_fields,
            &other.const_fields,
        )
    }
}

impl PartialEq for Query {
    fn eq(&self, other: &Self) -> (r: bool) {
        self.same(other)
    }
}

impl Eq for Query {

}

impl vstd::std_specs::cmp::PartialEqSpecImpl for Query {
    open spec fn obeys_eq_spec() -> bool {
        true
    }

    open spec fn eq_spec(&self, other: &Self) -> bool {
        self@ == other@
    }
}

/// The views of a list of queries.
pub open spec fn query_views(v: Seq<Query>) -> Seq<QueryView> {
    Seq::new(v.len(), |i: int| v[i]@)
}

/// Position of the first query of `list` equal to `query`, if there is one.
pub fn find_query(list: &Vec<Query>, query: &Query) -> (r: Option<usize>)
    ensures
        r is Some <==> query_views(list@).contains(query@),
        r matches Some(i) ==> i < list@.len() && i == first_index(query_views(list@), query@),
{
    let mut i: usize = 0;
    while i < list.len()
        invariant
            i <= list@.len(),
            forall|m: int| 0 <= m < i ==> list@[m]@ != query@,
        decreases list@.len() - i,
    {
        if list[i].same(query) {
            proof {
                assert forall|m: int| 0 <= m < i implies query_views(list@)[m] != query@ by {
                    assert(list@[m]@ != query@);
                }
                lemma_first_index(query_views(list@), query@, i as int);
            }
            return Some(i);
        }
        i += 1;
    }
    assert(!query_views(list@).contains(query@)) by {
        if query_views(list@).contains(query@) {
            let m = query_views(list@).index_of(query@);
            assert(list@[m]@ == query@);
        }
    }
    None
}

/// Everything collected from a program's declarations.
#[derive(Debug, Default)]
pub struct CollectedData {
    pub entities: Vec<EntityDef>,
    pub queries: Vec<Query>,
    pub systems: Vec<SystemDef>,
}

/// The field that gives every entity shape its own handle.
pub open spec fn entity_field() -> FieldView {
    FieldView { name: "entity"@, data_type: "Entity"@ }
}

impl CollectedData {
    /// Takes over what another collection holds: its entities, queries and
    /// systems follow this one's, in their order.
    pub fn extend(&mut self, other: CollectedData)
        ensures
            final(self).entities@ == old(self).entities@ + other.entities@,
            final(self).queries@ == old(self).queries@ + other.queries@,
            final(self).systems@ == old(self).systems@ + other.systems@,
    {
        let mut other = other;
        self.entities.append(&mut other.entities);
        self.queries.append(&mut other.queries);
        self.systems.append(&mut other.systems);
    }

    /// Gives every entity shape one more field, its last: the entity's own
    /// handle, named `entity` and of type `Entity`. Queries and systems are
    /// untouched.
    pub fn add_entity_fields(&mut self)
        ensures
            final(self).entities@.len() == old(self).entities@.len(),
            forall|t: int|
                0 <= t < old(self).entities@.len() ==> (#[trigger] final(self).entities@[t])@ == (EntityDefView {
                    name: old(self).entities@[t]@.name,
                    fields: old(self).entities@[t]@.fields.push(entity_field()),
                }),
            final(self).queries == old(self).queries,
            final(self).systems == old(self).systems,
    {
        let mut t: usize = 0;
        while t < self.entities.len()
            invariant
                t <= self.entities@.len(),
                self.entities@.len() == old(self).entities@.len(),
                self.queries == old(self).queries,
                self.systems == old(self).systems,
                forall|m: int| t <= m < self.entities@.len() ==> self.entities@[m] == old(self).entities@[m],
                forall|m: int|
                    0 <= m < t ==> (#[trigger] self.entities@[m])@ == (EntityDefView {
                        name: old(self).entities@[m]@.name,
                        fields: old(self).entities@[m]@.fields.push(entity_field()),
                    }),
            decreases self.entities@.len() - t,
        {
            let field = Field { name: String::from_str("entity"), data_type: String::from_str("Entity") };
            assert(field@ == entity_field());
            self.entities[t].fields.push(field);
            assert(self.entities@[t as int]@.fields =~= old(self).entities@[t as int]@.fields.push(entity_field()));
            t += 1;
        }
    }

    /// Keeps the first occurrence of every distinct query, in order, and drops
    /// the repetitions. Entities and systems are untouched.
    pub fn retain_unique_queries(&mut self)
        ensures
            query_views(final(self).queries@) == distinct(query_views(old(self).queries@)),
            final(self).entities == old(self).entities,
            final(self).systems == old(self).systems,
    {
        let mut source: Vec<Query> = Vec::new();
        std::mem::swap(&mut source, &mut self.queries);
        let ghost all = query_views(source@);
        let mut kept: Vec<Query> = Vec::new();
        while source.len() > 0
            invariant
                source@.len() <= all.len(),
                query_views(source@) == all.skip(all.len() - source@.len()),
                query_views(kept@) == distinct(all.take(all.len() - source@.len())),
            decreases source@.len(),
        {
            let ghost n = all.len() - source@.len();
            let ghost rest = query_views(source@);
            let ghost shown = query_views(kept@);
            let ghost full = source@;
            let query = source.remove(0);
            proof {
                assert(query@ == rest[0]);
                assert forall|i: int| 0 <= i < source@.len() implies query_views(source@)[i] == all[n + 1 + i] by {
                    assert(source@[i] == full[i + 1]);
                    assert(rest[i + 1] == all[n + 1 + i]);
                }
                assert(query_views(source@) =~= all.skip(n + 1));
                assert(all.take(n + 1).drop_last() =~= all.take(n));
                assert(all.take(n + 1).last() == all[n]);
            }
            if find_query(&kept, &query).is_none() {
                kept.push(query);
                assert(query_views(kept@) =~= shown.push(all[n]));
            }
        }
        assert(all.take(all.len() as int) =~= all);
        self.queries = kept;
    }
}

/// One component column of one collection: the collection's name, the field's
/// name and the field's component type.
#[derive(Debug)]
pub struct CollectionComponentField {
    pub collection_name: String,
    pub field_name: String,
    pub field_type: String,
}

} // verus!
