//! Resolution of query shapes: which archetypes hold every requested component
//! type, and in which column each of them holds it.
use vstd::prelude::*;
use vstd::string::StringExecFns;

use crate::archetype::as_ints;
use crate::declaration::{EntityDef, Query, QueryView};
use crate::sequence::{first_index, lemma_first_index, strings};

verus! {

/// The name of the pseudo-type that stands for the entity's own handle. Every
/// archetype has it without declaring it, and no column holds it.
pub open spec fn entity_type() -> Seq<char> {
    "Entity"@
}

/// The requested types that are component types: all but the pseudo-type, in
/// the order requested.
pub open spec fn components(requested: Seq<Seq<char>>) -> Seq<Seq<char>>
    decreases requested.len(),
{
    if requested.len() == 0 {
        Seq::empty()
    } else if requested.last() == entity_type() {
        components(requested.drop_last())
    } else {
        components(requested.drop_last()).push(requested.last())
    }
}

impl QueryView {
    /// The component types a query yields per entity: those asked for with
    /// exclusive access first, then those asked for with shared access.
    pub open spec fn shape(self) -> Seq<Seq<char>> {
        components(self.mutable_fields) + components(self.const_fields)
    }

    /// How many of the yielded components may be written.
    pub open spec fn mutable_count(self) -> nat {
        components(self.mutable_fields).len()
    }
}

/// The first column of type `t`, where the archetype has one.
pub open spec fn column_of(types: Seq<Seq<char>>, t: Seq<char>) -> int {
    first_index(types, t)
}

/// An archetype with these column types holds every type of the shape.
pub open spec fn supports(types: Seq<Seq<char>>, shape: Seq<Seq<char>>) -> bool {
    forall|k: int| 0 <= k < shape.len() ==> types.contains(#[trigger] shape[k])
}

/// For each type of the shape, the column that holds it.
pub open spec fn columns_for(types: Seq<Seq<char>>, shape: Seq<Seq<char>>) -> Seq<int> {
    Seq::new(shape.len(), |k: int| column_of(types, shape[k]))
}

/// One archetype that a query spans, and the columns it reads there.
pub struct PartModel {
    pub tag: int,
    pub columns: Seq<int>,
}

/// The archetypes among the first `n` that hold every type of the shape, in
/// declaration order, each with the columns that hold the shape's types.
pub open spec fn matching(types: Seq<Seq<Seq<char>>>, shape: Seq<Seq<char>>, n: int) -> Seq<PartModel>
    decreases n,
{
    if n <= 0 {
        Seq::empty()
    } else if supports(types[n - 1], shape) {
        matching(types, shape, n - 1).push(
            PartModel { tag: n - 1, columns: columns_for(types[n - 1], shape) },
        )
    } else {
        matching(types, shape, n - 1)
    }
}

/// What `matching` lists: exactly the supporting archetypes below `n`, each
/// once, in increasing order, with the resolved columns.
pub proof fn lemma_matching(types: Seq<Seq<Seq<char>>>, shape: Seq<Seq<char>>, n: int)
    requires
        0 <= n <= types.len(),
    ensures
        matching(types, shape, n).len() <= n,
        forall|p: int|
            0 <= p < matching(types, shape, n).len() ==> {
                let part = #[trigger] matching(types, shape, n)[p];
                &&& 0 <= part.tag < n
                &&& supports(types[part.tag], shape)
                &&& part.columns == columns_for(types[part.tag], shape)
            },
        forall|p: int, r: int|
            0 <= p < r < matching(types, shape, n).len() ==> matching(types, shape, n)[p].tag < matching(
                types,
                shape,
                n,
            )[r].tag,
        forall|t: int|
            0 <= t < n && supports(#[trigger] types[t], shape) ==> exists|p: int|
                0 <= p < matching(types, shape, n).len() && matching(types, shape, n)[p].tag == t,
    decreases n,
{
    if n > 0 {
        lemma_matching(types, shape, n - 1);
        let before = matching(types, shape, n - 1);
        let now = matching(types, shape, n);
        assert forall|t: int| 0 <= t < n && supports(#[trigger] types[t], shape) implies exists|p: int|
            0 <= p < now.len() && now[p].tag == t by {
            if t < n - 1 {
                let p = choose|p: int| 0 <= p < before.len() && before[p].tag == t;
                assert(now[p].tag == t);
            } else {
                assert(now[now.len() - 1].tag == t);
            }
        }
    }
}

/// Whether `t` names the pseudo-type of entity handles.
pub fn is_entity_type(t: &String) -> (r: bool)
    ensures
        r == (t@ == entity_type()),
{
    let name = String::from_str("Entity");
    *t == name
}

/// The requested types without the pseudo-type of entity handles.
pub fn component_types(requested: &Vec<String>) -> (r: Vec<String>)
    ensures
        strings(r@) == components(strings(requested@)),
{
    let ghost all = strings(requested@);
    let mut r: Vec<String> = Vec::new();
    let mut i: usize = 0;
    while i < requested.len()
        invariant
            i <= requested@.len(),
            all == strings(requested@),
            strings(r@) == components(all.take(i as int)),
        decreases requested@.len() - i,
    {
        let ghost shown = strings(r@);
        proof {
            assert(all.take(i + 1).drop_last() =~= all.take(i as int));
            assert(all.take(i + 1).last() == requested@[i as int]@);
        }
        if !is_entity_type(&requested[i]) {
            r.push(requested[i].clone());
            assert(strings(r@) =~= shown.push(requested@[i as int]@));
        }
        i += 1;
    }
    assert(all.take(requested@.len() as int) =~= all);
    r
}

/// The first column of type `t`, if the archetype has one.
pub fn find_column(types: &Vec<String>, t: &String) -> (r: Option<usize>)
    ensures
        r is Some <==> strings(types@).contains(t@),
        r matches Some(j) ==> j == column_of(strings(types@), t@) && j < types@.len(),
{
    let mut j: usize = 0;
    while j < types.len()
        invariant
            j <= types@.len(),
            forall|m: int| 0 <= m < j ==> strings(types@)[m] != t@,
        decreases types@.len() - j,
    {
        if types[j] == *t {
            proof {
                assert(strings(types@)[j as int] == t@);
                lemma_first_index(strings(types@), t@, j as int);
            }
            return Some(j);
        }
        j += 1;
    }
    assert(!strings(types@).contains(t@)) by {
        if strings(types@).contains(t@) {
            let m = choose|m: int| 0 <= m < strings(types@).len() && strings(types@)[m] == t@;
            assert(strings(types@)[m] != t@);
        }
    }
    None
}

/// The column of every type of the shape, if the archetype holds them all.
pub fn resolve_columns(types: &Vec<String>, shape: &Vec<String>) -> (r: Option<Vec<usize>>)
    ensures
        r is Some <==> supports(strings(types@), strings(shape@)),
        r matches Some(columns) ==> as_ints(columns@) == columns_for(strings(types@), strings(shape@))
            && forall|k: int| 0 <= k < columns@.len() ==> (#[trigger] columns@[k]) < types@.len(),
{
    let mut columns: Vec<usize> = Vec::new();
    let mut k: usize = 0;
    while k < shape.len()
        invariant
            k <= shape@.len(),
            columns@.len() == k,
            forall|m: int| 0 <= m < k ==> strings(types@).contains(#[trigger] strings(shape@)[m]),
            forall|m: int|
                0 <= m < k ==> (#[trigger] columns@[m]) == column_of(strings(types@), strings(shape@)[m])
                    && columns@[m] < types@.len(),
        decreases shape@.len() - k,
    {
        match find_column(types, &shape[k]) {
            Some(j) => {
                columns.push(j);
            },
            None => {
                assert(!strings(types@).contains(strings(shape@)[k as int]));
                return None;
            },
        }
        k += 1;
    }
    assert(as_ints(columns@) =~= columns_for(strings(types@), strings(shape@)));
    Some(columns)
}

impl Query {
    /// The component types this query yields per entity, in order.
    pub fn shape(&self) -> (r: Vec<String>)
        ensures
            strings(r@) == self@.shape(),
    {
        let mut r = component_types(&self.mutable_fields);
        let ghost first = strings(r@);
        let mut rest = component_types(&self.const_fields);
        let ghost second = strings(rest@);
        r.append(&mut rest);
        assert(strings(r@) =~= first + second);
        r
    }

    /// How many of the yielded components may be written: they come first.
    pub fn mutable_count(&self) -> (n: usize)
        ensures
            n == self@.mutable_count(),
    {
        component_types(&self.mutable_fields).len()
    }
}

impl EntityDef {
    /// The component types that entities of this shape store, one column
    /// each: the data types of the fields, but for fields of the pseudo-type of
    /// entity handles.
    pub fn component_types(&self) -> (r: Vec<String>)
        ensures
            strings(r@) == components(self@.data_types()),
    {
        let all = self.data_types();
        component_types(&all)
    }
}

} // verus!
