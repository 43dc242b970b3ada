//! Field names that carry what a collection holds: the name of the
//! collection, the name of one of its fields and the type of that field, in
//! one identifier.
use vstd::prelude::*;
use vstd::string::StringExecFns;

use crate::declaration::{CollectionComponentField, Field};
use crate::text::{
    is_prefix, remove_all, remove_char, split_on, split_on_text, starts_with, texts, without, without_all,
};

verus! {

/// What opens a field name that carries a component field.
pub open spec fn tag_prefix() -> Seq<char> {
    "__twcf__"@
}

/// What parts the three names that such a field name carries.
pub open spec fn tag_separator() -> Seq<char> {
    "__"@
}

/// The field name that carries a component field: the prefix, then the name
/// of the collection, the name of the field and the type without its blanks,
/// with a separator between them.
pub open spec fn tagged(collection: Seq<char>, field: Seq<char>, ty: Seq<char>) -> Seq<char> {
    tag_prefix() + collection + tag_separator() + field + tag_separator() + without(ty, ' ')
}

/// Forms the field name that carries a component field.
pub fn tag_field_name(collection: &str, field: &str, ty: &str) -> (r: String)
    ensures
        r@ == tagged(collection@, field@, ty@),
{
    let plain = remove_char(ty, ' ');
    String::from_str("__twcf__").concat(collection).concat("__").concat(field).concat("__").concat(
        plain.as_str(),
    )
}

/// The field names that carry the fields of a collection, one for each
/// field, in order.
pub fn tag_fields(collection: &str, fields: &Vec<Field>) -> (names: Vec<String>)
    ensures
        names@.len() == fields@.len(),
        forall|i: int|
            0 <= i < fields@.len() ==> (#[trigger] names@[i])@ == tagged(
                collection@,
                fields@[i].name@,
                fields@[i].data_type@,
            ),
{
    let mut names: Vec<String> = Vec::new();
    let mut i: usize = 0;
    while i < fields.len()
        invariant
            i <= fields@.len(),
            names@.len() == i,
            forall|m: int|
                0 <= m < i ==> (#[trigger] names@[m])@ == tagged(
                    collection@,
                    fields@[m].name@,
                    fields@[m].data_type@,
                ),
        decreases fields@.len() - i,
    {
        names.push(tag_field_name(collection, fields[i].name.as_str(), fields[i].data_type.as_str()));
        i += 1;
    }
    names
}

/// A component field, as mathematics.
pub struct CollectionComponentFieldView {
    pub collection_name: Seq<char>,
    pub field_name: Seq<char>,
    pub field_type: Seq<char>,
}

impl View for CollectionComponentField {
    type V = CollectionComponentFieldView;

    open spec fn view(&self) -> CollectionComponentFieldView {
        CollectionComponentFieldView {
            collection_name: self.collection_name@,
            field_name: self.field_name@,
            field_type: self.field_type@,
        }
    }
}

/// The views of a list of component fields.
pub open spec fn field_views(v: Seq<CollectionComponentField>) -> Seq<CollectionComponentFieldView> {
    Seq::new(v.len(), |i: int| v[i]@)
}

/// The pieces that a field name carries: what is left of it without the
/// prefix, split at the separator.
pub open spec fn tag_pieces(name: Seq<char>) -> Seq<Seq<char>> {
    split_on(without_all(name, tag_prefix()), tag_separator())
}

/// The component field that a field name carries: the name opens with the
/// prefix and carries exactly three pieces.
pub open spec fn carried(name: Seq<char>) -> Option<CollectionComponentFieldView> {
    if is_prefix(tag_prefix(), name) && tag_pieces(name).len() == 3 {
        Some(
            CollectionComponentFieldView {
                collection_name: tag_pieces(name)[0],
                field_name: tag_pieces(name)[1],
                field_type: tag_pieces(name)[2],
            },
        )
    } else {
        None
    }
}

/// The view of what a field name was read as.
pub open spec fn carried_view(r: Option<CollectionComponentField>) -> Option<CollectionComponentFieldView> {
    match r {
        Some(field) => Some(field@),
        None => None,
    }
}

/// Reads the component field that a field name carries, if it carries one.
pub fn parse_tagged_name(name: &str) -> (r: Option<CollectionComponentField>)
    ensures
        carried_view(r) == carried(name@),
{
    if !starts_with(name, "__twcf__") {
        return None;
    }
    let rest = remove_all(name, "__twcf__");
    let mut pieces = split_on_text(rest.as_str(), "__");
    if pieces.len() != 3 {
        return None;
    }
    let ghost all = texts(pieces@);
    let field_type = pieces.pop().unwrap();
    let field_name = pieces.pop().unwrap();
    let collection_name = pieces.pop().unwrap();
    proof {
        assert(field_type@ == all[2]);
        assert(field_name@ == all[1]);
        assert(collection_name@ == all[0]);
    }
    Some(CollectionComponentField { collection_name, field_name, field_type })
}

/// The component fields that the first `n` field names carry, in order. A
/// name that carries none adds none.
pub open spec fn carried_by(names: Seq<Seq<char>>, n: int) -> Seq<CollectionComponentFieldView>
    decreases n,
{
    if n <= 0 {
        Seq::empty()
    } else {
        match carried(names[n - 1]) {
            Some(field) => carried_by(names, n - 1).push(field),
            None => carried_by(names, n - 1),
        }
    }
}

/// The component fields that the field names of a world carry.
pub fn get_collection_component_fields(names: &Vec<String>) -> (fields: Vec<CollectionComponentField>)
    ensures
        field_views(fields@) == carried_by(texts(names@), names@.len() as int),
{
    let mut fields: Vec<CollectionComponentField> = Vec::new();
    let mut i: usize = 0;
    while i < names.len()
        invariant
            i <= names@.len(),
            field_views(fields@) == carried_by(texts(names@), i as int),
        decreases names@.len() - i,
    {
        let ghost shown = field_views(fields@);
        match parse_tagged_name(names[i].as_str()) {
            Some(field) => {
                fields.push(field);
                assert(field_views(fields@) =~= shown.push(field@));
            },
            None => {},
        }
        i += 1;
    }
    fields
}

} // verus!
