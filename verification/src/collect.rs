//! Reading declarations off a program's items, once the items are given as
//! plain text: the fields of entity shapes, the group of a system and the
//! parameters of a system.
use vstd::prelude::*;
use vstd::string::StringExecFns;

use crate::declaration::{
    idents_with, query_views, spec_views, ComponentSpec, ComponentSpecView, Field, FieldView, Query, QueryView,
    SystemDefParam, SystemDefParamReference,
};
use crate::text::{split, split_text, texts, trim, trimmed};

verus! {

/// The name of the group of a system that names none.
pub open spec fn main_group() -> Seq<char> {
    "main"@
}

/// The form of an attribute's argument.
#[derive(Debug)]
pub enum AttributeMeta {
    /// The attribute's path and nothing else.
    Path,
    /// The path and tokens in brackets.
    List { tokens: String },
    /// The path, an equals sign and a value.
    NameValue,
}

/// One attribute of an item: its path, where that is one identifier, and the
/// form of its argument.
#[derive(Debug)]
pub struct Attribute {
    pub ident: Option<String>,
    pub meta: AttributeMeta,
}

/// The form of an attribute's argument, as mathematics.
pub enum AttributeMetaView {
    Path,
    List { tokens: Seq<char> },
    NameValue,
}

/// An attribute, as mathematics.
pub struct AttributeView {
    pub ident: Option<Seq<char>>,
    pub meta: AttributeMetaView,
}

impl View for Attribute {
    type V = AttributeView;

    open spec fn view(&self) -> AttributeView {
        AttributeView {
            ident: match self.ident {
                Some(ident) => Some(ident@),
                None => None,
            },
            meta: match self.meta {
                AttributeMeta::Path => AttributeMetaView::Path,
                AttributeMeta::List { tokens } => AttributeMetaView::List { tokens: tokens@ },
                AttributeMeta::NameValue => AttributeMetaView::NameValue,
            },
        }
    }
}

/// The views of a list of attributes.
pub open spec fn attribute_views(v: Seq<Attribute>) -> Seq<AttributeView> {
    Seq::new(v.len(), |i: int| v[i]@)
}

/// The group that bracketed tokens name: the text after the first equals
/// sign and before the second, trimmed, where the text before the first,
/// trimmed, is `group`; the main group otherwise.
pub open spec fn group_of_tokens(tokens: Seq<char>) -> Seq<char> {
    if split(tokens, '=').len() >= 2 && trimmed(split(tokens, '=')[0]) == "group"@ {
        trimmed(split(tokens, '=')[1])
    } else {
        main_group()
    }
}

/// The group that one attribute puts a function in, if the attribute marks
/// the function as a system.
pub open spec fn group_of_attribute(attribute: AttributeView) -> Option<Seq<char>> {
    if attribute.ident == Some("system"@) {
        match attribute.meta {
            AttributeMetaView::List { tokens } => Some(group_of_tokens(tokens)),
            _ => Some(main_group()),
        }
    } else {
        None
    }
}

/// The group of a function: that of its first attribute that marks it as a
/// system. A function without such an attribute is no system.
pub open spec fn group_of(attributes: Seq<AttributeView>) -> Option<Seq<char>>
    decreases attributes.len(),
{
    if attributes.len() == 0 {
        None
    } else if group_of_attribute(attributes[0]) is Some {
        group_of_attribute(attributes[0])
    } else {
        group_of(attributes.drop_first())
    }
}

/// The group that bracketed tokens name.
pub fn group_from_tokens(tokens: &str) -> (r: String)
    ensures
        r@ == group_of_tokens(tokens@),
{
    let pieces = split_text(tokens, '=');
    if pieces.len() >= 2 {
        let key = trim(pieces[0].as_str());
        if key == String::from_str("group") {
            return trim(pieces[1].as_str());
        }
    }
    String::from_str("main")
}

/// The group that one attribute puts a function in, if the attribute marks
/// the function as a system.
pub fn attribute_group(attribute: &Attribute) -> (r: Option<String>)
    ensures
        r is Some <==> group_of_attribute(attribute@) is Some,
        r matches Some(group) ==> Some(group@) == group_of_attribute(attribute@),
{
    let marks = match &attribute.ident {
        Some(ident) => *ident == String::from_str("system"),
        None => false,
    };
    if !marks {
        return None;
    }
    match &attribute.meta {
        AttributeMeta::List { tokens } => Some(group_from_tokens(tokens.as_str())),
        _ => Some(String::from_str("main")),
    }
}

/// The group of a function with these attributes, if it is a system.
pub fn is_system(attributes: &Vec<Attribute>) -> (r: Option<String>)
    ensures
        r is Some <==> group_of(attribute_views(attributes@)) is Some,
        r matches Some(group) ==> Some(group@) == group_of(attribute_views(attributes@)),
{
    let ghost all = attribute_views(attributes@);
    assert(all.skip(0) =~= all);
    let mut i: usize = 0;
    while i < attributes.len()
        invariant
            i <= attributes@.len(),
            all == attribute_views(attributes@),
            group_of(all) == group_of(all.skip(i as int)),
        decreases attributes@.len() - i,
    {
        proof {
            assert(all.skip(i as int)[0] == attributes@[i as int]@);
            assert(all.skip(i as int).drop_first() =~= all.skip(i + 1));
        }
        match attribute_group(&attributes[i]) {
            Some(group) => {
                return Some(group);
            },
            None => {},
        }
        i += 1;
    }
    assert(all.skip(attributes@.len() as int).len() == 0);
    None
}

/// Whether a field's text has the colon that parts its name from its type.
pub open spec fn has_type(tokens: Seq<char>) -> bool {
    split(tokens, ':').len() >= 2
}

/// The field that a field's text declares. The name is the last word before
/// the first colon; the type is the text between the first colon and the
/// second, or the end, trimmed.
pub open spec fn field_of(tokens: Seq<char>) -> FieldView {
    FieldView {
        name: split(trimmed(split(tokens, ':')[0]), ' ').last(),
        data_type: trimmed(split(tokens, ':')[1]),
    }
}

/// The field that a field's text declares, if the text has a colon.
pub fn parse_field(tokens: &str) -> (r: Option<Field>)
    ensures
        r is Some <==> has_type(tokens@),
        r matches Some(field) ==> field@ == field_of(tokens@),
{
    let pieces = split_text(tokens, ':');
    if pieces.len() < 2 {
        return None;
    }
    let before = trim(pieces[0].as_str());
    let mut words = split_text(before.as_str(), ' ');
    let ghost all = texts(words@);
    let name = words.pop().unwrap();
    assert(name@ == all.last());
    Some(Field { name, data_type: trim(pieces[1].as_str()) })
}

/// One segment of a path type: its identifier and, where its first argument
/// in angle brackets is a reference or a tuple, the references found there.
#[derive(Debug)]
pub struct PathSegment {
    pub ident: String,
    pub references: Option<Vec<ComponentSpec>>,
}

/// The type of a system's parameter.
#[derive(Debug)]
pub enum ParamType {
    /// A path, segment by segment.
    Path { segments: Vec<PathSegment> },
    /// A reference to something.
    Reference { elem: String, mutable: bool },
    /// Anything else.
    Other,
}

/// A parameter type that a system cannot have, by the name of the segment
/// that is not a query.
#[derive(Debug)]
pub struct UnsupportedType {
    pub name: String,
}

/// Whether a segment is one that a system's parameter may have: only a
/// segment named `Query` is.
pub open spec fn segment_supported(ident: Seq<char>) -> bool {
    ident == "Query"@
}

/// The query that the references of a segment ask for; none where there
/// are no references.
pub open spec fn segment_query(references: Option<Seq<ComponentSpecView>>) -> Option<QueryView> {
    match references {
        Some(specs) => if specs.len() > 0 {
            Some(
                QueryView {
                    mutable_fields: idents_with(specs, true),
                    const_fields: idents_with(specs, false),
                },
            )
        } else {
            None
        },
        None => None,
    }
}

/// Reads one segment of a path type: the query it asks for, if it asks for
/// one, or the reason why a system cannot have it.
pub fn read_segment(segment: &PathSegment) -> (r: Result<Option<Query>, UnsupportedType>)
    ensures
        r is Ok <==> segment_supported(segment.ident@),
        r matches Ok(found) ==> match found {
            Some(query) => Some(query@),
            None => None,
        } == segment_query(
            match segment.references {
                Some(specs) => Some(spec_views(specs@)),
                None => None,
            },
        ),
        r matches Err(e) ==> e.name@ == segment.ident@,
{
    if segment.ident == String::from_str("Query") {
        match &segment.references {
            Some(specs) => Ok(Query::from_specs(specs)),
            None => Ok(None),
        }
    } else {
        Err(UnsupportedType { name: segment.ident.clone() })
    }
}

/// The views of the references of a segment.
pub open spec fn references_view(segment: PathSegment) -> Option<Seq<ComponentSpecView>> {
    match segment.references {
        Some(specs) => Some(spec_views(specs@)),
        None => None,
    }
}

/// Every segment is one that a system's parameter may have.
pub open spec fn segments_supported(segments: Seq<PathSegment>) -> bool {
    forall|i: int| 0 <= i < segments.len() ==> segment_supported((#[trigger] segments[i]).ident@)
}

/// The queries that the segments of a path ask for, in order.
pub open spec fn queries_of(segments: Seq<PathSegment>) -> Seq<QueryView>
    decreases segments.len(),
{
    if segments.len() == 0 {
        Seq::empty()
    } else {
        match segment_query(references_view(segments.last())) {
            Some(query) => queries_of(segments.drop_last()).push(query),
            None => queries_of(segments.drop_last()),
        }
    }
}

/// A query parameter of the given name.
pub open spec fn is_query_param(param: SystemDefParam, name: Seq<char>) -> bool {
    match param {
        SystemDefParam::Query(n) => n@ == name,
        _ => false,
    }
}

/// A reference parameter of the given name, type and access.
pub open spec fn is_reference_param(param: SystemDefParam, name: Seq<char>, ty: Seq<char>, mutable: bool) -> bool {
    match param {
        SystemDefParam::Reference(r) => r.name@ == name && r.ty@ == ty && r.mutable == mutable,
        _ => false,
    }
}

/// What a parameter contributes to its system: a reference contributes
/// itself, a path one query parameter for each query it asks for, anything
/// else nothing.
pub open spec fn is_param_of(param: SystemDefParam, name: Seq<char>, ty: ParamType) -> bool {
    match ty {
        ParamType::Path { segments } => is_query_param(param, name),
        ParamType::Reference { elem, mutable } => is_reference_param(param, name, elem@, mutable),
        ParamType::Other => false,
    }
}

/// How many parameters a parameter type contributes to its system.
pub open spec fn param_count(ty: ParamType) -> nat {
    match ty {
        ParamType::Path { segments } => queries_of(segments@).len(),
        ParamType::Reference { elem, mutable } => 1,
        ParamType::Other => 0,
    }
}

/// The queries that a parameter type asks for.
pub open spec fn param_queries(ty: ParamType) -> Seq<QueryView> {
    match ty {
        ParamType::Path { segments } => queries_of(segments@),
        _ => Seq::empty(),
    }
}

/// Whether a system may have a parameter of this type.
pub open spec fn param_supported(ty: ParamType) -> bool {
    match ty {
        ParamType::Path { segments } => segments_supported(segments@),
        _ => true,
    }
}

/// A parameter that a system takes by reference.
pub fn reference_param(name: &str, elem: &str, mutable: bool) -> (r: SystemDefParam)
    ensures
        is_reference_param(r, name@, elem@, mutable),
{
    SystemDefParam::Reference(
        SystemDefParamReference { name: String::from_str(name), ty: String::from_str(elem), mutable },
    )
}

/// The name is that of the first segment of a path that is not a query.
pub open spec fn is_first_unsupported(ty: ParamType, name: Seq<char>) -> bool {
    match ty {
        ParamType::Path { segments } => exists|i: int|
            {
                &&& 0 <= i < segments@.len()
                &&& !segment_supported(#[trigger] segments@[i].ident@)
                &&& name == segments@[i].ident@
                &&& forall|m: int| 0 <= m < i ==> segment_supported(#[trigger] segments@[m].ident@)
            },
        _ => false,
    }
}

/// Reads one parameter of a system: the queries it asks for are added to
/// `queries`, and what it contributes to the system is added to `params`. A
/// path with a segment that is not a query is refused, by the name of the
/// first such segment.
pub fn read_param(
    name: &str,
    ty: &ParamType,
    queries: &mut Vec<Query>,
    params: &mut Vec<SystemDefParam>,
) -> (r: Result<(), UnsupportedType>)
    ensures
        r is Ok <==> param_supported(*ty),
        r is Ok ==> query_views(final(queries)@) == query_views(
            old(queries)@,
        ) + param_queries(*ty),
        r is Ok ==> final(params)@.len() == old(params)@.len() + param_count(*ty),
        r is Ok ==> forall|i: int| 0 <= i < old(params)@.len() ==> final(params)@[i] == old(params)@[i],
        r is Ok ==> forall|k: int|
            0 <= k < param_count(*ty) ==> is_param_of(
                #[trigger] final(params)@[old(params)@.len() + k],
                name@,
                *ty,
            ),
        r matches Err(e) ==> is_first_unsupported(*ty, e.name@),
{
    match ty {
        ParamType::Path { segments } => {
            let ghost before = query_views(queries@);
            let mut i: usize = 0;
            while i < segments.len()
                invariant
                    i <= segments@.len(),
                    ty matches ParamType::Path { segments: s } && s == segments,
                    forall|m: int| 0 <= m < i ==> segment_supported(#[trigger] segments@[m].ident@),
                    query_views(queries@) == before + queries_of(segments@.take(i as int)),
                    params@.len() == old(params)@.len() + queries_of(segments@.take(i as int)).len(),
                    forall|m: int| 0 <= m < old(params)@.len() ==> params@[m] == old(params)@[m],
                    forall|k: int|
                        old(params)@.len() <= k < params@.len() ==> is_query_param(#[trigger] params@[k], name@),
                decreases segments@.len() - i,
            {
                proof {
                    assert(segments@.take(i + 1).drop_last() =~= segments@.take(i as int));
                    assert(segments@.take(i + 1).last() == segments@[i as int]);
                }
                let ghost shown = query_views(queries@);
                match read_segment(&segments[i]) {
                    Ok(Some(query)) => {
                        queries.push(query);
                        params.push(SystemDefParam::Query(String::from_str(name)));
                        assert(query_views(queries@) =~= shown.push(query@));
                        assert(query_views(queries@) =~= before + queries_of(
                            segments@.take(i + 1),
                        ));
                    },
                    Ok(None) => {},
                    Err(e) => {
                        assert(!segment_supported(segments@[i as int].ident@));
                        return Err(e);
                    },
                }
                i += 1;
            }
            assert(segments@.take(segments@.len() as int) =~= segments@);
            Ok(())
        },
        ParamType::Reference { elem, mutable } => {
            params.push(reference_param(name, elem.as_str(), *mutable));
            assert(query_views(queries@) =~= query_views(old(queries)@)
                + param_queries(*ty));
            Ok(())
        },
        ParamType::Other => {
            assert(query_views(queries@) =~= query_views(old(queries)@)
                + param_queries(*ty));
            Ok(())
        },
    }
}

} // verus!
