//! The parameters of systems: which of them is the world, which are queries
//! and which are resources.
use vstd::prelude::*;
use vstd::string::StringExecFns;

use crate::declaration::{spec_views, CollectionComponentField, ComponentSpec, ComponentSpecView};
use crate::sequence::strings;

verus! {

/// What is read of a path type: its first segment, its last segment and, if
/// it is one identifier and no more, that identifier.
#[derive(Debug)]
pub struct PathInfo {
    pub first: String,
    pub last: String,
    pub ident: Option<String>,
}

/// The type of one parameter of a system, as far as a system looks at it.
#[derive(Debug)]
pub enum ArgType {
    /// A reference; `target` is what is referred to, if that is a path.
    Reference { mutable: bool, target: Option<PathInfo> },
    /// A path; `fields` are the components that its first argument in angle
    /// brackets asks for, if it has one of a form that a query can have.
    Path { path: PathInfo, fields: Option<Vec<ComponentSpec>> },
    /// Anything else.
    Other,
}

/// One parameter of a system.
#[derive(Debug)]
pub enum SystemArg {
    World { name: String, mutable: bool },
    Query { name: String, fields: Vec<ComponentSpec> },
    Resource { name: String, ty: String, mutable: bool, by_ref: bool },
}

/// Why a parameter cannot be a system's.
#[derive(Debug, Clone, Copy, PartialEq, Eq, Structural)]
pub enum SignatureError {
    /// A reference to something that is no path.
    NoElemPath,
    /// A type that is no single identifier.
    NoTypeIdent,
    /// A query without components of a form that a query can have.
    NoQueryFields,
    /// A type that is neither a reference nor a path.
    UnsupportedType,
}

/// The name of the world's type.
pub open spec fn world_type() -> Seq<char> {
    "World"@
}

/// The name of the type that marks a parameter as a query.
pub open spec fn query_type() -> Seq<char> {
    "QueryDef"@
}

/// What a parameter of a name and a type is to a system. A reference to
/// `World` is the world, a reference to anything else a resource taken by
/// reference; a `QueryDef` is a query of the components it names; any other
/// path is a resource taken by value.
pub open spec fn is_classified(name: Seq<char>, ty: ArgType, r: Result<SystemArg, SignatureError>) -> bool {
    match ty {
        ArgType::Reference { mutable, target: None } => r == Err::<SystemArg, SignatureError>(
            SignatureError::NoElemPath,
        ),
        ArgType::Reference { mutable, target: Some(path) } => match path.ident {
            None => r == Err::<SystemArg, SignatureError>(SignatureError::NoTypeIdent),
            Some(ident) => if path.last@ == world_type() {
                match r {
                    Ok(SystemArg::World { name: n, mutable: m }) => n@ == name && m == mutable,
                    _ => false,
                }
            } else {
                match r {
                    Ok(SystemArg::Resource { name: n, ty: t, mutable: m, by_ref }) => n@ == name && t@
                        == ident@ && m == mutable && by_ref,
                    _ => false,
                }
            },
        },
        ArgType::Path { path, fields } => if path.first@ == query_type() {
            match fields {
                None => r == Err::<SystemArg, SignatureError>(SignatureError::NoQueryFields),
                Some(asked) => match r {
                    Ok(SystemArg::Query { name: n, fields: f }) => n@ == name && spec_views(f@)
                        == spec_views(asked@),
                    _ => false,
                },
            }
        } else {
            match path.ident {
                None => r == Err::<SystemArg, SignatureError>(SignatureError::NoTypeIdent),
                Some(ident) => match r {
                    Ok(SystemArg::Resource { name: n, ty: t, mutable: m, by_ref }) => n@ == name && t@
                        == ident@ && !m && !by_ref,
                    _ => false,
                },
            }
        },
        ArgType::Other => r == Err::<SystemArg, SignatureError>(SignatureError::UnsupportedType),
    }
}

/// Reads one parameter of a system.
pub fn classify_arg(name: &str, ty: ArgType) -> (r: Result<SystemArg, SignatureError>)
    ensures
        is_classified(name@, ty, r),
{
    match ty {
        ArgType::Reference { mutable, target } => match target {
            None => Err(SignatureError::NoElemPath),
            Some(path) => {
                let is_world = path.last == String::from_str("World");
                match path.ident {
                    None => Err(SignatureError::NoTypeIdent),
                    Some(ident) => if is_world {
                        Ok(SystemArg::World { name: String::from_str(name), mutable })
                    } else {
                        Ok(SystemArg::Resource { name: String::from_str(name), ty: ident, mutable, by_ref: true })
                    },
                }
            },
        },
        ArgType::Path { path, fields } => {
            if path.first == String::from_str("QueryDef") {
                match fields {
                    None => Err(SignatureError::NoQueryFields),
                    Some(asked) => Ok(SystemArg::Query { name: String::from_str(name), fields: asked }),
                }
            } else {
                match path.ident {
                    None => Err(SignatureError::NoTypeIdent),
                    Some(ident) => Ok(
                        SystemArg::Resource {
                            name: String::from_str(name),
                            ty: ident,
                            mutable: false,
                            by_ref: false,
                        },
                    ),
                }
            }
        },
        ArgType::Other => Err(SignatureError::UnsupportedType),
    }
}

/// How many of the first `n` parameters are the world.
pub open spec fn worlds_among(args: Seq<SystemArg>, n: int) -> nat
    decreases n,
{
    if n <= 0 {
        0
    } else if args[n - 1] is World {
        worlds_among(args, n - 1) + 1
    } else {
        worlds_among(args, n - 1)
    }
}

/// How many worlds there are never exceeds how many parameters there are.
pub proof fn lemma_worlds_among(args: Seq<SystemArg>, n: int)
    requires
        0 <= n,
    ensures
        worlds_among(args, n) <= n,
    decreases n,
{
    if n > 0 {
        lemma_worlds_among(args, n - 1);
    }
}

/// Whether exactly one parameter is the world, as a system must have it.
pub fn has_one_world(args: &Vec<SystemArg>) -> (r: bool)
    ensures
        r == (worlds_among(args@, args@.len() as int) == 1),
{
    let mut count: usize = 0;
    let mut i: usize = 0;
    while i < args.len()
        invariant
            i <= args@.len(),
            count == worlds_among(args@, i as int),
        decreases args@.len() - i,
    {
        proof {
            lemma_worlds_among(args@, i as int);
        }
        match &args[i] {
            SystemArg::World { .. } => {
                count += 1;
            },
            _ => {},
        }
        i += 1;
    }
    count == 1
}

/// How a parameter is written where the system is declared: the world and
/// the resources with their types; a query is not written, it is made in the
/// system.
pub open spec fn arg_text(arg: SystemArg) -> Option<Seq<char>> {
    match arg {
        SystemArg::World { name, mutable } => Some(
            name@ + (if mutable {
                ": &mut World"@
            } else {
                ": &World"@
            }),
        ),
        SystemArg::Resource { name, ty, mutable, by_ref } => Some(
            name@ + (if by_ref {
                if mutable {
                    ": &mut "@
                } else {
                    ": &"@
                }
            } else {
                if mutable {
                    ": mut "@
                } else {
                    ": "@
                }
            }) + ty@,
        ),
        SystemArg::Query { .. } => None,
    }
}

/// What is passed for a parameter where the world calls the system: itself
/// for the world, the resource by its name; nothing for a query.
pub open spec fn call_text(arg: SystemArg) -> Option<Seq<char>> {
    match arg {
        SystemArg::World { .. } => Some("self"@),
        SystemArg::Resource { name, .. } => Some(name@),
        SystemArg::Query { .. } => None,
    }
}

/// The view of an optional text.
pub open spec fn text_view(text: Option<String>) -> Option<Seq<char>> {
    match text {
        Some(t) => Some(t@),
        None => None,
    }
}

impl SystemArg {
    /// How this parameter is written where the system is declared.
    pub fn get_arg_code(&self) -> (r: Option<String>)
        ensures
            text_view(r) == arg_text(*self),
    {
        match self {
            SystemArg::World { name, mutable } => {
                let start = name.clone();
                Some(
                    if *mutable {
                        start.concat(": &mut World")
                    } else {
                        start.concat(": &World")
                    },
                )
            },
            SystemArg::Resource { name, ty, mutable, by_ref } => {
                let start = name.clone();
                let with_access = if *by_ref {
                    if *mutable {
                        start.concat(": &mut ")
                    } else {
                        start.concat(": &")
                    }
                } else {
                    if *mutable {
                        start.concat(": mut ")
                    } else {
                        start.concat(": ")
                    }
                };
                Some(with_access.concat(ty.as_str()))
            },
            SystemArg::Query { .. } => None,
        }
    }

    /// What is passed for this parameter where the world calls the system.
    pub fn get_call_code(&self) -> (r: Option<String>)
        ensures
            text_view(r) == call_text(*self),
    {
        match self {
            SystemArg::World { .. } => Some(String::from_str("self")),
            SystemArg::Resource { name, .. } => Some(name.clone()),
            SystemArg::Query { .. } => None,
        }
    }
}

/// One parameter of a system that is called once for each row: its name, the
/// type it refers to and whether it asks for exclusive access.
#[derive(Debug)]
pub struct ForEachArg {
    pub name: String,
    pub ty: String,
    pub mutable: bool,
}

/// What calling a system once for each row takes: the components that each
/// row gives, with the parameters that take them, and the resources.
#[derive(Debug)]
pub struct ForEachPlan {
    pub components: Vec<ComponentSpec>,
    pub component_args: Vec<String>,
    pub resource_args: Vec<String>,
    pub any_mutable: bool,
}

/// What a plan holds, as mathematics.
pub struct ForEachPlanView {
    pub components: Seq<ComponentSpecView>,
    pub component_args: Seq<Seq<char>>,
    pub resource_args: Seq<Seq<char>>,
    pub any_mutable: bool,
}

impl View for ForEachPlan {
    type V = ForEachPlanView;

    open spec fn view(&self) -> ForEachPlanView {
        ForEachPlanView {
            components: spec_views(self.components@),
            component_args: strings(self.component_args@),
            resource_args: strings(self.resource_args@),
            any_mutable: self.any_mutable,
        }
    }
}

/// The component types that the collections hold, one for each field.
pub open spec fn field_types(fields: Seq<CollectionComponentField>) -> Seq<Seq<char>> {
    Seq::new(fields.len(), |i: int| fields[i].field_type@)
}

/// The plan for the first `n` parameters: a parameter of a type that some
/// collection holds takes a component, with the access it asks for; any other
/// parameter takes a resource.
pub open spec fn plan_of(args: Seq<ForEachArg>, types: Seq<Seq<char>>, n: int) -> ForEachPlanView
    decreases n,
{
    if n <= 0 {
        ForEachPlanView {
            components: Seq::empty(),
            component_args: Seq::empty(),
            resource_args: Seq::empty(),
            any_mutable: false,
        }
    } else if types.contains(args[n - 1].ty@) {
        ForEachPlanView {
            components: plan_of(args, types, n - 1).components.push(
                ComponentSpecView { is_mut: args[n - 1].mutable, ident: args[n - 1].ty@ },
            ),
            component_args: plan_of(args, types, n - 1).component_args.push(args[n - 1].name@),
            any_mutable: plan_of(args, types, n - 1).any_mutable || args[n - 1].mutable,
            ..plan_of(args, types, n - 1)
        }
    } else {
        ForEachPlanView {
            resource_args: plan_of(args, types, n - 1).resource_args.push(args[n - 1].name@),
            ..plan_of(args, types, n - 1)
        }
    }
}

/// Whether some collection holds a component of this type.
pub fn is_component(fields: &Vec<CollectionComponentField>, ty: &String) -> (r: bool)
    ensures
        r == field_types(fields@).contains(ty@),
{
    let mut i: usize = 0;
    while i < fields.len()
        invariant
            i <= fields@.len(),
            forall|m: int| 0 <= m < i ==> field_types(fields@)[m] != ty@,
        decreases fields@.len() - i,
    {
        if fields[i].field_type == *ty {
            assert(field_types(fields@)[i as int] == ty@);
            return true;
        }
        i += 1;
    }
    assert(!field_types(fields@).contains(ty@)) by {
        if field_types(fields@).contains(ty@) {
            let m = choose|m: int| 0 <= m < field_types(fields@).len() && field_types(fields@)[m] == ty@;
            assert(field_types(fields@)[m] != ty@);
        }
    }
    false
}

/// Plans the calls of a system that is called once for each row.
pub fn plan_for_each(args: &Vec<ForEachArg>, fields: &Vec<CollectionComponentField>) -> (plan: ForEachPlan)
    ensures
        plan@ == plan_of(args@, field_types(fields@), args@.len() as int),
{
    let ghost types = field_types(fields@);
    let mut plan = ForEachPlan {
        components: Vec::new(),
        component_args: Vec::new(),
        resource_args: Vec::new(),
        any_mutable: false,
    };
    assert(plan@.components =~= Seq::empty() && plan@.component_args =~= Seq::empty()
        && plan@.resource_args =~= Seq::empty());
    let mut i: usize = 0;
    while i < args.len()
        invariant
            i <= args@.len(),
            types == field_types(fields@),
            plan@ == plan_of(args@, types, i as int),
        decreases args@.len() - i,
    {
        let ghost before = plan@;
        let arg = &args[i];
        if is_component(fields, &arg.ty) {
            plan.components.push(ComponentSpec { is_mut: arg.mutable, ident: arg.ty.clone() });
            plan.component_args.push(arg.name.clone());
            if arg.mutable {
                plan.any_mutable = true;
            }
            assert(plan@.components =~= before.components.push(
                ComponentSpecView { is_mut: arg.mutable, ident: arg.ty@ },
            ));
            assert(plan@.component_args =~= before.component_args.push(arg.name@));
            assert(plan@.resource_args =~= before.resource_args);
        } else {
            plan.resource_args.push(arg.name.clone());
            assert(plan@.resource_args =~= before.resource_args.push(arg.name@));
            assert(plan@.components =~= before.components);
            assert(plan@.component_args =~= before.component_args);
        }
        i += 1;
    }
    plan
}

} // verus!
