//! The parameters of systems, and the field names that carry component fields.

use zero_ecs::declaration::ComponentSpec;
use zero_ecs::fields::{get_collection_component_fields, parse_tagged_name, tag_field_name, tag_fields};
use zero_ecs::signature::{
    classify_arg, has_one_world, is_component, plan_for_each, ArgType, ForEachArg, PathInfo, SignatureError,
    SystemArg,
};
use zero_ecs::text::{remove_all, remove_char, split_on_text, starts_at, starts_with};
use zero_ecs::{CollectionComponentField, Field};

fn path(first: &str, last: &str, ident: Option<&str>) -> PathInfo {
    PathInfo { first: first.to_string(), last: last.to_string(), ident: ident.map(|i| i.to_string()) }
}

fn ident(name: &str) -> PathInfo {
    path(name, name, Some(name))
}

fn spec(is_mut: bool, name: &str) -> ComponentSpec {
    ComponentSpec { is_mut, ident: name.to_string() }
}

fn component_field(collection: &str, field: &str, ty: &str) -> CollectionComponentField {
    CollectionComponentField {
        collection_name: collection.to_string(),
        field_name: field.to_string(),
        field_type: ty.to_string(),
    }
}

fn triple(field: &CollectionComponentField) -> (&str, &str, &str) {
    (field.collection_name.as_str(), field.field_name.as_str(), field.field_type.as_str())
}

#[test]
fn a_reference_to_the_world_is_the_world() {
    let arg = classify_arg("world", ArgType::Reference { mutable: true, target: Some(ident("World")) });
    assert!(matches!(arg, Ok(SystemArg::World { name, mutable: true }) if name == "world"));
    let arg = classify_arg("w", ArgType::Reference { mutable: false, target: Some(ident("World")) });
    assert!(matches!(arg, Ok(SystemArg::World { name, mutable: false }) if name == "w"));
}

#[test]
fn a_reference_to_anything_else_is_a_resource() {
    let arg = classify_arg("tick", ArgType::Reference { mutable: false, target: Some(ident("TickCount")) });
    assert!(matches!(
        arg,
        Ok(SystemArg::Resource { name, ty, mutable: false, by_ref: true }) if name == "tick" && ty == "TickCount"
    ));
    let arg = classify_arg("state", ArgType::Reference { mutable: true, target: Some(ident("GameState")) });
    assert!(matches!(
        arg,
        Ok(SystemArg::Resource { name, ty, mutable: true, by_ref: true }) if name == "state" && ty == "GameState"
    ));
}

#[test]
fn a_query_names_its_components() {
    let ty = ArgType::Path {
        path: path("QueryDef", "QueryDef", None),
        fields: Some(vec![spec(true, "Counter"), spec(false, "Health")]),
    };
    let arg = classify_arg("query", ty);
    match arg {
        Ok(SystemArg::Query { name, fields }) => {
            assert_eq!(name, "query");
            let fields: Vec<(bool, &str)> = fields.iter().map(|f| (f.is_mut, f.ident.as_str())).collect();
            assert_eq!(fields, vec![(true, "Counter"), (false, "Health")]);
        }
        other => panic!("not a query: {:?}", other),
    }
}

#[test]
fn a_path_that_is_no_query_is_a_resource_by_value() {
    let arg = classify_arg("increment", ArgType::Path { path: ident("usize"), fields: None });
    assert!(matches!(
        arg,
        Ok(SystemArg::Resource { name, ty, mutable: false, by_ref: false }) if name == "increment" && ty == "usize"
    ));
}

#[test]
fn parameters_that_no_system_can_have() {
    let refused = |ty: ArgType| classify_arg("x", ty).unwrap_err();
    assert_eq!(refused(ArgType::Reference { mutable: false, target: None }), SignatureError::NoElemPath);
    assert_eq!(
        refused(ArgType::Reference { mutable: false, target: Some(path("a", "World", None)) }),
        SignatureError::NoTypeIdent
    );
    assert_eq!(
        refused(ArgType::Path { path: path("QueryDef", "QueryDef", None), fields: None }),
        SignatureError::NoQueryFields
    );
    assert_eq!(
        refused(ArgType::Path { path: path("std", "String", None), fields: None }),
        SignatureError::NoTypeIdent
    );
    assert_eq!(refused(ArgType::Other), SignatureError::UnsupportedType);
}

#[test]
fn a_system_has_exactly_one_world() {
    let world = || SystemArg::World { name: "world".to_string(), mutable: true };
    let query = || SystemArg::Query { name: "q".to_string(), fields: vec![] };
    let resource =
        || SystemArg::Resource { name: "r".to_string(), ty: "R".to_string(), mutable: false, by_ref: true };

    assert!(has_one_world(&vec![world()]));
    assert!(has_one_world(&vec![query(), world(), resource()]));
    assert!(!has_one_world(&vec![]));
    assert!(!has_one_world(&vec![query(), resource()]));
    assert!(!has_one_world(&vec![world(), query(), world()]));
}

#[test]
fn how_parameters_are_written_and_passed() {
    let world = SystemArg::World { name: "world".to_string(), mutable: true };
    assert_eq!(world.get_arg_code(), Some("world: &mut World".to_string()));
    assert_eq!(world.get_call_code(), Some("self".to_string()));
    let world = SystemArg::World { name: "w".to_string(), mutable: false };
    assert_eq!(world.get_arg_code(), Some("w: &World".to_string()));

    let resource = |mutable, by_ref| SystemArg::Resource {
        name: "state".to_string(),
        ty: "GameState".to_string(),
        mutable,
        by_ref,
    };
    assert_eq!(resource(true, true).get_arg_code(), Some("state: &mut GameState".to_string()));
    assert_eq!(resource(false, true).get_arg_code(), Some("state: &GameState".to_string()));
    assert_eq!(resource(true, false).get_arg_code(), Some("state: mut GameState".to_string()));
    assert_eq!(resource(false, false).get_arg_code(), Some("state: GameState".to_string()));
    assert_eq!(resource(false, false).get_call_code(), Some("state".to_string()));

    let query = SystemArg::Query { name: "q".to_string(), fields: vec![spec(false, "A")] };
    assert_eq!(query.get_arg_code(), None);
    assert_eq!(query.get_call_code(), None);
}

#[test]
fn a_system_for_each_row_takes_components_and_resources() {
    let fields = vec![
        component_field("EntityA", "counter", "Counter"),
        component_field("EntityA", "health", "Health"),
        component_field("EntityB", "counter", "Counter"),
    ];
    let arg = |name: &str, ty: &str, mutable| ForEachArg { name: name.to_string(), ty: ty.to_string(), mutable };
    assert!(is_component(&fields, &"Health".to_string()));
    assert!(!is_component(&fields, &"TickCount".to_string()));
    assert!(!is_component(&vec![], &"Health".to_string()));

    let plan = plan_for_each(
        &vec![
            arg("tick", "TickCount", false),
            arg("health", "Health", false),
            arg("counter", "Counter", true),
            arg("dt", "DeltaTime", true),
        ],
        &fields,
    );

    let components: Vec<(bool, &str)> = plan.components.iter().map(|c| (c.is_mut, c.ident.as_str())).collect();
    assert_eq!(components, vec![(false, "Health"), (true, "Counter")]);
    assert_eq!(plan.component_args, vec!["health", "counter"]);
    assert_eq!(plan.resource_args, vec!["tick", "dt"]);
    assert!(plan.any_mutable);

    let plan = plan_for_each(&vec![arg("counter", "Counter", false), arg("state", "State", true)], &fields);
    assert!(!plan.any_mutable);
    let plan = plan_for_each(&vec![], &fields);
    assert!(plan.components.is_empty() && plan.resource_args.is_empty() && !plan.any_mutable);
}

#[test]
fn patterns_in_text() {
    assert_eq!(remove_char("Vec < u8 >", ' '), "Vec<u8>");
    assert_eq!(remove_char("", ' '), "");
    assert!(starts_with("__twcf__A", "__twcf__"));
    assert!(!starts_with("_twcf__A", "__twcf__"));
    assert!(!starts_with("__tw", "__twcf__"));
    assert!(starts_with("abc", ""));
    let chars: Vec<char> = "abcabc".chars().collect();
    assert!(starts_at(&chars, &vec!['b', 'c'], 4));
    assert!(!starts_at(&chars, &vec!['b', 'c'], 5));
    assert!(starts_at(&chars, &vec![], 6));
    assert_eq!(remove_all("xabxabab", "ab"), "xx");
    assert_eq!(remove_all("aaa", "aa"), "a");
    assert_eq!(remove_all("ababa", "aba"), "ba");
    assert_eq!(remove_all("abc", ""), "abc");
    assert_eq!(remove_all("abc", "abcd"), "abc");
    assert_eq!(remove_all("xabxabab", "ab"), "xabxabab".replace("ab", ""));
    assert_eq!(split_on_text("a__b__c", "__"), vec!["a", "b", "c"]);
    assert_eq!(split_on_text("a___b", "__"), vec!["a", "_b"]);
    assert_eq!(split_on_text("____", "__"), vec!["", "", ""]);
    assert_eq!(split_on_text("abc", "__"), vec!["abc"]);
    assert_eq!(split_on_text("", "__"), vec![""]);
    assert_eq!(split_on_text("a__", "__"), vec!["a", ""]);
    assert_eq!(split_on_text("abc", ""), vec!["abc"]);
    let std_pieces: Vec<&str> = "a___b__".split("__").collect();
    assert_eq!(split_on_text("a___b__", "__"), std_pieces);
}

#[test]
fn a_field_name_carries_a_component_field() {
    assert_eq!(tag_field_name("EntityA", "counter", "Counter"), "__twcf__EntityA__counter__Counter");
    assert_eq!(tag_field_name("E", "items", "Vec < u8 >"), "__twcf__E__items__Vec<u8>");

    let field = parse_tagged_name("__twcf__EntityA__counter__Counter").unwrap();
    assert_eq!(triple(&field), ("EntityA", "counter", "Counter"));
    let field = parse_tagged_name("__twcf__EntityA__tag_a__TagA").unwrap();
    assert_eq!(triple(&field), ("EntityA", "tag_a", "TagA"));
    let field = parse_tagged_name(&tag_field_name("Enemy", "position", "Position")).unwrap();
    assert_eq!(triple(&field), ("Enemy", "position", "Position"));
    // every occurrence of the prefix is left out, and with it a separator
    assert!(parse_tagged_name("__twcf__A__b__twcf__C").is_none());
    let field = parse_tagged_name("__twcf__A__b__twcf____C").unwrap();
    assert_eq!(triple(&field), ("A", "b", "C"));

    assert!(parse_tagged_name("EntityA__counter__Counter").is_none());
    assert!(parse_tagged_name("__twcf__EntityA__counter").is_none());
    assert!(parse_tagged_name("__twcf__A__b__c__d").is_none());
    assert!(parse_tagged_name("__twcf__").is_none());
    assert!(parse_tagged_name("").is_none());
}

#[test]
fn the_component_fields_of_a_world() {
    let fields = vec![
        Field { name: "counter".to_string(), data_type: "Counter".to_string() },
        Field { name: "tag_a".to_string(), data_type: "TagA".to_string() },
    ];
    let mut names = tag_fields("EntityA", &fields);
    assert_eq!(names, vec!["__twcf__EntityA__counter__Counter", "__twcf__EntityA__tag_a__TagA"]);
    names.insert(1, "__entity_a".to_string());
    names.push("__twcf__broken".to_string());

    let found = get_collection_component_fields(&names);

    let found: Vec<(&str, &str, &str)> = found.iter().map(triple).collect();
    assert_eq!(found, vec![("EntityA", "counter", "Counter"), ("EntityA", "tag_a", "TagA")]);
    assert!(get_collection_component_fields(&vec![]).is_empty());
}
