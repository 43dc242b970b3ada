//! Declarations, the shapes resolved from them, and derived names.

use zero_ecs::declaration::{find_query, same_strings, ComponentSpec};
use zero_ecs::naming::{field_name_of, push_snake_case};
use zero_ecs::shape::{component_types, find_column, is_entity_type, resolve_columns};
use zero_ecs::{
    format_collection_name, format_field_name, pascal_case_to_snake_case, singular_to_plural, ArchetypeTag,
    CollectedData, EntityDef, Field, Query, QueryId, SystemDef, World,
};

fn strings(items: &[&str]) -> Vec<String> {
    items.iter().map(|t| t.to_string()).collect()
}

fn query(mutable: &[&str], constant: &[&str]) -> Query {
    Query { mutable_fields: strings(mutable), const_fields: strings(constant) }
}

fn shape(name: &str, fields: &[(&str, &str)]) -> EntityDef {
    EntityDef {
        name: name.to_string(),
        fields: fields
            .iter()
            .map(|(name, data_type)| Field { name: name.to_string(), data_type: data_type.to_string() })
            .collect(),
    }
}

fn shapes_of(queries: &[Query]) -> Vec<(Vec<String>, Vec<String>)> {
    queries.iter().map(|q| (q.mutable_fields.clone(), q.const_fields.clone())).collect()
}

#[test]
fn unique_queries_keep_their_first_occurrence() {
    let mut data = CollectedData::default();
    data.queries = vec![
        query(&["Position"], &["Velocity"]),
        query(&[], &["Name"]),
        query(&["Position"], &["Velocity"]),
        query(&["Velocity"], &["Position"]),
        query(&[], &["Name"]),
        query(&[], &["Position", "Velocity"]),
    ];
    data.systems = vec![SystemDef::default()];

    data.retain_unique_queries();

    assert_eq!(
        shapes_of(&data.queries),
        shapes_of(&[
            query(&["Position"], &["Velocity"]),
            query(&[], &["Name"]),
            query(&["Velocity"], &["Position"]),
            query(&[], &["Position", "Velocity"]),
        ])
    );
    assert_eq!(data.systems.len(), 1);
}

#[test]
fn unique_queries_of_nothing_and_of_distinct_queries() {
    let mut data = CollectedData::default();
    data.retain_unique_queries();
    assert!(data.queries.is_empty());

    data.queries = vec![query(&["A"], &[]), query(&[], &["A"])];
    data.retain_unique_queries();
    assert_eq!(shapes_of(&data.queries), shapes_of(&[query(&["A"], &[]), query(&[], &["A"])]));
}

#[test]
fn queries_are_compared_by_types_order_and_access() {
    assert!(query(&["A"], &["B", "C"]).same(&query(&["A"], &["B", "C"])));
    assert!(!query(&["A"], &["B", "C"]).same(&query(&["A"], &["C", "B"])));
    assert!(!query(&["A"], &["B"]).same(&query(&[], &["A", "B"])));
    assert!(!query(&["A"], &[]).same(&query(&["A", "A"], &[])));
    assert!(same_strings(&strings(&[]), &strings(&[])));
    assert!(!same_strings(&strings(&["a"]), &strings(&["A"])));

    let list = vec![query(&[], &["B"]), query(&["A"], &[]), query(&["A"], &[])];
    assert_eq!(find_query(&list, &query(&["A"], &[])), Some(1));
    assert_eq!(find_query(&list, &query(&["B"], &[])), None);
    let copy = list[1].duplicate();
    assert!(copy.same(&list[1]));
    assert!(copy == list[1]);
    assert!(copy != list[0]);
    assert_eq!(list[1].clone(), list[2]);
}

#[test]
fn a_query_from_requested_components() {
    let specs = vec![
        ComponentSpec { is_mut: false, ident: "Velocity".to_string() },
        ComponentSpec { is_mut: true, ident: "Position".to_string() },
        ComponentSpec { is_mut: false, ident: "Name".to_string() },
        ComponentSpec { is_mut: true, ident: "Health".to_string() },
    ];

    let q = Query::from_specs(&specs).unwrap();

    assert_eq!(q.mutable_fields, strings(&["Position", "Health"]));
    assert_eq!(q.const_fields, strings(&["Velocity", "Name"]));
    assert!(Query::from_specs(&vec![]).is_none());
}

#[test]
fn collections_are_merged_in_order() {
    let mut data = CollectedData::default();
    data.entities = vec![shape("A", &[("a", "X")])];
    data.queries = vec![query(&[], &["X"])];
    let mut other = CollectedData::default();
    other.entities = vec![shape("B", &[("b", "Y")]), shape("C", &[])];
    other.queries = vec![query(&["Y"], &[])];
    other.systems = vec![SystemDef { name: "run".to_string(), group: "main".to_string(), params: vec![] }];

    data.extend(other);

    let names: Vec<&str> = data.entities.iter().map(|e| e.name.as_str()).collect();
    assert_eq!(names, vec!["A", "B", "C"]);
    assert_eq!(shapes_of(&data.queries), shapes_of(&[query(&[], &["X"]), query(&["Y"], &[])]));
    assert_eq!(data.systems.len(), 1);
    assert_eq!(data.systems[0].name, "run");
}

#[test]
fn every_shape_gets_the_field_of_its_handle() {
    let mut data = CollectedData::default();
    data.entities = vec![shape("A", &[("a", "X")]), shape("B", &[])];

    data.add_entity_fields();

    let fields: Vec<Vec<(&str, &str)>> = data
        .entities
        .iter()
        .map(|e| e.fields.iter().map(|f| (f.name.as_str(), f.data_type.as_str())).collect())
        .collect();
    assert_eq!(fields, vec![vec![("a", "X"), ("entity", "Entity")], vec![("entity", "Entity")]]);
    assert_eq!(data.entities[0].name, "A");
}

#[test]
fn a_world_from_declarations() {
    let mut data = CollectedData::default();
    data.entities = vec![
        shape("Enemy", &[("position", "Position"), ("name", "Name")]),
        shape("Flower", &[("position", "Position")]),
    ];
    data.queries = vec![query(&[], &["Position"]), query(&[], &["Name"]), query(&[], &["Position"])];
    data.add_entity_fields();

    let mut world: World<u8> = World::from_declarations(&data);

    assert_eq!(world.archetype_count(), 2);
    assert_eq!(world.query_count(), 2);
    assert_eq!(world.find_query(&query(&[], &["Position"])), Some(QueryId(0)));
    assert_eq!(world.find_query(&query(&[], &["Name"])), Some(QueryId(1)));
    let row = vec![1, 2];
    assert!(world.can_create(ArchetypeTag(0), &row));
    let e = world.create(ArchetypeTag(0), row);
    let f = world.create(ArchetypeTag(1), vec![3]);
    assert_eq!(world.len(QueryId(0)), 2);
    assert_eq!(world.len(QueryId(1)), 1);
    assert_eq!(world.get(QueryId(1), e).unwrap().components, vec![&2]);
    assert!(world.get(QueryId(1), f).is_none());
}

#[test]
fn component_types_leave_out_the_entity_type() {
    assert!(is_entity_type(&"Entity".to_string()));
    assert!(!is_entity_type(&"entity".to_string()));
    assert!(!is_entity_type(&"Entity ".to_string()));
    assert_eq!(component_types(&strings(&["Entity", "A", "Entity", "B"])), strings(&["A", "B"]));
    assert_eq!(component_types(&strings(&[])), strings(&[]));
    assert_eq!(shape("S", &[("a", "A"), ("entity", "Entity")]).component_types(), strings(&["A"]));
    assert_eq!(shape("S", &[("a", "A"), ("b", "B")]).data_types(), strings(&["A", "B"]));
    assert_eq!(query(&["Entity", "M"], &["C", "Entity", "D"]).shape(), strings(&["M", "C", "D"]));
    assert_eq!(query(&["Entity", "M"], &["C", "Entity", "D"]).mutable_count(), 1);
}

#[test]
fn columns_are_resolved_to_the_first_of_their_type() {
    let types = strings(&["A", "B", "A", "C"]);

    assert_eq!(find_column(&types, &"A".to_string()), Some(0));
    assert_eq!(find_column(&types, &"C".to_string()), Some(3));
    assert_eq!(find_column(&types, &"D".to_string()), None);
    assert_eq!(resolve_columns(&types, &strings(&["C", "A", "B"])), Some(vec![3, 0, 1]));
    assert_eq!(resolve_columns(&types, &strings(&[])), Some(vec![]));
    assert_eq!(resolve_columns(&types, &strings(&["A", "D"])), None);
}

#[test]
fn plural_of_a_name() {
    assert_eq!(singular_to_plural("enemy"), "enemies");
    assert_eq!(singular_to_plural("position"), "positions");
    assert_eq!(singular_to_plural("y"), "ies");
    assert_eq!(singular_to_plural("Enemy"), "Enemies");
    assert_eq!(singular_to_plural("key_y"), "key_ies");
    assert_eq!(singular_to_plural("é"), "és");
}

#[test]
fn snake_case_of_a_pascal_case_name() {
    assert_eq!(pascal_case_to_snake_case("NameEntity"), "name_entity");
    assert_eq!(pascal_case_to_snake_case("Enemy"), "enemy");
    assert_eq!(pascal_case_to_snake_case("enemy"), "enemy");
    assert_eq!(pascal_case_to_snake_case(""), "");
    assert_eq!(pascal_case_to_snake_case("ABc"), "a_bc");
    assert_eq!(pascal_case_to_snake_case("EntityWithPosition"), "entity_with_position");
    assert_eq!(pascal_case_to_snake_case("ÉcoleX2"), "école_x2");
}

#[test]
fn one_character_of_a_snake_case_name() {
    let mut out = String::from("ab");
    push_snake_case(&mut out, false, 'C', true, 'c');
    assert_eq!(out, "ab_c");
    push_snake_case(&mut out, false, 'd', false, 'd');
    assert_eq!(out, "ab_cd");
    let mut out = String::new();
    push_snake_case(&mut out, true, 'C', true, 'c');
    assert_eq!(out, "c");
}

#[test]
fn names_of_collections_and_fields() {
    assert_eq!(format_collection_name("Enemy"), "__EnemyCollection");
    assert_eq!(format_collection_name(""), "__Collection");
    assert_eq!(field_name_of("enemy_entity"), "__enemy_entity");
    assert_eq!(format_field_name("EnemyEntity"), "__enemy_entity");
    assert_eq!(format_field_name("EntityAB"), "__entity_ab");
}
