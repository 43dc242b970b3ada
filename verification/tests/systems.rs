//! Systems over a world of three entity shapes: queries of one, two and three
//! components, shared and exclusive access, resources, selective systems and
//! the destruction of entities.

#![allow(dead_code)]

use zero_ecs::{ArchetypeTag, Entity, EntityDef, Field, Query, QueryId, World};

// Components
#[derive(Debug, PartialEq)]
pub struct Counter(usize);

#[derive(Debug, PartialEq)]
pub struct Health(i32);

#[derive(Debug, PartialEq)]
pub struct Speed(f32);

#[derive(Debug, PartialEq)]
pub struct Name(String);

#[derive(Default)]
pub struct TagA;

#[derive(Default)]
pub struct TagB;

pub enum Component {
    Counter(Counter),
    Health(Health),
    Speed(Speed),
    Name(Name),
    TagA(TagA),
    TagB(TagB),
}

fn counter(c: &Component) -> &Counter {
    match c {
        Component::Counter(v) => v,
        _ => panic!("not a counter"),
    }
}

fn counter_mut(c: &mut Component) -> &mut Counter {
    match c {
        Component::Counter(v) => v,
        _ => panic!("not a counter"),
    }
}

fn health(c: &Component) -> &Health {
    match c {
        Component::Health(v) => v,
        _ => panic!("not a health"),
    }
}

fn health_mut(c: &mut Component) -> &mut Health {
    match c {
        Component::Health(v) => v,
        _ => panic!("not a health"),
    }
}

fn speed(c: &Component) -> &Speed {
    match c {
        Component::Speed(v) => v,
        _ => panic!("not a speed"),
    }
}

fn speed_mut(c: &mut Component) -> &mut Speed {
    match c {
        Component::Speed(v) => v,
        _ => panic!("not a speed"),
    }
}

// Resources
#[derive(Debug)]
struct DeltaTime(f32);

#[derive(Debug)]
struct TickCount(usize);

#[derive(Debug)]
struct GameState {
    paused: bool,
    score: i32,
}

// Entities
pub struct EntityA {
    counter: Counter,
    health: Health,
    tag_a: TagA,
}

pub struct EntityB {
    counter: Counter,
    speed: Speed,
    tag_b: TagB,
}

pub struct EntityAB {
    counter: Counter,
    health: Health,
    speed: Speed,
    name: Name,
}

const ENTITY_A: ArchetypeTag = ArchetypeTag(0);
const ENTITY_B: ArchetypeTag = ArchetypeTag(1);
const ENTITY_AB: ArchetypeTag = ArchetypeTag(2);

fn shape(name: &str, fields: &[(&str, &str)]) -> EntityDef {
    EntityDef {
        name: name.to_string(),
        fields: fields
            .iter()
            .map(|(name, data_type)| Field { name: name.to_string(), data_type: data_type.to_string() })
            .collect(),
    }
}

fn query(mutable: &[&str], constant: &[&str]) -> Query {
    Query {
        mutable_fields: mutable.iter().map(|t| t.to_string()).collect(),
        const_fields: constant.iter().map(|t| t.to_string()).collect(),
    }
}

/// The id of a shape that `new_world` resolved.
fn ask(world: &World<Component>, mutable: &[&str], constant: &[&str]) -> QueryId {
    world.find_query(&query(mutable, constant)).expect("the shape is resolved")
}

fn new_world() -> World<Component> {
    let shapes = vec![
        shape("EntityA", &[("counter", "Counter"), ("health", "Health"), ("tag_a", "TagA")]),
        shape("EntityB", &[("counter", "Counter"), ("speed", "Speed"), ("tag_b", "TagB")]),
        shape(
            "EntityAB",
            &[("counter", "Counter"), ("health", "Health"), ("speed", "Speed"), ("name", "Name")],
        ),
    ];
    let mut world = World::new(&shapes);
    let shapes: [(&[&str], &[&str]); 16] = [
        (&[], &["Counter"]),
        (&["Counter"], &["Health"]),
        (&[], &["Counter", "Health"]),
        (&["Counter", "Health"], &[]),
        (&[], &["Counter", "Health", "Speed"]),
        (&["Counter", "Health", "Speed"], &[]),
        (&["Counter"], &[]),
        (&["Counter"], &["Health", "Speed"]),
        (&["Counter"], &["TagA"]),
        (&["Counter"], &["TagB"]),
        (&[], &["Entity", "Counter"]),
        (&[], &["Entity", "Counter", "TagA"]),
        (&[], &["Entity", "Counter", "TagB"]),
        (&[], &["Entity", "Counter", "Name"]),
        (&[], &["Entity", "Counter", "Health"]),
        (&[], &["Counter", "Health", "Speed", "Name"]),
    ];
    for (mutable, constant) in shapes {
        world.register(query(mutable, constant));
    }
    world
}

fn create_a(world: &mut World<Component>, e: EntityA) -> Entity {
    let row = vec![Component::Counter(e.counter), Component::Health(e.health), Component::TagA(e.tag_a)];
    assert!(world.can_create(ENTITY_A, &row));
    world.create(ENTITY_A, row)
}

fn create_b(world: &mut World<Component>, e: EntityB) -> Entity {
    let row = vec![Component::Counter(e.counter), Component::Speed(e.speed), Component::TagB(e.tag_b)];
    assert!(world.can_create(ENTITY_B, &row));
    world.create(ENTITY_B, row)
}

fn create_ab(world: &mut World<Component>, e: EntityAB) -> Entity {
    let row = vec![
        Component::Counter(e.counter),
        Component::Health(e.health),
        Component::Speed(e.speed),
        Component::Name(e.name),
    ];
    assert!(world.can_create(ENTITY_AB, &row));
    world.create(ENTITY_AB, row)
}

// ============================================================================
// Systems that take the world and a query
// ============================================================================

fn system_single_component_immutable(world: &World<Component>) {
    let q = ask(world, &[], &["Counter"]);
    // Just verify we can access
    let count = world.len(q);
    for i in 0..count {
        let row = world.at(q, i).unwrap();
        let _counter: &Counter = counter(row.components[0]);
    }
}

fn system_single_component_mutable(world: &mut World<Component>) {
    let q = ask(world, &["Counter"], &["Health"]);
    for i in 0..world.len(q) {
        counter_mut(world.at_mut(q, i, 0).unwrap()).0 += 1;
    }
}

fn system_two_components_immutable(world: &World<Component>) {
    let q = ask(world, &[], &["Counter", "Health"]);
    for row in world.query(q) {
        let _ = (counter(row.components[0]).0, health(row.components[1]).0);
    }
}

fn system_two_components_mutable(world: &mut World<Component>) {
    let q = ask(world, &["Counter", "Health"], &[]);
    for i in 0..world.len(q) {
        counter_mut(world.at_mut(q, i, 0).unwrap()).0 += 1;
        health_mut(world.at_mut(q, i, 1).unwrap()).0 += 5;
    }
}

fn system_two_components_mixed(world: &mut World<Component>) {
    let q = ask(world, &["Counter"], &["Health"]);
    for i in 0..world.len(q) {
        let health = health(world.at(q, i).unwrap().components[1]).0;
        counter_mut(world.at_mut(q, i, 0).unwrap()).0 += health as usize;
    }
}

fn system_three_components_immutable(world: &World<Component>) {
    let q = ask(world, &[], &["Counter", "Health", "Speed"]);
    for row in world.query(q) {
        let _ = (counter(row.components[0]).0, health(row.components[1]).0, speed(row.components[2]).0);
    }
}

fn system_three_components_mutable(world: &mut World<Component>) {
    let q = ask(world, &["Counter", "Health", "Speed"], &[]);
    for i in 0..world.len(q) {
        counter_mut(world.at_mut(q, i, 0).unwrap()).0 += 1;
        health_mut(world.at_mut(q, i, 1).unwrap()).0 += 1;
        speed_mut(world.at_mut(q, i, 2).unwrap()).0 += 1.0;
    }
}

// ============================================================================
// Systems that are called once for each row
// ============================================================================

fn for_each_single_mutable(world: &mut World<Component>) {
    let q = ask(world, &["Counter"], &[]);
    world.for_each_mut(q, 0, |row| Component::Counter(Counter(counter(row.components[0]).0 + 1)));
}

fn for_each_single_immutable(world: &World<Component>) {
    let q = ask(world, &[], &["Counter"]);
    for row in world.query(q) {
        let _ = counter(row.components[0]).0;
    }
}

fn for_each_two_components_mutable(world: &mut World<Component>) {
    let q = ask(world, &["Counter", "Health"], &[]);
    for i in 0..world.len(q) {
        counter_mut(world.at_mut(q, i, 0).unwrap()).0 += 1;
        health_mut(world.at_mut(q, i, 1).unwrap()).0 += 2;
    }
}

fn for_each_two_components_mixed(world: &mut World<Component>) {
    let q = ask(world, &["Counter"], &["Health"]);
    world.for_each_mut(q, 0, |row| {
        let health = health(row.components[1]).0;
        Component::Counter(Counter(counter(row.components[0]).0 + health as usize))
    });
}

fn for_each_three_components(world: &mut World<Component>) {
    let q = ask(world, &["Counter"], &["Health", "Speed"]);
    for i in 0..world.len(q) {
        let row = world.at(q, i).unwrap();
        let add = (health(row.components[1]).0 as f32 * speed(row.components[2]).0) as usize;
        counter_mut(world.at_mut(q, i, 0).unwrap()).0 += add;
    }
}

// ============================================================================
// Systems with resources
// ============================================================================

fn system_with_ref_resource(world: &mut World<Component>, tick: &TickCount) {
    let q = ask(world, &["Counter"], &["Health"]);
    for i in 0..world.len(q) {
        counter_mut(world.at_mut(q, i, 0).unwrap()).0 += tick.0;
    }
}

fn system_with_value_resource(world: &mut World<Component>, increment: usize) {
    let q = ask(world, &["Counter"], &["Health"]);
    for i in 0..world.len(q) {
        counter_mut(world.at_mut(q, i, 0).unwrap()).0 += increment;
    }
}

fn system_with_multiple_resources(
    world: &mut World<Component>,
    tick: &TickCount,
    dt: &DeltaTime,
    multiplier: i32,
) {
    let q = ask(world, &["Counter", "Health"], &[]);
    for i in 0..world.len(q) {
        counter_mut(world.at_mut(q, i, 0).unwrap()).0 += tick.0;
        health_mut(world.at_mut(q, i, 1).unwrap()).0 += (dt.0 * multiplier as f32) as i32;
    }
}

fn system_with_mutable_resource(world: &World<Component>, state: &mut GameState) {
    let q = ask(world, &[], &["Counter"]);
    let count = world.len(q);
    for i in 0..count {
        let row = world.at(q, i).unwrap();
        let counter: &Counter = counter(row.components[0]);
        state.score += counter.0 as i32;
    }
}

fn for_each_with_ref_resource(world: &mut World<Component>, tick: &TickCount) {
    let q = ask(world, &["Counter"], &[]);
    for i in 0..world.len(q) {
        counter_mut(world.at_mut(q, i, 0).unwrap()).0 += tick.0;
    }
}

fn for_each_with_value_resource(world: &mut World<Component>, tick: &TickCount) {
    let q = ask(world, &["Counter"], &[]);
    for i in 0..world.len(q) {
        counter_mut(world.at_mut(q, i, 0).unwrap()).0 += tick.0;
    }
}

fn for_each_with_multiple_ref_resources(world: &mut World<Component>, tick: &TickCount, dt: &DeltaTime) {
    let q = ask(world, &["Counter", "Health"], &[]);
    for i in 0..world.len(q) {
        counter_mut(world.at_mut(q, i, 0).unwrap()).0 += tick.0;
        health_mut(world.at_mut(q, i, 1).unwrap()).0 += dt.0 as i32;
    }
}

// ============================================================================
// Selective update systems
// ============================================================================

fn increment_only_tag_a(world: &mut World<Component>) {
    let q = ask(world, &["Counter"], &["TagA"]);
    for i in 0..world.len(q) {
        counter_mut(world.at_mut(q, i, 0).unwrap()).0 += 100;
    }
}

fn increment_only_tag_b(world: &mut World<Component>) {
    let q = ask(world, &["Counter"], &["TagB"]);
    for i in 0..world.len(q) {
        counter_mut(world.at_mut(q, i, 0).unwrap()).0 += 200;
    }
}

fn increment_with_health(world: &mut World<Component>) {
    let q = ask(world, &["Counter"], &["Health"]);
    for i in 0..world.len(q) {
        counter_mut(world.at_mut(q, i, 0).unwrap()).0 += 1;
    }
}

// Queries for verification
fn query_counter(world: &World<Component>) -> QueryId {
    ask(world, &[], &["Counter"])
}

fn query_counter_health(world: &World<Component>) -> QueryId {
    ask(world, &[], &["Counter", "Health"])
}

fn query_counter_health_speed(world: &World<Component>) -> QueryId {
    ask(world, &[], &["Counter", "Health", "Speed"])
}

fn query_entity_counter(world: &World<Component>) -> QueryId {
    ask(world, &[], &["Entity", "Counter"])
}

fn query_entity_counter_tag_a(world: &World<Component>) -> QueryId {
    ask(world, &[], &["Entity", "Counter", "TagA"])
}

fn query_entity_counter_tag_b(world: &World<Component>) -> QueryId {
    ask(world, &[], &["Entity", "Counter", "TagB"])
}

fn query_entity_counter_name(world: &World<Component>) -> QueryId {
    ask(world, &[], &["Entity", "Counter", "Name"])
}

fn query_entity_counter_health(world: &World<Component>) -> QueryId {
    ask(world, &[], &["Entity", "Counter", "Health"])
}

// ============================================================================
// Tests
// ============================================================================

#[test]
fn test_system_single_component_queries() {
    let mut world = new_world();

    create_a(&mut world, EntityA { counter: Counter(0), health: Health(100), tag_a: TagA });

    // Test immutable access
    system_single_component_immutable(&world);

    // Test mutable access
    system_single_component_mutable(&mut world);

    // Verify the counter was incremented
    let row = world.at(query_counter(&world), 0).unwrap();
    assert_eq!(counter(row.components[0]).0, 1);
}

#[test]
fn test_system_two_component_queries() {
    let mut world = new_world();

    create_a(&mut world, EntityA { counter: Counter(10), health: Health(50), tag_a: TagA });

    system_two_components_immutable(&world);
    system_two_components_mutable(&mut world);

    let row = world.at(query_counter_health(&world), 0).unwrap();
    assert_eq!(counter(row.components[0]).0, 11);
    assert_eq!(health(row.components[1]).0, 55);
}

#[test]
fn test_system_two_component_mixed_mutability() {
    let mut world = new_world();

    create_a(&mut world, EntityA { counter: Counter(0), health: Health(7), tag_a: TagA });

    system_two_components_mixed(&mut world);

    let row = world.at(query_counter_health(&world), 0).unwrap();
    assert_eq!(counter(row.components[0]).0, 7);
    assert_eq!(health(row.components[1]).0, 7);
}

#[test]
fn test_system_three_component_queries() {
    let mut world = new_world();

    create_ab(
        &mut world,
        EntityAB { counter: Counter(1), health: Health(10), speed: Speed(2.5), name: Name("test".to_string()) },
    );

    system_three_components_immutable(&world);
    system_three_components_mutable(&mut world);

    let row = world.at(query_counter_health_speed(&world), 0).unwrap();
    assert_eq!(counter(row.components[0]).0, 2);
    assert_eq!(health(row.components[1]).0, 11);
    assert_eq!(speed(row.components[2]).0, 3.5);
}

#[test]
fn test_for_each_single_component() {
    let mut world = new_world();

    create_a(&mut world, EntityA { counter: Counter(0), health: Health(100), tag_a: TagA });

    for_each_single_immutable(&world);
    for_each_single_mutable(&mut world);
    for_each_single_mutable(&mut world);
    for_each_single_mutable(&mut world);

    let row = world.at(query_counter(&world), 0).unwrap();
    assert_eq!(counter(row.components[0]).0, 3);
}

#[test]
fn test_for_each_two_components() {
    let mut world = new_world();

    create_a(&mut world, EntityA { counter: Counter(5), health: Health(20), tag_a: TagA });

    for_each_two_components_mutable(&mut world);
    for_each_two_components_mutable(&mut world);

    let row = world.at(query_counter_health(&world), 0).unwrap();
    assert_eq!(counter(row.components[0]).0, 7);
    assert_eq!(health(row.components[1]).0, 24);
}

#[test]
fn test_for_each_with_mixed_mutability() {
    let mut world = new_world();

    create_a(&mut world, EntityA { counter: Counter(0), health: Health(5), tag_a: TagA });

    for_each_two_components_mixed(&mut world);

    let row = world.at(query_counter_health(&world), 0).unwrap();
    assert_eq!(counter(row.components[0]).0, 5);
    assert_eq!(health(row.components[1]).0, 5);
}

#[test]
fn test_for_each_three_components() {
    let mut world = new_world();

    create_ab(
        &mut world,
        EntityAB { counter: Counter(0), health: Health(10), speed: Speed(2.0), name: Name("entity".to_string()) },
    );

    for_each_three_components(&mut world);

    let row = world.at(query_counter(&world), 0).unwrap();
    assert_eq!(counter(row.components[0]).0, 20); // 0 + (10 * 2.0)
}

#[test]
fn test_system_with_ref_resource() {
    let mut world = new_world();

    create_a(&mut world, EntityA { counter: Counter(0), health: Health(100), tag_a: TagA });

    let tick = TickCount(3);
    system_with_ref_resource(&mut world, &tick);
    system_with_ref_resource(&mut world, &tick);

    let row = world.at(query_counter(&world), 0).unwrap();
    assert_eq!(counter(row.components[0]).0, 6);
}

#[test]
fn test_system_with_value_resource() {
    let mut world = new_world();

    create_a(&mut world, EntityA { counter: Counter(10), health: Health(100), tag_a: TagA });

    system_with_value_resource(&mut world, 5);
    system_with_value_resource(&mut world, 7);

    let row = world.at(query_counter(&world), 0).unwrap();
    assert_eq!(counter(row.components[0]).0, 22);
}

#[test]
fn test_system_with_multiple_resources() {
    let mut world = new_world();

    create_a(&mut world, EntityA { counter: Counter(0), health: Health(100), tag_a: TagA });

    let tick = TickCount(2);
    let dt = DeltaTime(0.5);
    system_with_multiple_resources(&mut world, &tick, &dt, 10);

    let row = world.at(query_counter_health(&world), 0).unwrap();
    assert_eq!(counter(row.components[0]).0, 2);
    assert_eq!(health(row.components[1]).0, 105); // 100 + (0.5 * 10)
}

#[test]
fn test_system_with_mutable_resource() {
    let mut world = new_world();

    create_a(&mut world, EntityA { counter: Counter(10), health: Health(100), tag_a: TagA });
    create_a(&mut world, EntityA { counter: Counter(20), health: Health(100), tag_a: TagA });

    let mut state = GameState { paused: false, score: 0 };

    system_with_mutable_resource(&world, &mut state);

    assert_eq!(state.score, 30);
}

#[test]
fn test_for_each_with_ref_resource() {
    let mut world = new_world();

    create_a(&mut world, EntityA { counter: Counter(0), health: Health(100), tag_a: TagA });

    let tick = TickCount(5);
    for_each_with_ref_resource(&mut world, &tick);

    let row = world.at(query_counter(&world), 0).unwrap();
    assert_eq!(counter(row.components[0]).0, 5);
}

#[test]
fn test_for_each_with_multiple_ref_resources() {
    let mut world = new_world();

    create_a(&mut world, EntityA { counter: Counter(0), health: Health(100), tag_a: TagA });

    let tick = TickCount(3);
    let dt = DeltaTime(7.0);
    for_each_with_multiple_ref_resources(&mut world, &tick, &dt);

    let row = world.at(query_counter_health(&world), 0).unwrap();
    assert_eq!(counter(row.components[0]).0, 3);
    assert_eq!(health(row.components[1]).0, 107);
}

#[test]
fn test_selective_system_calls() {
    let mut world = new_world();

    let entity_a = create_a(&mut world, EntityA { counter: Counter(0), health: Health(100), tag_a: TagA });

    let entity_b = create_b(&mut world, EntityB { counter: Counter(0), speed: Speed(1.0), tag_b: TagB });

    let entity_ab = create_ab(
        &mut world,
        EntityAB { counter: Counter(0), health: Health(100), speed: Speed(1.0), name: Name("both".to_string()) },
    );

    // Increment TagA entities 5 times
    for _ in 0..5 {
        increment_only_tag_a(&mut world);
    }

    // Increment TagB entities 3 times
    for _ in 0..3 {
        increment_only_tag_b(&mut world);
    }

    // Check entity A (has TagA)
    for row in world.query(query_entity_counter_tag_a(&world)) {
        if row.entity == entity_a {
            assert_eq!(counter(row.components[0]).0, 500); // 5 * 100
        }
    }

    // Check entity B (has TagB)
    for row in world.query(query_entity_counter_tag_b(&world)) {
        if row.entity == entity_b {
            assert_eq!(counter(row.components[0]).0, 600); // 3 * 200
        }
    }

    // EntityAB has neither TagA nor TagB, so should remain 0
    for row in world.query(query_entity_counter_name(&world)) {
        if row.entity == entity_ab {
            assert_eq!(counter(row.components[0]).0, 0);
        }
    }
}

#[test]
fn test_system_called_multiple_times_affects_only_target() {
    let mut world = new_world();

    create_a(&mut world, EntityA { counter: Counter(0), health: Health(100), tag_a: TagA });

    create_b(&mut world, EntityB { counter: Counter(0), speed: Speed(1.0), tag_b: TagB });

    // Call system that only affects entities with Health component
    for _ in 0..5 {
        increment_with_health(&mut world);
    }

    // Check EntityA (has Health) - should be affected
    let row = world.at(query_entity_counter_tag_a(&world), 0).unwrap();
    assert_eq!(counter(row.components[0]).0, 5);

    // Check EntityB (no Health) - should not be affected
    let row = world.at(query_entity_counter_tag_b(&world), 0).unwrap();
    assert_eq!(counter(row.components[0]).0, 0);
}

#[test]
fn test_entity_deletion_and_verification() {
    let mut world = new_world();

    let entity_keep = create_a(&mut world, EntityA { counter: Counter(100), health: Health(100), tag_a: TagA });

    let entity_delete = create_a(&mut world, EntityA { counter: Counter(200), health: Health(50), tag_a: TagA });

    let entity_keep2 = create_b(&mut world, EntityB { counter: Counter(300), speed: Speed(1.0), tag_b: TagB });

    // Verify we have 3 entities
    assert_eq!(world.len(query_counter(&world)), 3);

    // Delete the middle entity
    world.destroy(entity_delete);

    // Verify we now have 2 entities
    assert_eq!(world.len(query_counter(&world)), 2);

    // Verify the correct entities remain with correct values
    let query_a = query_entity_counter_tag_a(&world);
    assert_eq!(world.len(query_a), 1);
    let row = world.at(query_a, 0).unwrap();
    assert_eq!(row.entity, entity_keep);
    assert_eq!(counter(row.components[0]).0, 100);

    let query_b = query_entity_counter_tag_b(&world);
    assert_eq!(world.len(query_b), 1);
    let row = world.at(query_b, 0).unwrap();
    assert_eq!(row.entity, entity_keep2);
    assert_eq!(counter(row.components[0]).0, 300);
}

#[test]
fn test_delete_multiple_entities_and_verify_correct_ones() {
    let mut world = new_world();

    let e1 = create_a(&mut world, EntityA { counter: Counter(1), health: Health(10), tag_a: TagA });

    let e2 = create_a(&mut world, EntityA { counter: Counter(2), health: Health(20), tag_a: TagA });

    let e3 = create_a(&mut world, EntityA { counter: Counter(3), health: Health(30), tag_a: TagA });

    let e4 = create_a(&mut world, EntityA { counter: Counter(4), health: Health(40), tag_a: TagA });

    let e5 = create_a(&mut world, EntityA { counter: Counter(5), health: Health(50), tag_a: TagA });

    // Delete e2 and e4
    world.destroy(e2);
    world.destroy(e4);

    // Verify correct count
    let query = query_entity_counter_health(&world);
    assert_eq!(world.len(query), 3);

    // Verify correct entities remain
    let mut found = std::collections::HashSet::new();
    for row in world.query(query) {
        let entity = row.entity;
        let counter = counter(row.components[0]);
        let health = health(row.components[1]);
        found.insert(entity);

        match counter.0 {
            1 => {
                assert_eq!(entity, e1);
                assert_eq!(health.0, 10);
            }
            3 => {
                assert_eq!(entity, e3);
                assert_eq!(health.0, 30);
            }
            5 => {
                assert_eq!(entity, e5);
                assert_eq!(health.0, 50);
            }
            _ => panic!("Unexpected counter value: {}", counter.0),
        }
    }

    assert!(found.contains(&e1));
    assert!(!found.contains(&e2));
    assert!(found.contains(&e3));
    assert!(!found.contains(&e4));
    assert!(found.contains(&e5));
}

#[test]
fn test_combination_queries_resources_and_deletion() {
    let mut world = new_world();

    // Create entities
    let e1 = create_a(&mut world, EntityA { counter: Counter(0), health: Health(100), tag_a: TagA });

    let e2 = create_b(&mut world, EntityB { counter: Counter(0), speed: Speed(2.0), tag_b: TagB });

    let e3 = create_ab(
        &mut world,
        EntityAB { counter: Counter(0), health: Health(50), speed: Speed(1.5), name: Name("hybrid".to_string()) },
    );

    // Apply systems with resources
    let tick = TickCount(2);
    system_with_ref_resource(&mut world, &tick);

    // Apply selective system
    increment_only_tag_a(&mut world);

    // Check values before deletion
    for row in world.query(query_entity_counter(&world)) {
        let counter = counter(row.components[0]);
        if row.entity == e1 {
            assert_eq!(counter.0, 102); // 0 + 2 (from system_with_ref_resource) + 100 (from increment_only_tag_a)
        } else if row.entity == e2 {
            assert_eq!(counter.0, 0); // 0 + 0 (no Health, so not affected by system_with_ref_resource; no TagA)
        } else if row.entity == e3 {
            assert_eq!(counter.0, 2); // 0 + 2 (from system_with_ref_resource; no TagA or TagB)
        }
    }

    // Delete e2
    world.destroy(e2);

    // Apply more updates
    system_with_value_resource(&mut world, 10);

    // Verify final state
    let query = query_entity_counter(&world);
    assert_eq!(world.len(query), 2);

    for row in world.query(query) {
        let counter = counter(row.components[0]);
        if row.entity == e1 {
            assert_eq!(counter.0, 112); // 102 + 10 (from system_with_value_resource)
        } else if row.entity == e3 {
            assert_eq!(counter.0, 12); // 2 + 10 (from system_with_value_resource)
        } else {
            panic!("Unexpected entity found");
        }
    }
}

#[test]
fn test_system_and_for_each_equivalence() {
    let mut world1 = new_world();
    let mut world2 = new_world();

    // Create identical entities in both worlds
    for i in 0..5 {
        create_a(&mut world1, EntityA { counter: Counter(i), health: Health(100), tag_a: TagA });
        create_a(&mut world2, EntityA { counter: Counter(i), health: Health(100), tag_a: TagA });
    }

    // Apply system in world1
    system_single_component_mutable(&mut world1);

    // Apply for_each in world2
    for_each_single_mutable(&mut world2);

    // Verify results are the same
    let query1 = query_counter(&world1);
    let query2 = query_counter(&world2);

    assert_eq!(world1.len(query1), world2.len(query2));

    for i in 0..world1.len(query1) {
        let row1 = world1.at(query1, i).unwrap();
        let row2 = world2.at(query2, i).unwrap();
        let counter1 = counter(row1.components[0]);
        let counter2 = counter(row2.components[0]);
        assert_eq!(counter1.0, counter2.0);
        assert_eq!(counter1.0, i + 1);
    }
}
