use zero_ecs::{ArchetypeTag, Entity, EntityDef, Field, Query, QueryId, World};

pub struct Value(usize);

pub struct ValueEntity {
    value: Value,
}

const VALUE_ENTITY: ArchetypeTag = ArchetypeTag(0);

struct Bed {
    world: World<Value>,
    values: QueryId,
    values_mut: QueryId,
}

fn bed() -> Bed {
    let shapes = vec![EntityDef {
        name: "ValueEntity".to_string(),
        fields: vec![Field { name: "value".to_string(), data_type: "Value".to_string() }],
    }];
    let mut world = World::new(&shapes);
    let values = world.register(Query { mutable_fields: vec![], const_fields: vec!["Value".to_string()] });
    let values_mut = world.register(Query { mutable_fields: vec!["Value".to_string()], const_fields: vec![] });
    Bed { world, values, values_mut }
}

fn create(bed: &mut Bed, e: ValueEntity) -> Entity {
    let row = vec![e.value];
    assert!(bed.world.can_create(VALUE_ENTITY, &row));
    bed.world.create(VALUE_ENTITY, row)
}

fn inc(bed: &mut Bed) {
    for index in 0..bed.world.len(bed.values_mut) {
        let value = bed.world.at_mut(bed.values_mut, index, 0).unwrap();
        value.0 += 1;
    }
}

fn assert_value(bed: &Bed, expected: usize) {
    let row = bed.world.at(bed.values, 0).unwrap();
    let value: &Value = row.components[0];
    assert_eq!(expected, value.0)
}

fn assert_value_for(bed: &Bed, expected: usize, entity: Entity) {
    let row = bed.world.get(bed.values, entity).unwrap();
    let value: &Value = row.components[0];
    assert_eq!(expected, value.0)
}

#[test]
fn can_mutable_for_each() {
    let mut bed = bed();
    let _ = create(&mut bed, ValueEntity { value: Value(0) });

    inc(&mut bed);
    inc(&mut bed);
    inc(&mut bed);

    assert_value(&bed, 3);
}

#[test]
fn test_simple_can_make_mutable_query() {
    let mut bed = bed();
    let a = create(&mut bed, ValueEntity { value: Value(0) });
    let b = create(&mut bed, ValueEntity { value: Value(0) });
    let c = create(&mut bed, ValueEntity { value: Value(0) });
    let d = create(&mut bed, ValueEntity { value: Value(0) });

    {
        let value: &mut Value = bed.world.get_mut(bed.values_mut, c, 0).unwrap();

        value.0 += 5;
    }
    {
        let value: &mut Value = bed.world.get_mut(bed.values_mut, a, 0).unwrap();

        value.0 += 5;
    }
    {
        let value: &mut Value = bed.world.get_mut(bed.values_mut, a, 0).unwrap();

        value.0 += 5;
    }

    assert_value_for(&bed, 5, c);
    assert_value_for(&bed, 10, a);
    assert_value_for(&bed, 0, b);
    assert_value_for(&bed, 0, d);
}

#[test]
fn mod_can_make_mutable_query() {
    let mut bed = bed();
    let _ = create(&mut bed, ValueEntity { value: Value(0) });
    let _ = create(&mut bed, ValueEntity { value: Value(0) });
    let _ = create(&mut bed, ValueEntity { value: Value(0) });
    let _ = create(&mut bed, ValueEntity { value: Value(0) });

    inc(&mut bed);
    inc(&mut bed);
    inc(&mut bed);

    assert_value(&bed, 3);
}
