use bimber_ecs::entity_system::EntitySystem;
use bimber_ecs::entity_system::Tagged;

#[derive(Clone, Copy, Debug, PartialEq)]
enum Comp {
    I(i32),
    F(f32),
    S(&'static str),
    U8(u8),
    U16(u16),
}

const K_I32: u64 = 1;
const K_STR: u64 = 2;
const K_F32: u64 = 3;
const K_U8: u64 = 4;
const K_U16: u64 = 5;

fn tag(key: u64, value: Comp) -> Tagged<Comp> {
    Tagged { key, value }
}

fn int_of(c: Comp) -> i32 {
    match c {
        Comp::I(v) => v,
        _ => panic!("expected an i32 component"),
    }
}

fn create_simple_entity_system() -> EntitySystem<Comp> {
    EntitySystem::new()
        .add_entity()
        .with(tag(K_I32, Comp::I(12)))
        .with(tag(K_STR, Comp::S("test")))
        .add_entity()
        .with(tag(K_F32, Comp::F(3.14)))
        .with(tag(K_STR, Comp::S("Alfred")))
        .add_entity()
        .with(tag(K_I32, Comp::I(15)))
        .with(tag(K_STR, Comp::S("Hallo")))
}

#[test]
fn entity_system_query_with_one_works() {
    let mut es = create_simple_entity_system();

    let q = es.query_with_one(K_I32).unwrap();
    let sum: i32 = q.iter(&es).into_iter().map(|(_, x)| int_of(x)).sum();
    assert_eq!(sum, 12 + 15);

    let q = es.query_with_one(K_STR).unwrap();
    assert_eq!(q.iter(&es).len(), 3);

    let q = es.query_with_one(K_I32).unwrap();
    assert_eq!(q.iter(&es).len(), 2);
}

#[test]
fn entity_system_there_can_be_multiple_query_with_one_at_the_same_time() {
    let mut es = create_simple_entity_system();

    let x = es.query_with_one(K_I32).unwrap();
    let y = es.query_with_one(K_STR).unwrap();

    assert_eq!(x.iter(&es).len() + y.iter(&es).len(), 5);
}

#[test]
fn entity_system_query_with_one_id_works() {
    let mut es = create_simple_entity_system();

    let q = es.query_with_one(K_I32).unwrap();
    let ids: Vec<usize> = q.iter(&es).into_iter().map(|(n, _)| n).collect();
    assert_eq!(ids, vec![0, 2]);
}

#[test]
fn entity_system_query_with_one_over_not_know_component_will_return_empty_iterator() {
    let mut es = create_simple_entity_system();

    let q = es.query_with_one(K_U8).unwrap();
    assert_eq!(q.iter(&es).len(), 0);
}

#[test]
fn entity_system_mut_query_with_one_works() {
    let mut es = create_simple_entity_system();

    let q = es.mut_query_with_one(K_I32).unwrap();
    let sum: i32 = q.iter(&es).into_iter().map(|(_, x)| int_of(x)).sum();
    assert_eq!(sum, 12 + 15);
}

#[test]
fn entity_system_there_can_be_multiple_mut_query_with_one_at_the_same_time() {
    let mut es = create_simple_entity_system();

    let x = es.mut_query_with_one(K_I32).unwrap();
    let y = es.mut_query_with_one(K_STR).unwrap();

    assert_eq!(x.iter(&es).len() + y.iter(&es).len(), 5);
}

#[test]
fn entity_system_mut_query_with_one_id_works() {
    let mut es = create_simple_entity_system();

    let q = es.mut_query_with_one(K_I32).unwrap();
    let ids: Vec<usize> = q.iter(&es).into_iter().map(|(n, _)| n).collect();
    assert_eq!(ids, vec![0, 2]);
}

#[test]
fn entity_system_mut_query_with_one_over_not_know_component_will_return_empty_iterator() {
    let mut es = create_simple_entity_system();

    let q = es.mut_query_with_one(K_U8).unwrap();
    assert_eq!(q.iter(&es).len(), 0);
}

#[test]
fn entity_system_query_with_two_works() {
    let mut es = create_simple_entity_system();

    let q = es.query_with_two(K_I32, K_STR).unwrap();
    assert_eq!(q.iter(&es).len(), 2);
}

#[test]
fn entity_system_there_can_be_multiple_query_with_two_at_the_same_time() {
    let mut es = create_simple_entity_system();

    let x = es.query_with_two(K_I32, K_STR).unwrap();
    let y = es.query_with_two(K_F32, K_U8).unwrap();

    assert_eq!(x.iter(&es).len() + y.iter(&es).len(), 2);
}

#[test]
fn entity_system_query_with_two_id_works() {
    let mut es = create_simple_entity_system();

    let q = es.query_with_two(K_I32, K_STR).unwrap();
    let ids: Vec<usize> = q.iter(&es).into_iter().map(|(n, _, _)| n).collect();
    assert_eq!(ids, vec![0, 2]);
}

#[test]
fn entity_system_query_with_two_over_not_know_component_will_return_empty_iterator() {
    let mut es = create_simple_entity_system();

    let q = es.query_with_two(K_U8, K_U16).unwrap();
    assert_eq!(q.iter(&es).len(), 0);
}

#[test]
fn entity_system_mut_query_with_two_works() {
    let mut es = create_simple_entity_system();

    let q = es.mut_query_with_two(K_I32, K_STR).unwrap();
    assert_eq!(q.iter(&es).len(), 2);
}

#[test]
fn entity_system_there_can_be_multiple_mut_query_with_two_at_the_same_time() {
    let mut es = create_simple_entity_system();

    let x = es.mut_query_with_two(K_I32, K_STR).unwrap();
    let y = es.mut_query_with_two(K_F32, K_U8).unwrap();

    assert_eq!(x.iter(&es).len() + y.iter(&es).len(), 2);
}

#[test]
fn entity_system_mut_query_with_two_id_works() {
    let mut es = create_simple_entity_system();

    let q = es.mut_query_with_two(K_I32, K_STR).unwrap();
    let ids: Vec<usize> = q.iter(&es).into_iter().map(|(n, _, _)| n).collect();
    assert_eq!(ids, vec![0, 2]);
}

#[test]
fn entity_system_mut_query_with_two_over_not_know_component_will_return_empty_iterator() {
    let mut es = create_simple_entity_system();

    let q = es.mut_query_with_two(K_U8, K_U16).unwrap();
    assert_eq!(q.iter(&es).len(), 0);
}

#[test]
fn entity_system_query_with_two_works_in_complex_example() {
    let mut es = create_simple_entity_system();

    let q = es.query_with_one(K_I32).unwrap();
    assert_eq!(q.iter(&es).len(), 2);

    let q = es.query_with_one(K_STR).unwrap();
    assert_eq!(q.iter(&es).len(), 3);

    let q = es.query_with_one(K_I32).unwrap();
    assert_eq!(q.iter(&es).len(), 2);
}
