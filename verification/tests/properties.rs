use bimber_ecs::entity_system::EntitySystem;
use bimber_ecs::entity_system::Tagged;

#[derive(Clone, Copy, Debug, PartialEq)]
enum Comp {
    I(i32),
    F(f32),
    S(&'static str),
}

const K_I32: u64 = 1;
const K_STR: u64 = 2;
const K_F32: u64 = 3;

const STILL_ACTIVE: &str = "There are still active queris";
const WRONG_ORDER: &str = "a pair query must name the lower ranked component type first";
const CONFLICT: &str = "the component type is already leased by a conflicting query";

fn tag(key: u64, value: Comp) -> Tagged<Comp> {
    Tagged { key, value }
}

fn sample() -> EntitySystem<Comp> {
    EntitySystem::new()
        .add_entity()
        .with(tag(K_I32, Comp::I(12)))
        .with(tag(K_STR, Comp::S("test")))
        .add_entity()
        .with(tag(K_F32, Comp::F(3.14)))
        .with(tag(K_STR, Comp::S("Alfred")))
        .add_entity()
        .with(tag(K_I32, Comp::I(15)))
        .with(tag(K_STR, Comp::S("Hallo")))
}

#[test]
fn attached_component_appears_at_last_index() {
    let mut es = EntitySystem::new()
        .add_entity()
        .add_entity()
        .with(tag(K_I32, Comp::I(41)));
    let q = es.query_with_one(K_I32).unwrap();
    assert_eq!(q.iter(&es), vec![(1, Comp::I(41))]);
}

#[test]
fn query_on_empty_store_yields_nothing() {
    let mut es: EntitySystem<Comp> = EntitySystem::new();
    let q = es.query_with_one(K_I32).unwrap();
    assert_eq!(q.iter(&es), vec![]);
}

#[test]
fn two_read_handles_observe_identical_contents() {
    let mut es = sample();
    let x = es.query_with_one(K_STR).unwrap();
    let y = es.query_with_one(K_STR).unwrap();
    assert_eq!(x.iter(&es), y.iter(&es));
    assert_eq!(
        x.iter(&es),
        vec![
            (0, Comp::S("test")),
            (1, Comp::S("Alfred")),
            (2, Comp::S("Hallo"))
        ]
    );
}

#[test]
fn release_fails_while_another_handle_lives_and_mutation_survives() {
    let mut es = sample();
    let m = es.mut_query_with_one(K_I32).unwrap();
    assert!(m.set(&mut es, 0, Comp::I(100)));
    let m2 = es.mut_query_with_one(K_I32).unwrap();

    assert_eq!(es.try_clear_query_with_one(K_I32), Err(STILL_ACTIVE));

    m2.drop_handle(&mut es);
    assert_eq!(es.try_clear_query_with_one(K_I32), Ok(()));

    let q = es.query_with_one(K_I32).unwrap();
    assert_eq!(q.iter(&es), vec![(0, Comp::I(100)), (2, Comp::I(15))]);
}

#[test]
fn pair_query_enforces_canonical_rank_order() {
    let mut es = sample();
    assert_eq!(es.query_with_two(K_STR, K_I32), Err(WRONG_ORDER));
    assert!(es.query_with_two(K_I32, K_STR).is_ok());
}

#[test]
fn pair_query_joins_by_index() {
    let mut es = sample();
    let q = es.query_with_two(K_I32, K_STR).unwrap();
    assert_eq!(
        q.iter(&es),
        vec![
            (0, Comp::I(12), Comp::S("test")),
            (2, Comp::I(15), Comp::S("Hallo"))
        ]
    );
}

#[test]
fn mutation_round_trips_through_release_and_fresh_lease() {
    let mut es = sample();
    let m = es.mut_query_with_one(K_STR).unwrap();
    assert!(m.set(&mut es, 1, Comp::S("Bertha")));
    assert_eq!(es.try_clear_query_with_one(K_STR), Ok(()));

    let q = es.query_with_one(K_STR).unwrap();
    assert_eq!(
        q.iter(&es),
        vec![
            (0, Comp::S("test")),
            (1, Comp::S("Bertha")),
            (2, Comp::S("Hallo"))
        ]
    );
}

#[test]
fn pair_mutation_round_trips_through_release() {
    let mut es = sample();
    let m = es.mut_query_with_two(K_I32, K_STR).unwrap();
    assert!(m.set_a(&mut es, 2, Comp::I(77)));
    assert!(m.set_b(&mut es, 0, Comp::S("neu")));
    assert_eq!(es.try_clear_query_with_two(K_I32, K_STR), Ok(()));

    let q = es.query_with_two(K_I32, K_STR).unwrap();
    assert_eq!(
        q.iter(&es),
        vec![(0, Comp::I(12), Comp::S("neu")), (2, Comp::I(77), Comp::S("Hallo"))]
    );
}

#[test]
fn mutation_only_lands_on_present_slots() {
    let mut es = sample();
    let m = es.mut_query_with_one(K_I32).unwrap();
    assert!(!m.set(&mut es, 1, Comp::I(0)));
    assert!(!m.set(&mut es, 9, Comp::I(0)));
    assert_eq!(m.iter(&es), vec![(0, Comp::I(12)), (2, Comp::I(15))]);
}

#[test]
fn conflicting_lease_modes_are_refused() {
    let mut es = sample();
    let _r = es.query_with_one(K_I32).unwrap();
    assert_eq!(es.mut_query_with_one(K_I32), Err(CONFLICT));

    let _m = es.mut_query_with_one(K_STR).unwrap();
    assert_eq!(es.query_with_one(K_STR), Err(CONFLICT));
}

#[test]
fn pair_lease_excludes_single_leases_on_its_keys() {
    let mut es = sample();
    let _p = es.query_with_two(K_I32, K_STR).unwrap();
    assert_eq!(es.query_with_one(K_I32), Err(CONFLICT));
    assert_eq!(es.query_with_one(K_STR), Err(CONFLICT));
    assert_eq!(es.query_with_two(K_STR, K_F32), Err(CONFLICT));
    assert_eq!(es.query_with_two(K_F32, K_STR), Err(WRONG_ORDER));
}

#[test]
fn pair_lease_modes_exclude_each_other() {
    let mut es = sample();
    let _p = es.query_with_two(K_I32, K_STR).unwrap();
    assert_eq!(es.mut_query_with_two(K_I32, K_STR), Err(CONFLICT));
}

#[test]
fn pair_release_fails_while_another_handle_lives() {
    let mut es = sample();
    let _x = es.query_with_two(K_I32, K_STR).unwrap();
    let y = es.query_with_two(K_I32, K_STR).unwrap();
    assert_eq!(es.try_clear_query_with_two(K_I32, K_STR), Err(STILL_ACTIVE));
    y.drop_handle(&mut es);
    assert_eq!(es.try_clear_query_with_two(K_I32, K_STR), Ok(()));
}

#[test]
fn releasing_an_unleased_type_succeeds_and_changes_nothing() {
    let mut es = sample();
    assert_eq!(es.try_clear_query_with_one(K_I32), Ok(()));
    assert_eq!(es.try_clear_query_with_two(K_I32, K_STR), Ok(()));
    let q = es.query_with_one(K_I32).unwrap();
    assert_eq!(q.iter(&es), vec![(0, Comp::I(12)), (2, Comp::I(15))]);
}

#[test]
fn released_pair_restores_both_columns() {
    let mut es = sample();
    let p = es.query_with_two(K_I32, K_STR).unwrap();
    assert_eq!(p.iter(&es).len(), 2);
    assert_eq!(es.try_clear_query_with_two(K_I32, K_STR), Ok(()));
    let x = es.query_with_one(K_I32).unwrap();
    assert_eq!(x.iter(&es), vec![(0, Comp::I(12)), (2, Comp::I(15))]);
    x.drop_handle(&mut es);
    assert_eq!(es.try_clear_query_with_one(K_I32), Ok(()));
    let y = es.query_with_one(K_STR).unwrap();
    assert_eq!(y.iter(&es).len(), 3);
}

#[test]
fn stale_handle_after_release_yields_nothing() {
    let mut es = sample();
    let q = es.query_with_one(K_I32).unwrap();
    assert_eq!(q.iter(&es).len(), 2);
    q.drop_handle(&mut es);
    assert_eq!(es.try_clear_query_with_one(K_I32), Ok(()));
    assert_eq!(q.iter(&es), vec![]);
}

#[test]
fn add_sums_machine_words() {
    assert_eq!(bimber_ecs::add(0, 0), 0);
    assert_eq!(bimber_ecs::add(usize::MAX, 0), usize::MAX);
}
