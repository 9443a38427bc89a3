use bimber_ecs::entity_system::EntitySystem;
use bimber_ecs::entity_system::Tagged;

#[derive(Clone, Copy, Debug, PartialEq)]
enum Comp {
    I(i32),
    F(f32),
    S(&'static str),
}

const K_I32: u64 = 1;
const K_STR: u64 = 2;
const K_F32: u64 = 3;

fn tag(key: u64, value: Comp) -> Tagged<Comp> {
    Tagged { key, value }
}

#[test]
fn unit_test() {
    assert_eq!(bimber_ecs::add(2, 2), 4);
}

#[test]
fn entity_system_add() {
    println!(
        "{:#?}",
        EntitySystem::new()
            .add_entity()
            .with(tag(K_STR, Comp::S("Albert")))
            .with(tag(K_I32, Comp::I(12)))
            .add_entity()
            .with(tag(K_I32, Comp::I(13)))
            .add_entity()
            .with(tag(K_STR, Comp::S("Dawid")))
            .with(tag(K_F32, Comp::F(3.14)))
    );
}
