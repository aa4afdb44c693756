use ecs_core::System;
use ecs_core::Systems;
use ecs_core::World;
use ecs_core::WorldError;

const HEALTH: u64 = 0;
const POSITION: u64 = 1;

#[derive(Clone, Copy, Debug, PartialEq)]
enum Comp {
    Health(i32),
    Position(i64, i64),
}

enum TestSystem {
    HurtAll,
    KillDead,
    SetHealth(i32),
    DoubleHealth,
}

impl System<Comp> for TestSystem {
    fn run(&self, world: &mut World<Comp>) {
        match self {
            TestSystem::HurtAll => {
                if let Some(mut slots) = world.borrow_components_mut(HEALTH).unwrap() {
                    for slot in slots.iter_mut() {
                        if let Some(Comp::Health(h)) = slot {
                            *h -= 50;
                        }
                    }
                    world.release_components_mut(HEALTH, slots).unwrap();
                }
            }
            TestSystem::KillDead => {
                let mut dead = Vec::new();
                let total = world.count_entities();
                let mut id = 0;
                let mut seen = 0;
                while seen < total {
                    match world.get_component(HEALTH, id) {
                        Ok(value) => {
                            if let Some(Comp::Health(h)) = value {
                                if h <= 0 {
                                    dead.push(id);
                                }
                            }
                            seen += 1;
                            id += 1;
                        }
                        Err(_) => break,
                    }
                }
                for id in dead {
                    world.remove_entity(id).unwrap();
                }
            }
            TestSystem::SetHealth(v) => {
                world.add_component(HEALTH, 0, Comp::Health(*v)).unwrap();
            }
            TestSystem::DoubleHealth => {
                if let Ok(Some(Comp::Health(h))) = world.get_component(HEALTH, 0) {
                    world.add_component(HEALTH, 0, Comp::Health(h * 2)).unwrap();
                }
            }
        }
    }
}

#[test]
fn damage_then_cull_scenario() {
    let mut world: World<Comp> = World::new();
    let e0 = world.new_entity().unwrap();
    world.add_component(HEALTH, e0, Comp::Health(50)).unwrap();
    world.add_component(POSITION, e0, Comp::Position(1, 1)).unwrap();
    let e1 = world.new_entity().unwrap();
    world.add_component(HEALTH, e1, Comp::Health(100)).unwrap();
    world.add_component(POSITION, e1, Comp::Position(2, 1)).unwrap();

    let mut systems: Systems<TestSystem> = Systems::new();
    systems.add_system(TestSystem::HurtAll);
    systems.add_system(TestSystem::KillDead);
    systems.run(&mut world);

    assert_eq!(world.count_entities(), 1);
    assert_eq!(world.get_component(HEALTH, e0), Ok(None));
    assert_eq!(world.get_component(POSITION, e0), Ok(None));
    assert_eq!(world.get_component(HEALTH, e1), Ok(Some(Comp::Health(50))));
    assert_eq!(world.get_component(POSITION, e1), Ok(Some(Comp::Position(2, 1))));
}

#[test]
fn systems_run_in_registration_order() {
    let mut world: World<Comp> = World::new();
    world.new_entity().unwrap();
    let mut systems: Systems<TestSystem> = Systems::new();
    systems.add_system(TestSystem::SetHealth(21));
    systems.add_system(TestSystem::DoubleHealth);
    systems.run(&mut world);
    // Doubling before the set would leave 21, not 42.
    assert_eq!(world.get_component(HEALTH, 0), Ok(Some(Comp::Health(42))));
}

#[test]
fn empty_pipeline_changes_nothing() {
    let mut world: World<Comp> = World::new();
    let e0 = world.new_entity().unwrap();
    world.add_component(HEALTH, e0, Comp::Health(7)).unwrap();
    let systems: Systems<TestSystem> = Systems::new();
    systems.run(&mut world);
    assert_eq!(world.count_entities(), 1);
    assert_eq!(world.get_component(HEALTH, e0), Ok(Some(Comp::Health(7))));
}

#[test]
fn second_exclusive_borrow_conflicts() {
    let mut world: World<Comp> = World::new();
    let e0 = world.new_entity().unwrap();
    world.add_component(HEALTH, e0, Comp::Health(1)).unwrap();
    let held = world.borrow_components_mut(HEALTH).unwrap().unwrap();
    assert_eq!(world.borrow_components_mut(HEALTH), Err(WorldError::BorrowConflict));
    assert_eq!(world.borrow_components(HEALTH), Err(WorldError::BorrowConflict));
    assert_eq!(world.get_component(HEALTH, e0), Err(WorldError::BorrowConflict));
    world.release_components_mut(HEALTH, held).unwrap();
    assert!(world.borrow_components_mut(HEALTH).unwrap().is_some());
    world.release_components_mut(HEALTH, vec![Some(Comp::Health(1))]).unwrap();
}

#[test]
fn shared_borrows_coexist_but_exclude_exclusive() {
    let mut world: World<Comp> = World::new();
    let e0 = world.new_entity().unwrap();
    world.add_component(HEALTH, e0, Comp::Health(1)).unwrap();
    let first = world.borrow_components(HEALTH).unwrap();
    let second = world.borrow_components(HEALTH).unwrap();
    assert!(first.is_some() && second.is_some());
    assert_eq!(world.borrow_components_mut(HEALTH), Err(WorldError::BorrowConflict));
    world.release_components(HEALTH).unwrap();
    assert_eq!(world.borrow_components_mut(HEALTH), Err(WorldError::BorrowConflict));
    world.release_components(HEALTH).unwrap();
    assert!(world.borrow_components_mut(HEALTH).unwrap().is_some());
    world.release_components_mut(HEALTH, vec![Some(Comp::Health(1))]).unwrap();
}

#[test]
fn world_mutation_conflicts_while_borrowed() {
    let mut world: World<Comp> = World::new();
    let e0 = world.new_entity().unwrap();
    world.add_component(HEALTH, e0, Comp::Health(1)).unwrap();
    let held = world.borrow_components_mut(HEALTH).unwrap().unwrap();
    assert_eq!(world.new_entity(), Err(WorldError::BorrowConflict));
    assert_eq!(world.remove_entity(e0), Err(WorldError::BorrowConflict));
    assert_eq!(world.add_component(HEALTH, e0, Comp::Health(2)), Err(WorldError::BorrowConflict));
    assert_eq!(world.remove_component(HEALTH, e0), Err(WorldError::BorrowConflict));
    assert_eq!(world.release_orphaned_handles(HEALTH), Err(WorldError::BorrowConflict));
    world.release_components_mut(HEALTH, held).unwrap();
    assert!(world.new_entity().is_ok());
}

#[test]
fn borrow_of_missing_column_is_absence() {
    let mut world: World<Comp> = World::new();
    world.new_entity().unwrap();
    assert_eq!(world.borrow_components(HEALTH), Ok(None));
    assert_eq!(world.borrow_components_mut(HEALTH), Ok(None));
}

#[test]
fn release_discipline_violations_are_reported() {
    let mut world: World<Comp> = World::new();
    let e0 = world.new_entity().unwrap();
    world.add_component(HEALTH, e0, Comp::Health(1)).unwrap();
    assert_eq!(world.release_components(HEALTH), Err(WorldError::BorrowConflict));
    assert_eq!(
        world.release_components_mut(HEALTH, Vec::new()),
        Err(WorldError::BorrowConflict)
    );
    let held = world.borrow_components_mut(HEALTH).unwrap().unwrap();
    // A write-back must keep one slot per entity slot.
    assert_eq!(
        world.release_components_mut(HEALTH, Vec::new()),
        Err(WorldError::IndexOutOfRange)
    );
    world.release_components_mut(HEALTH, held).unwrap();
}
