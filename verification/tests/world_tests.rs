use ecs_core::Column;
use ecs_core::ComponentStorage;
use ecs_core::World;
use ecs_core::WorldError;

const HEALTH: u64 = 0;
const POSITION: u64 = 1;

#[derive(Clone, Copy, Debug, PartialEq)]
enum Comp {
    Health(i32),
    Position(i64, i64),
}

#[test]
fn count_tracks_creates_and_removes() {
    let mut world: World<Comp> = World::new();
    assert_eq!(world.count_entities(), 0);
    let e0 = world.new_entity().unwrap();
    let e1 = world.new_entity().unwrap();
    let e2 = world.new_entity().unwrap();
    assert_eq!((e0, e1, e2), (0, 1, 2));
    assert_eq!(world.count_entities(), 3);
    world.remove_entity(e1).unwrap();
    assert_eq!(world.count_entities(), 2);
    world.remove_entity(e0).unwrap();
    assert_eq!(world.count_entities(), 1);
    let reused = world.new_entity().unwrap();
    assert_eq!(reused, e0);
    assert_eq!(world.count_entities(), 2);
}

#[test]
fn double_remove_is_reported_and_changes_nothing() {
    let mut world: World<Comp> = World::new();
    let e0 = world.new_entity().unwrap();
    world.remove_entity(e0).unwrap();
    assert_eq!(world.count_entities(), 0);
    assert_eq!(world.remove_entity(e0), Err(WorldError::DoubleFree));
    assert_eq!(world.count_entities(), 0);
}

#[test]
fn remove_of_unknown_id_is_out_of_range() {
    let mut world: World<Comp> = World::new();
    assert_eq!(world.remove_entity(0), Err(WorldError::IndexOutOfRange));
    let e0 = world.new_entity().unwrap();
    assert_eq!(world.remove_entity(e0 + 1), Err(WorldError::IndexOutOfRange));
}

#[test]
fn set_then_get_returns_the_value() {
    let mut world: World<Comp> = World::new();
    let e0 = world.new_entity().unwrap();
    world.add_component(HEALTH, e0, Comp::Health(50)).unwrap();
    assert_eq!(world.get_component(HEALTH, e0), Ok(Some(Comp::Health(50))));
    world.add_component(HEALTH, e0, Comp::Health(75)).unwrap();
    assert_eq!(world.get_component(HEALTH, e0), Ok(Some(Comp::Health(75))));
}

#[test]
fn absence_is_not_an_error() {
    let mut world: World<Comp> = World::new();
    let e0 = world.new_entity().unwrap();
    assert_eq!(world.get_component(HEALTH, e0), Ok(None));
    let e1 = world.new_entity().unwrap();
    world.add_component(HEALTH, e0, Comp::Health(1)).unwrap();
    assert_eq!(world.get_component(HEALTH, e1), Ok(None));
    assert_eq!(world.entity_has(HEALTH, e0), Ok(true));
    assert_eq!(world.entity_has(HEALTH, e1), Ok(false));
    assert_eq!(world.entity_has(POSITION, e0), Ok(false));
}

#[test]
fn out_of_range_ids_are_rejected() {
    let mut world: World<Comp> = World::new();
    let e0 = world.new_entity().unwrap();
    assert_eq!(world.get_component(HEALTH, e0 + 1), Err(WorldError::IndexOutOfRange));
    assert_eq!(
        world.add_component(HEALTH, e0 + 1, Comp::Health(5)),
        Err(WorldError::IndexOutOfRange)
    );
    assert_eq!(world.remove_component(HEALTH, e0 + 1), Err(WorldError::IndexOutOfRange));
    assert_eq!(world.entity_has(HEALTH, e0 + 1), Err(WorldError::IndexOutOfRange));
}

#[test]
fn remove_entity_empties_every_column() {
    let mut world: World<Comp> = World::new();
    let e0 = world.new_entity().unwrap();
    world.add_component(HEALTH, e0, Comp::Health(50)).unwrap();
    world.add_component(POSITION, e0, Comp::Position(1, 1)).unwrap();
    world.remove_entity(e0).unwrap();
    assert_eq!(world.get_component(HEALTH, e0), Ok(None));
    assert_eq!(world.get_component(POSITION, e0), Ok(None));
}

#[test]
fn reused_id_is_fresh_in_every_column() {
    let mut world: World<Comp> = World::new();
    let e0 = world.new_entity().unwrap();
    let e1 = world.new_entity().unwrap();
    world.add_component(HEALTH, e1, Comp::Health(99)).unwrap();
    world.add_component(POSITION, e1, Comp::Position(3, 4)).unwrap();
    world.remove_entity(e1).unwrap();
    let reused = world.new_entity().unwrap();
    assert_eq!(reused, e1);
    assert_eq!(world.get_component(HEALTH, reused), Ok(None));
    assert_eq!(world.get_component(POSITION, reused), Ok(None));
    assert_eq!(world.get_component(HEALTH, e0), Ok(None));
}

#[test]
fn free_list_is_a_stack() {
    let mut world: World<Comp> = World::new();
    let e0 = world.new_entity().unwrap();
    let e1 = world.new_entity().unwrap();
    let e2 = world.new_entity().unwrap();
    world.remove_entity(e0).unwrap();
    world.remove_entity(e2).unwrap();
    assert_eq!(world.new_entity().unwrap(), e2);
    assert_eq!(world.new_entity().unwrap(), e0);
    assert_eq!(world.new_entity().unwrap(), e1 + 2);
}

#[test]
fn columns_grow_with_each_new_entity() {
    let mut world: World<Comp> = World::new();
    let e0 = world.new_entity().unwrap();
    world.add_component(HEALTH, e0, Comp::Health(10)).unwrap();
    let e1 = world.new_entity().unwrap();
    let slots = world.borrow_components(HEALTH).unwrap().unwrap();
    assert_eq!(slots.len(), 2);
    assert_eq!(slots[e0], Some(Comp::Health(10)));
    assert_eq!(slots[e1], None);
    world.release_components(HEALTH).unwrap();
}

#[test]
fn late_column_is_backfilled_to_entity_count() {
    let mut world: World<Comp> = World::new();
    let _ = world.new_entity().unwrap();
    let _ = world.new_entity().unwrap();
    let e2 = world.new_entity().unwrap();
    world.add_component(POSITION, e2, Comp::Position(7, 8)).unwrap();
    let slots = world.borrow_components(POSITION).unwrap().unwrap();
    assert_eq!(slots.len(), 3);
    assert_eq!(slots[0], None);
    assert_eq!(slots[1], None);
    assert_eq!(slots[e2], Some(Comp::Position(7, 8)));
    world.release_components(POSITION).unwrap();
}

#[test]
fn column_grows_and_clears_through_its_capability_surface() {
    let mut col: Column<Comp> = Column::new(HEALTH, 2);
    assert_eq!(col.copy_slots(), vec![None, None]);
    col.push_none();
    let mut slots = col.copy_slots();
    assert_eq!(slots.len(), 3);
    slots[1] = Some(Comp::Health(5));
    col.slots = slots;
    assert_eq!(col.copy_slots()[1], Some(Comp::Health(5)));
    col.none_at(1);
    assert_eq!(col.copy_slots(), vec![None, None, None]);
}

#[test]
fn clear_keeps_the_column() {
    let mut world: World<Comp> = World::new();
    let e0 = world.new_entity().unwrap();
    world.add_component(HEALTH, e0, Comp::Health(10)).unwrap();
    world.remove_component(HEALTH, e0).unwrap();
    assert_eq!(world.get_component(HEALTH, e0), Ok(None));
    let slots = world.borrow_components(HEALTH).unwrap();
    assert!(slots.is_some());
    world.release_components(HEALTH).unwrap();
}
