use ecs_core::ComponentHandle;
use ecs_core::World;
use ecs_core::WorldError;

const HEALTH: u64 = 0;
const POSITION: u64 = 1;
const MANA: u64 = 2;

#[derive(Clone, Copy, Debug, PartialEq)]
enum Comp {
    Health(i32),
    Position(i64, i64),
    Mana(i32),
}

#[test]
fn handle_value_operations() {
    let mut h = ComponentHandle::to(3, HEALTH);
    assert_eq!(h.component_type(), HEALTH);
    assert_eq!(h.entity_id, 3);
    let same = ComponentHandle::to(3, HEALTH);
    let other = ComponentHandle::to(3, POSITION);
    assert!(h.equals(&same));
    assert!(!h.equals(&other));
    h.repoint(5, POSITION);
    assert_eq!(h.entity_id, 5);
    assert_eq!(h.component_type(), POSITION);
    assert!(h.equals(&ComponentHandle::to(5, POSITION)));
}

#[test]
fn attach_tracks_and_reads_back_then_detach_untracks() {
    let mut world: World<Comp> = World::new();
    let e0 = world.new_entity().unwrap();
    let h = world.add_component(HEALTH, e0, Comp::Health(42)).unwrap();
    let record = world.handle_record(h).unwrap();
    assert!(record.equals(&ComponentHandle::to(e0, HEALTH)));
    assert_eq!(record.get(&world), Ok(Some(Comp::Health(42))));
    world.remove_component(HEALTH, e0).unwrap();
    assert_eq!(world.handle_record(h), None);
    assert_eq!(record.get(&world), Ok(None));
}

#[test]
fn detach_spares_other_entities_and_types() {
    let mut world: World<Comp> = World::new();
    let e0 = world.new_entity().unwrap();
    let e1 = world.new_entity().unwrap();
    let h0 = world.add_component(HEALTH, e0, Comp::Health(1)).unwrap();
    let h1 = world.add_component(HEALTH, e1, Comp::Health(2)).unwrap();
    let h2 = world.add_component(POSITION, e0, Comp::Position(0, 0)).unwrap();
    world.remove_component(HEALTH, e0).unwrap();
    assert_eq!(world.handle_record(h0), None);
    assert!(world.handle_record(h1).is_some());
    assert!(world.handle_record(h2).is_some());
}

#[test]
fn repoint_moves_every_matching_handle() {
    let mut world: World<Comp> = World::new();
    let a = world.new_entity().unwrap();
    let b = world.new_entity().unwrap();
    let h1 = world.add_component(HEALTH, a, Comp::Health(10)).unwrap();
    let h2 = world.add_component(HEALTH, a, Comp::Health(11)).unwrap();
    let other = world.add_component(HEALTH, b, Comp::Health(12)).unwrap();
    world.repoint_any(a, HEALTH, b, MANA);
    let target = ComponentHandle::to(b, MANA);
    assert!(world.handle_record(h1).unwrap().equals(&target));
    assert!(world.handle_record(h2).unwrap().equals(&target));
    assert!(world.handle_record(other).unwrap().equals(&ComponentHandle::to(b, HEALTH)));
}

#[test]
fn repoint_does_not_sweep() {
    let mut world: World<Comp> = World::new();
    let a = world.new_entity().unwrap();
    let b = world.new_entity().unwrap();
    let h = world.add_component(HEALTH, a, Comp::Health(10)).unwrap();
    world.repoint_any(a, HEALTH, b, MANA);
    // The moved record now points at an empty (b, MANA) slot, yet it stays
    // tracked until an explicit sweep of its new type runs.
    assert!(world.handle_record(h).is_some());
    world.release_orphaned_handles(MANA).unwrap();
    assert_eq!(world.handle_record(h), None);
}

#[test]
fn sweep_prunes_exactly_the_orphans() {
    let mut world: World<Comp> = World::new();
    let e0 = world.new_entity().unwrap();
    let e1 = world.new_entity().unwrap();
    let kept = world.add_component(HEALTH, e0, Comp::Health(5)).unwrap();
    let orphaned = world.add_component(HEALTH, e1, Comp::Health(6)).unwrap();
    let other_type = world.add_component(POSITION, e1, Comp::Position(1, 2)).unwrap();
    // Removing the entity empties its slots but does not touch the registry,
    // so the handle to (e1, HEALTH) is now an orphan.
    world.remove_entity(e1).unwrap();
    assert!(world.handle_record(orphaned).is_some());
    world.release_orphaned_handles(HEALTH).unwrap();
    assert!(world.handle_record(kept).is_some());
    assert_eq!(world.handle_record(orphaned), None);
    // The POSITION record is an orphan too, but a HEALTH sweep spares it.
    assert!(world.handle_record(other_type).is_some());
    world.release_orphaned_handles(POSITION).unwrap();
    assert_eq!(world.handle_record(other_type), None);
}

#[test]
fn sweep_of_unknown_type_prunes_its_records() {
    let mut world: World<Comp> = World::new();
    let e0 = world.new_entity().unwrap();
    let h = world.add_component(HEALTH, e0, Comp::Health(5)).unwrap();
    world.repoint_any(e0, HEALTH, e0, MANA);
    // No column for MANA exists at all: the record's lookup fails entirely,
    // which counts as orphaned.
    world.release_orphaned_handles(MANA).unwrap();
    assert_eq!(world.handle_record(h), None);
}

#[test]
fn stale_handle_reads_absence_not_errors() {
    let mut world: World<Comp> = World::new();
    let e0 = world.new_entity().unwrap();
    let h = world.add_component(HEALTH, e0, Comp::Health(9)).unwrap();
    let record = world.handle_record(h).unwrap();
    world.remove_entity(e0).unwrap();
    assert_eq!(record.get(&world), Ok(None));
}

#[test]
fn handle_get_reports_out_of_range() {
    let world: World<Comp> = World::new();
    let record = ComponentHandle::to(0, HEALTH);
    assert_eq!(record.get(&world), Err(WorldError::IndexOutOfRange));
}
