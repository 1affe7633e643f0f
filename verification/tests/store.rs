use ecs_world::world::World;

#[derive(Clone, Copy, PartialEq, Debug)]
enum Comp {
    Pos(i64, i64),
    Vel(i64, i64),
    Health(i64),
}

const POS: u64 = 1;
const VEL: u64 = 2;
const HEALTH: u64 = 3;

#[test]
fn entity_count_tracks_new_entities() {
    let mut w: World<Comp> = World::new();
    assert_eq!(w.entity_count(), 0);
    assert_eq!(w.new_entity(), 0);
    assert_eq!(w.new_entity(), 1);
    assert_eq!(w.new_entity(), 2);
    assert_eq!(w.entity_count(), 3);
}

#[test]
fn columns_keep_pace_with_entities() {
    let mut w: World<Comp> = World::new();
    w.new_entity();
    w.new_entity();
    w.add_component_to_entity(POS, 0, Comp::Pos(1, 2));
    assert_eq!(w.column_len(POS), Some(2));
    w.new_entity();
    assert_eq!(w.column_len(POS), Some(3));
    assert_eq!(w.entity_count(), 3);
    // The slot appended for the fresh entity is empty.
    assert_eq!(w.get_component_from_entity_mut(POS, 2), Some(&mut None));
}

#[test]
fn insert_read_round_trip() {
    let mut w: World<Comp> = World::new();
    w.new_entity();
    w.new_entity();
    w.add_component_to_entity(POS, 1, Comp::Pos(7, 8));
    assert_eq!(
        w.get_component_from_entity_mut(POS, 1),
        Some(&mut Some(Comp::Pos(7, 8)))
    );
}

#[test]
fn insert_overwrites_previous_value() {
    let mut w: World<Comp> = World::new();
    w.new_entity();
    w.add_component_to_entity(POS, 0, Comp::Pos(1, 1));
    w.add_component_to_entity(POS, 0, Comp::Pos(2, 2));
    assert_eq!(
        w.get_component_from_entity_mut(POS, 0),
        Some(&mut Some(Comp::Pos(2, 2)))
    );
}

#[test]
fn mutable_handle_writes_through() {
    let mut w: World<Comp> = World::new();
    w.new_entity();
    w.add_component_to_entity(HEALTH, 0, Comp::Health(50));
    let handle = w.get_component_from_entity_mut(HEALTH, 0).unwrap();
    *handle = Some(Comp::Health(75));
    assert_eq!(
        w.get_component_from_entity_mut(HEALTH, 0),
        Some(&mut Some(Comp::Health(75)))
    );
}

#[test]
fn remove_clears_but_does_not_shrink() {
    let mut w: World<Comp> = World::new();
    w.new_entity();
    w.new_entity();
    w.add_component_to_entity(VEL, 0, Comp::Vel(3, 3));
    w.add_component_to_entity(VEL, 1, Comp::Vel(4, 4));
    w.remove_component_from_entity(VEL, 0);
    assert_eq!(w.column_len(VEL), Some(2));
    assert_eq!(w.get_component_from_entity_mut(VEL, 0), Some(&mut None));
    assert_eq!(
        w.get_component_from_entity_mut(VEL, 1),
        Some(&mut Some(Comp::Vel(4, 4)))
    );
}

#[test]
fn remove_without_column_is_a_no_op() {
    let mut w: World<Comp> = World::new();
    w.new_entity();
    w.remove_component_from_entity(HEALTH, 0);
    assert_eq!(w.column_len(HEALTH), None);
    assert_eq!(w.get_component_from_entity_mut(HEALTH, 0), None);
}

#[test]
fn lazy_backfill_on_first_insertion() {
    let mut w: World<Comp> = World::new();
    w.new_entity();
    w.new_entity();
    w.new_entity();
    w.add_component_to_entity(POS, 1, Comp::Pos(5, 6));
    assert_eq!(w.column_len(POS), Some(3));
    assert_eq!(w.get_component_from_entity_mut(POS, 0), Some(&mut None));
    assert_eq!(
        w.get_component_from_entity_mut(POS, 1),
        Some(&mut Some(Comp::Pos(5, 6)))
    );
    assert_eq!(w.get_component_from_entity_mut(POS, 2), Some(&mut None));
}

#[test]
fn delete_entity_clears_every_column_keeps_count() {
    let mut w: World<Comp> = World::new();
    w.new_entity();
    w.new_entity();
    w.add_component_to_entity(POS, 1, Comp::Pos(1, 2));
    w.add_component_to_entity(VEL, 1, Comp::Vel(3, 4));
    w.delete_entity(1);
    assert_eq!(w.entity_count(), 2);
    assert_eq!(w.column_len(POS), Some(2));
    assert_eq!(w.column_len(VEL), Some(2));
    assert_eq!(w.get_component_from_entity_mut(POS, 1), Some(&mut None));
    assert_eq!(w.get_component_from_entity_mut(VEL, 1), Some(&mut None));
}

#[test]
fn absent_column_is_distinct_from_empty_slot() {
    let mut w: World<Comp> = World::new();
    w.new_entity();
    w.new_entity();
    // No Health component was ever added: no column at all.
    assert_eq!(w.get_component_from_entity_mut(HEALTH, 0), None);
    w.add_component_to_entity(HEALTH, 0, Comp::Health(100));
    // The column now exists; entity 1 has a handle to an empty slot.
    assert_eq!(w.get_component_from_entity_mut(HEALTH, 1), Some(&mut None));
    assert_eq!(
        w.get_component_from_entity_mut(HEALTH, 0),
        Some(&mut Some(Comp::Health(100)))
    );
}
