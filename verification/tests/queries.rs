use ecs_world::model::AliasingViolation;
use ecs_world::world::World;

#[derive(Clone, Copy, PartialEq, Debug)]
enum Comp {
    Pos(i64, i64),
    Vel(i64, i64),
    Health(i64),
}

const POS: u64 = 1;
const VEL: u64 = 2;
const HEALTH: u64 = 3;

fn world_with_positions() -> World<Comp> {
    let mut w: World<Comp> = World::new();
    w.new_entity();
    w.new_entity();
    w.new_entity();
    w.add_component_to_entity(POS, 0, Comp::Pos(1, 2));
    w.add_component_to_entity(POS, 2, Comp::Pos(3, 4));
    w
}

#[test]
fn single_type_query_visits_matching_entities_in_order() {
    let w = world_with_positions();
    let v = w.query1(POS).unwrap();
    assert_eq!(v.len(), 2);
    assert_eq!(v[0].0, 0);
    assert_eq!(v[0].1, &Comp::Pos(1, 2));
    assert_eq!(v[1].0, 2);
    assert_eq!(v[1].1, &Comp::Pos(3, 4));
}

#[test]
fn two_type_query_with_no_common_entity_is_empty() {
    let mut w = world_with_positions();
    w.add_component_to_entity(VEL, 1, Comp::Vel(5, 0));
    let v = w.query2(POS, VEL).unwrap();
    assert_eq!(v.len(), 0);
}

#[test]
fn two_type_query_finds_the_common_entity() {
    let mut w = world_with_positions();
    w.add_component_to_entity(VEL, 1, Comp::Vel(5, 0));
    w.add_component_to_entity(VEL, 2, Comp::Vel(0, 1));
    let v = w.query2(POS, VEL).unwrap();
    assert_eq!(v.len(), 1);
    assert_eq!(v[0].0, 2);
    assert_eq!(v[0].1, &Comp::Pos(3, 4));
    assert_eq!(v[0].2, &Comp::Vel(0, 1));
}

#[test]
fn deleted_entity_drops_out_of_queries() {
    let mut w = world_with_positions();
    w.delete_entity(2);
    let v = w.query1(POS).unwrap();
    assert_eq!(v.len(), 1);
    assert_eq!(v[0].0, 0);
    assert_eq!(v[0].1, &Comp::Pos(1, 2));
}

#[test]
fn unregistered_type_yields_empty_query_not_error() {
    let w = world_with_positions();
    assert_eq!(w.query1(HEALTH).unwrap().len(), 0);
    assert_eq!(w.query2(POS, HEALTH).unwrap().len(), 0);
    assert_eq!(w.query_ids(&vec![HEALTH]).unwrap(), Vec::<usize>::new());
    assert_eq!(w.query_ids(&vec![POS, HEALTH]).unwrap(), Vec::<usize>::new());
}

#[test]
fn query_ids_joins_any_number_of_types() {
    let mut w = world_with_positions();
    w.add_component_to_entity(VEL, 0, Comp::Vel(1, 1));
    w.add_component_to_entity(VEL, 2, Comp::Vel(2, 2));
    w.add_component_to_entity(HEALTH, 2, Comp::Health(9));
    assert_eq!(w.query_ids(&vec![POS]).unwrap(), vec![0, 2]);
    assert_eq!(w.query_ids(&vec![POS, VEL]).unwrap(), vec![0, 2]);
    assert_eq!(w.query_ids(&vec![POS, VEL, HEALTH]).unwrap(), vec![2]);
}

#[test]
fn two_shared_borrows_succeed_together() {
    let mut w = world_with_positions();
    let g1 = w.borrow_components(POS).unwrap().unwrap();
    let g2 = w.borrow_components(POS).unwrap().unwrap();
    assert_eq!(w.read_component(&g1, 0), &Some(Comp::Pos(1, 2)));
    assert_eq!(w.read_component(&g2, 1), &None);
    w.release_components(g1);
    w.release_components(g2);
}

#[test]
fn exclusive_borrow_fails_while_shared_outstanding() {
    let mut w = world_with_positions();
    let g1 = w.borrow_components(POS).unwrap().unwrap();
    assert!(matches!(w.borrow_components_mut(POS), Err(AliasingViolation)));
    w.release_components(g1);
    // Once released, the exclusive borrow succeeds.
    let gm = w.borrow_components_mut(POS).unwrap().unwrap();
    w.release_components_mut(gm);
}

#[test]
fn any_borrow_fails_while_exclusive_outstanding() {
    let mut w = world_with_positions();
    let gm = w.borrow_components_mut(POS).unwrap().unwrap();
    assert!(matches!(w.borrow_components(POS), Err(AliasingViolation)));
    assert!(matches!(w.borrow_components_mut(POS), Err(AliasingViolation)));
    w.release_components_mut(gm);
}

#[test]
fn borrowing_an_unregistered_type_returns_nothing() {
    let mut w = world_with_positions();
    assert!(matches!(w.borrow_components(HEALTH), Ok(None)));
    assert!(matches!(w.borrow_components_mut(HEALTH), Ok(None)));
}

#[test]
fn queries_fail_while_exclusive_borrow_outstanding() {
    let mut w = world_with_positions();
    let gm = w.borrow_components_mut(POS).unwrap().unwrap();
    assert!(matches!(w.query1(POS), Err(AliasingViolation)));
    assert!(matches!(w.query2(POS, VEL), Err(AliasingViolation)));
    assert!(matches!(w.query_ids(&vec![POS]), Err(AliasingViolation)));
    w.release_components_mut(gm);
    assert_eq!(w.query1(POS).unwrap().len(), 2);
}

#[test]
fn queries_run_beside_shared_borrows() {
    let mut w = world_with_positions();
    let g1 = w.borrow_components(POS).unwrap().unwrap();
    assert_eq!(w.query1(POS).unwrap().len(), 2);
    w.release_components(g1);
}

#[test]
fn write_through_exclusive_borrow() {
    let mut w = world_with_positions();
    let gm = w.borrow_components_mut(POS).unwrap().unwrap();
    assert_eq!(w.read_component_mut(&gm, 0), &Some(Comp::Pos(1, 2)));
    w.write_component(&gm, 1, Some(Comp::Pos(8, 8)));
    assert_eq!(w.read_component_mut(&gm, 1), &Some(Comp::Pos(8, 8)));
    w.release_components_mut(gm);
    assert_eq!(
        w.get_component_from_entity_mut(POS, 1),
        Some(&mut Some(Comp::Pos(8, 8)))
    );
}

#[test]
fn read_write_query_rewrites_present_slots_only() {
    let mut w: World<Comp> = World::new();
    w.new_entity();
    w.new_entity();
    w.new_entity();
    w.add_component_to_entity(HEALTH, 0, Comp::Health(10));
    w.add_component_to_entity(HEALTH, 2, Comp::Health(20));
    let r = w.query_mut1(HEALTH, |_id, c| match c {
        Comp::Health(h) => Comp::Health(h * 2),
        other => other,
    });
    assert!(r.is_ok());
    assert_eq!(
        w.get_component_from_entity_mut(HEALTH, 0),
        Some(&mut Some(Comp::Health(20)))
    );
    assert_eq!(w.get_component_from_entity_mut(HEALTH, 1), Some(&mut None));
    assert_eq!(
        w.get_component_from_entity_mut(HEALTH, 2),
        Some(&mut Some(Comp::Health(40)))
    );
}

#[test]
fn read_write_query_on_unregistered_type_does_nothing() {
    let mut w = world_with_positions();
    let r = w.query_mut1(HEALTH, |_id, c| c);
    assert!(r.is_ok());
    assert_eq!(w.column_len(HEALTH), None);
}

#[test]
fn read_write_query_fails_while_any_borrow_outstanding() {
    let mut w = world_with_positions();
    let g1 = w.borrow_components(POS).unwrap().unwrap();
    assert!(matches!(w.query_mut1(POS, |_id, c| c), Err(AliasingViolation)));
    w.release_components(g1);
    assert!(w.query_mut1(POS, |_id, c| c).is_ok());
}

#[test]
fn mixed_query_updates_writable_column_from_read_column() {
    let mut w = world_with_positions();
    w.add_component_to_entity(VEL, 0, Comp::Vel(10, 20));
    w.add_component_to_entity(VEL, 1, Comp::Vel(1, 1));
    let r = w.query_mut_rw(POS, VEL, |_id, p, v| match (p, v) {
        (Comp::Pos(px, py), Comp::Vel(vx, vy)) => Comp::Vel(vx + px, vy + py),
        (_, other) => other,
    });
    assert!(r.is_ok());
    // Entity 0 carries both: its velocity moved by its position.
    assert_eq!(
        w.get_component_from_entity_mut(VEL, 0),
        Some(&mut Some(Comp::Vel(11, 22)))
    );
    // Entity 1 has velocity but no position: untouched.
    assert_eq!(
        w.get_component_from_entity_mut(VEL, 1),
        Some(&mut Some(Comp::Vel(1, 1)))
    );
    // Entity 2 has position but no velocity: its slot stays empty.
    assert_eq!(w.get_component_from_entity_mut(VEL, 2), Some(&mut None));
    // The read-only column is untouched.
    assert_eq!(
        w.get_component_from_entity_mut(POS, 0),
        Some(&mut Some(Comp::Pos(1, 2)))
    );
}

#[test]
fn mixed_query_on_one_tag_in_both_roles_is_an_aliasing_violation() {
    let mut w = world_with_positions();
    assert!(matches!(
        w.query_mut_rw(POS, POS, |_id, p, _q| p),
        Err(AliasingViolation)
    ));
    // The column is untouched by the aborted query.
    assert_eq!(w.query1(POS).unwrap().len(), 2);
}

#[test]
fn empty_world_queries_are_empty() {
    let w: World<Comp> = World::new();
    assert_eq!(w.query1(POS).unwrap().len(), 0);
    assert_eq!(w.query_ids(&vec![POS, VEL]).unwrap(), Vec::<usize>::new());
}
