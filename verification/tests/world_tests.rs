use grid_combat::{Position, Unit, World};

#[test]
fn world_constructor() {
    let world = World::new(3);
    assert_eq!(3, world.get_size());
}

#[test]
fn world_get_map() {
    let mut world = World::new(3);

    assert_eq!("000\n000\n000\n", world.get_map());

    let soldier1 = Unit::soldier();

    world.insert_unit(soldier1, Position::new(0, 0));

    assert_eq!("x00\n000\n000\n", world.get_map());
}

#[test]
fn position_get_distance() {
    let position1 = Position::new(1, 1);
    let position2 = Position::new(2, 3);
    assert_eq!(3, position1.get_distance_to(position2));
    assert_eq!(3, position2.get_distance_to(position1));
}

#[test]
fn position_distance_zero_iff_equal() {
    let position1 = Position::new(2, 2);
    let position2 = Position::new(2, 2);
    assert_eq!(0, position1.get_distance_to(position2));

    let position3 = Position::new(2, 1);
    assert!(position1.get_distance_to(position3) > 0);
    assert_eq!(
        position1.get_distance_to(position3),
        position3.get_distance_to(position1)
    );
}

#[test]
fn world_get_possible_next_positions() {
    let mut world = World::new(3);
    let soldier1 = Unit::soldier();
    let current_position = Position::new(0, 0);
    world.insert_unit(soldier1, current_position);

    let possible_next_positions = world.get_possible_next_positions(current_position);
    let expected_possible_next_positions =
        vec![Position::new(0, 0), Position::new(0, 1), Position::new(1, 0)];

    assert_eq!(expected_possible_next_positions, possible_next_positions);
}

#[test]
fn world_occupied() {
    let mut world = World::new(3);
    let soldier1 = Unit::soldier();
    let current_position = Position::new(0, 0);
    world.insert_unit(soldier1, current_position);

    assert!(world.occupied(current_position));
    assert!(!world.occupied(Position::new(1, 1)));
}

#[test]
fn world_get_possible_next_positions_cannot_move_to_occupied_location() {
    let mut world = World::new(3);
    let soldier1 = Unit::soldier();
    let current_position = Position::new(0, 0);
    world.insert_unit(soldier1, current_position);
    world.insert_unit(Unit::soldier(), Position::new(0, 1));

    let possible_next_positions = world.get_possible_next_positions(current_position);
    let expected_possible_next_positions = vec![Position::new(0, 0), Position::new(1, 0)];

    assert_eq!(expected_possible_next_positions, possible_next_positions);
}

#[test]
fn world_move_success() {
    let mut world = World::new(3);
    let soldier1 = Unit::soldier();
    let current_position = Position::new(0, 0);
    world.insert_unit(soldier1, current_position);
    let new_position = Position::new(0, 1);

    let success = world.move_unit(current_position, new_position);
    assert!(success);
    assert!(world.occupied(new_position));
    assert!(!world.occupied(current_position));
}

#[test]
fn world_move_too_far() {
    let mut world = World::new(3);
    let soldier1 = Unit::soldier();
    let current_position = Position::new(0, 0);
    world.insert_unit(soldier1, current_position);
    let new_position = Position::new(3, 3);

    let success = world.move_unit(current_position, new_position);
    assert!(!success);
    assert!(!world.occupied(new_position));
    assert!(world.occupied(current_position));
}

#[test]
fn world_move_from_unoccupied_origin_fails() {
    let mut world = World::new(3);
    world.insert_unit(Unit::soldier(), Position::new(2, 2));

    let success = world.move_unit(Position::new(0, 0), Position::new(0, 1));
    assert!(!success);
    assert!(!world.occupied(Position::new(0, 1)));
    assert_eq!("000\n000\n00x\n", world.get_map());
}

#[test]
fn world_move_to_occupied_destination_fails() {
    let mut world = World::new(3);
    world.insert_unit(Unit::soldier(), Position::new(0, 0));
    world.insert_unit(Unit::tank(), Position::new(0, 1));

    let success = world.move_unit(Position::new(0, 0), Position::new(0, 1));
    assert!(!success);
    assert_eq!("xx0\n000\n000\n", world.get_map());
}

#[test]
fn world_attack_no_units_removed() {
    let mut world = World::new(3);
    let mut soldier = Unit::soldier();
    let tank = Unit::tank();
    let soldier_position = Position::new(0, 0);
    let tank_position = Position::new(0, 1);

    world.insert_unit(soldier, soldier_position);
    world.insert_unit(tank, tank_position);

    world.attack(tank_position, soldier_position);
    assert_eq!(2, world.get_unit_count());
}

#[test]
fn world_attack_killed_defender_is_removed() {
    let mut world = World::new(3);
    let mut soldier = Unit::soldier();
    soldier.take_damage(9);
    let tank = Unit::tank();
    let soldier_position = Position::new(0, 0);
    let tank_position = Position::new(0, 1);

    world.insert_unit(soldier, soldier_position);
    world.insert_unit(tank, tank_position);

    world.attack(tank_position, soldier_position);
    assert_eq!(1, world.get_unit_count());
}

#[test]
fn world_attack_killed_attacker_is_removed() {
    let mut world = World::new(3);
    let mut soldier = Unit::soldier();
    soldier.take_damage(9);
    let tank = Unit::tank();
    let soldier_position = Position::new(0, 0);
    let tank_position = Position::new(0, 1);

    world.insert_unit(soldier, soldier_position);
    world.insert_unit(tank, tank_position);

    world.attack(soldier_position, tank_position);
    assert_eq!(1, world.get_unit_count());
}

#[test]
fn world_attack_out_of_range() {
    let mut world = World::new(3);
    let mut soldier = Unit::soldier();
    soldier.take_damage(9);
    let tank = Unit::tank();
    let soldier_position = Position::new(0, 0);
    let tank_position = Position::new(2, 2);

    world.insert_unit(soldier, soldier_position);
    world.insert_unit(tank, tank_position);

    world.attack(tank_position, soldier_position);
    // soldier is not killed because he is out of range of the tank
    assert_eq!(2, world.get_unit_count());
}

// An out-of-range attack is a complete no-op: occupancy stays as it was, and
// the weakened soldier is still killed by a single later blow exactly as a
// fresh exchange would kill it, showing no hidden damage was dealt.
#[test]
fn world_attack_out_of_range_changes_nothing() {
    let mut world = World::new(3);
    let mut soldier = Unit::soldier();
    soldier.take_damage(9);
    world.insert_unit(soldier, Position::new(0, 0));
    world.insert_unit(Unit::tank(), Position::new(2, 2));

    world.attack(Position::new(2, 2), Position::new(0, 0));
    world.attack(Position::new(0, 0), Position::new(2, 2));
    assert_eq!("x00\n000\n00x\n", world.get_map());
    assert_eq!(2, world.get_unit_count());

    // bring the tank into range: the exchange then plays out as usual
    assert!(world.move_unit(Position::new(2, 2), Position::new(1, 2)));
    assert!(world.move_unit(Position::new(1, 2), Position::new(1, 1)));
    assert!(world.move_unit(Position::new(1, 1), Position::new(0, 1)));
    world.attack(Position::new(0, 1), Position::new(0, 0));
    assert_eq!(1, world.get_unit_count());
    assert_eq!("0x0\n000\n000\n", world.get_map());
}

#[test]
fn world_insert_overwrites_occupant() {
    let mut world = World::new(3);
    world.insert_unit(Unit::soldier(), Position::new(1, 1));
    world.insert_unit(Unit::tank(), Position::new(1, 1));

    assert_eq!(1, world.get_unit_count());
    assert_eq!("000\n0x0\n000\n", world.get_map());
}

// Even when the current cell itself is free, it is listed exactly once, as
// the head of the result, and never again from the scan.
#[test]
fn world_possible_next_positions_unoccupied_current_listed_once() {
    let world = World::new(3);
    let current_position = Position::new(0, 0);

    let possible_next_positions = world.get_possible_next_positions(current_position);
    let expected =
        vec![Position::new(0, 0), Position::new(0, 1), Position::new(1, 0)];
    assert_eq!(expected, possible_next_positions);
}

#[test]
fn world_possible_next_positions_center_of_empty_board() {
    let mut world = World::new(3);
    let current_position = Position::new(1, 1);
    world.insert_unit(Unit::soldier(), current_position);

    let possible_next_positions = world.get_possible_next_positions(current_position);
    let expected = vec![
        Position::new(1, 1),
        Position::new(0, 1),
        Position::new(1, 0),
        Position::new(1, 2),
        Position::new(2, 1),
    ];
    assert_eq!(expected, possible_next_positions);
}
