//! Room ordering tests: constrainedness counting and the stable
//! most-constrained-first sort.

use constraints_resolver::room_ordering::{count_constraints, order_rooms_by_constraints};
use constraints_resolver::types::RoomRequirement;

#[test]
fn test_count_constraints_with_multiple_requirements() {
    let room = RoomRequirement {
        id: "room1".to_string(),
        min_area: 80,
        adjacent_to: vec!["room2".to_string(), "room3".to_string()],
        not_adjacent_to: vec!["room4".to_string()],
        has_exterior_wall: true,
    };

    let count = count_constraints(&room);
    assert_eq!(count, 4); // 2 adjacent + 1 not_adjacent + 1 exterior wall
}

#[test]
fn test_count_constraints_with_no_requirements() {
    let room = RoomRequirement {
        id: "room1".to_string(),
        min_area: 80,
        adjacent_to: vec![],
        not_adjacent_to: vec![],
        has_exterior_wall: false,
    };

    let count = count_constraints(&room);
    assert_eq!(count, 0);
}

#[test]
fn test_count_constraints_only_adjacency() {
    let room = RoomRequirement {
        id: "room1".to_string(),
        min_area: 80,
        adjacent_to: vec!["room2".to_string(), "room3".to_string()],
        not_adjacent_to: vec![],
        has_exterior_wall: false,
    };

    let count = count_constraints(&room);
    assert_eq!(count, 2);
}

#[test]
fn test_order_rooms_most_constrained_first() {
    // room1: 4 constraints (adjacent_to = 2, not_adjacent_to = 1, exterior wall = true)
    let room1 = RoomRequirement {
        id: "room1".to_string(),
        min_area: 80,
        adjacent_to: vec!["room2".to_string(), "room3".to_string()],
        not_adjacent_to: vec!["room4".to_string()],
        has_exterior_wall: true,
    };

    // room2: 1 constraint (adjacent_to = 1)
    let room2 = RoomRequirement {
        id: "room2".to_string(),
        min_area: 60,
        adjacent_to: vec!["room1".to_string()],
        not_adjacent_to: vec![],
        has_exterior_wall: false,
    };

    // room3: 2 constraints (adjacent_to = 2)
    let room3 = RoomRequirement {
        id: "room3".to_string(),
        min_area: 72,
        adjacent_to: vec!["room1".to_string(), "room2".to_string()],
        not_adjacent_to: vec![],
        has_exterior_wall: false,
    };

    let rooms = vec![room1, room2, room3];
    let ordered = order_rooms_by_constraints(rooms);

    assert_eq!(ordered[0].id, "room1"); // 4 constraints first
    assert_eq!(ordered[1].id, "room3"); // 2 constraints second
    assert_eq!(ordered[2].id, "room2"); // 1 constraint last
}

#[test]
fn test_order_rooms_preserves_equal_constraints() {
    // Create 2 rooms with same constraint count (2 each)
    let room1 = RoomRequirement {
        id: "room1".to_string(),
        min_area: 80,
        adjacent_to: vec!["room2".to_string(), "room3".to_string()],
        not_adjacent_to: vec![],
        has_exterior_wall: false,
    };

    let room2 = RoomRequirement {
        id: "room2".to_string(),
        min_area: 60,
        adjacent_to: vec!["room1".to_string()],
        not_adjacent_to: vec![],
        has_exterior_wall: true,
    };

    let rooms = vec![room1, room2];
    let ordered = order_rooms_by_constraints(rooms);

    // Assert both rooms still in result (length = 2)
    assert_eq!(ordered.len(), 2);
    // Both have 2 constraints, so order doesn't matter but both should be present
    assert!(ordered.iter().any(|r| r.id == "room1"));
    assert!(ordered.iter().any(|r| r.id == "room2"));
}

// The sort is stable: rooms of equal constrainedness keep exactly the
// caller's order.
#[test]
fn test_order_equal_constraints_keep_input_order() {
    let mk = |id: &str, wall: bool| RoomRequirement {
        id: id.to_string(),
        min_area: 36,
        adjacent_to: vec![],
        not_adjacent_to: vec![],
        has_exterior_wall: wall,
    };
    // first, second and third all have one constraint; big has two.
    let rooms = vec![
        mk("first", true),
        mk("second", true),
        RoomRequirement {
            id: "big".to_string(),
            min_area: 36,
            adjacent_to: vec!["first".to_string()],
            not_adjacent_to: vec![],
            has_exterior_wall: true,
        },
        mk("third", true),
    ];
    let ordered = order_rooms_by_constraints(rooms);
    assert_eq!(ordered[0].id, "big");
    assert_eq!(ordered[1].id, "first");
    assert_eq!(ordered[2].id, "second");
    assert_eq!(ordered[3].id, "third");
}
