//! End-to-end solver tests. Lengths are in half-metre grid units and
//! areas in grid cells: a 10 m by 10 m boundary is 20 by 20 units, and
//! a minimum area of 9 square metres is 36 cells.

use constraints_resolver::geometry::Rectangle;
use constraints_resolver::solver::{solve_layout, SolverError};
use constraints_resolver::types::RoomRequirement;

#[test]
fn test_solve_simple_layout_two_rooms() {
    let room1 = RoomRequirement {
        id: "room1".to_string(),
        min_area: 36,
        adjacent_to: vec![],
        not_adjacent_to: vec![],
        has_exterior_wall: false,
    };

    let room2 = RoomRequirement {
        id: "room2".to_string(),
        min_area: 36,
        adjacent_to: vec![],
        not_adjacent_to: vec![],
        has_exterior_wall: false,
    };

    let result = solve_layout(vec![room1, room2], 20, 20);

    assert!(result.is_ok());
    let solution = result.unwrap();
    assert_eq!(solution.rooms.len(), 2);
    assert!(solution.is_valid);
}

#[test]
fn test_solve_fails_when_impossible() {
    // Create 2 rooms, each needing 60 square metres (240 cells)
    let room1 = RoomRequirement {
        id: "room1".to_string(),
        min_area: 240,
        adjacent_to: vec![],
        not_adjacent_to: vec![],
        has_exterior_wall: false,
    };

    let room2 = RoomRequirement {
        id: "room2".to_string(),
        min_area: 240,
        adjacent_to: vec![],
        not_adjacent_to: vec![],
        has_exterior_wall: false,
    };

    // Boundary: 10 m by 10 m (total 400 cells, but both cannot fit)
    let result = solve_layout(vec![room1, room2], 20, 20);

    assert!(result.is_err());
}

#[test]
fn test_solve_with_adjacency_requirement() {
    // room1 must be adjacent to room2
    let room1 = RoomRequirement {
        id: "room1".to_string(),
        min_area: 36,
        adjacent_to: vec!["room2".to_string()],
        not_adjacent_to: vec![],
        has_exterior_wall: false,
    };

    let room2 = RoomRequirement {
        id: "room2".to_string(),
        min_area: 36,
        adjacent_to: vec![],
        not_adjacent_to: vec![],
        has_exterior_wall: false,
    };

    let result = solve_layout(vec![room1, room2], 20, 20);

    assert!(result.is_ok());
    let solution = result.unwrap();
    assert_eq!(solution.rooms.len(), 2);

    // Verify room1 and room2 are actually adjacent
    let room1_placed = solution.rooms.iter().find(|r| r.id == "room1").unwrap();
    let room2_placed = solution.rooms.iter().find(|r| r.id == "room2").unwrap();

    let rect1 = Rectangle::from_room(room1_placed);
    let rect2 = Rectangle::from_room(room2_placed);

    assert!(
        rect1.is_adjacent_to(&rect2),
        "room1 and room2 should be adjacent"
    );
}

#[test]
fn test_solve_respects_must_have_external_wall() {
    // One room of at least 16 square metres that needs an exterior wall
    let room1 = RoomRequirement {
        id: "room1".to_string(),
        min_area: 64,
        adjacent_to: vec![],
        not_adjacent_to: vec![],
        has_exterior_wall: true,
    };

    let result = solve_layout(vec![room1], 20, 20);

    assert!(result.is_ok());
    let solution = result.unwrap();

    // Assert: solution.rooms[0] touches external wall
    let placed_room = &solution.rooms[0];
    let rect = Rectangle::from_room(placed_room);

    assert!(
        rect.touches_exterior_wall(20, 20),
        "Room with has_exterior_wall=true should touch external wall"
    );
}

#[test]
fn test_solve_orders_by_most_constrained_first() {
    // Room1: no constraints (ID: "simple")
    let room1 = RoomRequirement {
        id: "simple".to_string(),
        min_area: 36,
        adjacent_to: vec![],
        not_adjacent_to: vec![],
        has_exterior_wall: false,
    };

    // Room2: adjacent to "simple", needs an exterior wall (ID: "complex")
    let room2 = RoomRequirement {
        id: "complex".to_string(),
        min_area: 36,
        adjacent_to: vec!["simple".to_string()],
        not_adjacent_to: vec![],
        has_exterior_wall: true,
    };

    let result = solve_layout(vec![room1, room2], 20, 20);

    assert!(result.is_ok());
    let solution = result.unwrap();

    // The solver should place "complex" first (more constrained).
    // We can verify this succeeded by checking both rooms are placed
    assert_eq!(solution.rooms.len(), 2);
    assert!(solution.rooms.iter().any(|r| r.id == "simple"));
    assert!(solution.rooms.iter().any(|r| r.id == "complex"));
}

#[test]
fn test_solution_has_valid_total_score() {
    let room1 = RoomRequirement {
        id: "room1".to_string(),
        min_area: 36,
        adjacent_to: vec![],
        not_adjacent_to: vec![],
        has_exterior_wall: true, // Should get bonus points
    };

    let room2 = RoomRequirement {
        id: "room2".to_string(),
        min_area: 36,
        adjacent_to: vec!["room1".to_string()], // Should get adjacency bonus
        not_adjacent_to: vec![],
        has_exterior_wall: false,
    };

    let result = solve_layout(vec![room1, room2], 20, 20);

    assert!(result.is_ok());
    let solution = result.unwrap();

    // Total score should be positive and reasonable
    assert!(solution.total_score.num > 0);
    println!("Total score: {}/{}", solution.total_score.num, solution.total_score.den);

    // Each room should score at least base points (20 hard + 5 no violations = 25)
    // With 2 rooms, minimum should be around 50
    assert!(solution.total_score.num >= 50 * solution.total_score.den);
}

#[test]
fn test_solve_complex_layout_with_all_constraints() {
    // Living room - must have external wall, most constrained
    let living = RoomRequirement {
        id: "living".to_string(),
        min_area: 80,
        adjacent_to: vec!["kitchen".to_string()],
        not_adjacent_to: vec!["bathroom".to_string()],
        has_exterior_wall: true,
    };

    // Kitchen - the living room wants to sit beside it
    let kitchen = RoomRequirement {
        id: "kitchen".to_string(),
        min_area: 48,
        adjacent_to: vec![],
        not_adjacent_to: vec![],
        has_exterior_wall: false,
    };

    // Bathroom - cannot be adjacent to living
    let bathroom = RoomRequirement {
        id: "bathroom".to_string(),
        min_area: 24,
        adjacent_to: vec![],
        not_adjacent_to: vec![],
        has_exterior_wall: false,
    };

    // Larger boundary for 3 rooms: 15 m by 15 m
    let result = solve_layout(vec![living, kitchen, bathroom], 30, 30);

    assert!(result.is_ok());
    let solution = result.unwrap();

    // Verify all rooms placed
    assert_eq!(solution.rooms.len(), 3);
    assert!(solution.is_valid);
    assert!(solution.total_score.num > 0);

    // Find each room
    let living_room = solution.rooms.iter().find(|r| r.id == "living").unwrap();
    let kitchen_room = solution.rooms.iter().find(|r| r.id == "kitchen").unwrap();
    let bathroom_room = solution.rooms.iter().find(|r| r.id == "bathroom").unwrap();

    // Verify constraints
    // Living room has external wall
    let living_rect = Rectangle::from_room(living_room);
    assert!(living_rect.touches_exterior_wall(30, 30));

    // Living and kitchen are adjacent
    let kitchen_rect = Rectangle::from_room(kitchen_room);
    assert!(living_rect.is_adjacent_to(&kitchen_rect));

    // Living and bathroom are NOT adjacent
    let bathroom_rect = Rectangle::from_room(bathroom_room);
    assert!(!living_rect.is_adjacent_to(&bathroom_rect));

    println!("Complex layout solved successfully!");
    println!("Total score: {}/{}", solution.total_score.num, solution.total_score.den);
    println!(
        "Living room: ({}, {}) {}x{}",
        living_room.x, living_room.y, living_room.width, living_room.height
    );
    println!(
        "Kitchen: ({}, {}) {}x{}",
        kitchen_room.x, kitchen_room.y, kitchen_room.width, kitchen_room.height
    );
    println!(
        "Bathroom: ({}, {}) {}x{}",
        bathroom_room.x, bathroom_room.y, bathroom_room.width, bathroom_room.height
    );
}

#[test]
fn test_solve_error_carries_message() {
    let room = RoomRequirement {
        id: "huge".to_string(),
        min_area: 4000,
        adjacent_to: vec![],
        not_adjacent_to: vec![],
        has_exterior_wall: false,
    };
    let result = solve_layout(vec![room], 20, 20);
    match result {
        Ok(_) => panic!("expected no solution"),
        Err(SolverError::NoSolutionFound(message)) => {
            assert_eq!(message, "No solution found");
        },
    }
}

#[test]
fn test_solve_empty_requirements_yields_empty_solution() {
    let result = solve_layout(vec![], 20, 20);
    assert!(result.is_ok());
    let solution = result.unwrap();
    assert_eq!(solution.rooms.len(), 0);
    assert!(solution.is_valid);
    assert_eq!(solution.total_score.num, 0);
    assert_eq!(solution.total_score.den, 1);
}
