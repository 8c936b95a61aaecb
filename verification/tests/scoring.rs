//! Scoring and hard-rule tests. Lengths are in half-metre grid units
//! and areas in grid cells: a 3 m by 3 m room is 6 by 6 units with an
//! area of 36 cells.

use constraints_resolver::scoring::{
    calculate_hard_constraint_score, check_hard_constraints, score_position,
};
use constraints_resolver::types::{Room, RoomRequirement};

// Checks a room at (0.5 m, 0.5 m) of 3 m by 3 m with no special
// constraints breaks no rule.
#[test]
fn test_no_violations_when_valid_position() {
    let placed_room = Room { id: "room1".to_string(), x: 2, y: 2, width: 6, height: 6 };

    let room_req = RoomRequirement {
        id: "room1".to_string(),
        min_area: 36,
        adjacent_to: vec![],
        not_adjacent_to: vec![],
        has_exterior_wall: false,
    };

    let already_placed = vec![];

    let (is_valid, violations) =
        check_hard_constraints(&placed_room, &room_req, &already_placed, 20, 20);

    assert!(is_valid);
    assert_eq!(violations.len(), 0);
}

#[test]
fn test_violation_when_outside_boundary() {
    let placed_room = Room { id: "room1".to_string(), x: 16, y: 16, width: 10, height: 10 };

    let room_req = RoomRequirement {
        id: "room1".to_string(),
        min_area: 100,
        adjacent_to: vec![],
        not_adjacent_to: vec![],
        has_exterior_wall: false,
    };

    let already_placed = vec![];

    let (is_valid, violations) =
        check_hard_constraints(&placed_room, &room_req, &already_placed, 20, 20);

    assert!(!is_valid);
    assert!(violations.iter().any(|v| v.contains("boundary")));
}

#[test]
fn test_violation_when_overlapping() {
    let placed_room = Room { id: "room1".to_string(), x: 4, y: 4, width: 8, height: 8 };

    let room_req = RoomRequirement {
        id: "room1".to_string(),
        min_area: 64,
        adjacent_to: vec![],
        not_adjacent_to: vec![],
        has_exterior_wall: false,
    };

    // Already placed: room2 overlapping the candidate
    let already_placed = vec![Room {
        id: "room2".to_string(),
        x: 8,
        y: 8,
        width: 8,
        height: 8,
    }];

    let (is_valid, violations) =
        check_hard_constraints(&placed_room, &room_req, &already_placed, 20, 20);

    assert!(!is_valid);
    assert!(violations.iter().any(|v| v.contains("overlap")));
}

#[test]
fn test_violation_when_missing_required_adjacency() {
    let placed_room = Room { id: "room1".to_string(), x: 0, y: 0, width: 6, height: 6 };

    // Room requirement: must be adjacent to "room2"
    let room_req = RoomRequirement {
        id: "room1".to_string(),
        min_area: 36,
        adjacent_to: vec!["room2".to_string()],
        not_adjacent_to: vec![],
        has_exterior_wall: false,
    };

    // Already placed: room2 far away (not adjacent!)
    let already_placed = vec![Room {
        id: "room2".to_string(),
        x: 10,
        y: 10,
        width: 6,
        height: 6,
    }];

    let (is_valid, violations) =
        check_hard_constraints(&placed_room, &room_req, &already_placed, 20, 20);

    assert!(!is_valid);
    assert!(violations.iter().any(|v| v.contains("room2")));
}

#[test]
fn test_violation_when_adjacent_to_forbidden_room() {
    let placed_room = Room { id: "room1".to_string(), x: 0, y: 0, width: 6, height: 6 };

    // Room requirement: cannot be adjacent to "room2"
    let room_req = RoomRequirement {
        id: "room1".to_string(),
        min_area: 36,
        adjacent_to: vec![],
        not_adjacent_to: vec!["room2".to_string()],
        has_exterior_wall: false,
    };

    // Already placed: room2 sharing an edge (they ARE adjacent!)
    let already_placed = vec![Room {
        id: "room2".to_string(),
        x: 6,
        y: 0,
        width: 6,
        height: 6,
    }];

    let (is_valid, violations) =
        check_hard_constraints(&placed_room, &room_req, &already_placed, 20, 20);

    assert!(!is_valid);
    assert!(violations.iter().any(|v| v.contains("forbidden")));
}

#[test]
fn test_hard_constraint_score_zero_when_violations() {
    let score = calculate_hard_constraint_score(true);
    assert_eq!(score, 0);
}

#[test]
fn test_hard_constraint_score_full_when_no_violations() {
    let score = calculate_hard_constraint_score(false);
    assert_eq!(score, 20);
}

#[test]
fn test_soft_score_bonus_for_satisfied_adjacency() {
    let placed_room = Room { id: "room1".to_string(), x: 0, y: 0, width: 6, height: 6 };

    let room_req = RoomRequirement {
        id: "room1".to_string(),
        min_area: 36,
        adjacent_to: vec!["room2".to_string()],
        not_adjacent_to: vec![],
        has_exterior_wall: false,
    };

    // Already placed: room2 sharing an edge (adjacent!)
    let already_placed = vec![Room {
        id: "room2".to_string(),
        x: 6,
        y: 0,
        width: 6,
        height: 6,
    }];

    let score = constraints_resolver::scoring::calculate_soft_preference_score(
        &placed_room,
        &room_req,
        &already_placed,
        20,
        20,
    );

    assert!(score >= 5, "Expected score >= 5.0, got {}", score);
}

#[test]
fn test_soft_score_bonus_for_external_wall() {
    // A room touching the left wall
    let placed_room = Room { id: "room1".to_string(), x: 0, y: 4, width: 6, height: 6 };

    let room_req = RoomRequirement {
        id: "room1".to_string(),
        min_area: 36,
        adjacent_to: vec![],
        not_adjacent_to: vec![],
        has_exterior_wall: false,
    };

    let already_placed = vec![];

    let score = constraints_resolver::scoring::calculate_soft_preference_score(
        &placed_room,
        &room_req,
        &already_placed,
        20,
        20,
    );

    assert_eq!(score, 3, "Expected score 3.0 for external wall bonus, got {}", score);
}

#[test]
fn test_soft_score_capped_at_15() {
    let placed_room = Room { id: "room1".to_string(), x: 0, y: 0, width: 6, height: 6 };

    // Room requirement: many adjacencies
    let room_req = RoomRequirement {
        id: "room1".to_string(),
        min_area: 36,
        adjacent_to: vec!["room2".to_string(), "room3".to_string(), "room4".to_string()],
        not_adjacent_to: vec![],
        has_exterior_wall: false,
    };

    // Already placed: room2 and room3, both adjacent
    let already_placed = vec![
        Room { id: "room2".to_string(), x: 6, y: 0, width: 6, height: 6 },
        Room { id: "room3".to_string(), x: 0, y: 6, width: 6, height: 6 },
    ];

    let score = constraints_resolver::scoring::calculate_soft_preference_score(
        &placed_room,
        &room_req,
        &already_placed,
        20,
        20,
    );

    assert!(score <= 15, "Expected score <= 15.0 (capped), got {}", score);
}

#[test]
fn test_space_efficiency_perfect_when_exact_area() {
    // 4 m by 5 m: area 80 cells
    let placed_room = Room { id: "room1".to_string(), x: 0, y: 0, width: 8, height: 10 };

    let room_req = RoomRequirement {
        id: "room1".to_string(),
        min_area: 80,
        adjacent_to: vec![],
        not_adjacent_to: vec![],
        has_exterior_wall: false,
    };

    let score =
        constraints_resolver::scoring::calculate_space_efficiency_score(&placed_room, &room_req);
    assert!(score.value_equals(10)); // 80/80 * 10 = 10.0
}

#[test]
fn test_space_efficiency_lower_when_oversized() {
    // Room: 5 m by 5 m (area 100 cells)
    let placed_room = Room { id: "room1".to_string(), x: 0, y: 0, width: 10, height: 10 };

    // Min area: 20 square metres (80 cells)
    let room_req = RoomRequirement {
        id: "room1".to_string(),
        min_area: 80,
        adjacent_to: vec![],
        not_adjacent_to: vec![],
        has_exterior_wall: false,
    };

    // Score should be: 80 / 100 * 10 = 8.0
    let score =
        constraints_resolver::scoring::calculate_space_efficiency_score(&placed_room, &room_req);
    assert!(score.value_equals(8), "Expected score 8.0, got {}/{}", score.num, score.den);
}

#[test]
fn test_score_position_perfect_score() {
    // Room at the corner, 4 m by 5 m (area 80 cells)
    let placed_room = Room { id: "room1".to_string(), x: 0, y: 0, width: 8, height: 10 };

    let room_req = RoomRequirement {
        id: "room1".to_string(),
        min_area: 80,
        adjacent_to: vec![],
        not_adjacent_to: vec![],
        has_exterior_wall: true,
    };

    let already_placed = vec![];

    let score = score_position(&placed_room, &room_req, &already_placed, 20, 20);

    // Expected scores:
    // Hard: 20.0 (no violations)
    // Soft: 3.0 (external wall bonus)
    // Efficiency: 10.0 (perfect area match)
    // Base: 5.0 (no violations)
    // Total: 38.0
    assert!(
        score.total_score.value_equals(38),
        "Expected total score 38.0, got {}/{}",
        score.total_score.num,
        score.total_score.den
    );
    assert!(!score.has_violations);
    assert!(score.violation_reasons.is_empty());
}

#[test]
fn test_score_position_zero_when_violations() {
    // Room exceeding the boundary
    let placed_room = Room { id: "room1".to_string(), x: 16, y: 16, width: 10, height: 10 };

    let room_req = RoomRequirement {
        id: "room1".to_string(),
        min_area: 100,
        adjacent_to: vec![],
        not_adjacent_to: vec![],
        has_exterior_wall: false,
    };

    let already_placed = vec![];

    let score = score_position(&placed_room, &room_req, &already_placed, 20, 20);

    // Expected: everything zeroed because of the violation
    assert!(
        score.total_score.value_equals(0),
        "Expected total score 0.0, got {}/{}",
        score.total_score.num,
        score.total_score.den
    );
    assert!(score.has_violations);
    assert!(score.violation_reasons.len() > 0);
}

#[test]
fn test_score_position_with_adjacency_bonus() {
    let placed_room = Room { id: "room1".to_string(), x: 0, y: 0, width: 6, height: 6 };

    let room_req = RoomRequirement {
        id: "room1".to_string(),
        min_area: 36,
        adjacent_to: vec!["room2".to_string()],
        not_adjacent_to: vec![],
        has_exterior_wall: false,
    };

    // Already placed: room2 sharing an edge (adjacent!)
    let already_placed = vec![Room {
        id: "room2".to_string(),
        x: 6,
        y: 0,
        width: 6,
        height: 6,
    }];

    let score = score_position(&placed_room, &room_req, &already_placed, 20, 20);

    // Expected:
    // Hard: 20.0
    // Soft: 8.0 (5 for adjacency + 3 for external wall)
    // Efficiency: 10.0 (exact area)
    // Base: 5.0
    // Total: 43.0
    assert!(
        score.total_score.value_equals(43),
        "Expected total score 43.0, got {}/{}",
        score.total_score.num,
        score.total_score.den
    );
    assert!(
        score.soft_preference_score >= 5,
        "Expected soft score >= 5.0, got {}",
        score.soft_preference_score
    );
}

#[test]
fn test_score_position_lower_efficiency_when_oversized() {
    // Room of 5 m by 5 m (area 100 cells), half a metre in
    let placed_room = Room { id: "room1".to_string(), x: 2, y: 2, width: 10, height: 10 };

    // Min area 20 square metres (80 cells)
    let room_req = RoomRequirement {
        id: "room1".to_string(),
        min_area: 80,
        adjacent_to: vec![],
        not_adjacent_to: vec![],
        has_exterior_wall: false,
    };

    let already_placed = vec![];

    let score = score_position(&placed_room, &room_req, &already_placed, 20, 20);

    // Expected efficiency: 80 / 100 * 10 = 8.0
    assert!(
        score.space_efficiency_score.value_equals(8),
        "Expected efficiency score 8.0, got {}/{}",
        score.space_efficiency_score.num,
        score.space_efficiency_score.den
    );
    // Total: 20.0 (hard) + 0.0 (soft) + 8.0 (efficiency) + 5.0 (base) = 33.0
    assert!(
        score.total_score.value_equals(33),
        "Expected total score 33.0, got {}/{}",
        score.total_score.num,
        score.total_score.den
    );
}
