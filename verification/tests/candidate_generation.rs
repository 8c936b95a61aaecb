//! Candidate enumeration tests. Lengths are in half-metre grid units
//! and areas in grid cells (quarter square metres): a minimum area of
//! 80 cells is 20 square metres.

use constraints_resolver::candidate_generation::{
    generate_aspect_ratio_candidates, generate_candidate_positions, generate_grid_positions,
};
use constraints_resolver::types::RoomRequirement;

#[test]
fn test_generate_aspect_ratio_candidates_returns_multiple_candidates() {
    let candidates = generate_aspect_ratio_candidates(80);
    assert!(candidates.len() > 0);
}

#[test]
fn test_all_candidates_meet_minimum_area() {
    let min_area: u32 = 80;
    let candidates = generate_aspect_ratio_candidates(min_area);

    for (width, height) in candidates {
        assert!(width * height >= min_area);
    }
}

#[test]
fn test_dimensions_rounded_to_half_meter() {
    let candidates = generate_aspect_ratio_candidates(80);

    for (width, height) in candidates {
        // Check width is rounded to 0.5m
        let width_m = width as f64 * 0.5;
        assert_eq!(width_m, (width_m * 2.0).round() / 2.0);
        // Check height is rounded to 0.5m
        let height_m = height as f64 * 0.5;
        assert_eq!(height_m, (height_m * 2.0).round() / 2.0);
    }
}

#[test]
fn test_generate_grid_positions_returns_valid_positions() {
    let positions = generate_grid_positions(4, 4, 10, 10);
    assert!(positions.len() > 0);
}

#[test]
fn test_grid_positions_respect_boundary() {
    let positions = generate_grid_positions(6, 4, 10, 8);
    for (x, y) in positions {
        assert!(x + 6 <= 10);
        assert!(y + 4 <= 8);
    }
}

#[test]
fn test_grid_positions_use_half_meter_steps() {
    let positions = generate_grid_positions(4, 4, 6, 6);

    // Expected positions: (0, 0), (0, 1), (0, 2), (1, 0), (1, 1), (1, 2),
    // (2, 0), (2, 1), (2, 2) — each step one half-metre unit.
    assert_eq!(positions.len(), 9);

    // Check that (1, 1) — half a metre in from the corner — is in the positions
    assert!(positions.contains(&(1, 1)));

    // Verify all expected positions
    let expected = vec![
        (0, 0),
        (0, 1),
        (0, 2),
        (1, 0),
        (1, 1),
        (1, 2),
        (2, 0),
        (2, 1),
        (2, 2),
    ];
    for pos in expected {
        assert!(positions.contains(&pos), "Missing position: {:?}", pos);
    }
}

#[test]
fn test_grid_positions_excludes_positions_that_exceed_boundary() {
    let positions = generate_grid_positions(6, 4, 8, 6);

    // Position (4, 3) — two metres in — should NOT be in results
    // (because 4 + 6 = 10 > 8)
    assert!(
        !positions.contains(&(4, 3)),
        "Position (4, 3) should be excluded"
    );

    // Verify that all positions respect the boundary
    for (x, y) in &positions {
        assert!(
            x + 6 <= 8,
            "Position ({}, {}) exceeds width boundary",
            x,
            y
        );
        assert!(
            y + 4 <= 6,
            "Position ({}, {}) exceeds height boundary",
            x,
            y
        );
    }
}

#[test]
fn test_generate_candidate_positions_returns_candidates() {
    let room_req = RoomRequirement {
        id: "test_room".to_string(),
        min_area: 80,
        adjacent_to: vec![],
        not_adjacent_to: vec![],
        has_exterior_wall: false,
    };
    let candidates = generate_candidate_positions(&room_req, 20, 20);
    assert!(candidates.len() > 0);
}

#[test]
fn test_all_candidates_have_correct_room_id() {
    let room_req = RoomRequirement {
        id: "living_room".to_string(),
        min_area: 80,
        adjacent_to: vec![],
        not_adjacent_to: vec![],
        has_exterior_wall: false,
    };
    let candidates = generate_candidate_positions(&room_req, 20, 20);

    for candidate in candidates {
        assert_eq!(candidate.id, "living_room");
    }
}

#[test]
fn test_all_candidates_meet_minimum_area_for_positions() {
    let room_req = RoomRequirement {
        id: "bedroom".to_string(),
        min_area: 60,
        adjacent_to: vec![],
        not_adjacent_to: vec![],
        has_exterior_wall: false,
    };
    let candidates = generate_candidate_positions(&room_req, 20, 20);

    for candidate in candidates {
        assert!(
            candidate.width * candidate.height >= 60,
            "Candidate area {} is less than minimum 60",
            candidate.width * candidate.height
        );
    }
}

#[test]
fn test_all_candidates_fit_within_boundary() {
    let room_req = RoomRequirement {
        id: "office".to_string(),
        min_area: 40,
        adjacent_to: vec![],
        not_adjacent_to: vec![],
        has_exterior_wall: false,
    };
    let candidates = generate_candidate_positions(&room_req, 16, 16);

    for candidate in &candidates {
        #[allow(unused_comparisons)]
        {
            assert!(candidate.x >= 0, "Candidate x {} is negative", candidate.x);
            assert!(candidate.y >= 0, "Candidate y {} is negative", candidate.y);
        }
        assert!(
            candidate.x + candidate.width <= 16,
            "Candidate exceeds width boundary: x={}, width={}, total={}",
            candidate.x,
            candidate.width,
            candidate.x + candidate.width
        );
        assert!(
            candidate.y + candidate.height <= 16,
            "Candidate exceeds height boundary: y={}, height={}, total={}",
            candidate.y,
            candidate.height,
            candidate.y + candidate.height
        );
    }
}

#[test]
fn test_candidate_count_is_reasonable() {
    let room_req = RoomRequirement {
        id: "test_room".to_string(),
        min_area: 80,
        adjacent_to: vec![],
        not_adjacent_to: vec![],
        has_exterior_wall: false,
    };
    let candidates = generate_candidate_positions(&room_req, 20, 20);

    println!("Generated {} candidates", candidates.len());
    assert!(
        candidates.len() > 10,
        "Expected more than 10 candidates, got {}",
        candidates.len()
    );
}
