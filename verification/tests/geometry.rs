//! Rectangle predicate tests. Lengths are in half-metre grid units:
//! a value of 20 is 10 metres.

use constraints_resolver::geometry::Rectangle;
use constraints_resolver::types::Room;

// Checks if two rectangles overlap when they share an area.
#[test]
fn test_overlaps_when_overlapping() {
    let rectangle1 = Rectangle { x: 0, y: 0, width: 20, height: 20 };
    let rectangle2 = Rectangle { x: 10, y: 10, width: 20, height: 20 };
    assert!(rectangle1.overlaps_with(&rectangle2));
}

// Checks if two rectangles do not overlap when they are completely separated.
#[test]
fn test_no_overlap_when_separated() {
    let rectangle1 = Rectangle { x: 0, y: 0, width: 20, height: 20 };
    let rectangle2 = Rectangle { x: 30, y: 10, width: 20, height: 20 };
    assert!(!rectangle1.overlaps_with(&rectangle2));
}

// Checks if two rectangles do not overlap when they are touching at the edges.
#[test]
fn test_no_overlap_when_touching_edges() {
    let rectangle1 = Rectangle { x: 0, y: 0, width: 10, height: 10 };
    let rectangle2 = Rectangle { x: 10, y: 0, width: 10, height: 10 };
    assert!(!rectangle1.overlaps_with(&rectangle2));
}

// Checks if two rectangles are adjacent when they share a vertical edge.
#[test]
fn test_adjacent_when_sharing_vertical_edge() {
    let rectangle1 = Rectangle { x: 0, y: 0, width: 10, height: 10 };
    let rectangle2 = Rectangle { x: 10, y: 4, width: 20, height: 20 };
    assert!(rectangle1.is_adjacent_to(&rectangle2));
}

// Checks if two rectangles are not adjacent when they are touching at the corners.
#[test]
fn test_not_adjacent_when_corner_touch_only() {
    let rectangle1 = Rectangle { x: 0, y: 0, width: 10, height: 10 };
    let rectangle2 = Rectangle { x: 10, y: 10, width: 10, height: 10 };
    assert!(!rectangle1.is_adjacent_to(&rectangle2));
}

// Checks if two rectangles are adjacent when they share a horizontal edge.
#[test]
fn test_adjacent_when_sharing_horizontal_edge() {
    let rectangle1 = Rectangle { x: 0, y: 0, width: 10, height: 10 };
    let rectangle2 = Rectangle { x: 4, y: 10, width: 10, height: 6 };
    assert!(rectangle1.is_adjacent_to(&rectangle2));
}

// Checks if two rectangles are not adjacent when they are completely separated.
#[test]
fn test_not_adjacent_when_separated() {
    let rectangle1 = Rectangle { x: 0, y: 0, width: 10, height: 10 };
    let rectangle2 = Rectangle { x: 20, y: 0, width: 10, height: 10 };
    assert!(!rectangle1.is_adjacent_to(&rectangle2));
}

// Checks if two rectangles are not adjacent when they are touching at the
// edges but do not share a range.
#[test]
fn test_not_adjacent_when_edges_align_but_no_range_overlap() {
    let rectangle1 = Rectangle { x: 0, y: 0, width: 10, height: 10 };
    let rectangle2 = Rectangle { x: 10, y: 20, width: 10, height: 10 };
    assert!(!rectangle1.is_adjacent_to(&rectangle2));
}

// Checks if a rectangle is within the boundary.
#[test]
fn test_within_boundary_when_inside() {
    let rectangle = Rectangle { x: 2, y: 2, width: 6, height: 6 };
    assert!(rectangle.is_within_boundary(20, 20));
}

// Checks if a rectangle is not within the boundary when it exceeds the right edge.
#[test]
fn test_not_within_boundary_when_exceeds_right() {
    let rectangle = Rectangle { x: 16, y: 2, width: 10, height: 6 };
    assert!(!rectangle.is_within_boundary(20, 20));
}

// Checks if a rectangle is not within the boundary when it exceeds the bottom edge.
#[test]
fn test_not_within_boundary_when_exceeds_bottom() {
    let rectangle = Rectangle { x: 2, y: 16, width: 6, height: 10 };
    assert!(!rectangle.is_within_boundary(20, 20));
}

// Checks if a rectangle is not within the boundary when its position would
// leave the grid. Grid coordinates cannot go below the origin, so the
// mirrored situation is a rectangle pushed past the far edge instead.
#[test]
fn test_not_within_boundary_when_negative_position() {
    let rectangle = Rectangle { x: 21, y: 0, width: 10, height: 10 };
    assert!(!rectangle.is_within_boundary(20, 20));
}

// Checks if a rectangle touches the exterior wall when it is on the left edge.
#[test]
fn test_touches_external_wall_left() {
    let rectangle = Rectangle { x: 0, y: 4, width: 10, height: 10 };
    assert!(rectangle.touches_exterior_wall(20, 20));
}

// Checks if a rectangle touches the exterior wall when it is on the top edge.
#[test]
fn test_touches_external_wall_top() {
    let rectangle = Rectangle { x: 4, y: 0, width: 10, height: 10 };
    assert!(rectangle.touches_exterior_wall(20, 20));
}

// Checks if a rectangle touches the exterior wall when it is on the right edge.
#[test]
fn test_touches_external_wall_right() {
    let rectangle = Rectangle { x: 10, y: 4, width: 10, height: 10 };
    assert!(rectangle.touches_exterior_wall(20, 20));
}

// Checks if a rectangle touches the exterior wall when it is on the bottom edge.
#[test]
fn test_touches_external_wall_bottom() {
    let rectangle = Rectangle { x: 4, y: 10, width: 10, height: 10 };
    assert!(rectangle.touches_exterior_wall(20, 20));
}

// Checks if a rectangle does not touch the exterior wall when it is inside
// the boundary.
#[test]
fn test_not_touches_external_wall_when_interior() {
    let rectangle = Rectangle { x: 4, y: 4, width: 6, height: 6 };
    assert!(!rectangle.touches_exterior_wall(20, 20));
}

// Checks if a rectangle is created from a room.
#[test]
fn test_from_room() {
    let room = Room { id: "test".to_string(), x: 2, y: 4, width: 6, height: 8 };
    let rectangle = Rectangle::from_room(&room);
    assert_eq!(rectangle.x, 2);
    assert_eq!(rectangle.y, 4);
    assert_eq!(rectangle.width, 6);
    assert_eq!(rectangle.height, 8);
}
